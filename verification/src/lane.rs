//! One row or column of the board under a move, as a sequence of cells.
//!
//! A lane lists its cells from the edge that the move pushes toward: index 0
//! is the cell at that edge. Everything that a move does to a board it does to
//! each lane on its own.

use vstd::prelude::*;
use crate::block::BlockSize;

verus! {

/// The cells of one row or column, nearest the destination edge first.
pub type Lane = Seq<Option<BlockSize>>;

/// Tiles that have come to rest against the edge, nearest the edge first.
pub struct Settled {
    /// The ranks of the tiles at rest.
    pub tiles: Seq<BlockSize>,
    /// Whether the last tile came out of a merge during this move. Such a tile
    /// takes no further part in merges until the next move.
    pub sealed: bool,
}

impl Settled {
    /// Whether a tile of `rank` that arrives next merges into the last tile at
    /// rest: the two have the same rank, that rank has a successor, and the
    /// tile at rest has not merged in this move already.
    pub open spec fn absorbs(self, rank: BlockSize) -> bool {
        &&& self.tiles.len() > 0
        &&& !self.sealed
        &&& self.tiles.last() == rank
        &&& rank.successor() is Some
    }

    /// The tiles at rest once a tile of `rank` has arrived.
    pub open spec fn receive(self, rank: BlockSize) -> Settled {
        if self.absorbs(rank) {
            Settled { tiles: self.tiles.drop_last().push(rank.successor().unwrap()), sealed: true }
        } else {
            Settled { tiles: self.tiles.push(rank), sealed: false }
        }
    }
}

/// The tiles at rest after every tile of `lane` has been pushed to the edge,
/// the tile nearest the edge going first.
pub open spec fn settle(lane: Lane) -> Settled
    decreases lane.len(),
{
    if lane.len() == 0 {
        Settled { tiles: Seq::empty(), sealed: false }
    } else {
        let ahead = settle(lane.drop_last());
        match lane.last() {
            None => ahead,
            Some(rank) => ahead.receive(rank),
        }
    }
}

/// The lane after the move: the tiles at rest, then empty cells.
pub open spec fn slide(lane: Lane) -> Lane {
    let tiles = settle(lane).tiles;
    Seq::new(
        lane.len(),
        |i: int|
            if i < tiles.len() {
                Some(tiles[i])
            } else {
                None
            },
    )
}

/// The number of empty cells in `lane`.
pub open spec fn vacancies(lane: Lane) -> nat
    decreases lane.len(),
{
    if lane.len() == 0 {
        0
    } else if lane.last() is None {
        vacancies(lane.drop_last()) + 1
    } else {
        vacancies(lane.drop_last())
    }
}

/// Whether the tile in the last cell of `lane` merges into the tile ahead of it.
pub open spec fn merges_at_end(lane: Lane) -> bool {
    &&& lane.len() > 0
    &&& lane.last() matches Some(rank)
    &&& settle(lane.drop_last()).absorbs(rank)
}

/// The number of merges that take place when `lane` is pushed to the edge.
pub open spec fn merges(lane: Lane) -> nat
    decreases lane.len(),
{
    if lane.len() == 0 {
        0
    } else if merges_at_end(lane) {
        merges(lane.drop_last()) + 1
    } else {
        merges(lane.drop_last())
    }
}

/// How many cells the tile at index `depth` of `lane` travels: one for each
/// empty cell between it and the edge, and one for each merge that takes place
/// there, its own included. For an empty cell the cell itself counts as well.
pub open spec fn travel(lane: Lane, depth: int) -> nat {
    vacancies(lane.take(depth + 1)) + merges(lane.take(depth + 1))
}

/// The lane at the moment when the cells before `done` have been pushed to the
/// edge and the others still stand where they were.
pub open spec fn resting(lane: Lane, done: int) -> Lane {
    let tiles = settle(lane.take(done)).tiles;
    Seq::new(
        lane.len(),
        |i: int|
            if i < tiles.len() {
                Some(tiles[i])
            } else if i < done {
                None
            } else {
                lane[i]
            },
    )
}

/// What stands in a cell once a tile of `rank` has arrived there. In an empty
/// cell it is that tile. In a cell with a tile the two merge, which leaves the
/// successor of the tile that was there; where that tile has no successor the
/// cell takes no tile, and the result is `None`.
pub open spec fn arriving(rank: BlockSize, ahead: Option<BlockSize>) -> Option<BlockSize> {
    match ahead {
        None => Some(rank),
        Some(resident) => resident.successor(),
    }
}

/// The lane once the tile at `from` has been moved onto the cell at `to`.
/// Nothing moves where `from` is empty or the cell at `to` takes no tile.
pub open spec fn shift(lane: Lane, from: int, to: int) -> Lane {
    match lane[from] {
        None => lane,
        Some(rank) => match arriving(rank, lane[to]) {
            Some(tile) => lane.update(to, Some(tile)).update(from, None),
            None => lane,
        },
    }
}

/// A prefix one cell longer ends in the cell that was added.
pub proof fn lemma_take_next(lane: Lane, k: int)
    requires
        0 <= k < lane.len(),
    ensures
        lane.take(k + 1).drop_last() == lane.take(k),
        lane.take(k + 1).last() == lane[k],
        lane.take(k + 1).len() == k + 1,
{
    assert(lane.take(k + 1).drop_last() =~= lane.take(k));
}

/// Every cell of a lane is empty, or its tile is at rest, or its tile has
/// merged into the one ahead.
pub proof fn lemma_cells_accounted(lane: Lane)
    ensures
        settle(lane).tiles.len() + vacancies(lane) + merges(lane) == lane.len(),
        settle(lane).sealed ==> settle(lane).tiles.len() > 0,
    decreases lane.len(),
{
    if lane.len() > 0 {
        lemma_cells_accounted(lane.drop_last());
    }
}

/// The tile at index `depth` comes to rest `travel` cells nearer the edge, and
/// never beyond it.
pub proof fn lemma_travel_is_distance(lane: Lane, depth: int)
    requires
        0 <= depth < lane.len(),
    ensures
        travel(lane, depth) == depth + 1 - settle(lane.take(depth + 1)).tiles.len(),
        lane[depth] is Some ==> travel(lane, depth) <= depth,
{
    lemma_take_next(lane, depth);
    lemma_cells_accounted(lane.take(depth + 1));
}

/// Before any cell has been pushed the lane stands as it was, and when all have
/// been pushed it is the lane after the move.
pub proof fn lemma_resting_ends(lane: Lane)
    ensures
        resting(lane, 0) == lane,
        resting(lane, lane.len() as int) == slide(lane),
{
    assert(lane.take(0) =~= Seq::empty());
    assert(resting(lane, 0) =~= lane);
    assert(lane.take(lane.len() as int) =~= lane);
    lemma_cells_accounted(lane);
    assert(resting(lane, lane.len() as int) =~= slide(lane));
}

/// Pushing one more cell changes the lane as moving its tile `travel` cells
/// toward the edge does, and not at all where the cell is empty or its tile
/// has nowhere to go.
pub proof fn lemma_resting_next(lane: Lane, depth: int)
    requires
        0 <= depth < lane.len(),
    ensures
        lane[depth] is None || travel(lane, depth) == 0 ==> resting(lane, depth + 1) == resting(
            lane,
            depth,
        ),
        lane[depth] is Some && travel(lane, depth) > 0 ==> resting(lane, depth + 1) == shift(
            resting(lane, depth),
            depth,
            depth - travel(lane, depth),
        ),
{
    lemma_take_next(lane, depth);
    lemma_travel_is_distance(lane, depth);
    lemma_cells_accounted(lane.take(depth));
    let before = settle(lane.take(depth));
    let after = settle(lane.take(depth + 1));
    let now = resting(lane, depth);
    let next = resting(lane, depth + 1);
    match lane[depth] {
        None => {
            assert(next =~= now);
        },
        Some(rank) => {
            let to = depth - travel(lane, depth);
            assert(after == before.receive(rank));
            if travel(lane, depth) == 0 {
                assert(next =~= now);
            } else if before.absorbs(rank) {
                assert(to == before.tiles.len() - 1);
                assert(now[to] == Some(rank));
                assert(next =~= shift(now, depth, to));
            } else {
                assert(to == before.tiles.len());
                assert(now[to] is None);
                assert(next =~= shift(now, depth, to));
            }
        },
    }
}

} // verus!
