//! What holds of every lane under a move.

use vstd::prelude::*;
use crate::block::{lemma_progression, BlockSize};
use crate::lane::{
    lemma_cells_accounted, lemma_take_next, lemma_travel_is_distance, merges, settle, slide,
    travel, vacancies, Lane, Settled,
};

verus! {

/// Whether no cell of `lane` holds a tile.
pub open spec fn all_empty(lane: Lane) -> bool {
    forall|i: int| 0 <= i < lane.len() ==> lane[i] is None
}

/// The tile of `lane` that is nearest the edge, if the lane holds any.
pub open spec fn first_tile(lane: Lane) -> Option<BlockSize>
    decreases lane.len(),
{
    if lane.len() == 0 {
        None
    } else {
        match first_tile(lane.drop_last()) {
            Some(rank) => Some(rank),
            None => lane.last(),
        }
    }
}

/// The tiles at rest after the tiles of `lane` have been pushed up behind the
/// tiles `ahead`, which are at rest already.
pub open spec fn settle_onto(ahead: Settled, lane: Lane) -> Settled
    decreases lane.len(),
{
    if lane.len() == 0 {
        ahead
    } else {
        let before = settle_onto(ahead, lane.drop_last());
        match lane.last() {
            None => before,
            Some(rank) => before.receive(rank),
        }
    }
}

/// The sum of the magnitudes of the tiles in `lane`.
pub open spec fn total(lane: Lane) -> nat
    decreases lane.len(),
{
    if lane.len() == 0 {
        0
    } else {
        total(lane.drop_last()) + (match lane.last() {
            Some(rank) => rank.magnitude(),
            None => 0,
        })
    }
}

/// The sum of the magnitudes of `tiles`.
pub open spec fn total_of(tiles: Seq<BlockSize>) -> nat
    decreases tiles.len(),
{
    if tiles.len() == 0 {
        0
    } else {
        total_of(tiles.drop_last()) + tiles.last().magnitude()
    }
}

/// The number of tiles in `lane`.
pub open spec fn occupied(lane: Lane) -> nat
    decreases lane.len(),
{
    if lane.len() == 0 {
        0
    } else if lane.last() is Some {
        occupied(lane.drop_last()) + 1
    } else {
        occupied(lane.drop_last())
    }
}

/// Every cell of a lane holds a tile or is empty.
pub proof fn lemma_occupied_or_vacant(lane: Lane)
    ensures
        occupied(lane) + vacancies(lane) == lane.len(),
    decreases lane.len(),
{
    if lane.len() > 0 {
        lemma_occupied_or_vacant(lane.drop_last());
    }
}

/// A lane settles as its front part does, with its back part pushed up behind.
pub proof fn lemma_settle_concat(front: Lane, back: Lane)
    ensures
        settle(front + back) == settle_onto(settle(front), back),
    decreases back.len(),
{
    if back.len() == 0 {
        assert(front + back =~= front);
    } else {
        lemma_settle_concat(front, back.drop_last());
        assert((front + back).drop_last() =~= front + back.drop_last());
    }
}

/// Empty cells bring nothing to rest.
pub proof fn lemma_settle_onto_empties(ahead: Settled, lane: Lane)
    requires
        all_empty(lane),
    ensures
        settle_onto(ahead, lane) == ahead,
        first_tile(lane) is None,
        vacancies(lane) == lane.len(),
        merges(lane) == 0,
        total(lane) == 0,
    decreases lane.len(),
{
    if lane.len() > 0 {
        lemma_settle_onto_empties(ahead, lane.drop_last());
    }
}

/// A lane without tiles leaves nothing at rest.
pub proof fn lemma_settle_empties(lane: Lane)
    requires
        all_empty(lane),
    ensures
        settle(lane).tiles.len() == 0,
        !settle(lane).sealed,
    decreases lane.len(),
{
    if lane.len() > 0 {
        lemma_settle_empties(lane.drop_last());
    }
}

/// The nearest tile of a lane stands in one of its cells, with only empty
/// cells before it; a lane without a nearest tile is empty.
pub proof fn lemma_first_tile(lane: Lane)
    ensures
        first_tile(lane) is None <==> all_empty(lane),
        first_tile(lane) is Some ==> exists|i: int|
            0 <= i < lane.len() && lane[i] == first_tile(lane) && all_empty(lane.take(i)),
    decreases lane.len(),
{
    if lane.len() > 0 {
        let shorter = lane.drop_last();
        lemma_first_tile(shorter);
        if first_tile(shorter) is Some {
            let i = choose|i: int|
                0 <= i < shorter.len() && shorter[i] == first_tile(shorter) && all_empty(
                    shorter.take(i),
                );
            assert(lane.take(i) =~= shorter.take(i));
            assert(lane[i] == first_tile(lane));
        } else {
            assert forall|i: int| 0 <= i < lane.len() - 1 implies lane[i] is None by {
                assert(shorter[i] is None);
            }
            if lane.last() is Some {
                let i = lane.len() - 1;
                assert(lane.take(i) =~= shorter);
            }
        }
    }
}

/// Where the nearest tile of the back part does not merge into the last tile
/// ahead, no merge crosses from one part to the other: the back part comes to
/// rest as it would on its own, behind the tiles ahead.
pub proof fn lemma_settle_onto_apart(ahead: Settled, lane: Lane)
    requires
        first_tile(lane) matches Some(rank) ==> !ahead.absorbs(rank),
    ensures
        settle_onto(ahead, lane).tiles == ahead.tiles + settle(lane).tiles,
        first_tile(lane) is Some ==> settle_onto(ahead, lane).sealed == settle(lane).sealed
            && settle(lane).tiles.len() > 0,
        first_tile(lane) is None ==> settle_onto(ahead, lane) == ahead && settle(lane).tiles.len()
            == 0,
    decreases lane.len(),
{
    if lane.len() == 0 {
        assert(ahead.tiles + settle(lane).tiles =~= ahead.tiles);
    } else {
        let shorter = lane.drop_last();
        lemma_settle_onto_apart(ahead, shorter);
        let joined = settle_onto(ahead, shorter);
        let alone = settle(shorter);
        match lane.last() {
            None => {},
            Some(rank) => {
                if first_tile(shorter) is Some {
                    assert(joined.tiles.last() == alone.tiles.last());
                    assert(joined.absorbs(rank) == alone.absorbs(rank));
                    if alone.absorbs(rank) {
                        assert(joined.tiles.drop_last() =~= ahead.tiles + alone.tiles.drop_last());
                    }
                    assert(joined.receive(rank).tiles =~= ahead.tiles + alone.receive(rank).tiles);
                } else {
                    assert(!ahead.absorbs(rank));
                    assert(alone.tiles =~= Seq::empty());
                    assert(joined.receive(rank).tiles =~= ahead.tiles + alone.receive(rank).tiles);
                }
            },
        }
    }
}

/// Empty cells at the edge make no difference to the tiles at rest.
pub proof fn lemma_settle_skips_empties(lane: Lane, k: int)
    requires
        0 <= k <= lane.len(),
        all_empty(lane.take(k)),
    ensures
        settle(lane) == settle(lane.skip(k)),
{
    let front = lane.take(k);
    let back = lane.skip(k);
    assert(lane =~= front + back);
    lemma_settle_concat(front, back);
    lemma_settle_empties(front);
    lemma_settle_concat(Seq::empty(), back);
    assert(Seq::<Option<BlockSize>>::empty() + back =~= back);
    assert(settle(front).tiles =~= settle(Seq::empty()).tiles);
}

/// The lane after a move lists the tiles at rest and is empty behind them.
pub proof fn lemma_slide_cells(lane: Lane)
    ensures
        slide(lane).len() == lane.len(),
        settle(lane).tiles.len() <= lane.len(),
        forall|i: int|
            0 <= i < settle(lane).tiles.len() ==> #[trigger] slide(lane)[i] == Some(
                settle(lane).tiles[i],
            ),
        forall|i: int|
            settle(lane).tiles.len() <= i < lane.len() ==> (#[trigger] slide(lane)[i]) is None,
{
    lemma_cells_accounted(lane);
}

/// A single tile slides to the edge, and it travels as far as it stood from
/// the edge.
pub proof fn lemma_lone_tile(lane: Lane, depth: int, rank: BlockSize)
    requires
        0 <= depth < lane.len(),
        lane[depth] == Some(rank),
        forall|i: int| 0 <= i < lane.len() && i != depth ==> lane[i] is None,
    ensures
        travel(lane, depth) == depth,
        slide(lane).len() == lane.len(),
        slide(lane)[0] == Some(rank),
        forall|i: int| 0 < i < lane.len() ==> (#[trigger] slide(lane)[i]) is None,
{
    let front = lane.take(depth);
    let back = lane.skip(depth + 1);
    let here = lane.take(depth + 1);
    lemma_take_next(lane, depth);
    lemma_settle_empties(front);
    assert(settle(here).tiles =~= seq![rank]);
    assert(lane =~= here + back);
    lemma_settle_concat(here, back);
    lemma_settle_onto_empties(settle(here), back);
    lemma_travel_is_distance(lane, depth);
    lemma_slide_cells(lane);
}

/// Two tiles of one rank that stand next to each other, with no tile between
/// them and the edge, merge at the edge into one tile of the next rank. Both
/// travel there, the two of them leave one tile, and that tile is worth as
/// much as the two were. What stands behind them comes to rest behind that
/// tile as it would on its own.
pub proof fn lemma_pair_merges(lane: Lane, k: int, rank: BlockSize)
    requires
        0 <= k,
        k + 1 < lane.len(),
        all_empty(lane.take(k)),
        lane[k] == Some(rank),
        lane[k + 1] == Some(rank),
        rank.successor() is Some,
    ensures
        slide(lane)[0] == rank.successor(),
        travel(lane, k) == k,
        travel(lane, k + 1) == k + 1,
        merges(lane.take(k + 2)) == 1,
        occupied(lane.take(k + 2)) == 2,
        occupied(slide(lane.take(k + 2))) == 1,
        total(slide(lane.take(k + 2))) == total(lane.take(k + 2)),
        settle(lane).tiles == seq![rank.successor().unwrap()] + settle(lane.skip(k + 2)).tiles,
{
    let merged = rank.successor().unwrap();
    let front = lane.take(k);
    let one = lane.take(k + 1);
    let two = lane.take(k + 2);
    let back = lane.skip(k + 2);
    lemma_take_next(lane, k);
    lemma_take_next(lane, k + 1);
    lemma_settle_empties(front);
    lemma_settle_onto_empties(settle(front), front);
    assert(settle(one).tiles =~= seq![rank]);
    assert(settle(one).absorbs(rank));
    assert(settle(two).tiles =~= seq![merged]);
    assert(settle(two).sealed);
    assert(lane =~= two + back);
    lemma_settle_concat(two, back);
    lemma_settle_onto_apart(settle(two), back);
    lemma_travel_is_distance(lane, k);
    lemma_travel_is_distance(lane, k + 1);
    lemma_slide_cells(lane);
    lemma_cells_accounted(two);
    lemma_cells_accounted(one);
    lemma_slide_cells(two);
    lemma_tiles_only(slide(two), 1);
    lemma_total_preserved(two);
    lemma_occupied_or_vacant(two);
}

/// Of three tiles of one rank in a row, with no tile between them and the
/// edge, the two nearest the edge merge there and the third comes to rest
/// next to them, unmerged, unless the tile behind it is of the same rank too.
pub proof fn lemma_triple_merges_once(lane: Lane, k: int, rank: BlockSize)
    requires
        0 <= k,
        k + 2 < lane.len(),
        all_empty(lane.take(k)),
        lane[k] == Some(rank),
        lane[k + 1] == Some(rank),
        lane[k + 2] == Some(rank),
        rank.successor() is Some,
        first_tile(lane.skip(k + 3)) != Some(rank),
    ensures
        slide(lane)[0] == rank.successor(),
        slide(lane)[1] == Some(rank),
        merges(lane.take(k + 3)) == 1,
        travel(lane, k) == k,
        travel(lane, k + 1) == k + 1,
        travel(lane, k + 2) == k + 1,
        settle(lane).tiles == seq![rank.successor().unwrap(), rank] + settle(
            lane.skip(k + 3),
        ).tiles,
{
    let merged = rank.successor().unwrap();
    let front = lane.take(k);
    let one = lane.take(k + 1);
    let two = lane.take(k + 2);
    let three = lane.take(k + 3);
    let back = lane.skip(k + 3);
    lemma_take_next(lane, k);
    lemma_take_next(lane, k + 1);
    lemma_take_next(lane, k + 2);
    lemma_settle_empties(front);
    lemma_settle_onto_empties(settle(front), front);
    assert(settle(one).tiles =~= seq![rank]);
    assert(settle(one).absorbs(rank));
    assert(settle(two).tiles =~= seq![merged]);
    assert(settle(two).sealed);
    assert(!settle(two).absorbs(rank));
    assert(settle(three).tiles =~= seq![merged, rank]);
    assert(lane =~= three + back);
    lemma_settle_concat(three, back);
    lemma_settle_onto_apart(settle(three), back);
    lemma_travel_is_distance(lane, k);
    lemma_travel_is_distance(lane, k + 1);
    lemma_travel_is_distance(lane, k + 2);
    lemma_slide_cells(lane);
    lemma_cells_accounted(three);
    lemma_cells_accounted(two);
    lemma_cells_accounted(one);
}

/// A lane of tiles only, as many as `count`, holds that many tiles.
pub proof fn lemma_tiles_only(lane: Lane, count: int)
    requires
        0 <= count <= lane.len(),
        forall|i: int| 0 <= i < count ==> (#[trigger] lane[i]) is Some,
        forall|i: int| count <= i < lane.len() ==> (#[trigger] lane[i]) is None,
    ensures
        occupied(lane) == count,
    decreases lane.len(),
{
    if lane.len() > 0 {
        if count == lane.len() {
            lemma_tiles_only(lane.drop_last(), count - 1);
        } else {
            lemma_tiles_only(lane.drop_last(), count);
        }
    }
}

/// The tiles at rest are worth what the tiles of the lane were.
pub proof fn lemma_settle_total(lane: Lane)
    ensures
        total_of(settle(lane).tiles) == total(lane),
    decreases lane.len(),
{
    if lane.len() > 0 {
        let shorter = lane.drop_last();
        lemma_settle_total(shorter);
        match lane.last() {
            None => {},
            Some(rank) => {
                let before = settle(shorter);
                lemma_progression(rank, rank);
                if before.absorbs(rank) {
                    let base = before.tiles.drop_last();
                    assert(before.tiles.drop_last().push(rank.successor().unwrap()).drop_last()
                        =~= base);
                } else {
                    assert(before.tiles.push(rank).drop_last() =~= before.tiles);
                }
            },
        }
    }
}

/// A lane that lists `tiles` and is empty behind them is worth what the tiles
/// are.
pub proof fn lemma_total_of_listed(lane: Lane, tiles: Seq<BlockSize>)
    requires
        tiles.len() <= lane.len(),
        forall|i: int| 0 <= i < tiles.len() ==> #[trigger] lane[i] == Some(tiles[i]),
        forall|i: int| tiles.len() <= i < lane.len() ==> (#[trigger] lane[i]) is None,
    ensures
        total(lane) == total_of(tiles),
        occupied(lane) == tiles.len(),
    decreases lane.len(),
{
    if lane.len() > 0 {
        if tiles.len() == lane.len() {
            lemma_total_of_listed(lane.drop_last(), tiles.drop_last());
        } else {
            lemma_total_of_listed(lane.drop_last(), tiles);
        }
    }
}

/// A move keeps the sum of the magnitudes in the lane, and it takes away one
/// tile for each merge.
pub proof fn lemma_total_preserved(lane: Lane)
    ensures
        total(slide(lane)) == total(lane),
        occupied(slide(lane)) + merges(lane) == occupied(lane),
{
    lemma_settle_total(lane);
    lemma_slide_cells(lane);
    lemma_total_of_listed(slide(lane), settle(lane).tiles);
    lemma_cells_accounted(lane);
    lemma_occupied_or_vacant(lane);
}

/// A lane that is full of tiles, no two neighbours of which merge, stays as
/// it is: all its tiles are at rest already.
pub proof fn lemma_blocked_lane(lane: Lane)
    requires
        forall|i: int| 0 <= i < lane.len() ==> (#[trigger] lane[i]) is Some,
        forall|i: int|
            0 <= i < lane.len() - 1 ==> !(lane[i] == #[trigger] lane[i + 1] && lane[i].unwrap().successor() is Some),
    ensures
        slide(lane) == lane,
        settle(lane).tiles.len() == lane.len(),
        !settle(lane).sealed,
        forall|d: int| 0 <= d < lane.len() ==> travel(lane, d) == 0,
    decreases lane.len(),
{
    if lane.len() > 0 {
        let shorter = lane.drop_last();
        lemma_blocked_lane(shorter);
        let n = shorter.len() as int;
        if n > 0 {
            assert(slide(shorter)[n - 1] == shorter[n - 1]);
            assert(lane[n - 1] == shorter[n - 1]);
            assert(!(lane[n - 1] == lane[n - 1 + 1] && lane[n - 1].unwrap().successor() is Some));
        }
        assert(!settle(shorter).absorbs(lane.last().unwrap()));
        assert forall|i: int| 0 <= i < lane.len() implies slide(lane)[i] == lane[i] by {
            if i < n {
                assert(slide(shorter)[i] == shorter[i]);
            }
        }
        assert(slide(lane) =~= lane);
        assert forall|d: int| 0 <= d < lane.len() implies travel(lane, d) == 0 by {
            if d < n {
                assert(lane.take(d + 1) =~= shorter.take(d + 1));
                assert(travel(shorter, d) == 0);
            } else {
                assert(lane.take(d + 1) =~= lane);
                lemma_cells_accounted(lane);
            }
        }
    } else {
        assert(slide(lane) =~= lane);
    }
}

/// A longer prefix of a lane has at least the merges of a shorter one.
pub proof fn lemma_merges_grow(lane: Lane, k: int)
    requires
        0 <= k <= lane.len(),
    ensures
        merges(lane.take(k)) <= merges(lane),
        vacancies(lane.take(k)) <= vacancies(lane),
    decreases lane.len(),
{
    if k == lane.len() {
        assert(lane.take(k) =~= lane);
    } else {
        lemma_merges_grow(lane.drop_last(), k);
        assert(lane.drop_last().take(k) =~= lane.take(k));
    }
}

/// Tiles at rest stay where they are while more tiles arrive. None changes
/// but the last, and that one only by a merge, and only once.
pub proof fn lemma_rest_is_kept(lane: Lane, k: int)
    requires
        0 <= k <= lane.len(),
    ensures
        settle(lane.take(k)).tiles.len() <= settle(lane).tiles.len(),
        forall|i: int|
            0 <= i < settle(lane.take(k)).tiles.len() - 1 ==> #[trigger] settle(lane).tiles[i]
                == settle(lane.take(k)).tiles[i],
        settle(lane.take(k)).tiles.len() > 0 ==> ({
            let early = settle(lane.take(k));
            let late = settle(lane);
            let last = early.tiles.len() - 1;
            ||| late.tiles[last] == early.tiles[last] && (early.sealed && late.tiles.len()
                == early.tiles.len() ==> late.sealed)
            ||| !early.sealed && Some(late.tiles[last]) == early.tiles[last].successor() && (
            late.tiles.len() == early.tiles.len() ==> late.sealed)
        }),
    decreases lane.len(),
{
    if k == lane.len() {
        assert(lane.take(k) =~= lane);
    } else {
        lemma_rest_is_kept(lane.drop_last(), k);
        assert(lane.drop_last().take(k) =~= lane.take(k));
        lemma_cells_accounted(lane.drop_last());
    }
}

/// The tile at index `depth` arrives at the cell that lies `travel` cells
/// nearer the edge. After the move that cell holds the tile, or the tile of
/// the next rank that a merge has made of it.
pub proof fn lemma_tile_arrives(lane: Lane, depth: int, rank: BlockSize)
    requires
        0 <= depth < lane.len(),
        lane[depth] == Some(rank),
    ensures
        0 <= depth - travel(lane, depth),
        slide(lane)[depth - travel(lane, depth)] == Some(rank) || (rank.successor() is Some
            && slide(lane)[depth - travel(lane, depth)] == rank.successor()),
{
    lemma_take_next(lane, depth);
    lemma_travel_is_distance(lane, depth);
    lemma_rest_is_kept(lane, depth + 1);
    lemma_slide_cells(lane);
    lemma_cells_accounted(lane.take(depth));
}

/// A move leaves a lane as it is if and only if none of its tiles travels.
pub proof fn lemma_still_iff_no_travel(lane: Lane)
    ensures
        slide(lane) == lane <==> forall|d: int|
            0 <= d < lane.len() && (#[trigger] lane[d]) is Some ==> travel(lane, d) == 0,
{
    let still = forall|d: int|
        0 <= d < lane.len() && (#[trigger] lane[d]) is Some ==> travel(lane, d) == 0;
    lemma_slide_cells(lane);
    lemma_cells_accounted(lane);
    if slide(lane) == lane {
        let count = settle(lane).tiles.len() as int;
        assert forall|d: int| 0 <= d < lane.len() && (#[trigger] lane[d]) is Some implies travel(
            lane,
            d,
        ) == 0 by {
            assert(slide(lane)[d] is Some);
            assert(d < count);
            lemma_tiles_only(lane, count);
            lemma_occupied_or_vacant(lane);
            lemma_merges_grow(lane, d + 1);
            let here = lane.take(d + 1);
            assert forall|i: int| 0 <= i < d + 1 implies (#[trigger] here[i]) is Some by {
                assert(slide(lane)[i] is Some);
            }
            lemma_tiles_only(here, d + 1);
            lemma_occupied_or_vacant(here);
        }
    }
    if still {
        lemma_packed_when_still(lane, lane.len() as int);
        assert(lane.take(lane.len() as int) =~= lane);
        assert(slide(lane) =~= lane);
    }
}

/// Where no tile among the first `n` cells travels, those cells list the tiles
/// at rest and are empty behind them.
proof fn lemma_packed_when_still(lane: Lane, n: int)
    requires
        0 <= n <= lane.len(),
        forall|d: int| 0 <= d < lane.len() && (#[trigger] lane[d]) is Some ==> travel(lane, d) == 0,
    ensures
        forall|i: int|
            0 <= i < settle(lane.take(n)).tiles.len() ==> #[trigger] lane[i] == Some(
                settle(lane.take(n)).tiles[i],
            ),
        forall|i: int| settle(lane.take(n)).tiles.len() <= i < n ==> (#[trigger] lane[i]) is None,
        settle(lane.take(n)).tiles.len() <= n,
    decreases n,
{
    if n > 0 {
        lemma_packed_when_still(lane, n - 1);
        lemma_take_next(lane, n - 1);
        lemma_cells_accounted(lane.take(n - 1));
        if lane[n - 1] is Some {
            lemma_travel_is_distance(lane, n - 1);
            assert(travel(lane, n - 1) == 0);
        }
    } else {
        assert(lane.take(0) =~= Seq::empty());
    }
}

} // verus!
