//! The board as text, one line for each row.

use vstd::prelude::*;
use crate::block::BlockSize;
use crate::grid::Grid;

verus! {

/// One cell as text: the tile's label, or a dash for an empty cell, between
/// two spaces and closed by a bar.
pub open spec fn render_cell(cell: Option<BlockSize>) -> Seq<char> {
    match cell {
        Some(rank) => seq![' '] + rank.label() + seq![' ', '|'],
        None => seq![' ', '-', ' ', '|'],
    }
}

/// The cells of a row as text, one after the other.
pub open spec fn render_cells(row: Seq<Option<BlockSize>>) -> Seq<char>
    decreases row.len(),
{
    if row.len() == 0 {
        Seq::empty()
    } else {
        render_cells(row.drop_last()) + render_cell(row.last())
    }
}

/// One row as a line of text: a bar, the cells, and a line feed.
pub open spec fn render_row(row: Seq<Option<BlockSize>>) -> Seq<char> {
    seq!['|'] + render_cells(row) + seq!['\n']
}

/// The rows as lines of text, one after the other.
pub open spec fn render_rows(rows: Grid) -> Seq<char>
    decreases rows.len(),
{
    if rows.len() == 0 {
        Seq::empty()
    } else {
        render_rows(rows.drop_last()) + render_row(rows.last())
    }
}

/// The whole board as text: a line feed, then one line for each row.
pub open spec fn render(grid: Grid) -> Seq<char> {
    seq!['\n'] + render_rows(grid)
}

} // verus!
