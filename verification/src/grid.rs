//! Rows of an existing sheet, rebuilt from its cell texts.
//!
//! The first line of a sheet is its header. Every other line becomes a row:
//! a non-empty cell is a string value, an empty cell is null, and a cell under
//! a blank header is skipped. A line without any value is no row.

use crate::record::{has_value, row_has_value, rows_view, Row, RowView, Scalar, ScalarView};
use crate::text::{is_blank, is_blank_text, texts};
use crate::textmap::TextMap;
use vstd::prelude::*;

verus! {

/// The views of a grid of cell texts.
pub open spec fn grid_view(grid: Seq<Vec<String>>) -> Seq<Seq<Seq<char>>> {
    grid.map_values(|line: Vec<String>| texts(line@))
}

/// The value that a cell text stands for.
pub open spec fn cell_value(cell: Seq<char>) -> ScalarView {
    if cell.len() > 0 {
        ScalarView::Text(cell)
    } else {
        ScalarView::Null
    }
}

/// The row made of the first `upto` cells of a line. Of two cells under the
/// same header the later one counts.
pub open spec fn line_row(headers: Seq<Seq<char>>, cells: Seq<Seq<char>>, upto: int) -> RowView
    decreases upto,
{
    if upto <= 0 {
        Map::empty()
    } else {
        let before = line_row(headers, cells, upto - 1);
        let i = upto - 1;
        if i < headers.len() && i < cells.len() && !is_blank(headers[i]) {
            before.insert(headers[i], cell_value(cells[i]))
        } else {
            before
        }
    }
}

/// The rows of the first `upto` lines: one for each line with a value.
pub open spec fn grid_rows(headers: Seq<Seq<char>>, grid: Seq<Seq<Seq<char>>>, upto: int) -> Seq<
    RowView,
>
    decreases upto,
{
    if upto <= 0 {
        Seq::empty()
    } else {
        let before = grid_rows(headers, grid, upto - 1);
        let row = line_row(headers, grid[upto - 1], grid[upto - 1].len() as int);
        if has_value(row) {
            before.push(row)
        } else {
            before
        }
    }
}

/// The row that one line of cell texts stands for.
pub fn row_from_line(headers: &Vec<String>, cells: &Vec<String>) -> (row: Row)
    ensures
        row@ == line_row(texts(headers@), texts(cells@), cells.len() as int),
{
    let mut row: Row = TextMap::new();
    let mut i: usize = 0;
    while i < cells.len()
        invariant
            i <= cells.len(),
            row@ == line_row(texts(headers@), texts(cells@), i as int),
        decreases cells.len() - i,
    {
        if i < headers.len() {
            assert(texts(headers@)[i as int] == headers@[i as int]@);
            assert(texts(cells@)[i as int] == cells@[i as int]@);
            if !is_blank_text(headers[i].as_str()) {
                let cell = &cells[i];
                let value = if cell.as_str().unicode_len() > 0 {
                    Scalar::Text(cell.clone())
                } else {
                    Scalar::Null
                };
                row.insert(headers[i].clone(), value);
            }
        }
        i += 1;
    }
    row
}

/// Rebuilds the rows of a sheet from its header and the cell texts of its
/// other lines.
pub fn rows_from_grid(headers: &Vec<String>, grid: &Vec<Vec<String>>) -> (rows: Vec<Row>)
    ensures
        rows_view(rows@) == grid_rows(texts(headers@), grid_view(grid@), grid.len() as int),
{
    let mut rows: Vec<Row> = Vec::new();
    let mut r: usize = 0;
    assert(rows_view(rows@) =~= Seq::<RowView>::empty());
    while r < grid.len()
        invariant
            r <= grid.len(),
            rows_view(rows@) == grid_rows(texts(headers@), grid_view(grid@), r as int),
        decreases grid.len() - r,
    {
        assert(grid_view(grid@)[r as int] == texts(grid@[r as int]@));
        let row = row_from_line(headers, &grid[r]);
        if row_has_value(&row) {
            let ghost before = rows@;
            rows.push(row);
            assert(rows_view(rows@) =~= rows_view(before).push(row@));
        }
        r += 1;
    }
    rows
}

} // verus!
