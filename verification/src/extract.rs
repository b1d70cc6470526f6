//! Building the initial board from a grid of style texts: row `y`, tile
//! `x` of the grid gives the square at coordinate `(x, y)`.

use vstd::prelude::*;
use crate::board::{map_of, keys_unique, entry_key, Board, Entry, Mark, Square};
use crate::error::Error;
use crate::style::{
    channels_ok_at, first_match, parse_style, rgb_at, style_outcome,
};
use crate::board::lemma_map_of_push;
use crate::board::lemma_map_of_dom;

verus! {

/// Whether a style text holds a colour declaration with all channels in
/// range.
pub open spec fn style_ok(s: Seq<char>) -> bool {
    match first_match(s) {
        Some(i) => channels_ok_at(s, i),
        None => false,
    }
}

/// The colour a valid style text denotes.
pub open spec fn style_colour(s: Seq<char>) -> crate::board::Rgb {
    rgb_at(s, first_match(s)->Some_0)
}

/// The error a bad style text is reported with.
pub open spec fn style_err_matches(s: Seq<char>, e: Error) -> bool {
    style_outcome(s, Err(e))
}

/// The first bad tile of a row at or after `x`, if any.
pub open spec fn row_bad_from(row: Seq<String>, x: int) -> Option<int>
    decreases row.len() - x,
{
    if x < 0 || x >= row.len() {
        None
    } else if !style_ok(row[x]@) {
        Some(x)
    } else {
        row_bad_from(row, x + 1)
    }
}

/// The first bad tile of the grid in row-major order at or after row
/// `y`, if any, as a `(column, row)` pair.
pub open spec fn grid_bad_from(rows: Seq<Vec<String>>, y: int) -> Option<(int, int)>
    decreases rows.len() - y,
{
    if y < 0 || y >= rows.len() {
        None
    } else {
        match row_bad_from(rows[y]@, 0) {
            Some(x) => Some((x, y)),
            None => grid_bad_from(rows, y + 1),
        }
    }
}

/// The grid's width: the longest row's tile count.
pub open spec fn grid_width(rows: Seq<Vec<String>>) -> int
    decreases rows.len(),
{
    if rows.len() == 0 {
        0
    } else {
        let w = grid_width(rows.drop_last());
        let l = rows.last()@.len() as int;
        if l > w {
            l
        } else {
            w
        }
    }
}

/// No row is longer than the grid's width.
pub proof fn lemma_grid_width_bound(rows: Seq<Vec<String>>)
    ensures
        forall|y: int| 0 <= y < rows.len() ==> #[trigger] rows[y]@.len() <= grid_width(rows),
    decreases rows.len(),
{
    if rows.len() > 0 {
        lemma_grid_width_bound(rows.drop_last());
        assert forall|y: int| 0 <= y < rows.len() implies #[trigger] rows[y]@.len() <= grid_width(
            rows,
        ) by {
            if y < rows.len() - 1 {
                assert(rows.drop_last()[y] == rows[y]);
            }
        }
    }
}

/// A row with no bad tile at or after `x` reports none.
proof fn lemma_row_bad_none_from(row: Seq<String>, x: int)
    requires
        0 <= x,
        forall|j: int| x <= j < row.len() ==> style_ok(row[j]@),
    ensures
        row_bad_from(row, x) is None,
    decreases row.len() - x,
{
    if x < row.len() {
        lemma_row_bad_none_from(row, x + 1);
    }
}

/// A bad tile at `x` with none before it (at or after `k`) is the row's
/// first.
proof fn lemma_row_bad_finds(row: Seq<String>, k: int, x: int)
    requires
        0 <= k <= x < row.len(),
        !style_ok(row[x]@),
        forall|j: int| k <= j < x ==> style_ok(row[j]@),
    ensures
        row_bad_from(row, k) == Some(x),
    decreases x - k,
{
    if k < x {
        lemma_row_bad_finds(row, k + 1, x);
    }
}

/// A grid whose rows at or after `y` are all clean reports no bad tile.
proof fn lemma_grid_bad_none_from(rows: Seq<Vec<String>>, y: int)
    requires
        0 <= y,
        forall|j: int| y <= j < rows.len() ==> row_bad_from(#[trigger] rows[j]@, 0) is None,
    ensures
        grid_bad_from(rows, y) is None,
    decreases rows.len() - y,
{
    if y < rows.len() {
        lemma_grid_bad_none_from(rows, y + 1);
    }
}

/// A row with a first bad tile, all earlier rows (at or after `k`)
/// clean, gives the grid's first bad tile.
proof fn lemma_grid_bad_finds(rows: Seq<Vec<String>>, k: int, y: int, x: int)
    requires
        0 <= k <= y < rows.len(),
        row_bad_from(rows[y]@, 0) == Some(x),
        forall|j: int| k <= j < y ==> row_bad_from(#[trigger] rows[j]@, 0) is None,
    ensures
        grid_bad_from(rows, k) == Some((x, y)),
    decreases y - k,
{
    if k < y {
        lemma_grid_bad_finds(rows, k + 1, y, x);
    }
}

/// Build the initial board from a grid of style texts. Row `y`, tile `x`
/// gives the square at `(x, y)`, coloured by its style text and not yet
/// marked; the board holds exactly the grid's coordinates. Also returns
/// the width (the longest row's tile count) and height (the row count).
/// The first tile in row-major order whose style text is bad aborts the
/// extraction with that tile's error.
pub fn board_from_styles(rows: &Vec<Vec<String>>) -> (r: Result<(Board, usize, usize), Error>)
    ensures
        match r {
            Ok(out) => {
                &&& grid_bad_from(rows@, 0) is None
                &&& out.0.well_formed()
                &&& out.2 == rows@.len()
                &&& out.1 == grid_width(rows@)
                &&& forall|cx: int, cy: int|
                    0 <= cy < rows@.len() && 0 <= cx < rows@[cy]@.len()
                        ==> #[trigger] out.0@.contains_key((cx, cy))
                &&& forall|k: (int, int)|
                    #[trigger] out.0@.contains_key(k) ==> 0 <= k.1 < rows@.len() && 0 <= k.0
                        < rows@[k.1]@.len()
                &&& forall|k: (int, int)|
                    #[trigger] out.0@.contains_key(k) ==> out.0@[k] == (Square {
                        colour: style_colour(rows@[k.1]@[k.0]@),
                        mark: Mark::Empty,
                    })
            },
            Err(e) => {
                &&& grid_bad_from(rows@, 0) matches Some(bad) && style_err_matches(
                    rows@[bad.1]@[bad.0]@,
                    e,
                )
            },
        },
{
    let h = rows.len();
    let mut entries: Vec<Entry> = Vec::new();
    let mut width: usize = 0;
    let mut y: usize = 0;
    while y < h
        invariant
            0 <= y <= h,
            h == rows@.len(),
            width == grid_width(rows@.take(y as int)),
            keys_unique(entries@),
            forall|j: int| 0 <= j < y ==> row_bad_from(#[trigger] rows@[j]@, 0) is None,
            forall|cx: int, cy: int|
                0 <= cy < y && 0 <= cx < rows@[cy]@.len() ==> #[trigger] map_of(
                    entries@,
                ).contains_key((cx, cy)),
            forall|k: (int, int)|
                #[trigger] map_of(entries@).contains_key(k) ==> 0 <= k.1 < y && 0 <= k.0
                    < rows@[k.1]@.len(),
            forall|k: (int, int)|
                #[trigger] map_of(entries@).contains_key(k) ==> map_of(entries@)[k] == (Square {
                    colour: style_colour(rows@[k.1]@[k.0]@),
                    mark: Mark::Empty,
                }),
        decreases h - y,
    {
        let row = &rows[y];
        let rw = row.len();
        let mut x: usize = 0;
        while x < rw
            invariant
                0 <= x <= rw,
                0 <= y < h,
                h == rows@.len(),
                rw == rows@[y as int]@.len(),
                row@ == rows@[y as int]@,
                keys_unique(entries@),
                forall|j: int| 0 <= j < y ==> row_bad_from(#[trigger] rows@[j]@, 0) is None,
                forall|j: int| 0 <= j < x ==> style_ok(rows@[y as int]@[j]@),
                forall|cx: int, cy: int|
                    (0 <= cy < y && 0 <= cx < rows@[cy]@.len()) || (cy == y as int && 0 <= cx < x)
                        ==> #[trigger] map_of(entries@).contains_key((cx, cy)),
                forall|k: (int, int)|
                    #[trigger] map_of(entries@).contains_key(k) ==> (0 <= k.1 < y && 0 <= k.0
                        < rows@[k.1]@.len()) || (k.1 == y as int && 0 <= k.0 < x),
                forall|k: (int, int)|
                    #[trigger] map_of(entries@).contains_key(k) ==> map_of(entries@)[k] == (
                    Square { colour: style_colour(rows@[k.1]@[k.0]@), mark: Mark::Empty }),
            decreases rw - x,
        {
            let colour = match parse_style(row[x].as_str()) {
                Ok(c) => c,
                Err(e) => {
                    proof {
                        lemma_row_bad_finds(rows@[y as int]@, 0, x as int);
                        lemma_grid_bad_finds(rows@, 0, y as int, x as int);
                    }
                    return Err(e);
                },
            };
            let square = Square { colour, mark: Mark::Empty };
            proof {
                let k = (x as int, y as int);
                assert(!map_of(entries@).contains_key(k));
                lemma_map_of_dom(entries@);
                lemma_map_of_push(entries@, Entry { x, y, square });
                assert forall|a: int, b: int|
                    0 <= a < b < entries@.push(Entry { x, y, square }).len() implies entry_key(
                    entries@.push(Entry { x, y, square })[a],
                ) != entry_key(entries@.push(Entry { x, y, square })[b]) by {
                    if b == entries@.len() {
                        assert(entry_key(entries@[a]) != k) by {
                            assert(map_of(entries@).contains_key(entry_key(entries@[a])));
                        }
                    }
                }
            }
            entries.push(Entry { x, y, square });
            x = x + 1;
        }
        proof {
            lemma_row_bad_none_from(rows@[y as int]@, 0);
            assert(rows@.take(y + 1).drop_last() =~= rows@.take(y as int));
            assert(rows@.take(y + 1).last() == rows@[y as int]);
        }
        if rw > width {
            width = rw;
        }
        y = y + 1;
    }
    proof {
        lemma_grid_bad_none_from(rows@, 0);
        assert(rows@.take(y as int) =~= rows@);
    }
    Ok((Board::new(entries), width, h))
}

} // verus!
