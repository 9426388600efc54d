//! The 2D grid packing used when static containers are filled with loot: a
//! first-fit scan for a free footprint, and the marking of that footprint.
//!
//! A grid is a list of rows, each a list of cells; a cell of 0 is free. The
//! scan and the marking have two quirks the game's loot layout depends on:
//! both scan limits shrink by the item's smaller dimension, and a marking that
//! runs into a taken cell leaves the cells it already flagged behind.

use vstd::prelude::*;

verus! {

/// Outcome of a slot search. `x`, `y` and `rotation` only mean something when
/// `success` holds; a failed search carries the default zeros.
#[derive(Debug, Clone, Copy, PartialEq, Eq, Structural)]
pub struct FindSlotResult {
    pub success: bool,
    pub x: i32,
    pub y: i32,
    pub rotation: bool,
}

/// The result of a search that found nothing.
pub open spec fn no_slot() -> FindSlotResult {
    FindSlotResult { success: false, x: 0, y: 0, rotation: false }
}

impl Default for FindSlotResult {
    fn default() -> (r: Self)
        ensures
            r == no_slot(),
    {
        FindSlotResult { success: false, x: 0, y: 0, rotation: false }
    }
}

/// Number of rows of a grid.
pub open spec fn rows(g: Seq<Vec<u8>>) -> int {
    g.len() as int
}

/// Number of columns of a grid, read off its first row (0 for a grid with no rows).
pub open spec fn cols(g: Seq<Vec<u8>>) -> int {
    if g.len() == 0 { 0 } else { g[0]@.len() as int }
}

/// The value of cell (`r`, `c`).
pub open spec fn cell(g: Seq<Vec<u8>>, r: int, c: int) -> u8 {
    g[r]@[c]
}

/// Cell (`r`, `c`) exists in the grid.
pub open spec fn in_bounds(g: Seq<Vec<u8>>, r: int, c: int) -> bool {
    0 <= r < g.len() && 0 <= c < g[r]@.len()
}

/// Every row is as long as the first one.
pub open spec fn rectangular(g: Seq<Vec<u8>>) -> bool {
    forall|r: int| 0 <= r < g.len() ==> #[trigger] g[r]@.len() == cols(g)
}

/// Every cell of row `r` is taken (non-zero).
pub open spec fn row_full(g: Seq<Vec<u8>>, r: int) -> bool {
    forall|c: int| 0 <= c < g[r]@.len() ==> #[trigger] cell(g, r, c) != 0
}

/// Every cell of the grid is taken (non-zero).
pub open spec fn grid_full(g: Seq<Vec<u8>>) -> bool {
    forall|r: int, c: int| in_bounds(g, r, c) ==> #[trigger] cell(g, r, c) != 0
}


/// An item of `w` x `h` cells placed with its top-left corner at (`row`, `col`)
/// stays inside the grid, does not start on a taken (== 1) cell, and — for a
/// 1x1 item — starts on a free (== 0) cell, or — for any larger item — covers no
/// cell that holds 1. Only the value 1 blocks a larger item.
pub open spec fn fits(g: Seq<Vec<u8>>, row: int, col: int, w: int, h: int) -> bool {
    let end_col = col + w - 1;
    let end_row = row + h - 1;
    &&& !(end_col > cols(g) - 1 || end_row > rows(g) - 1)
    &&& cell(g, row, col) != 1
    &&& if w == 1 && h == 1 {
        cell(g, row, col) == 0
    } else {
        forall|r: int, c: int|
            row <= r <= end_row && col <= c <= end_col ==> #[trigger] cell(g, r, c) != 1
    }
}

/// The bound the scan runs up to along an axis of `n` cells: it shrinks by the
/// item's smaller dimension less one, whichever axis it is.
pub open spec fn scan_limit(n: int, w: int, h: int) -> int {
    n - ((if w <= h { w } else { h }) - 1)
}

/// (`row`, `col`) is a position the scan accepts: inside both scan limits, on a
/// row that still has a free cell, with the item fitting either way round.
pub open spec fn candidate(g: Seq<Vec<u8>>, w: int, h: int, row: int, col: int) -> bool {
    &&& 0 <= row < scan_limit(rows(g), w, h)
    &&& 0 <= col < scan_limit(cols(g), w, h)
    &&& !row_full(g, row)
    &&& (fits(g, row, col, w, h) || fits(g, row, col, h, w))
}

/// (`r1`, `c1`) comes before (`r2`, `c2`) in row-major order.
pub open spec fn lex_lt(r1: int, c1: int, r2: int, c2: int) -> bool {
    r1 < r2 || (r1 == r2 && c1 < c2)
}

/// The larger of an item's two dimensions.
pub open spec fn larger(w: int, h: int) -> int {
    if w <= h { h } else { w }
}

/// Every row is at least as long as the first one, so every cell the scan
/// reads exists.
pub open spec fn wide_enough(g: Seq<Vec<u8>>) -> bool {
    forall|r: int| 0 <= r < g.len() ==> #[trigger] g[r]@.len() >= cols(g)
}

/// The sizes the scan's `i32` arithmetic stays within: both dimensions
/// positive, and the larger one added to either side of the grid still an
/// `i32`.
pub open spec fn scan_sizes_ok(g: Seq<Vec<u8>>, w: int, h: int) -> bool {
    &&& 1 <= w && 1 <= h
    &&& rows(g) + larger(w, h) <= i32::MAX
    &&& cols(g) + larger(w, h) <= i32::MAX
}

/// Scans the grid row by row, left to right, for the first position where an
/// item of `item_width_x` x `item_height_y` fits, trying the item as given and
/// then rotated at each position before moving on.
///
/// Both dimensions must be positive, the larger one must fit in an `i32` next
/// to either side of the grid, and no row may be shorter than the first (the
/// first row gives the width). The scan skips rows with no free cell and
/// stops short of the bottom and right edges by the item's smaller dimension
/// less one (on both axes). A full grid, or one with no accepted position,
/// yields the default (failed) result.
pub fn find_slot_for_item(
    container_2d: &[Vec<u8>],
    item_width_x: i32,
    item_height_y: i32,
) -> (res: FindSlotResult)
    requires
        wide_enough(container_2d@),
        scan_sizes_ok(container_2d@, item_width_x as int, item_height_y as int),
    ensures
        res.success == exists|r: int, c: int|
            candidate(container_2d@, item_width_x as int, item_height_y as int, r, c),
        !res.success ==> res == no_slot(),
        res.success ==> {
            &&& candidate(
                container_2d@,
                item_width_x as int,
                item_height_y as int,
                res.y as int,
                res.x as int,
            )
            &&& forall|r: int, c: int|
                lex_lt(r, c, res.y as int, res.x as int) ==> !candidate(
                    container_2d@,
                    item_width_x as int,
                    item_height_y as int,
                    r,
                    c,
                )
            &&& res.rotation == !fits(
                container_2d@,
                res.y as int,
                res.x as int,
                item_width_x as int,
                item_height_y as int,
            )
        },
{
    let g = Ghost(container_2d@);
    let w = item_width_x;
    let h = item_height_y;
    // Both limits shrink by the item's smaller dimension, whichever axis it bounds.
    let min_volume = (if w <= h { w } else { h }) - 1;
    let limit_y = row_count(container_2d) - min_volume;
    let limit_x = column_count(container_2d) - min_volume;

    // Every x+y slot taken up in container, exit
    if container_is_full(container_2d) {
        assert forall|r: int, c: int| !candidate(g@, w as int, h as int, r, c) by {
            if candidate(g@, w as int, h as int, r, c) {
                let k = choose|k: int| 0 <= k < g@[r]@.len() && cell(g@, r, k) == 0;
                assert(in_bounds(g@, r, k));
            }
        }
        return FindSlotResult::default();
    }

    // Down = y, iterate over rows
    let mut row: i32 = 0;
    while row < limit_y
        invariant
            g@ == container_2d@,
            w == item_width_x && h == item_height_y,
            wide_enough(g@),
            scan_sizes_ok(g@, w as int, h as int),
            limit_y == scan_limit(rows(g@), w as int, h as int),
            limit_x == scan_limit(cols(g@), w as int, h as int),
            0 <= row,
            row <= limit_y || row == 0,
            forall|r: int, c: int| 0 <= r < row ==> !#[trigger] candidate(g@, w as int, h as int, r, c),
        decreases limit_y - row,
    {
        if row_is_full(container_2d, row) {
            row += 1;
            continue;
        }

        // Left to right across columns, look for free position
        let mut column: i32 = 0;
        while column < limit_x
            invariant
                g@ == container_2d@,
                w == item_width_x && h == item_height_y,
                wide_enough(g@),
                scan_sizes_ok(g@, w as int, h as int),
                limit_y == scan_limit(rows(g@), w as int, h as int),
                limit_x == scan_limit(cols(g@), w as int, h as int),
                0 <= row < limit_y,
                !row_full(g@, row as int),
                0 <= column,
                column <= limit_x || column == 0,
                forall|r: int, c: int| 0 <= r < row ==> !#[trigger] candidate(g@, w as int, h as int, r, c),
                forall|c: int| 0 <= c < column ==> !#[trigger] candidate(g@, w as int, h as int, row as int, c),
            decreases limit_x - column,
        {
            if can_item_be_placed_in_container_at_position(container_2d, row, column, w, h) {
                assert(candidate(g@, w as int, h as int, row as int, column as int));
                let r = FindSlotResult { success: true, x: column, y: row, rotation: false };
                assert(r.y == row);
return r;
            }

            // Doesn't fit, and a 1x1 cannot fit the other way round either.
            if w + h <= 2 {
                column += 1;
                continue;
            }

            // Rotate item by swapping x and y item values
            if can_item_be_placed_in_container_at_position(container_2d, row, column, h, w) {
                assert(candidate(g@, w as int, h as int, row as int, column as int));
                return FindSlotResult { success: true, x: column, y: row, rotation: true };
            }
            column += 1;
        }
        row += 1;
    }

    // Tried all possible positions, nothing big enough for item
    assert forall|r: int, c: int| !candidate(g@, w as int, h as int, r, c) by {
        if 0 <= r < row {
        }
    }
    FindSlotResult::default()
}

/// Cell (`r`, `c`) lies in the `w` x `h` rectangle whose top-left corner is
/// (`sy`, `sx`).
pub open spec fn in_rect(sy: int, sx: int, w: int, h: int, r: int, c: int) -> bool {
    sy <= r < sy + h && sx <= c < sx + w
}

/// A row-major walk over the rectangle gets as far as cell (`r`, `c`): the cell
/// is in the rectangle and every rectangle cell before it exists and is free.
pub open spec fn reached(
    g: Seq<Vec<u8>>,
    sy: int,
    sx: int,
    w: int,
    h: int,
    r: int,
    c: int,
) -> bool {
    &&& in_rect(sy, sx, w, h, r, c)
    &&& forall|r2: int, c2: int|
        #![trigger cell(g, r2, c2)]
        #![trigger in_bounds(g, r2, c2)]
        in_rect(sy, sx, w, h, r2, c2) && lex_lt(r2, c2, r, c) ==> in_bounds(g, r2, c2) && cell(
            g,
            r2,
            c2,
        ) == 0
}

/// The walk flags cell (`r`, `c`): it reaches the cell and finds it free.
pub open spec fn marked(g: Seq<Vec<u8>>, sy: int, sx: int, w: int, h: int, r: int, c: int) -> bool {
    reached(g, sy, sx, w, h, r, c) && cell(g, r, c) == 0
}

/// Every cell of the rectangle exists and is free.
pub open spec fn rect_free(g: Seq<Vec<u8>>, sy: int, sx: int, w: int, h: int) -> bool {
    forall|r: int, c: int|
        #![trigger cell(g, r, c)]
            #![trigger in_bounds(g, r, c)]
        in_rect(sy, sx, w, h, r, c) ==> in_bounds(g, r, c) && cell(g, r, c) == 0
}

/// The grid keeps its shape: as many rows, each as long as before.
pub open spec fn same_shape(a: Seq<Vec<u8>>, b: Seq<Vec<u8>>) -> bool {
    &&& a.len() == b.len()
    &&& forall|r: int| 0 <= r < a.len() ==> #[trigger] a[r]@.len() == b[r]@.len()
}

/// Width of the footprint once a rotation has been applied.
pub open spec fn placed_width(x_width: int, y_height: int, rotated: bool) -> int {
    if rotated { y_height } else { x_width }
}

/// Height of the footprint once a rotation has been applied.
pub open spec fn placed_height(x_width: int, y_height: int, rotated: bool) -> int {
    if rotated { x_width } else { y_height }
}

/// Flags the cells an item covers with 1, rotating its footprint when
/// `is_rotated`.
///
/// A 1x1 item is written unconditionally and always reports success. A larger
/// item is written in row-major order until a taken (non-zero) cell turns up:
/// the cells flagged before it stay flagged, and the result is `false`.
pub fn try_fill_container_map_with_item(
    container_2d: &mut [Vec<u8>],
    column_start_x: i32,
    row_start_y: i32,
    item_x_width: i32,
    item_y_height: i32,
    is_rotated: bool,
) -> (filled: bool)
    requires
        i32::MIN < item_x_width && i32::MIN < item_y_height,
        i32::MIN <= row_start_y + placed_height(item_x_width as int, item_y_height as int, is_rotated) - 1 <= i32::MAX,
        i32::MIN <= column_start_x + placed_width(item_x_width as int, item_y_height as int, is_rotated) - 1 <= i32::MAX,
        forall|r: int, c: int|
            #[trigger] reached(
                old(container_2d)@,
                row_start_y as int,
                column_start_x as int,
                placed_width(item_x_width as int, item_y_height as int, is_rotated),
                placed_height(item_x_width as int, item_y_height as int, is_rotated),
                r,
                c,
            ) ==> in_bounds(old(container_2d)@, r, c),
    ensures
        same_shape(final(container_2d)@, old(container_2d)@),
        item_x_width == 1 && item_y_height == 1 ==> {
            &&& filled
            &&& forall|r: int, c: int|
                in_bounds(old(container_2d)@, r, c) ==> #[trigger] cell(final(container_2d)@, r, c)
                    == if r == row_start_y && c == column_start_x {
                    1
                } else {
                    cell(old(container_2d)@, r, c)
                }
        },
        !(item_x_width == 1 && item_y_height == 1) ==> {
            let w = placed_width(item_x_width as int, item_y_height as int, is_rotated);
            let h = placed_height(item_x_width as int, item_y_height as int, is_rotated);
            &&& filled == rect_free(old(container_2d)@, row_start_y as int, column_start_x as int, w, h)
            &&& forall|r: int, c: int|
                in_bounds(old(container_2d)@, r, c) ==> #[trigger] cell(final(container_2d)@, r, c)
                    == if marked(old(container_2d)@, row_start_y as int, column_start_x as int, w, h, r, c) {
                    1
                } else {
                    cell(old(container_2d)@, r, c)
                }
        },
{
    let ghost g = old(container_2d)@;
    // Swap height/width if item needs to be rotated to fit
    let item_width = if is_rotated {
        item_y_height
    } else {
        item_x_width
    };
    let item_height = if is_rotated {
        item_x_width
    } else {
        item_y_height
    };
    let ghost sy = row_start_y as int;
    let ghost sx = column_start_x as int;
    let ghost w = item_width as int;
    let ghost h = item_height as int;

    let item_row_end_position = row_start_y + (item_height - 1);
    let item_column_end_position = column_start_x + (item_width - 1);

    // Item is a 1x1, flag slot as taken and exit early. An already-used cell is
    // overwritten and still reports success.
    if item_x_width == 1 && item_y_height == 1 {
        assert(reached(g, sy, sx, w, h, sy, sx));
        container_2d[row_start_y as usize][column_start_x as usize] = 1;
        return true;
    }

    // Loop over rows and columns and flag each as taken by item
    let mut y: i64 = row_start_y as i64;
    while y <= item_row_end_position as i64
        invariant
            g == old(container_2d)@,
            sy == row_start_y && sx == column_start_x,
            w == item_width && h == item_height,
            item_width == placed_width(item_x_width as int, item_y_height as int, is_rotated),
            item_height == placed_height(item_x_width as int, item_y_height as int, is_rotated),
            !(item_x_width == 1 && item_y_height == 1),
            item_row_end_position == sy + h - 1,
            item_column_end_position == sx + w - 1,
            sy <= y <= item_row_end_position + 1 || y == sy,
            forall|r: int, c: int| #[trigger] reached(g, sy, sx, w, h, r, c) ==> in_bounds(g, r, c),
            same_shape(container_2d@, g),
            forall|r: int, c: int|
                #![trigger cell(g, r, c)]
            #![trigger in_bounds(g, r, c)]
                in_rect(sy, sx, w, h, r, c) && r < y ==> in_bounds(g, r, c) && cell(g, r, c) == 0,
            forall|r: int, c: int|
                in_bounds(g, r, c) ==> #[trigger] cell(container_2d@, r, c) == if in_rect(
                    sy,
                    sx,
                    w,
                    h,
                    r,
                    c,
                ) && r < y {
                    1
                } else {
                    cell(g, r, c)
                },
        decreases item_row_end_position + 1 - y,
    {
        let mut x: i64 = column_start_x as i64;
        assert forall|r: int, c: int|
            #![trigger cell(g, r, c)]
            #![trigger in_bounds(g, r, c)]
            in_rect(sy, sx, w, h, r, c) && lex_lt(r, c, y as int, x as int) implies in_bounds(g, r, c) && cell(g, r, c) == 0 by {
            assert(r < y);
        }
        while x <= item_column_end_position as i64
            invariant
                g == old(container_2d)@,
                sy == row_start_y && sx == column_start_x,
                w == item_width && h == item_height,
                item_width == placed_width(item_x_width as int, item_y_height as int, is_rotated),
                item_height == placed_height(item_x_width as int, item_y_height as int, is_rotated),
                !(item_x_width == 1 && item_y_height == 1),
                item_row_end_position == sy + h - 1,
                item_column_end_position == sx + w - 1,
                sy <= y <= item_row_end_position,
                sx <= x <= item_column_end_position + 1 || x == sx,
                forall|r: int, c: int| #[trigger] reached(g, sy, sx, w, h, r, c) ==> in_bounds(g, r, c),
                same_shape(container_2d@, g),
                forall|r: int, c: int|
                    #![trigger cell(g, r, c)]
            #![trigger in_bounds(g, r, c)]
                    in_rect(sy, sx, w, h, r, c) && lex_lt(r, c, y as int, x as int) ==> in_bounds(g, r, c) && cell(g, r, c) == 0,
                forall|r: int, c: int|
                    in_bounds(g, r, c) ==> #[trigger] cell(container_2d@, r, c) == if in_rect(
                        sy,
                        sx,
                        w,
                        h,
                        r,
                        c,
                    ) && lex_lt(r, c, y as int, x as int) {
                        1
                    } else {
                        cell(g, r, c)
                    },
            decreases item_column_end_position + 1 - x,
        {
            assert(reached(g, sy, sx, w, h, y as int, x as int));
            let v = container_2d[y as usize][x as usize];
            assert(v == cell(container_2d@, y as int, x as int));
            if v != 0 {
                // Cells flagged before the collision stay flagged.
                assert(cell(g, y as int, x as int) != 0);
                assert forall|r: int, c: int| in_bounds(g, r, c) implies #[trigger] cell(container_2d@, r, c)
                    == if marked(g, sy, sx, w, h, r, c) { 1 } else { cell(g, r, c) } by {
                    if in_rect(sy, sx, w, h, r, c) && lex_lt(r, c, y as int, x as int) {
                        assert(marked(g, sy, sx, w, h, r, c));
                    } else if marked(g, sy, sx, w, h, r, c) {
                        assert(lex_lt(y as int, x as int, r, c) || (r == y && c == x));
                    }
                }
                return false;
            }

            // Flag slot as used
            let ghost before = container_2d@;
            container_2d[y as usize][x as usize] = 1;
            assert forall|r: int, c: int| in_bounds(g, r, c) implies #[trigger] cell(container_2d@, r, c)
                == if in_rect(sy, sx, w, h, r, c) && lex_lt(r, c, y as int, x + 1) { 1 } else { cell(g, r, c) } by {
                if r == y && c == x {
                } else {
                    assert(cell(container_2d@, r, c) == cell(before, r, c));
                }
            }
            x += 1;
        }
        y += 1;
    }

    assert forall|r: int, c: int| in_bounds(g, r, c) implies #[trigger] cell(container_2d@, r, c)
        == if marked(g, sy, sx, w, h, r, c) { 1 } else { cell(g, r, c) } by {
        if in_rect(sy, sx, w, h, r, c) {
            assert(reached(g, sy, sx, w, h, r, c));
        }
    }
    true
}

/// Every cell holds 0 (free) or 1 (taken).
pub open spec fn binary(g: Seq<Vec<u8>>) -> bool {
    forall|r: int, c: int| in_bounds(g, r, c) ==> #[trigger] cell(g, r, c) <= 1
}

/// On a grid of free and taken cells whose rows are at least as long as its
/// first, a position the slot search reports can be filled: the footprint it
/// describes, rotated as reported, lies inside the grid on free cells, so
/// marking it succeeds and flags exactly that footprint.
pub proof fn lemma_found_slot_can_be_filled(g: Seq<Vec<u8>>, w: int, h: int, y: int, x: int)
    requires
        wide_enough(g),
        binary(g),
        1 <= w && 1 <= h,
        candidate(g, w, h, y, x),
    ensures
        ({
            let rot = !fits(g, y, x, w, h);
            let pw = placed_width(w, h, rot);
            let ph = placed_height(w, h, rot);
            &&& rect_free(g, y, x, pw, ph)
            &&& forall|r: int, c: int| #[trigger] reached(g, y, x, pw, ph, r, c) ==> in_bounds(g, r, c)
            &&& forall|r: int, c: int|
                in_bounds(g, r, c) ==> (#[trigger] marked(g, y, x, pw, ph, r, c) <==> in_rect(
                    y,
                    x,
                    pw,
                    ph,
                    r,
                    c,
                ))
        }),
{
    let rot = !fits(g, y, x, w, h);
    let pw = placed_width(w, h, rot);
    let ph = placed_height(w, h, rot);
    assert(fits(g, y, x, pw, ph));
    assert forall|r: int, c: int| #![trigger cell(g, r, c)] #![trigger in_bounds(g, r, c)]
        in_rect(y, x, pw, ph, r, c) implies in_bounds(g, r, c) && cell(g, r, c) == 0 by {
        assert(g[r]@.len() >= cols(g));
        if pw == 1 && ph == 1 {
            assert(r == y && c == x);
        } else {
            assert(cell(g, r, c) != 1);
        }
    }
    assert forall|r: int, c: int| in_bounds(g, r, c) implies (#[trigger] marked(g, y, x, pw, ph, r, c) <==> in_rect(
        y,
        x,
        pw,
        ph,
        r,
        c,
    )) by {
        if in_rect(y, x, pw, ph, r, c) {
            assert(reached(g, y, x, pw, ph, r, c));
        }
    }
}

/// Rows.
fn row_count(container_2d: &[Vec<u8>]) -> (n: i32)
    requires
        container_2d@.len() <= i32::MAX,
    ensures
        n == rows(container_2d@),
{
    container_2d.len() as i32
}

/// Columns, read off the first row.
fn column_count(container_2d: &[Vec<u8>]) -> (n: i32)
    requires
        cols(container_2d@) <= i32::MAX,
    ensures
        n == cols(container_2d@),
{
    if container_2d.len() == 0 {
        0
    } else {
        container_2d[0].len() as i32
    }
}

/// Whether every cell of row `row_index` is taken.
fn row_is_full(container_2d: &[Vec<u8>], row_index: i32) -> (full: bool)
    requires
        0 <= row_index < container_2d@.len(),
    ensures
        full == row_full(container_2d@, row_index as int),
{
    let row = &container_2d[row_index as usize];
    let mut c: usize = 0;
    while c < row.len()
        invariant
            row == container_2d@[row_index as int],
            c <= row@.len(),
            forall|k: int| 0 <= k < c ==> #[trigger] cell(container_2d@, row_index as int, k) != 0,
        decreases row@.len() - c,
    {
        if row[c] == 0 {
            assert(cell(container_2d@, row_index as int, c as int) == 0);
            return false;
        }
        c += 1;
    }
    true
}

/// Whether every cell of the grid is taken.
fn container_is_full(container_2d: &[Vec<u8>]) -> (full: bool)
    ensures
        full == grid_full(container_2d@),
{
    let g = Ghost(container_2d@);
    let mut r: usize = 0;
    while r < container_2d.len()
        invariant
            g@ == container_2d@,
            r <= g@.len(),
            forall|i: int, c: int| 0 <= i < r && in_bounds(g@, i, c) ==> #[trigger] cell(g@, i, c) != 0,
        decreases g@.len() - r,
    {
        let row = &container_2d[r];
        let mut c: usize = 0;
        while c < row.len()
            invariant
                g@ == container_2d@,
                r < g@.len(),
                row == g@[r as int],
                c <= row@.len(),
                forall|i: int, k: int| 0 <= i < r && in_bounds(g@, i, k) ==> #[trigger] cell(g@, i, k) != 0,
                forall|k: int| 0 <= k < c ==> #[trigger] cell(g@, r as int, k) != 0,
            decreases row@.len() - c,
        {
            if row[c] == 0 {
                assert(in_bounds(g@, r as int, c as int) && cell(g@, r as int, c as int) == 0);
                return false;
            }
            c += 1;
        }
        r += 1;
    }
    true
}

/// Whether an item of `item_width` x `item_height` fits with its top-left corner
/// at (`item_start_vertical_pos`, `item_start_horizontal_pos`).
fn can_item_be_placed_in_container_at_position(
    container: &[Vec<u8>],
    item_start_vertical_pos: i32,
    item_start_horizontal_pos: i32,
    item_width: i32,
    item_height: i32,
) -> (ok: bool)
    requires
        wide_enough(container@),
        scan_sizes_ok(container@, item_width as int, item_height as int),
        0 <= item_start_vertical_pos <= rows(container@),
        0 <= item_start_horizontal_pos <= cols(container@),
    ensures
        ok == fits(
            container@,
            item_start_vertical_pos as int,
            item_start_horizontal_pos as int,
            item_width as int,
            item_height as int,
        ),
{
    let g = Ghost(container@);
    let item_end_col_position = item_start_horizontal_pos + item_width - 1;
    let item_end_row_position = item_start_vertical_pos + item_height - 1;

    // Check item isn't bigger than container when at position
    if item_end_col_position > column_count(container) - 1
        || item_end_row_position > row_count(container) - 1
    {
        return false;
    }
    assert(g@[item_start_vertical_pos as int]@.len() >= cols(g@));

    // Early exit if exact spot is taken
    if container[item_start_vertical_pos as usize][item_start_horizontal_pos as usize] == 1 {
        return false;
    }

    // Single slot item, do direct check
    if item_width == 1 && item_height == 1 {
        return container[item_start_vertical_pos as usize][item_start_horizontal_pos as usize]
            == 0;
    }

    let mut row = item_start_vertical_pos;
    while row <= item_end_row_position
        invariant
            g@ == container@,
            wide_enough(g@),
            0 <= item_start_vertical_pos <= row <= item_end_row_position + 1,
            item_end_row_position < rows(g@),
            0 <= item_start_horizontal_pos,
            item_end_col_position < cols(g@),
            item_end_row_position < i32::MAX,
            item_end_col_position < i32::MAX,
            item_end_col_position == item_start_horizontal_pos + item_width - 1,
            item_end_row_position == item_start_vertical_pos + item_height - 1,
            1 <= item_width,
            !(item_width == 1 && item_height == 1),
            forall|r: int, c: int|
                item_start_vertical_pos <= r < row && item_start_horizontal_pos <= c
                    <= item_end_col_position ==> #[trigger] cell(g@, r, c) != 1,
        decreases item_end_row_position + 1 - row,
    {
        let mut column = item_start_horizontal_pos;
        while column <= item_end_col_position
            invariant
                g@ == container@,
                wide_enough(g@),
                0 <= item_start_vertical_pos <= row <= item_end_row_position,
                item_end_row_position < rows(g@),
                0 <= item_start_horizontal_pos <= column <= item_end_col_position + 1,
                item_end_col_position < cols(g@),
                item_end_col_position < i32::MAX,
                item_end_col_position == item_start_horizontal_pos + item_width - 1,
                item_end_row_position == item_start_vertical_pos + item_height - 1,
                !(item_width == 1 && item_height == 1),
                forall|r: int, c: int|
                    item_start_vertical_pos <= r < row && item_start_horizontal_pos <= c
                        <= item_end_col_position ==> #[trigger] cell(g@, r, c) != 1,
                forall|c: int|
                    item_start_horizontal_pos <= c < column ==> #[trigger] cell(g@, row as int, c)
                        != 1,
            decreases item_end_col_position + 1 - column,
        {
            assert(g@[row as int]@.len() >= cols(g@));
            if container[row as usize][column as usize] == 1 {
                assert(cell(g@, row as int, column as int) == 1);
                return false;
            }
            column += 1;
        }
        row += 1;
    }

    // Slot is free
    true
}

} // verus!
