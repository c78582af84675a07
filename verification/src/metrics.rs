//! UI metrics derived from the display scale, and the desktop icon grid.

use vstd::prelude::*;

verus! {

/// The UI scale for a display of the given height: one step per 1600 rows.
pub open spec fn spec_scale(display_h: u32) -> int {
    display_h / 1600 + 1
}

/// The scale factor that the launcher binaries store before drawing.
pub fn scale_for_display_height(display_h: u32) -> (scale: isize)
    ensures
        scale == spec_scale(display_h),
{
    (display_h / 1600) as isize + 1
}

/// A scale for which `factor * scale` is an `i32`.
pub open spec fn fits_i32(factor: int, scale: isize) -> bool {
    i32::MIN <= factor * scale <= i32::MAX
}

/// Width of the application chooser window.
pub fn chooser_width(scale: isize) -> (w: u32)
    requires
        0 <= scale <= u32::MAX / 200,
    ensures
        w == 200 * scale,
{
    200 * (scale as u32)
}

/// Font size of labels.
pub fn font_size(scale: isize) -> (s: i32)
    requires
        fits_i32(16, scale),
    ensures
        s == 16 * scale,
{
    16 * (scale as i32)
}

/// Side of a full-size icon.
pub fn icon_size(scale: isize) -> (s: i32)
    requires
        fits_i32(48, scale),
    ensures
        s == 48 * scale,
{
    48 * (scale as i32)
}

/// Side of a small icon (chooser and tray).
pub fn icon_small_size(scale: isize) -> (s: i32)
    requires
        fits_i32(32, scale),
    ensures
        s == 32 * scale,
{
    32 * (scale as i32)
}

/// Padding inside a desktop grid cell.
pub fn cell_pad(scale: isize) -> (s: i32)
    requires
        fits_i32(8, scale),
    ensures
        s == 8 * scale,
{
    8 * (scale as i32)
}

/// Width of a desktop grid cell: two icons wide.
pub fn cell_width(scale: isize) -> (s: i32)
    requires
        fits_i32(96, scale),
    ensures
        s == 96 * scale,
{
    icon_size(scale) * 2
}

/// Height of a desktop grid cell: icon, caption and three paddings.
pub fn cell_height(scale: isize) -> (s: i32)
    requires
        fits_i32(88, scale),
    ensures
        s == 88 * scale,
{
    icon_size(scale) + font_size(scale) + 3 * cell_pad(scale)
}

/// The grid index under a point: cells fill columns top to bottom, and
/// column `c`, row `r` holds entry `c * rows + r`.
pub open spec fn grid_index(x: int, y: int, rows: int, scale: int) -> int {
    (x / (96 * scale)) * rows + y / (88 * scale)
}

/// Which entry of the desktop grid lies under `(x, y)`, or -1.
pub open spec fn spec_cell_at(x: i32, y: i32, rows: usize, len: usize, scale: isize) -> i32 {
    if x < 0 || y < 0 {
        -1i32
    } else if (y as int) / (88 * scale as int) >= rows {
        -1i32
    } else if grid_index(x as int, y as int, rows as int, scale as int) < len {
        grid_index(x as int, y as int, rows as int, scale as int) as i32
    } else {
        -1i32
    }
}

/// Hit test of the desktop icon grid.
pub fn cell_at(x: i32, y: i32, rows: usize, len: usize, scale: isize) -> (cell: i32)
    requires
        1 <= scale,
        fits_i32(96, scale),
        x >= 0 && y >= 0 && (y as int) / (88 * scale as int) < rows
            ==> grid_index(x as int, y as int, rows as int, scale as int) <= usize::MAX,
    ensures
        cell == spec_cell_at(x, y, rows, len, scale),
{
    if x < 0 || y < 0 {
        return -1;
    }
    let col = x / cell_width(scale);
    let row = y / cell_height(scale);
    if (row as usize) >= rows {
        return -1;
    }
    let i = col as usize * rows + row as usize;
    if i < len {
        i as i32
    } else {
        -1
    }
}

/// Top-left corner of the cell where the grid draws entry `i`: column
/// `i / rows`, row `i % rows`.
pub open spec fn spec_cell_origin(i: int, rows: int, scale: int) -> (int, int) {
    ((i / rows) * (96 * scale), (i % rows) * (88 * scale))
}

/// Where the desktop draws entry `i` of a grid with `rows` rows.
pub fn cell_origin(i: usize, rows: usize, scale: isize) -> (o: (i32, i32))
    requires
        1 <= rows,
        1 <= scale,
        fits_i32(96, scale),
        (i / rows) * (96 * scale) <= i32::MAX,
        (rows - 1) * (88 * scale) <= i32::MAX,
    ensures
        o.0 == spec_cell_origin(i as int, rows as int, scale as int).0,
        o.1 == spec_cell_origin(i as int, rows as int, scale as int).1,
{
    let col = i / rows;
    let row = i % rows;
    let cw = cell_width(scale);
    let ch = cell_height(scale);
    assert(col <= col * cw) by (nonlinear_arith)
        requires
            cw >= 1,
            col >= 0,
    ;
    assert(row * ch <= (rows - 1) * ch) by (nonlinear_arith)
        requires
            row <= rows - 1,
            ch >= 0,
            row >= 0,
    ;
    assert(row <= row * ch) by (nonlinear_arith)
        requires
            ch >= 1,
            row >= 0,
    ;
    ((col as i32) * cw, (row as i32) * ch)
}

/// A click anywhere inside the cell where the grid draws entry `i` (column
/// `i / rows`, row `i % rows`) selects entry `i`.
pub proof fn lemma_click_in_cell_selects_entry(
    i: usize,
    rows: usize,
    len: usize,
    scale: isize,
    x: i32,
    y: i32,
)
    requires
        1 <= scale,
        1 <= rows,
        i < len,
        i <= i32::MAX,
        spec_cell_origin(i as int, rows as int, scale as int).0 <= x < spec_cell_origin(
            i as int,
            rows as int,
            scale as int,
        ).0 + 96 * scale,
        spec_cell_origin(i as int, rows as int, scale as int).1 <= y < spec_cell_origin(
            i as int,
            rows as int,
            scale as int,
        ).1 + 88 * scale,
    ensures
        spec_cell_at(x, y, rows, len, scale) == i,
{
    let cw = 96 * scale as int;
    let ch = 88 * scale as int;
    let col = i as int / rows as int;
    let row = i as int % rows as int;
    assert(0 <= row < rows) by (nonlinear_arith)
        requires
            rows >= 1,
            row == i as int % rows as int,
    ;
    assert(col >= 0) by (nonlinear_arith)
        requires
            rows >= 1,
            i >= 0,
            col == i as int / rows as int,
    ;
    assert(col * cw >= 0) by (nonlinear_arith)
        requires
            col >= 0,
            cw >= 0,
    ;
    assert(row * ch >= 0) by (nonlinear_arith)
        requires
            row >= 0,
            ch >= 0,
    ;
    assert((x as int) / cw == col) by (nonlinear_arith)
        requires
            cw > 0,
            col * cw <= x < col * cw + cw,
    {
        vstd::arithmetic::div_mod::lemma_fundamental_div_mod_converse(
            x as int,
            cw,
            col,
            x - col * cw,
        );
    }
    assert((y as int) / ch == row) by (nonlinear_arith)
        requires
            ch > 0,
            row * ch <= y < row * ch + ch,
    {
        vstd::arithmetic::div_mod::lemma_fundamental_div_mod_converse(
            y as int,
            ch,
            row,
            y - row * ch,
        );
    }
    assert(col * rows + row == i) by (nonlinear_arith)
        requires
            rows >= 1,
            col == i as int / rows as int,
            row == i as int % rows as int,
    ;
}

/// Layout of the desktop icon grid on a display.
#[derive(Clone, Copy, Debug, PartialEq, Eq)]
pub struct DesktopLayout {
    pub rows: usize,
    pub cols: usize,
    /// How many entries are shown: the rest do not fit.
    pub shown: usize,
}

pub open spec fn max1(v: int) -> int {
    if v < 1 { 1 } else { v }
}

pub open spec fn min_int(a: int, b: int) -> int {
    if a < b { a } else { b }
}

/// Division that truncates toward zero, as Rust's `/` on `i32` does.
pub open spec fn trunc_div(a: int, b: int) -> int {
    if a >= 0 { a / b } else { -((-a) / b) }
}

pub open spec fn spec_max_rows(display_h: u32) -> int {
    let scale = spec_scale(display_h);
    max1(trunc_div(((display_h as i32) as int * 7) / 10 - 16 * scale, 88 * scale))
}

pub open spec fn spec_max_cols(display_w: u32, display_h: u32) -> int {
    let scale = spec_scale(display_h);
    max1(trunc_div((display_w as i32) as int - 32 * scale, 96 * scale))
}

/// The grid of the desktop: as many rows as fit in 70% of the height (at
/// least one, at most one per entry), then as many columns as the entries
/// need and the width allows.
pub open spec fn spec_desktop_layout(display_w: u32, display_h: u32, n: usize) -> DesktopLayout {
    let rows = min_int(spec_max_rows(display_h), max1(n as int));
    let cols = min_int(max1((n + rows - 1) / rows), spec_max_cols(display_w, display_h));
    DesktopLayout {
        rows: rows as usize,
        cols: cols as usize,
        shown: min_int(n as int, rows * cols) as usize,
    }
}

/// Lays out `n` desktop entries on a display of the given size.
pub fn desktop_layout(display_w: u32, display_h: u32, n: usize) -> (l: DesktopLayout)
    requires
        i32::MIN <= (display_h as i32) as int * 7 <= i32::MAX,
        i32::MIN <= (display_w as i32) as int - 32 * spec_scale(display_h),
        n <= usize::MAX / 2,
    ensures
        l == spec_desktop_layout(display_w, display_h, n),
        l.rows >= 1,
        l.cols >= 1,
        l.shown <= n,
        l.shown <= l.rows * l.cols,
{
    let scale = scale_for_display_height(display_h);
    let pad = cell_pad(scale);
    let usable_h = ((display_h as i32) * 7) / 10;
    let mut max_rows_i = (usable_h - 2 * pad) / cell_height(scale);
    if max_rows_i < 1 {
        max_rows_i = 1;
    }
    let max_rows = max_rows_i as usize;
    let n1 = if n < 1 { 1 } else { n };
    let rows = if max_rows < n1 { max_rows } else { n1 };
    let mut max_cols_i = ((display_w as i32) - 4 * pad) / cell_width(scale);
    if max_cols_i < 1 {
        max_cols_i = 1;
    }
    let max_cols = max_cols_i as usize;
    assert(n / rows <= n) by (nonlinear_arith)
        requires
            rows >= 1,
    ;
    let need = n / rows + if n % rows == 0 { 0 } else { 1 };
    let need1 = if need < 1 { 1 } else { need };
    let cols = if need1 < max_cols { need1 } else { max_cols };
    assert(rows * cols <= rows * need1) by (nonlinear_arith)
        requires
            cols <= need1,
    ;
    assert(rows * need1 <= n + rows) by (nonlinear_arith)
        requires
            rows >= 1,
            need1 >= 1,
            need == n / rows + if n % rows == 0 { 0int } else { 1int },
            need1 == if need < 1 { 1 } else { need },
            rows <= n || n == 0,
    {
        if n == 0 {
        } else {
            assert(n == rows * (n / rows) + n % rows);
        }
    }
    assert((n + rows - 1) / (rows as int) == need) by (nonlinear_arith)
        requires
            rows >= 1,
            need == n / rows + if n % rows == 0 { 0int } else { 1int },
    ;
    let shown = if n > rows * cols { rows * cols } else { n };
    DesktopLayout { rows, cols, shown }
}


proof fn lemma_trunc_div_fits(a: int, c: int)
    requires
        c > 0,
    ensures
        trunc_div(a, c) >= 1 ==> a >= c && trunc_div(a, c) * c <= a && (trunc_div(a, c) + 1) * c
            > a,
        trunc_div(a, c) < 1 ==> a < c,
{
    if a >= 0 {
        vstd::arithmetic::div_mod::lemma_fundamental_div_mod(a, c);
        vstd::arithmetic::div_mod::lemma_mod_bound(a, c);
        assert(a == c * (a / c) + a % c);
        assert((a / c) * c <= a && (a / c + 1) * c > a) by (nonlinear_arith)
            requires
                a == c * (a / c) + a % c,
                0 <= a % c < c,
        ;
        if a >= c {
            assert(a / c >= 1) by (nonlinear_arith)
                requires
                    a == c * (a / c) + a % c,
                    0 <= a % c < c,
                    a >= c,
            ;
        }
        if a / c >= 1 {
            assert(a >= c) by (nonlinear_arith)
                requires
                    a == c * (a / c) + a % c,
                    0 <= a % c,
                    a / c >= 1,
                    c > 0,
            ;
        }
    } else {
        vstd::arithmetic::div_mod::lemma_div_pos_is_pos(-a, c);
    }
}

/// The desktop grid fits the display at the display's own scale `s`
/// (`display_h / 1600 + 1`): rows of `48s + 16s + 3 * 8s` pixels (icon,
/// label, paddings) fill at most 70% of the height less two paddings, and
/// as many rows are used as fit there (or as there are entries); columns of
/// `2 * 48s` pixels fill at most the width less four paddings, as many as
/// fit or as the entries need; and every entry that fits is shown.
pub proof fn lemma_desktop_layout_fits(display_w: u32, display_h: u32, n: usize)
    requires
        display_h as int * 7 <= i32::MAX,
        display_w <= i32::MAX,
    ensures
        ({
            let l = spec_desktop_layout(display_w, display_h, n);
            let s = display_h / 1600 + 1;
            let row_h = 48 * s + 16 * s + 3 * (8 * s);
            let avail_h = (display_h * 7) / 10 - 2 * (8 * s);
            let col_w = 2 * (48 * s);
            let avail_w = display_w - 4 * (8 * s);
            &&& 1 <= l.rows
            &&& 1 <= l.cols
            &&& l.rows > 1 ==> l.rows * row_h <= avail_h
            &&& l.rows < n ==> (l.rows + 1) * row_h > avail_h
            &&& l.rows <= n || l.rows == 1
            &&& l.cols > 1 ==> l.cols * col_w <= avail_w
            &&& l.cols > 1 ==> (l.cols - 1) * l.rows < n
            &&& l.rows * l.cols < n ==> (l.cols + 1) * col_w > avail_w
            &&& l.shown == (if n < l.rows * l.cols { n as int } else { l.rows * l.cols })
        }),
{
    let s = display_h / 1600 + 1;
    assert(spec_scale(display_h) == s);
    assert((display_h as i32) as int == display_h);
    let a = (display_h * 7) / 10 - 16 * s;
    let r = 88 * s;
    let w = display_w - 32 * s;
    let cw = 96 * s;
    lemma_trunc_div_fits(a, r);
    lemma_trunc_div_fits(w, cw);
    let x = max1(trunc_div(a, r));
    let rows = min_int(x, max1(n as int));
    assert(rows == spec_max_rows(display_h) || rows == max1(n as int));
    let need = max1((n + rows - 1) / rows);
    let c = max1(trunc_div(w, cw));
    let cols = min_int(need, c);
    let l = spec_desktop_layout(display_w, display_h, n);
    assert(l.rows == rows && l.cols == cols);
    assert(rows >= 1 && cols >= 1);
    if rows > 1 {
        assert(rows <= trunc_div(a, r));
        assert(rows * r <= a) by (nonlinear_arith)
            requires
                rows <= trunc_div(a, r),
                trunc_div(a, r) * r <= a,
                r > 0,
        ;
    }
    if rows < n {
        assert(rows == x);
    }
    if cols > 1 {
        assert(cols <= trunc_div(w, cw));
        assert(cols * cw <= w) by (nonlinear_arith)
            requires
                cols <= trunc_div(w, cw),
                trunc_div(w, cw) * cw <= w,
                cw > 0,
        ;
        assert(cols <= (n + rows - 1) / rows);
        assert((cols - 1) * rows < n) by (nonlinear_arith)
            requires
                cols <= (n + rows - 1) / rows,
                rows >= 1,
                n >= 0,
        {
            vstd::arithmetic::div_mod::lemma_fundamental_div_mod(n + rows - 1, rows);
            vstd::arithmetic::div_mod::lemma_mod_bound(n + rows - 1, rows);
        }
    }
    if rows * cols < n {
        if cols == need {
            assert(need >= (n + rows - 1) / rows);
            assert(need * rows >= n) by (nonlinear_arith)
                requires
                    need >= (n + rows - 1) / rows,
                    rows >= 1,
                    n >= 0,
            {
                vstd::arithmetic::div_mod::lemma_fundamental_div_mod(n + rows - 1, rows);
                vstd::arithmetic::div_mod::lemma_mod_bound(n + rows - 1, rows);
            }
            assert(rows * cols == need * rows) by (nonlinear_arith)
                requires
                    cols == need,
            ;
        }
        assert(cols == c);
    }
    let row_h = 48 * s + 16 * s + 3 * (8 * s);
    let avail_h = (display_h * 7) / 10 - 2 * (8 * s);
    let col_w = 2 * (48 * s);
    let avail_w = display_w - 4 * (8 * s);
    assert(row_h == r && avail_h == a && col_w == cw && avail_w == w);
    assert(l.rows > 1 ==> l.rows * row_h <= avail_h);
    assert(l.rows < n ==> (l.rows + 1) * row_h > avail_h);
    assert(l.rows <= n || l.rows == 1);
    assert(l.cols > 1 ==> l.cols * col_w <= avail_w);
    assert(l.cols > 1 ==> (l.cols - 1) * l.rows < n);
    assert(l.rows * l.cols < n ==> (l.cols + 1) * col_w > avail_w);
    assert(l.shown == (if n < l.rows * l.cols { n as int } else { l.rows * l.cols }));
}

} // verus!
