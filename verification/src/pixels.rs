//! Pixel buffers of the animated wallpaper: restoring damaged tiles from the
//! static base image, blending particle sprites, and composing the base
//! image from the scaled wallpaper.

use vstd::prelude::*;

use crate::blend::{blend, blend_pixel, pack, rgb};
use crate::tiles::{grid_wf, lemma_tile_index, TILE};

verus! {

/// Pixel `p` of a buffer `w` pixels wide lies in the rectangle
/// `(x, y, rw, rh)`.
pub open spec fn in_rect(p: int, w: int, x: int, y: int, rw: int, rh: int) -> bool {
    y <= p / w < y + rh && x <= p % w < x + rw
}

/// Row `row`, column `col` of a buffer `w` wide is pixel `row * w + col`.
proof fn lemma_pixel(row: int, col: int, w: int, rows: int)
    requires
        0 <= col < w,
        0 <= row < rows,
    ensures
        (row * w + col) / w == row,
        (row * w + col) % w == col,
        0 <= row * w + col < rows * w,
{
    lemma_tile_index(row, col, w);
    assert(0 <= row * w + col < rows * w) by (nonlinear_arith)
        requires
            0 <= col < w,
            0 <= row < rows,
    ;
}

/// Two pixels with the same row and column are the same pixel.
proof fn lemma_pixel_unique(p: int, w: int)
    requires
        w > 0,
    ensures
        p == (p / w) * w + p % w,
{
    vstd::arithmetic::div_mod::lemma_fundamental_div_mod(p, w);
    vstd::arithmetic::mul::lemma_mul_is_commutative(w, p / w);
}

/// Copies the rectangle `(x, y, rw, rh)` of `base` into `data`, both
/// `w` pixels wide.
pub fn copy_rect(data: &mut [u32], base: &[u32], w: i32, x: i32, y: i32, rw: i32, rh: i32)
    requires
        0 <= x,
        0 <= y,
        0 <= rw,
        0 <= rh,
        x + rw <= w,
        (y + rh) * w <= i32::MAX,
        (y + rh) * w <= old(data)@.len(),
        (y + rh) * w <= base@.len(),
    ensures
        final(data)@.len() == old(data)@.len(),
        forall|p: int|
            0 <= p < old(data)@.len() ==> #[trigger] final(data)@[p] == if in_rect(
                p,
                w as int,
                x as int,
                y as int,
                rw as int,
                rh as int,
            ) {
                base@[p]
            } else {
                old(data)@[p]
            },
{
    let ghost d0 = data@;
    if rw == 0 || rh == 0 {
        return;
    }
    assert(y + rh <= i32::MAX) by (nonlinear_arith)
        requires
            (y + rh) * w <= i32::MAX,
            w >= 1,
            y + rh >= 0,
    ;
    let mut row = y;
    while row < y + rh
        invariant
            y + rh <= i32::MAX,
            0 <= x,
            0 <= y <= row <= y + rh,
            0 < rw,
            x + rw <= w,
            (y + rh) * w <= i32::MAX,
            (y + rh) * w <= d0.len(),
            (y + rh) * w <= base@.len(),
            data@.len() == d0.len(),
            forall|p: int|
                0 <= p < d0.len() ==> #[trigger] data@[p] == if y <= p / (w as int) < row && x <= p
                    % (w as int) < x + rw {
                    base@[p]
                } else {
                    d0[p]
                },
        decreases y + rh - row,
    {
        let mut col = x;
        while col < x + rw
            invariant
                y + rh <= i32::MAX,
                0 <= x <= col <= x + rw,
                0 <= y <= row < y + rh,
                0 < rw,
                x + rw <= w,
                (y + rh) * w <= i32::MAX,
                (y + rh) * w <= d0.len(),
                (y + rh) * w <= base@.len(),
                data@.len() == d0.len(),
                forall|p: int|
                    0 <= p < d0.len() ==> #[trigger] data@[p] == if (y <= p / (w as int) < row && x
                        <= p % (w as int) < x + rw) || (p / (w as int) == row && x <= p % (w as int)
                        < col) {
                        base@[p]
                    } else {
                        d0[p]
                    },
            decreases x + rw - col,
        {
            proof {
                lemma_pixel(row as int, col as int, w as int, (y + rh) as int);
            }
            let o = (row * w + col) as usize;
            let ghost before = data@;
            data[o] = base[o];
            proof {
                assert forall|p: int|
                    0 <= p < d0.len() && #[trigger] (p / (w as int)) == row && p % (w as int) == col
                        implies p == o by {
                    lemma_pixel_unique(p, w as int);
                }
            }
            col = col + 1;
        }
        row = row + 1;
    }
}

/// End (exclusive) of the run of dirty tiles in the tile row starting at
/// flag `row0`, from tile `tx` on.
pub open spec fn run_end(d: Seq<bool>, row0: int, tiles_x: int, tx: int) -> int
    decreases tiles_x - tx,
{
    if tx < tiles_x && d[row0 + tx] {
        run_end(d, row0, tiles_x, tx + 1)
    } else {
        tx
    }
}

pub proof fn lemma_run_end(d: Seq<bool>, row0: int, tiles_x: int, tx: int)
    requires
        tx <= tiles_x,
    ensures
        tx <= run_end(d, row0, tiles_x, tx) <= tiles_x,
        forall|t: int| tx <= t < run_end(d, row0, tiles_x, tx) ==> #[trigger] d[row0 + t],
        run_end(d, row0, tiles_x, tx) < tiles_x ==> !d[row0 + run_end(d, row0, tiles_x, tx)],
    decreases tiles_x - tx,
{
    if tx < tiles_x && d[row0 + tx] {
        lemma_run_end(d, row0, tiles_x, tx + 1);
    }
}

/// The runs `(start, end)` of dirty tiles in a tile row, from tile `tx` on,
/// left to right.
pub open spec fn row_runs(d: Seq<bool>, row0: int, tiles_x: int, tx: int) -> Seq<(int, int)>
    decreases tiles_x - tx,
{
    if tx >= tiles_x {
        seq![]
    } else if !d[row0 + tx] {
        row_runs(d, row0, tiles_x, tx + 1)
    } else {
        let e = run_end(d, row0, tiles_x, tx + 1);
        proof {
            lemma_run_end(d, row0, tiles_x, tx + 1);
        }
        seq![(tx, e)] + row_runs(d, row0, tiles_x, e)
    }
}

/// The screen rectangle of a run of tiles in tile row `ty`, clipped to a
/// `w` x `h` screen.
pub open spec fn run_rect(run: (int, int), ty: int, w: int, h: int) -> (i32, i32, u32, u32) {
    let x = run.0 * 32;
    let y = ty * 32;
    let rw = if (run.1 - run.0) * 32 < w - x { (run.1 - run.0) * 32 } else { w - x };
    let rh = if 32 < h - y { 32 } else { h - y };
    (x as i32, y as i32, rw as u32, rh as u32)
}

/// The damage rectangles of tile rows `ty` and below: each row's runs of
/// dirty tiles, left to right, rows top to bottom.
pub open spec fn dirty_rects(d: Seq<bool>, tiles_x: int, tiles_y: int, w: int, h: int, ty: int) -> Seq<
    (i32, i32, u32, u32),
>
    decreases tiles_y - ty,
{
    if ty >= tiles_y {
        seq![]
    } else {
        row_runs(d, ty * tiles_x, tiles_x, 0).map_values(|r: (int, int)| run_rect(r, ty, w, h))
            + dirty_rects(d, tiles_x, tiles_y, w, h, ty + 1)
    }
}

/// The flag of the tile that holds pixel `p` of a buffer `w` wide.
pub open spec fn pixel_tile(p: int, w: int, tiles_x: int) -> int {
    ((p / w) / 32) * tiles_x + (p % w) / 32
}

/// The buffer after the pixels of dirty tiles are copied from `base`.
pub open spec fn restored(old: Seq<u32>, base: Seq<u32>, d: Seq<bool>, tiles_x: int, w: int, h: int) -> Seq<
    u32,
> {
    Seq::new(
        old.len(),
        |p: int|
            if p < w * h && d[pixel_tile(p, w, tiles_x)] {
                base[p]
            } else {
                old[p]
            },
    )
}

/// The rest of the damage rectangles when the scan stands at tile `tx` of
/// tile row `ty`.
pub open spec fn rects_from(d: Seq<bool>, tiles_x: int, tiles_y: int, w: int, h: int, ty: int, tx: int) -> Seq<
    (i32, i32, u32, u32),
> {
    row_runs(d, ty * tiles_x, tiles_x, tx).map_values(|r: (int, int)| run_rect(r, ty, w, h))
        + dirty_rects(d, tiles_x, tiles_y, w, h, ty + 1)
}

/// Pixel `p` lies on a tile that the scan has passed.
pub open spec fn passed(p: int, w: int, ty: int, tx: int) -> bool {
    (p / w) / 32 < ty || ((p / w) / 32 == ty && (p % w) / 32 < tx)
}

proof fn lemma_pixel_tile_bounds(p: int, w: int, h: int, tiles_x: int, len: nat)
    requires
        grid_wf(len, tiles_x, w, h),
        0 <= p < w * h,
    ensures
        0 <= p / w < h,
        0 <= p % w < w,
        0 <= (p / w) / 32 < (h + 31) / 32,
        0 <= (p % w) / 32 < tiles_x,
        0 <= pixel_tile(p, w, tiles_x) < len,
{
    assert(w > 0) by (nonlinear_arith)
        requires
            0 <= p < w * h,
            0 <= h,
    ;
    lemma_row_of_pixel(p, w, h);
    let r = (p / w) / 32;
    let c = (p % w) / 32;
    assert(r * tiles_x + c < len) by (nonlinear_arith)
        requires
            0 <= r < (h + 31) / 32,
            0 <= c < tiles_x,
            len == tiles_x * ((h + 31) / 32),
    ;
    assert(0 <= r * tiles_x + c) by (nonlinear_arith)
        requires
            0 <= r,
            0 <= c,
            tiles_x >= 0,
    ;
}

/// Restores the pixels of every dirty tile from the base image and returns
/// the damage rectangles to send to the display server; `None`, with
/// nothing changed, while a buffer is smaller than the screen (mid-resize).
pub fn restore_dirty_tiles(
    data: &mut [u32],
    base: &[u32],
    dirty: &Vec<bool>,
    tiles_x: i32,
    tiles_y: i32,
    width: i32,
    height: i32,
) -> (r: Option<Vec<(i32, i32, u32, u32)>>)
    requires
        grid_wf(dirty@.len(), tiles_x as int, width as int, height as int),
        tiles_y == (height + 31) / 32,
        width * height <= i32::MAX,
    ensures
        match r {
            None => {
                &&& final(data)@ == old(data)@
                &&& (old(data)@.len() < width * height || base@.len() < width * height)
            },
            Some(rects) => {
                &&& old(data)@.len() >= width * height
                &&& base@.len() >= width * height
                &&& rects@ == dirty_rects(
                    dirty@,
                    tiles_x as int,
                    tiles_y as int,
                    width as int,
                    height as int,
                    0,
                )
                &&& final(data)@ == restored(
                    old(data)@,
                    base@,
                    dirty@,
                    tiles_x as int,
                    width as int,
                    height as int,
                )
            },
        },
{
    if data.len() < (width * height) as usize || base.len() < (width * height) as usize {
        return None;
    }
    let ghost d = dirty@;
    let ghost d0 = data@;
    let ghost w = width as int;
    let ghost h = height as int;
    let ghost tx_n = tiles_x as int;
    let ghost ty_n = tiles_y as int;
    let mut rects: Vec<(i32, i32, u32, u32)> = Vec::new();
    let mut ty: i32 = 0;
    proof {
        assert(rects@ + dirty_rects(d, tx_n, ty_n, w, h, 0) =~= dirty_rects(d, tx_n, ty_n, w, h, 0));
    }
    while ty < tiles_y
        invariant
            grid_wf(d.len(), tx_n, w, h),
            d == dirty@,
            w == width,
            h == height,
            tx_n == tiles_x,
            ty_n == tiles_y,
            tiles_y == (height + 31) / 32,
            width * height <= i32::MAX,
            d0.len() >= w * h,
            base@.len() >= w * h,
            0 <= ty <= tiles_y,
            data@.len() == d0.len(),
            dirty_rects(d, tx_n, ty_n, w, h, 0) == rects@ + dirty_rects(d, tx_n, ty_n, w, h, ty as int),
            forall|p: int|
                0 <= p < d0.len() ==> #[trigger] data@[p] == if p < w * h && passed(p, w, ty as int, 0)
                    && d[pixel_tile(p, w, tx_n)] {
                    base@[p]
                } else {
                    d0[p]
                },
        decreases tiles_y - ty,
    {
        let mut tx: i32 = 0;
        assert(0 <= ty * tiles_x && ty * tiles_x + tiles_x <= d.len()) by (nonlinear_arith)
            requires
                0 <= ty < ty_n,
                d.len() == tx_n * ty_n,
                tx_n >= 0,
                tx_n == tiles_x,
        ;
        let row0 = ty * tiles_x;
        proof {
            assert(rects_from(d, tx_n, ty_n, w, h, ty as int, 0) == dirty_rects(
                d,
                tx_n,
                ty_n,
                w,
                h,
                ty as int,
            ));
            assert forall|p: int| 0 <= p < w * h implies #[trigger] passed(p, w, ty as int, 0)
                == ((p / w) / 32 < ty) by {
                lemma_pixel_tile_bounds(p, w, h, tx_n, d.len());
            }
        }
        while tx < tiles_x
            invariant
                grid_wf(d.len(), tx_n, w, h),
                d == dirty@,
                w == width,
                h == height,
                tx_n == tiles_x,
                ty_n == tiles_y,
                tiles_y == (height + 31) / 32,
                width * height <= i32::MAX,
                d0.len() >= w * h,
                base@.len() >= w * h,
                0 <= ty < tiles_y,
                0 <= tx <= tiles_x,
                row0 == ty * tiles_x,
                0 <= row0,
                row0 + tiles_x <= d.len(),
                data@.len() == d0.len(),
                dirty_rects(d, tx_n, ty_n, w, h, 0) == rects@ + rects_from(
                    d,
                    tx_n,
                    ty_n,
                    w,
                    h,
                    ty as int,
                    tx as int,
                ),
                forall|p: int|
                    0 <= p < d0.len() ==> #[trigger] data@[p] == if p < w * h && passed(
                        p,
                        w,
                        ty as int,
                        tx as int,
                    ) && d[pixel_tile(p, w, tx_n)] {
                        base@[p]
                    } else {
                        d0[p]
                    },
            decreases tiles_x - tx,
        {
            if !dirty[(row0 + tx) as usize] {
                proof {
                    assert(rects_from(d, tx_n, ty_n, w, h, ty as int, tx as int) == rects_from(
                        d,
                        tx_n,
                        ty_n,
                        w,
                        h,
                        ty as int,
                        tx + 1,
                    ));
                    assert forall|p: int| 0 <= p < w * h implies (#[trigger] passed(
                        p,
                        w,
                        ty as int,
                        tx + 1,
                    ) && d[pixel_tile(p, w, tx_n)]) == (passed(p, w, ty as int, tx as int)
                        && d[pixel_tile(p, w, tx_n)]) by {}
                }
                tx = tx + 1;
            } else {
                let start = tx;
                while tx < tiles_x && dirty[(row0 + tx) as usize]
                    invariant
                        0 <= row0,
                        d.len() <= i32::MAX,
                        0 <= start < tiles_x,
                        start <= tx <= tiles_x,
                        row0 + tiles_x <= d.len(),
                        d == dirty@,
                        tx_n == tiles_x,
                        run_end(d, row0 as int, tx_n, start + 1) == run_end(
                            d,
                            row0 as int,
                            tx_n,
                            if tx <= start { start + 1 } else { tx as int },
                        ),
                        d[row0 + start],
                    decreases tiles_x - tx,
                {
                    tx = tx + 1;
                }
                proof {
                    lemma_run_end(d, row0 as int, tx_n, start + 1);
                }
                let x = start * TILE;
                let y = ty * TILE;
                let rw = if (tx - start) * TILE < width - x {
                    (tx - start) * TILE
                } else {
                    width - x
                };
                let rh = if TILE < height - y {
                    TILE
                } else {
                    height - y
                };
                proof {
                    lemma_run_rect_bounds(w, h, tx_n, ty_n, ty as int, start as int, tx as int);
                }
                assert(rw >= 0 && rh >= 0 && x + rw <= width);
                let ghost before = data@;
                let ghost old_rects = rects@;
                copy_rect(data, base, width, x, y, rw, rh);
                rects.push((x, y, rw as u32, rh as u32));
                assert(run_rect((start as int, tx as int), ty as int, w, h) == (x, y, rw as u32, rh as u32));
                proof {
                    lemma_copy_run(
                        d,
                        d0,
                        before,
                        data@,
                        base@,
                        tx_n,
                        ty_n,
                        w,
                        h,
                        ty as int,
                        start as int,
                        tx as int,
                    );
                    assert(old_rects.push((x, y, rw as u32, rh as u32)) + rects_from(
                        d,
                        tx_n,
                        ty_n,
                        w,
                        h,
                        ty as int,
                        tx as int,
                    ) =~= old_rects + (seq![run_rect((start as int, tx as int), ty as int, w, h)]
                        + rects_from(d, tx_n, ty_n, w, h, ty as int, tx as int)));
                }
            }
        }
        proof {
            lemma_next_row(d, d0, data@, base@, tx_n, ty_n, w, h, ty as int);
        }
        ty = ty + 1;
    }
    proof {
        assert(dirty_rects(d, tx_n, ty_n, w, h, ty as int) =~= Seq::empty());
        assert(rects@ + Seq::<(i32, i32, u32, u32)>::empty() =~= rects@);
        assert forall|p: int| 0 <= p < d0.len() implies data@[p] == restored(
            d0,
            base@,
            d,
            tx_n,
            w,
            h,
        )[p] by {
            if p < w * h {
                lemma_pixel_tile_bounds(p, w, h, tx_n, d.len());
            }
        }
        assert(data@ =~= restored(d0, base@, d, tx_n, w, h));
    }
    Some(rects)
}

/// The bounds that make the rectangle of run `[start, e)` of tile row `ty`
/// a valid argument of `copy_rect`.
proof fn lemma_run_rect_bounds(w: int, h: int, tx_n: int, ty_n: int, ty: int, start: int, e: int)
    requires
        grid_wf((tx_n * ty_n) as nat, tx_n, w, h),
        ty_n == (h + 31) / 32,
        w * h <= i32::MAX,
        0 <= ty < ty_n,
        0 <= start < e <= tx_n,
    ensures
        0 <= start * 32 < w,
        0 <= ty * 32 < h,
        (e - start) * 32 <= i32::MAX,
        ({
            let y = ty * 32;
            let rh = if 32 < h - y { 32 } else { h - y };
            (y + rh) * w <= w * h
        }),
{
    let y = ty * 32;
    let rh = if 32 < h - y { 32 } else { h - y };
    assert((y + rh) * w <= w * h) by (nonlinear_arith)
        requires
            y + rh <= h,
            w >= 0,
    ;
}

/// A pixel of a buffer `w` wide beyond the first `h` rows is beyond the
/// first `w * h` pixels, and back.
proof fn lemma_row_of_pixel(p: int, w: int, h: int)
    requires
        w > 0,
        h >= 0,
        p >= 0,
    ensures
        p < w * h <==> p / w < h,
        p / w >= 0,
        0 <= p % w < w,
{
    lemma_pixel_unique(p, w);
    vstd::arithmetic::div_mod::lemma_mod_bound(p, w);
    vstd::arithmetic::div_mod::lemma_div_pos_is_pos(p, w);
    assert(p < w * h <==> p / w < h) by (nonlinear_arith)
        requires
            p == (p / w) * w + p % w,
            0 <= p % w < w,
            w > 0,
    ;
}

/// After the run `[start, e)` of dirty tiles in tile row `ty` is copied,
/// the scan stands at tile `e` with one more damage rectangle.
proof fn lemma_copy_run(
    d: Seq<bool>,
    d0: Seq<u32>,
    before: Seq<u32>,
    after: Seq<u32>,
    base: Seq<u32>,
    tx_n: int,
    ty_n: int,
    w: int,
    h: int,
    ty: int,
    start: int,
    e: int,
)
    requires
        grid_wf(d.len(), tx_n, w, h),
        ty_n == (h + 31) / 32,
        0 <= ty < ty_n,
        0 <= start < e <= tx_n,
        e == run_end(d, ty * tx_n, tx_n, start + 1),
        d[ty * tx_n + start],
        before.len() == d0.len(),
        after.len() == d0.len(),
        d0.len() >= w * h,
        forall|p: int|
            0 <= p < d0.len() ==> #[trigger] before[p] == if p < w * h && passed(p, w, ty, start)
                && d[pixel_tile(p, w, tx_n)] {
                base[p]
            } else {
                d0[p]
            },
        forall|p: int|
            0 <= p < d0.len() ==> #[trigger] after[p] == if in_rect(
                p,
                w,
                start * 32,
                ty * 32,
                if (e - start) * 32 < w - start * 32 {
                    (e - start) * 32
                } else {
                    w - start * 32
                },
                if 32 < h - ty * 32 {
                    32
                } else {
                    h - ty * 32
                },
            ) {
                base[p]
            } else {
                before[p]
            },
    ensures
        forall|p: int|
            0 <= p < d0.len() ==> #[trigger] after[p] == if p < w * h && passed(p, w, ty, e)
                && d[pixel_tile(p, w, tx_n)] {
                base[p]
            } else {
                d0[p]
            },
        rects_from(d, tx_n, ty_n, w, h, ty, start) == seq![run_rect((start, e), ty, w, h)]
            + rects_from(d, tx_n, ty_n, w, h, ty, e),
{
    let row0 = ty * tx_n;
    lemma_run_end(d, row0, tx_n, start + 1);
    assert forall|p: int| 0 <= p < d0.len() implies #[trigger] after[p] == if p < w * h && passed(
        p,
        w,
        ty,
        e,
    ) && d[pixel_tile(p, w, tx_n)] {
        base[p]
    } else {
        d0[p]
    } by {
        assert(w > 0);
        lemma_row_of_pixel(p, w, h);
        let row = p / w;
        let col = p % w;
        if p < w * h {
            assert(pixel_tile(p, w, tx_n) == (row / 32) * tx_n + col / 32);
            if row / 32 == ty && start <= col / 32 < e {
                assert(d[row0 + col / 32]);
            }
        }
    }
    let runs = row_runs(d, row0, tx_n, start);
    assert(runs == seq![(start, e)] + row_runs(d, row0, tx_n, e));
    let f = |r: (int, int)| run_rect(r, ty, w, h);
    assert(runs.map_values(f) =~= seq![run_rect((start, e), ty, w, h)] + row_runs(
        d,
        row0,
        tx_n,
        e,
    ).map_values(f));
}

/// At the end of tile row `ty` the scan stands at the start of the next.
proof fn lemma_next_row(
    d: Seq<bool>,
    d0: Seq<u32>,
    data: Seq<u32>,
    base: Seq<u32>,
    tx_n: int,
    ty_n: int,
    w: int,
    h: int,
    ty: int,
)
    requires
        grid_wf(d.len(), tx_n, w, h),
        ty_n == (h + 31) / 32,
        0 <= ty < ty_n,
        data.len() == d0.len(),
        forall|p: int|
            0 <= p < d0.len() ==> #[trigger] data[p] == if p < w * h && passed(p, w, ty, tx_n)
                && d[pixel_tile(p, w, tx_n)] {
                base[p]
            } else {
                d0[p]
            },
    ensures
        forall|p: int|
            0 <= p < d0.len() ==> #[trigger] data[p] == if p < w * h && passed(p, w, ty + 1, 0)
                && d[pixel_tile(p, w, tx_n)] {
                base[p]
            } else {
                d0[p]
            },
        rects_from(d, tx_n, ty_n, w, h, ty, tx_n) == dirty_rects(d, tx_n, ty_n, w, h, ty + 1),
{
    assert forall|p: int| 0 <= p < d0.len() implies #[trigger] data[p] == if p < w * h && passed(
        p,
        w,
        ty + 1,
        0,
    ) && d[pixel_tile(p, w, tx_n)] {
        base[p]
    } else {
        d0[p]
    } by {
        if p < w * h {
            lemma_pixel_tile_bounds(p, w, h, tx_n, d.len());
        }
    }
    assert(row_runs(d, ty * tx_n, tx_n, tx_n).map_values(|r: (int, int)| run_rect(r, ty, w, h))
        =~= Seq::empty());
    assert(Seq::<(i32, i32, u32, u32)>::empty() + dirty_rects(d, tx_n, ty_n, w, h, ty + 1)
        =~= dirty_rects(d, tx_n, ty_n, w, h, ty + 1));
}

/// A pre-rendered particle image: `w` x `h` packed colours, row by row.
#[derive(Debug)]
pub struct Sprite {
    pub w: i32,
    pub h: i32,
    pub data: Vec<u32>,
}

impl Sprite {
    /// The sprite holds exactly its `w * h` pixels.
    pub open spec fn wf(&self) -> bool {
        &&& 0 <= self.w
        &&& 0 <= self.h
        &&& self.data@.len() == self.w * self.h
        &&& self.w * self.h <= i32::MAX
    }
}

/// The buffer after `spr` is blended over it with its top-left corner at
/// `(px, py)`, clipped to the `w` x `h` screen.
pub open spec fn blended(dst: Seq<u32>, w: int, h: int, spr: Sprite, px: int, py: int) -> Seq<u32> {
    Seq::new(
        dst.len(),
        |p: int|
            if p < w * h && in_rect(p, w, px, py, spr.w as int, spr.h as int) {
                blend_pixel(dst[p], spr.data@[(p / w - py) * spr.w + (p % w - px)])
            } else {
                dst[p]
            },
    )
}

/// Alpha-blends a sprite into the window buffer, clipped at all four edges.
pub fn blend_sprite(dst: &mut [u32], dst_w: i32, dst_h: i32, spr: &Sprite, px: i32, py: i32)
    requires
        spr.wf(),
        0 <= dst_w,
        0 <= dst_h,
        dst_w * dst_h <= i32::MAX,
        dst_w * dst_h <= old(dst)@.len(),
        i32::MIN <= px + spr.w <= i32::MAX,
        i32::MIN <= py + spr.h <= i32::MAX,
    ensures
        final(dst)@ == blended(old(dst)@, dst_w as int, dst_h as int, *spr, px as int, py as int),
{
    let ghost d0 = dst@;
    let ghost w = dst_w as int;
    let ghost h = dst_h as int;
    let x0 = if px < 0 { 0 } else { px };
    let y0 = if py < 0 { 0 } else { py };
    let x1 = if px + spr.w < dst_w { px + spr.w } else { dst_w };
    let y1 = if py + spr.h < dst_h { py + spr.h } else { dst_h };
    if x0 >= x1 || y0 >= y1 {
        proof {
            assert forall|p: int| 0 <= p < d0.len() && p < w * h implies !in_rect(
                p,
                w,
                px as int,
                py as int,
                spr.w as int,
                spr.h as int,
            ) by {
                lemma_row_of_pixel(p, w, h);
            }
        }
        assert(dst@ =~= blended(d0, w, h, *spr, px as int, py as int));
        return;
    }
    assert(y1 * dst_w <= dst_w * dst_h) by (nonlinear_arith)
        requires
            y1 <= dst_h,
            0 <= dst_w,
            0 <= y1,
    ;
    let mut y = y0;
    while y < y1
        invariant
            spr.wf(),
            0 <= x0 < x1 <= dst_w,
            0 <= y0 <= y <= y1 <= dst_h,
            x0 == (if px < 0 { 0 } else { px }),
            y0 == (if py < 0 { 0 } else { py }),
            x1 == (if px + spr.w < dst_w { px + spr.w } else { dst_w as int }),
            y1 == (if py + spr.h < dst_h { py + spr.h } else { dst_h as int }),
            y1 * dst_w <= dst_w * dst_h,
            dst_w * dst_h <= i32::MAX,
            dst_w * dst_h <= d0.len(),
            w == dst_w,
            h == dst_h,
            dst@.len() == d0.len(),
            forall|p: int|
                0 <= p < d0.len() ==> #[trigger] dst@[p] == if y0 <= p / w < y && x0 <= p % w < x1 {
                    blend_pixel(d0[p], spr.data@[(p / w - py) * spr.w + (p % w - px)])
                } else {
                    d0[p]
                },
        decreases y1 - y,
    {
        assert(0 <= (y - py) * spr.w && (y - py) * spr.w + spr.w <= spr.w * spr.h)
            by (nonlinear_arith)
            requires
                0 <= y - py < spr.h,
                0 <= spr.w,
        ;
        assert(0 <= y * dst_w <= y1 * dst_w) by (nonlinear_arith)
            requires
                0 <= y < y1,
                0 <= dst_w,
        ;
        let src_row = (y - py) * spr.w;
        let dst_row = y * dst_w;
        let mut x = x0;
        while x < x1
            invariant
                spr.wf(),
                0 <= x0 <= x <= x1 <= dst_w,
                0 <= y0 <= y < y1 <= dst_h,
                x0 == (if px < 0 { 0 } else { px }),
                y0 == (if py < 0 { 0 } else { py }),
                x1 == (if px + spr.w < dst_w { px + spr.w } else { dst_w as int }),
                y1 == (if py + spr.h < dst_h { py + spr.h } else { dst_h as int }),
                y1 * dst_w <= dst_w * dst_h,
                dst_w * dst_h <= i32::MAX,
                dst_w * dst_h <= d0.len(),
                w == dst_w,
                h == dst_h,
                src_row == (y - py) * spr.w,
                0 <= src_row,
                src_row + spr.w <= spr.w * spr.h,
                dst_row == y * dst_w,
                dst@.len() == d0.len(),
                forall|p: int|
                    0 <= p < d0.len() ==> #[trigger] dst@[p] == if (y0 <= p / w < y && x0 <= p % w
                        < x1) || (p / w == y && x0 <= p % w < x) {
                        blend_pixel(d0[p], spr.data@[(p / w - py) * spr.w + (p % w - px)])
                    } else {
                        d0[p]
                    },
            decreases x1 - x,
        {
            proof {
                lemma_pixel(y as int, x as int, w, y1 as int);
            }
            let o = (dst_row + x) as usize;
            let s = spr.data[(src_row + (x - px)) as usize];
            let ghost before = dst@;
            let c = blend(dst[o], s);
            dst[o] = c;
            proof {
                assert(before[o as int] == d0[o as int]);
                assert forall|p: int|
                    0 <= p < d0.len() && #[trigger] (p / w) == y && p % w == x implies p == o by {
                    lemma_pixel_unique(p, w);
                }
            }
            x = x + 1;
        }
        y = y + 1;
    }
    proof {
        assert forall|p: int| 0 <= p < d0.len() implies dst@[p] == blended(
            d0,
            w,
            h,
            *spr,
            px as int,
            py as int,
        )[p] by {
            if w > 0 {
                lemma_row_of_pixel(p, w, h);
            } else {
                assert(w * h == 0);
            }
        }
    }
    assert(dst@ =~= blended(d0, w, h, *spr, px as int, py as int));
}

/// A decoded picture: `width` x `height` packed colours, row by row.
#[derive(Debug)]
pub struct Picture {
    pub width: u32,
    pub height: u32,
    pub data: Vec<u32>,
}

/// The colour behind the wallpaper where the picture does not reach.
pub open spec fn backdrop() -> u32 {
    pack(255, 4, 2, 2)
}

/// Where a picture `iw` x `ih` lands on a `w` x `h` screen, centred: the
/// first column and row taken from the picture, the number of columns and
/// rows taken, and the screen column and row where they go.
pub open spec fn placement(iw: int, ih: int, w: int, h: int) -> (int, int, int, int, int, int) {
    let (crop_x, crop_w) = if iw > w { ((iw - w) / 2, w) } else { (0, iw) };
    let (crop_y, crop_h) = if ih > h { ((ih - h) / 2, h) } else { (0, ih) };
    (crop_x, crop_y, crop_w, crop_h, (w - crop_w) / 2, (h - crop_h) / 2)
}

/// The base image of a `w` x `h` screen: the backdrop colour, with the
/// picture (if it loaded) centred over it and cropped to the screen.
pub open spec fn spec_base(w: int, h: int, picture: Option<Picture>) -> Seq<u32> {
    Seq::new(
        (w * h) as nat,
        |p: int|
            match picture {
                None => backdrop(),
                Some(pic) => {
                    let (cx, cy, cw, ch, dx, dy) = placement(
                        pic.width as int,
                        pic.height as int,
                        w,
                        h,
                    );
                    if in_rect(p, w, dx, dy, cw, ch) {
                        pic.data@[(p / w - dy + cy) * pic.width + (p % w - dx + cx)]
                    } else {
                        backdrop()
                    }
                },
            },
    )
}

/// Copies a `cw` x `ch` block of `src` (`src_w` wide) whose top-left pixel is
/// `(sx, sy)` into `dst` (`dst_w` wide) at `(dx, dy)`.
fn copy_block(
    dst: &mut Vec<u32>,
    dst_w: usize,
    dx: usize,
    dy: usize,
    src: &Vec<u32>,
    src_w: usize,
    sx: usize,
    sy: usize,
    cw: usize,
    ch: usize,
)
    requires
        dx + cw <= dst_w,
        sx + cw <= src_w,
        (dy + ch) * dst_w <= old(dst)@.len(),
        (sy + ch) * src_w <= src@.len(),
    ensures
        final(dst)@.len() == old(dst)@.len(),
        forall|p: int|
            0 <= p < old(dst)@.len() ==> #[trigger] final(dst)@[p] == if in_rect(
                p,
                dst_w as int,
                dx as int,
                dy as int,
                cw as int,
                ch as int,
            ) {
                src@[(p / (dst_w as int) - dy + sy) * src_w + (p % (dst_w as int) - dx + sx)]
            } else {
                old(dst)@[p]
            },
{
    let ghost d0 = dst@;
    let ghost w = dst_w as int;
    if cw == 0 || ch == 0 {
        return;
    }
    let total = dst.len();
    let stotal = src.len();
    assert(dy + ch <= total) by (nonlinear_arith)
        requires
            (dy + ch) * dst_w <= total,
            dst_w >= 1,
    ;
    assert(sy + ch <= stotal) by (nonlinear_arith)
        requires
            (sy + ch) * src_w <= stotal,
            src_w >= 1,
    ;
    let mut row: usize = 0;
    while row < ch
        invariant
            total == d0.len(),
            dy + ch <= total,
            stotal == src@.len(),
            sy + ch <= stotal,
            dx + cw <= dst_w,
            sx + cw <= src_w,
            0 < cw,
            (dy + ch) * dst_w <= d0.len(),
            (sy + ch) * src_w <= src@.len(),
            row <= ch,
            w == dst_w,
            dst@.len() == d0.len(),
            forall|p: int|
                0 <= p < d0.len() ==> #[trigger] dst@[p] == if dy <= p / w < dy + row && dx <= p % w
                    < dx + cw {
                    src@[(p / w - dy + sy) * src_w + (p % w - dx + sx)]
                } else {
                    d0[p]
                },
        decreases ch - row,
    {
        let mut col: usize = 0;
        while col < cw
            invariant
                total == d0.len(),
                dy + ch <= total,
                stotal == src@.len(),
                sy + ch <= stotal,
                dx + cw <= dst_w,
                sx + cw <= src_w,
                (dy + ch) * dst_w <= d0.len(),
                (sy + ch) * src_w <= src@.len(),
                row < ch,
                col <= cw,
                w == dst_w,
                dst@.len() == d0.len(),
                forall|p: int|
                    0 <= p < d0.len() ==> #[trigger] dst@[p] == if (dy <= p / w < dy + row && dx <= p
                        % w < dx + cw) || (p / w == dy + row && dx <= p % w < dx + col) {
                        src@[(p / w - dy + sy) * src_w + (p % w - dx + sx)]
                    } else {
                        d0[p]
                    },
            decreases cw - col,
        {
            proof {
                lemma_pixel((dy + row) as int, (dx + col) as int, w, (dy + ch) as int);
                lemma_pixel((sy + row) as int, (sx + col) as int, src_w as int, (sy + ch) as int);
            }
            assert((dy + row) * dst_w + (dx + col) < d0.len());
            let o = (dy + row) * dst_w + (dx + col);
            assert((sy + row) * src_w + (sx + col) < stotal);
            let v = src[(sy + row) * src_w + (sx + col)];
            dst.set(o, v);
            proof {
                assert forall|p: int|
                    0 <= p < d0.len() && #[trigger] (p / w) == dy + row && p % w == dx + col implies p
                    == o by {
                    lemma_pixel_unique(p, w);
                }
            }
            col = col + 1;
        }
        row = row + 1;
    }
}

/// The base image of a `w` x `h` screen for the wallpaper picture, or for
/// none where the picture failed to load.
pub fn compose_base(w: u32, h: u32, picture: Option<&Picture>) -> (base: Vec<u32>)
    requires
        w * h <= u32::MAX,
        match picture {
            Some(pic) => pic.data@.len() == pic.width * pic.height,
            None => true,
        },
    ensures
        base@ == spec_base(
            w as int,
            h as int,
            match picture {
                Some(pic) => Some(*pic),
                None => None,
            },
        ),
{
    let n = (w * h) as usize;
    let fill = rgb(4, 2, 2);
    let mut base: Vec<u32> = Vec::new();
    let mut i: usize = 0;
    assert(fill == backdrop());
    while i < n
        invariant
            fill == backdrop(),
            i <= n,
            base@.len() == i,
            forall|k: int| 0 <= k < i ==> #[trigger] base@[k] == backdrop(),
        decreases n - i,
    {
        base.push(fill);
        i = i + 1;
    }
    match picture {
        None => {
            assert(base@ =~= spec_base(w as int, h as int, None));
        },
        Some(pic) => {
            let iw = pic.width;
            let ih = pic.height;
            let (crop_x, crop_w) = if iw > w {
                ((iw - w) / 2, w)
            } else {
                (0, iw)
            };
            let (crop_y, crop_h) = if ih > h {
                ((ih - h) / 2, h)
            } else {
                (0, ih)
            };
            let dx = ((w - crop_w) / 2) as usize;
            let dy = ((h - crop_h) / 2) as usize;
            assert((dy + crop_h) * (w as int) <= w * h) by (nonlinear_arith)
                requires
                    dy + crop_h <= h,
            ;
            assert((crop_y + crop_h) * (iw as int) <= iw * ih) by (nonlinear_arith)
                requires
                    crop_y + crop_h <= ih,
            ;
            let ghost b0 = base@;
            copy_block(
                &mut base,
                w as usize,
                dx,
                dy,
                &pic.data,
                iw as usize,
                crop_x as usize,
                crop_y as usize,
                crop_w as usize,
                crop_h as usize,
            );
            assert(base@ =~= spec_base(w as int, h as int, Some(*pic)));
        },
    }
    base
}

} // verus!
