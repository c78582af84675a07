//! What the damage rectangles of a frame cover: exactly the pixels of the
//! dirty tiles, so the display server is told of every pixel the restore
//! changed and of no clean tile.

use vstd::prelude::*;

use crate::pixels::{dirty_rects, lemma_run_end, pixel_tile, restored, row_runs, run_end, run_rect};
use crate::tiles::grid_wf;

verus! {

/// Rectangle `r` covers the screen point `(px, py)`.
pub open spec fn covers(r: (i32, i32, u32, u32), px: int, py: int) -> bool {
    r.0 <= px < r.0 + r.2 && r.1 <= py < r.1 + r.3
}

/// Some rectangle of `rects` covers `(px, py)`.
pub open spec fn damaged(rects: Seq<(i32, i32, u32, u32)>, px: int, py: int) -> bool {
    exists|k: int| 0 <= k < rects.len() && #[trigger] covers(rects[k], px, py)
}

/// The runs of a tile row lie in `[tx, tiles_x)` and hold dirty tiles only.
proof fn lemma_runs_sound(d: Seq<bool>, row0: int, tiles_x: int, tx: int)
    requires
        0 <= tx <= tiles_x,
        0 <= row0,
        row0 + tiles_x <= d.len(),
    ensures
        forall|k: int|
            0 <= k < row_runs(d, row0, tiles_x, tx).len() ==> {
                let r = #[trigger] row_runs(d, row0, tiles_x, tx)[k];
                &&& tx <= r.0 < r.1 <= tiles_x
                &&& forall|t: int| r.0 <= t < r.1 ==> #[trigger] d[row0 + t]
            },
    decreases tiles_x - tx,
{
    if tx < tiles_x {
        if !d[row0 + tx] {
            lemma_runs_sound(d, row0, tiles_x, tx + 1);
            assert(row_runs(d, row0, tiles_x, tx) == row_runs(d, row0, tiles_x, tx + 1));
        } else {
            let e = run_end(d, row0, tiles_x, tx + 1);
            lemma_run_end(d, row0, tiles_x, tx + 1);
            lemma_runs_sound(d, row0, tiles_x, e);
            let rest = row_runs(d, row0, tiles_x, e);
            assert(row_runs(d, row0, tiles_x, tx) == seq![(tx, e)] + rest);
            assert forall|k: int| 0 <= k < row_runs(d, row0, tiles_x, tx).len() implies {
                let r = #[trigger] row_runs(d, row0, tiles_x, tx)[k];
                &&& tx <= r.0 < r.1 <= tiles_x
                &&& forall|t: int| r.0 <= t < r.1 ==> #[trigger] d[row0 + t]
            } by {
                if k > 0 {
                    assert(row_runs(d, row0, tiles_x, tx)[k] == rest[k - 1]);
                } else {
                    assert forall|t: int| tx <= t < e implies #[trigger] d[row0 + t] by {
                        if t > tx {
                            assert(d[row0 + t]);
                        }
                    }
                }
            }
        }
    }
}

/// Every dirty tile from `tx` on lies in one of the runs of its row.
proof fn lemma_runs_complete(d: Seq<bool>, row0: int, tiles_x: int, tx: int, t: int)
    requires
        0 <= tx <= t < tiles_x,
        0 <= row0,
        row0 + tiles_x <= d.len(),
        d[row0 + t],
    ensures
        exists|k: int|
            0 <= k < row_runs(d, row0, tiles_x, tx).len() && (#[trigger] row_runs(
                d,
                row0,
                tiles_x,
                tx,
            )[k]).0 <= t < row_runs(d, row0, tiles_x, tx)[k].1,
    decreases tiles_x - tx,
{
    let runs = row_runs(d, row0, tiles_x, tx);
    if !d[row0 + tx] {
        lemma_runs_complete(d, row0, tiles_x, tx + 1, t);
        assert(runs == row_runs(d, row0, tiles_x, tx + 1));
    } else {
        let e = run_end(d, row0, tiles_x, tx + 1);
        lemma_run_end(d, row0, tiles_x, tx + 1);
        let rest = row_runs(d, row0, tiles_x, e);
        assert(runs == seq![(tx, e)] + rest);
        if t < e {
            assert(runs[0] == (tx, e));
        } else {
            lemma_runs_complete(d, row0, tiles_x, e, t);
            let k = choose|k: int| 0 <= k < rest.len() && (#[trigger] rest[k]).0 <= t < rest[k].1;
            assert(runs[k + 1] == rest[k]);
        }
    }
}

/// The rectangle of a run `[s, e)` of tile row `ty` covers a screen point
/// exactly when the point lies in that tile row and in a tile of the run.
proof fn lemma_run_rect_covers(s: int, e: int, ty: int, w: int, h: int, px: int, py: int)
    requires
        0 <= w <= i32::MAX - 31,
        0 <= h <= i32::MAX - 31,
        0 <= s < e <= (w + 31) / 32,
        0 <= ty < (h + 31) / 32,
        0 <= px < w,
        0 <= py < h,
    ensures
        covers(run_rect((s, e), ty, w, h), px, py) <==> (s <= px / 32 < e && py / 32 == ty),
{
    let r = run_rect((s, e), ty, w, h);
    let x = s * 32;
    let y = ty * 32;
    assert(x < w);
    assert(y < h);
    let rw = if (e - s) * 32 < w - x {
        (e - s) * 32
    } else {
        w - x
    };
    let rh = if 32 < h - y {
        32
    } else {
        h - y
    };
    assert(0 < rw <= w);
    assert(0 < rh <= h);
    assert(r.0 == x && r.1 == y && r.2 == rw && r.3 == rh);
}

/// The damage rectangles of tile rows `ty0` and below cover a screen point
/// exactly when it lies in such a row, on a dirty tile.
proof fn lemma_dirty_rects_cover(
    d: Seq<bool>,
    tiles_x: int,
    tiles_y: int,
    w: int,
    h: int,
    ty0: int,
    px: int,
    py: int,
)
    requires
        grid_wf(d.len(), tiles_x, w, h),
        tiles_y == (h + 31) / 32,
        0 <= ty0 <= tiles_y,
        0 <= px < w,
        0 <= py < h,
    ensures
        damaged(dirty_rects(d, tiles_x, tiles_y, w, h, ty0), px, py) <==> (py / 32 >= ty0 && d[(py
            / 32) * tiles_x + px / 32]),
    decreases tiles_y - ty0,
{
    let rects = dirty_rects(d, tiles_x, tiles_y, w, h, ty0);
    let tx = px / 32;
    let ty = py / 32;
    assert(0 <= tx < tiles_x);
    assert(0 <= ty < tiles_y);
    assert(0 <= ty * tiles_x + tx < d.len()) by (nonlinear_arith)
        requires
            0 <= tx < tiles_x,
            0 <= ty < tiles_y,
            d.len() == tiles_x * tiles_y,
    ;
    if ty0 < tiles_y {
        let row0 = ty0 * tiles_x;
        assert(0 <= row0 && row0 + tiles_x <= d.len()) by (nonlinear_arith)
            requires
                row0 == ty0 * tiles_x,
                0 <= ty0 < tiles_y,
                tiles_x >= 0,
                d.len() == tiles_x * tiles_y,
        ;
        let runs = row_runs(d, row0, tiles_x, 0);
        let here = runs.map_values(|r: (int, int)| run_rect(r, ty0, w, h));
        let rest = dirty_rects(d, tiles_x, tiles_y, w, h, ty0 + 1);
        assert(rects == here + rest);
        lemma_dirty_rects_cover(d, tiles_x, tiles_y, w, h, ty0 + 1, px, py);
        lemma_runs_sound(d, row0, tiles_x, 0);
        if damaged(rects, px, py) {
            let k = choose|k: int| 0 <= k < rects.len() && #[trigger] covers(rects[k], px, py);
            if k < here.len() {
                let run = runs[k];
                assert(here[k] == run_rect(run, ty0, w, h));
                lemma_run_rect_covers(run.0, run.1, ty0, w, h, px, py);
                assert(d[row0 + tx]);
            } else {
                assert(rects[k] == rest[k - here.len()]);
                assert(damaged(rest, px, py));
            }
        }
        if ty >= ty0 && d[ty * tiles_x + tx] {
            if ty == ty0 {
                lemma_runs_complete(d, row0, tiles_x, 0, tx);
                let k = choose|k: int|
                    0 <= k < runs.len() && (#[trigger] runs[k]).0 <= tx < runs[k].1;
                let run = runs[k];
                lemma_run_rect_covers(run.0, run.1, ty0, w, h, px, py);
                assert(rects[k] == here[k]);
                assert(covers(rects[k], px, py));
            } else {
                assert(damaged(rest, px, py));
                let k = choose|k: int| 0 <= k < rest.len() && #[trigger] covers(rest[k], px, py);
                assert(rects[here.len() + k] == rest[k]);
                assert(covers(rects[here.len() + k], px, py));
            }
        }
    }
}

/// The damage sent after a restore is exactly the dirty part of the
/// screen: a screen point lies in a damage rectangle if and only if its
/// tile is dirty, so every pixel the restore changed is reported.
pub proof fn lemma_damage_is_dirty(
    d: Seq<bool>,
    tiles_x: int,
    tiles_y: int,
    w: int,
    h: int,
    old: Seq<u32>,
    base: Seq<u32>,
)
    requires
        grid_wf(d.len(), tiles_x, w, h),
        tiles_y == (h + 31) / 32,
        old.len() >= w * h,
        base.len() >= w * h,
    ensures
        forall|px: int, py: int|
            0 <= px < w && 0 <= py < h ==> (#[trigger] damaged(
                dirty_rects(d, tiles_x, tiles_y, w, h, 0),
                px,
                py,
            ) <==> d[(py / 32) * tiles_x + px / 32]),
        forall|p: int|
            0 <= p < old.len() && #[trigger] restored(old, base, d, tiles_x, w, h)[p] != old[p]
                ==> w > 0 && damaged(dirty_rects(d, tiles_x, tiles_y, w, h, 0), p % w, p / w),
{
    assert forall|px: int, py: int| 0 <= px < w && 0 <= py < h implies (#[trigger] damaged(
        dirty_rects(d, tiles_x, tiles_y, w, h, 0),
        px,
        py,
    ) <==> d[(py / 32) * tiles_x + px / 32]) by {
        lemma_dirty_rects_cover(d, tiles_x, tiles_y, w, h, 0, px, py);
    }
    assert forall|p: int|
        0 <= p < old.len() && #[trigger] restored(old, base, d, tiles_x, w, h)[p] != old[p]
            implies w > 0 && damaged(dirty_rects(d, tiles_x, tiles_y, w, h, 0), p % w, p / w) by {
        assert(p < w * h && d[pixel_tile(p, w, tiles_x)]);
        assert(w > 0) by (nonlinear_arith)
            requires
                0 <= p < w * h,
                0 <= h,
        ;
        vstd::arithmetic::div_mod::lemma_fundamental_div_mod(p, w);
        assert(p / w < h) by (nonlinear_arith)
            requires
                p == w * (p / w) + p % w,
                0 <= p % w,
                p < w * h,
                w > 0,
        ;
        assert(p / w >= 0) by (nonlinear_arith)
            requires
                p >= 0,
                w > 0,
        ;
        lemma_dirty_rects_cover(d, tiles_x, tiles_y, w, h, 0, p % w, p / w);
    }
}

} // verus!
