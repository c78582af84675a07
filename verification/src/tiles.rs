//! The wallpaper's damage tracking: the screen is cut into 32 px tiles, a
//! moving particle marks the tiles under its box dirty, and only particles
//! over dirty tiles are drawn again.

use vstd::prelude::*;

verus! {

/// Side of a damage tile in pixels.
pub const TILE: i32 = 32;

/// A tile grid of `len` flags for a `w` x `h` screen, `tiles_x` tiles per
/// row, the rows stored one after the other.
pub open spec fn grid_wf(len: nat, tiles_x: int, w: int, h: int) -> bool {
    &&& 0 <= w <= i32::MAX - 31
    &&& 0 <= h <= i32::MAX - 31
    &&& tiles_x == (w + 31) / 32
    &&& len == tiles_x * ((h + 31) / 32)
    &&& len <= i32::MAX
}

/// A grid of `len` flags, `tiles_x` tiles per row, with room for every tile
/// of a `w` x `h` screen: at least `(w + 31) / 32` tiles per row and at
/// least `(h + 31) / 32` rows, every index of those rows an `i32`.
pub open spec fn grid_fits(len: nat, tiles_x: int, w: int, h: int) -> bool {
    &&& tiles_x >= (w + 31) / 32
    &&& tiles_x * ((h + 31) / 32) <= len
    &&& tiles_x * ((h + 31) / 32) <= i32::MAX
}

/// A box `(x, y, w, h)` whose far edges are `i32`s.
pub open spec fn box_fits(r: (i32, i32, i32, i32)) -> bool {
    &&& i32::MIN <= r.0 + r.2 <= i32::MAX
    &&& i32::MIN <= r.1 + r.3 <= i32::MAX
}

pub open spec fn clip_lo(v: int) -> int {
    if v < 0 { 0 } else { v }
}

pub open spec fn clip_hi(v: int, limit: int) -> int {
    if v < limit { v } else { limit }
}

/// The part of box `r` on a `w` x `h` screen is not empty.
pub open spec fn on_screen(w: int, h: int, r: (i32, i32, i32, i32)) -> bool {
    clip_lo(r.0 as int) < clip_hi(r.0 + r.2, w) && clip_lo(r.1 as int) < clip_hi(r.1 + r.3, h)
}

/// Tile `i` of the grid lies under the on-screen part of box `r`.
pub open spec fn touched(i: int, tiles_x: int, w: int, h: int, r: (i32, i32, i32, i32)) -> bool {
    let x0 = clip_lo(r.0 as int);
    let y0 = clip_lo(r.1 as int);
    let x1 = clip_hi(r.0 + r.2, w);
    let y1 = clip_hi(r.1 + r.3, h);
    &&& x0 < x1
    &&& y0 < y1
    &&& y0 / 32 <= i / tiles_x <= (y1 - 1) / 32
    &&& x0 / 32 <= i % tiles_x <= (x1 - 1) / 32
}

/// The flags after marking the tiles under box `r`.
pub open spec fn marked(d: Seq<bool>, tiles_x: int, w: int, h: int, r: (i32, i32, i32, i32)) -> Seq<
    bool,
> {
    Seq::new(d.len(), |i: int| d[i] || touched(i, tiles_x, w, h, r))
}

/// Some tile under box `r` is dirty.
pub open spec fn spec_hits(d: Seq<bool>, tiles_x: int, w: int, h: int, r: (i32, i32, i32, i32)) -> bool {
    exists|i: int| 0 <= i < d.len() && #[trigger] d[i] && touched(i, tiles_x, w, h, r)
}

/// Tile `(tx, ty)` is flag `ty * tiles_x + tx`, and back.
pub proof fn lemma_tile_index(ty: int, tx: int, tiles_x: int)
    requires
        0 <= tx < tiles_x,
        0 <= ty,
    ensures
        (ty * tiles_x + tx) / tiles_x == ty,
        (ty * tiles_x + tx) % tiles_x == tx,
{
    vstd::arithmetic::div_mod::lemma_fundamental_div_mod_converse(
        ty * tiles_x + tx,
        tiles_x,
        ty,
        tx,
    );
}

/// The tiles of the grid under the on-screen part of box `r`: first and last
/// tile row, first and last tile column.
proof fn lemma_tile_bounds(len: nat, tiles_x: int, w: int, h: int, r: (i32, i32, i32, i32))
    requires
        grid_fits(len, tiles_x, w, h),
        on_screen(w, h, r),
    ensures
        ({
            let x0 = clip_lo(r.0 as int);
            let y0 = clip_lo(r.1 as int);
            let x1 = clip_hi(r.0 + r.2, w);
            let y1 = clip_hi(r.1 + r.3, h);
            &&& 0 <= x0 / 32 <= (x1 - 1) / 32 < tiles_x
            &&& 0 <= y0 / 32 <= (y1 - 1) / 32 < (h + 31) / 32
            &&& ((y1 - 1) / 32) * tiles_x + (x1 - 1) / 32 < len
            &&& ((y1 - 1) / 32) * tiles_x + (x1 - 1) / 32 < i32::MAX
        }),
{
    let x0 = clip_lo(r.0 as int);
    let y0 = clip_lo(r.1 as int);
    let x1 = clip_hi(r.0 + r.2, w);
    let y1 = clip_hi(r.1 + r.3, h);
    let ty = (y1 - 1) / 32;
    let tx = (x1 - 1) / 32;
    let tiles_y = (h + 31) / 32;
    assert(0 <= x0 / 32 <= tx < tiles_x);
    assert(0 <= y0 / 32 <= ty < tiles_y);
    assert(ty * tiles_x + tx < tiles_x * tiles_y) by (nonlinear_arith)
        requires
            0 <= ty < tiles_y,
            0 <= tx < tiles_x,
    ;
}

/// Marks dirty every tile under the on-screen part of box `rect`.
pub fn mark_tiles(dirty: &mut Vec<bool>, tiles_x: i32, w: i32, h: i32, rect: (i32, i32, i32, i32))
    requires
        grid_fits(old(dirty)@.len(), tiles_x as int, w as int, h as int),
        box_fits(rect),
    ensures
        final(dirty)@ == marked(old(dirty)@, tiles_x as int, w as int, h as int, rect),
{
    let (x, y, rw, rh) = rect;
    let x0 = if x < 0 { 0 } else { x };
    let y0 = if y < 0 { 0 } else { y };
    let x1 = if x + rw < w { x + rw } else { w };
    let y1 = if y + rh < h { y + rh } else { h };
    if x0 >= x1 || y0 >= y1 {
        assert(final(dirty)@ =~= marked(old(dirty)@, tiles_x as int, w as int, h as int, rect));
        return;
    }
    proof {
        lemma_tile_bounds(dirty@.len(), tiles_x as int, w as int, h as int, rect);
    }
    let ghost d0 = dirty@;
    let ty0 = y0 / TILE;
    let ty1 = (y1 - 1) / TILE;
    let tx0 = x0 / TILE;
    let tx1 = (x1 - 1) / TILE;
    let mut ty = ty0;
    assert(ty1 < i32::MAX);
    while ty <= ty1
        invariant
            ty1 < i32::MAX,
            0 <= ty0 <= ty <= ty1 + 1,
            0 <= tx0 <= tx1 < tiles_x,
            ty1 * tiles_x + tx1 < d0.len(),
            ty1 * tiles_x + tx1 < i32::MAX,
            dirty@.len() == d0.len(),
            forall|i: int|
                0 <= i < d0.len() ==> #[trigger] dirty@[i] == (d0[i] || (ty0 <= i / (tiles_x as int)
                    < ty && tx0 <= i % (tiles_x as int) <= tx1)),
        decreases ty1 + 1 - ty,
    {
        let mut tx = tx0;
        while tx <= tx1
            invariant
                ty1 < i32::MAX,
                0 <= ty0 <= ty <= ty1,
                0 <= tx0 <= tx <= tx1 + 1,
                tx1 < tiles_x,
                ty1 * tiles_x + tx1 < d0.len(),
                ty1 * tiles_x + tx1 < i32::MAX,
                dirty@.len() == d0.len(),
                forall|i: int|
                    0 <= i < d0.len() ==> #[trigger] dirty@[i] == (d0[i] || (ty0 <= i / (
                    tiles_x as int) < ty && tx0 <= i % (tiles_x as int) <= tx1) || (i / (
                    tiles_x as int) == ty && tx0 <= i % (tiles_x as int) < tx)),
            decreases tx1 + 1 - tx,
        {
            assert(ty * tiles_x + tx <= ty1 * tiles_x + tx1) by (nonlinear_arith)
                requires
                    0 <= ty <= ty1,
                    0 <= tx <= tx1,
                    tiles_x >= 0,
            ;
            let k = ty * tiles_x + tx;
            proof {
                lemma_tile_index(ty as int, tx as int, tiles_x as int);
            }
            let ghost before = dirty@;
            dirty.set(k as usize, true);
            proof {
                assert forall|i: int|
                    0 <= i < d0.len() && #[trigger] (i / (tiles_x as int)) == ty && i % (
                    tiles_x as int) == tx implies i == k by {
                    vstd::arithmetic::div_mod::lemma_fundamental_div_mod(i, tiles_x as int);
                    vstd::arithmetic::mul::lemma_mul_is_commutative(tiles_x as int, ty as int);
                }
                assert forall|i: int| 0 <= i < d0.len() && i != k implies dirty@[i] == before[i] by {}
            }
            tx = tx + 1;
        }
        ty = ty + 1;
    }
    assert(final(dirty)@ =~= marked(d0, tiles_x as int, w as int, h as int, rect));
}

/// Whether a tile under the on-screen part of box `rect` is dirty: a
/// particle that did not move is drawn again only then.
pub fn hits_dirty(dirty: &Vec<bool>, tiles_x: i32, w: i32, h: i32, rect: (i32, i32, i32, i32)) -> (b:
    bool)
    requires
        grid_fits(dirty@.len(), tiles_x as int, w as int, h as int),
        box_fits(rect),
    ensures
        b == spec_hits(dirty@, tiles_x as int, w as int, h as int, rect),
{
    let (x, y, rw, rh) = rect;
    let x0 = if x < 0 { 0 } else { x };
    let y0 = if y < 0 { 0 } else { y };
    let x1 = if x + rw < w { x + rw } else { w };
    let y1 = if y + rh < h { y + rh } else { h };
    if x0 >= x1 || y0 >= y1 {
        return false;
    }
    proof {
        lemma_tile_bounds(dirty@.len(), tiles_x as int, w as int, h as int, rect);
    }
    let ghost d = dirty@;
    let ty0 = y0 / TILE;
    let ty1 = (y1 - 1) / TILE;
    let tx0 = x0 / TILE;
    let tx1 = (x1 - 1) / TILE;
    let mut ty = ty0;
    assert(ty1 < i32::MAX);
    while ty <= ty1
        invariant
            ty1 < i32::MAX,
            0 <= ty0 <= ty <= ty1 + 1,
            0 <= tx0 <= tx1 < tiles_x,
            ty1 * tiles_x + tx1 < d.len(),
            ty1 * tiles_x + tx1 < i32::MAX,
            d == dirty@,
            ty0 == clip_lo(rect.1 as int) / 32,
            ty1 == (clip_hi(rect.1 + rect.3, h as int) - 1) / 32,
            tx0 == clip_lo(rect.0 as int) / 32,
            tx1 == (clip_hi(rect.0 + rect.2, w as int) - 1) / 32,
            on_screen(w as int, h as int, rect),
            forall|i: int|
                0 <= i < d.len() && ty0 <= i / (tiles_x as int) < ty && tx0 <= i % (tiles_x as int)
                    <= tx1 ==> !#[trigger] d[i],
        decreases ty1 + 1 - ty,
    {
        let mut tx = tx0;
        while tx <= tx1
            invariant
                ty1 < i32::MAX,
                0 <= ty0 <= ty <= ty1,
                0 <= tx0 <= tx <= tx1 + 1,
                tx1 < tiles_x,
                ty1 * tiles_x + tx1 < d.len(),
                ty1 * tiles_x + tx1 < i32::MAX,
                d == dirty@,
                ty0 == clip_lo(rect.1 as int) / 32,
                ty1 == (clip_hi(rect.1 + rect.3, h as int) - 1) / 32,
                tx0 == clip_lo(rect.0 as int) / 32,
                tx1 == (clip_hi(rect.0 + rect.2, w as int) - 1) / 32,
                on_screen(w as int, h as int, rect),
                forall|i: int|
                    0 <= i < d.len() && ((ty0 <= i / (tiles_x as int) < ty && tx0 <= i % (
                    tiles_x as int) <= tx1) || (i / (tiles_x as int) == ty && tx0 <= i % (
                    tiles_x as int) < tx)) ==> !#[trigger] d[i],
            decreases tx1 + 1 - tx,
        {
            assert(ty * tiles_x + tx <= ty1 * tiles_x + tx1) by (nonlinear_arith)
                requires
                    0 <= ty <= ty1,
                    0 <= tx <= tx1,
                    tiles_x >= 0,
            ;
            let k = ty * tiles_x + tx;
            proof {
                lemma_tile_index(ty as int, tx as int, tiles_x as int);
            }
            proof {
                assert forall|i: int|
                    0 <= i < d.len() && #[trigger] (i / (tiles_x as int)) == ty && i % (
                    tiles_x as int) == tx implies i == k by {
                    vstd::arithmetic::div_mod::lemma_fundamental_div_mod(i, tiles_x as int);
                    vstd::arithmetic::mul::lemma_mul_is_commutative(tiles_x as int, ty as int);
                }
            }
            if dirty[k as usize] {
                assert(touched(k as int, tiles_x as int, w as int, h as int, rect));
                assert(d[k as int]);
                return true;
            }
            tx = tx + 1;
        }
        ty = ty + 1;
    }
    false
}

/// Once the tiles under a box are marked, the box hits a dirty tile exactly
/// when part of it lies on the screen.
pub proof fn lemma_marked_box_hits(d: Seq<bool>, tiles_x: int, w: int, h: int, r: (i32, i32, i32, i32))
    requires
        grid_fits(d.len(), tiles_x, w, h),
    ensures
        spec_hits(marked(d, tiles_x, w, h, r), tiles_x, w, h, r) == on_screen(w, h, r),
{
    if on_screen(w, h, r) {
        lemma_tile_bounds(d.len(), tiles_x, w, h, r);
        let ty = clip_lo(r.1 as int) / 32;
        let tx = clip_lo(r.0 as int) / 32;
        let i = ty * tiles_x + tx;
        lemma_tile_index(ty, tx, tiles_x);
        let y1 = clip_hi(r.1 + r.3, h);
        let x1 = clip_hi(r.0 + r.2, w);
        assert(i <= ((y1 - 1) / 32) * tiles_x + (x1 - 1) / 32) by (nonlinear_arith)
            requires
                0 <= ty <= (y1 - 1) / 32,
                0 <= tx <= (x1 - 1) / 32,
                tiles_x >= 0,
                i == ty * tiles_x + tx,
        ;
        assert(0 <= i) by (nonlinear_arith)
            requires
                0 <= ty,
                0 <= tx,
                tiles_x >= 0,
                i == ty * tiles_x + tx,
        ;
        let m = marked(d, tiles_x, w, h, r);
        assert(m[i]);
    }
}

/// The clean tile grid of a `width` x `height` screen: tiles per row, tile
/// rows, and one flag per tile, none set.
pub fn tile_grid(width: i32, height: i32) -> (r: (i32, i32, Vec<bool>))
    requires
        0 <= width <= i32::MAX - 32,
        0 <= height <= i32::MAX - 32,
        ((width + 31) / 32) * ((height + 31) / 32) <= i32::MAX,
    ensures
        r.0 == (width + 31) / 32,
        r.1 == (height + 31) / 32,
        grid_wf(r.2@.len(), r.0 as int, width as int, height as int),
        forall|i: int| 0 <= i < r.2@.len() ==> !#[trigger] r.2@[i],
{
    let tiles_x = (width + TILE - 1) / TILE;
    let tiles_y = (height + TILE - 1) / TILE;
    let n = (tiles_x * tiles_y) as usize;
    let mut dirty: Vec<bool> = Vec::new();
    let mut i: usize = 0;
    while i < n
        invariant
            i <= n,
            dirty@.len() == i,
            forall|k: int| 0 <= k < i ==> !#[trigger] dirty@[k],
        decreases n - i,
    {
        dirty.push(false);
        i = i + 1;
    }
    (tiles_x, tiles_y, dirty)
}

} // verus!
