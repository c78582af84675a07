//! Where the launcher puts its windows and what it draws where: the
//! floating bar, the clock and tray at its right end, the Start menu above
//! it, and what the chooser does with the applications that accept a file.

use vstd::prelude::*;

use crate::launcher::{lemma_sum_nonneg, sum_u32};
use crate::metrics::{fits_i32, icon_size, icon_small_size};

verus! {

/// Position and size of the bar window.
#[derive(Clone, Copy, Debug, PartialEq, Eq)]
pub struct BarWindow {
    pub x: i32,
    pub y: i32,
    pub width: u32,
    pub height: u32,
}

/// The gap between the bar and the screen edges: half an icon, at least 10.
pub open spec fn spec_bar_margin(scale: isize) -> int {
    if 48 * scale / 2 > 10 {
        48 * scale / 2
    } else {
        10
    }
}

/// The floating bar on a `width` x `height` screen: inset by the margin on
/// both sides and from the bottom, one icon tall.
pub open spec fn spec_bar_window(width: u32, height: u32, scale: isize) -> BarWindow {
    let m = spec_bar_margin(scale);
    BarWindow {
        x: m as i32,
        y: (height - 48 * scale - m) as i32,
        width: if width >= 2 * m {
            (width - 2 * m) as u32
        } else {
            0u32
        },
        height: (48 * scale) as u32,
    }
}

/// Where the bar window goes.
pub fn bar_window(width: u32, height: u32, scale: isize) -> (b: BarWindow)
    requires
        1 <= scale,
        fits_i32(48, scale),
        height <= i32::MAX,
        height - 48 * scale - spec_bar_margin(scale) >= i32::MIN,
    ensures
        b == spec_bar_window(width, height, scale),
{
    let icon = icon_size(scale);
    let half = icon / 2;
    let margin = if half > 10 {
        half
    } else {
        10
    };
    let twice = (margin as u32) * 2;
    BarWindow {
        x: margin,
        y: height as i32 - icon - margin,
        width: width.saturating_sub(twice),
        height: icon as u32,
    }
}

/// Left edge of the clock text, `text_width` wide, at the bar's right end.
pub open spec fn spec_clock_left(bar_width: u32, text_width: u32) -> int {
    bar_width - text_width - 12
}

/// Where the clock text starts on a bar `bar_width` wide.
pub fn clock_left(bar_width: u32, text_width: u32) -> (x: i32)
    requires
        bar_width <= i32::MAX,
        text_width <= i32::MAX,
        bar_width - text_width - 12 >= i32::MIN,
    ensures
        x == spec_clock_left(bar_width, text_width),
{
    bar_width as i32 - text_width as i32 - 12
}

/// Left edges of the tray icons, drawn right to left from 14 pixels left of
/// the clock with 8 pixels between them: entry `k` is the left edge of the
/// icon `widths.len() - 1 - k`.
pub open spec fn spec_tray_lefts(clock_x: int, widths: Seq<u32>) -> Seq<int>
    decreases widths.len(),
{
    if widths.len() == 0 {
        seq![]
    } else {
        let x = clock_x - 14 - widths.last();
        seq![x] + spec_tray_lefts(x + 14 - 8, widths.drop_last())
    }
}

proof fn lemma_tray_lefts_len(clock_x: int, widths: Seq<u32>)
    ensures
        spec_tray_lefts(clock_x, widths).len() == widths.len(),
    decreases widths.len(),
{
    if widths.len() > 0 {
        lemma_tray_lefts_len(clock_x - 14 - widths.last() + 14 - 8, widths.drop_last());
    }
}

/// The left edges of the tray icons, in drawing order (last icon first).
pub fn tray_lefts(clock_x: i32, widths: &Vec<u32>) -> (xs: Vec<i32>)
    requires
        forall|k: int| 0 <= k < widths@.len() ==> widths@[k] <= i32::MAX,
        clock_x - 14 - sum_u32(widths@) - 8 * widths@.len() >= i32::MIN,
    ensures
        xs@.len() == widths@.len(),
        forall|k: int| 0 <= k < xs@.len() ==> xs@[k] as int == #[trigger] spec_tray_lefts(
            clock_x as int,
            widths@,
        )[k],
{
    let ghost n = widths@.len();
    let ghost low = clock_x - 14 - sum_u32(widths@) - 8 * n;
    let mut xs: Vec<i32> = Vec::new();
    proof {
        lemma_sum_nonneg(widths@);
    }
    let mut tx: i32 = clock_x - 14;
    let mut k: usize = widths.len();
    proof {
        assert(widths@.take(k as int) =~= widths@);
    }
    while k > 0
        invariant
            k <= n == widths@.len(),
            low == clock_x - 14 - sum_u32(widths@) - 8 * n,
            low >= i32::MIN,
            forall|j: int| 0 <= j < widths@.len() ==> widths@[j] <= i32::MAX,
            tx <= clock_x - 14,
            xs@.len() == n - k,
            tx - sum_u32(widths@.take(k as int)) - 8 * k == low,
            spec_tray_lefts(clock_x as int, widths@) == xs@.map_values(|v: i32| v as int)
                + spec_tray_lefts(tx + 14, widths@.take(k as int)),
        decreases k,
    {
        let w = widths[k - 1];
        proof {
            let t = widths@.take(k as int);
            assert(t.last() == w);
            assert(t.drop_last() =~= widths@.take(k - 1));
            assert(sum_u32(t) == sum_u32(widths@.take(k - 1)) + w);
            lemma_sum_nonneg(widths@.take(k - 1));
        }
        let x = tx - w as i32;
        proof {
            assert(xs@.push(x).map_values(|v: i32| v as int) =~= xs@.map_values(|v: i32| v as int)
                + seq![x as int]);
        }
        xs.push(x);
        tx = x - 8;
        k = k - 1;
    }
    proof {
        assert(widths@.take(0) =~= Seq::<u32>::empty());
        assert(xs@.map_values(|v: i32| v as int).len() == xs@.len());
    }
    xs
}

/// Top edge and height of the Start menu, or a category submenu, of
/// `count` entries: it stands on the bar's row at the bottom of the screen.
pub open spec fn spec_start_menu(height: u32, count: usize, scale: isize) -> (int, int) {
    let h = count * (32 * scale);
    (height - 48 * scale - h, h)
}

/// Where the Start menu window goes, and how tall it is.
pub fn start_menu(height: u32, count: usize, scale: isize) -> (r: (i32, u32))
    requires
        1 <= scale,
        fits_i32(48, scale),
        height <= i32::MAX,
        count * (32 * scale) <= i32::MAX,
        height - 48 * scale - count * (32 * scale) >= i32::MIN,
    ensures
        r.0 == spec_start_menu(height, count, scale).0,
        r.1 == spec_start_menu(height, count, scale).1,
{
    let row = icon_small_size(scale) as u32;
    assert(count <= count * row) by (nonlinear_arith)
        requires
            row >= 1,
    ;
    let h = (count as u32) * row;
    (height as i32 - icon_size(scale) - h as i32, h)
}

/// What the launcher does with a file, given how many applications accept
/// it.
#[derive(Clone, Copy, Debug, PartialEq, Eq)]
pub enum ChooserAction {
    /// Let the user pick one in the chooser window.
    Ask,
    /// Open the file with the only application that accepts it.
    OpenWithOnly,
    /// Report that no application accepts it.
    NoApplication,
}

pub open spec fn spec_chooser_action(count: usize) -> ChooserAction {
    if count > 1 {
        ChooserAction::Ask
    } else if count == 1 {
        ChooserAction::OpenWithOnly
    } else {
        ChooserAction::NoApplication
    }
}

/// What to do for a file that `count` applications accept.
pub fn chooser_action(count: usize) -> (a: ChooserAction)
    ensures
        a == spec_chooser_action(count),
{
    if count > 1 {
        ChooserAction::Ask
    } else if count == 1 {
        ChooserAction::OpenWithOnly
    } else {
        ChooserAction::NoApplication
    }
}

} // verus!
