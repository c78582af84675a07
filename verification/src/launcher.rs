//! Decisions of the launcher bar, its menus and the desktop icon grid: hit
//! testing, what a click does, keyboard shortcuts, the clock text, icon
//! sizing and label truncation.

use vstd::prelude::*;

use crate::metrics::{fits_i32, icon_size, icon_small_size, trunc_div};
use crate::text::{dec, chars_of, eq_chars, has_prefix, pad2_signed, push_all, push_pad2_signed, slice_chars, starts_with_chars, string_of};

verus! {

/// What the user picked in the Start menu or a category submenu, and what
/// the launcher does next.
#[derive(Debug, PartialEq, Eq)]
pub enum MenuStep {
    /// Show the submenu of a category, or the Start menu for `None`.
    Show(Option<String>),
    /// Launch a program.
    Launch(String),
    /// Log out: the launcher exits.
    Logout,
    /// The menu was closed.
    Close,
}

/// The `Exec` line of a category entry of the Start menu.
pub open spec fn spec_category_exec(category: Seq<char>) -> Seq<char> {
    "category="@ + category
}

/// The `Exec` line that opens a category's submenu.
pub fn category_exec(category: &str) -> (e: String)
    ensures
        e@ == spec_category_exec(category@),
{
    let mut out = chars_of("category=");
    push_all(&mut out, &chars_of(category));
    string_of(&out)
}

/// The step after the menu for `category` (the Start menu for `None`)
/// returned `chosen` (`None`: closed without a choice): a category entry
/// opens its submenu, `exit` goes back to the Start menu from a submenu and
/// logs out from the Start menu, anything else is launched.
pub open spec fn spec_menu_step(category: Option<Seq<char>>, chosen: Option<Seq<char>>) -> MenuStepView {
    match chosen {
        None => MenuStepView::Close,
        Some(e) => if has_prefix(e, "category="@) {
            MenuStepView::Show(Some(e.skip(9)))
        } else if e == "exit"@ {
            if category is Some {
                MenuStepView::Show(None)
            } else {
                MenuStepView::Logout
            }
        } else {
            MenuStepView::Launch(e)
        },
    }
}

/// A `MenuStep` with its strings as character sequences.
pub enum MenuStepView {
    Show(Option<Seq<char>>),
    Launch(Seq<char>),
    Logout,
    Close,
}

pub open spec fn menu_step_view(m: MenuStep) -> MenuStepView {
    match m {
        MenuStep::Show(Some(c)) => MenuStepView::Show(Some(c@)),
        MenuStep::Show(None) => MenuStepView::Show(None),
        MenuStep::Launch(e) => MenuStepView::Launch(e@),
        MenuStep::Logout => MenuStepView::Logout,
        MenuStep::Close => MenuStepView::Close,
    }
}

pub open spec fn opt_view(o: Option<&str>) -> Option<Seq<char>> {
    match o {
        Some(s) => Some(s@),
        None => None,
    }
}

/// What to do after a menu returned.
pub fn menu_step(category: Option<&str>, chosen: Option<&str>) -> (m: MenuStep)
    ensures
        menu_step_view(m) == spec_menu_step(opt_view(category), opt_view(chosen)),
{
    match chosen {
        None => MenuStep::Close,
        Some(e) => {
            let v = chars_of(e);
            let prefix = chars_of("category=");
            proof {
                reveal_strlit("category=");
                reveal_strlit("exit");
            }
            if starts_with_chars(&v, &prefix) {
                let rest = slice_chars(&v, 9, v.len());
                assert(rest@ =~= e@.skip(9));
                MenuStep::Show(Some(string_of(&rest)))
            } else if eq_chars(&v, &chars_of("exit")) {
                if category.is_some() {
                    MenuStep::Show(None)
                } else {
                    MenuStep::Logout
                }
            } else {
                MenuStep::Launch(e.to_owned())
            }
        },
    }
}

/// The sum of `s`.
pub open spec fn sum_u32(s: Seq<u32>) -> int
    decreases s.len(),
{
    if s.len() == 0 {
        0
    } else {
        sum_u32(s.drop_last()) + s.last()
    }
}

/// Left edge of bar icon `i`: icons flow from x = 8, each as wide as its
/// image.
pub open spec fn icon_left(widths: Seq<u32>, i: int) -> int {
    8 + sum_u32(widths.take(i))
}

/// Index (1-based) of the last of the first `n` bar icons under the mouse,
/// or -1.
pub open spec fn hover_icons(widths: Seq<u32>, mx: i32, my: i32, n: int) -> int
    decreases n,
{
    if n <= 0 {
        -1
    } else if my >= 0 && icon_left(widths, n - 1) <= mx < icon_left(widths, n - 1) + widths[n
        - 1] {
        n
    } else {
        hover_icons(widths, mx, my, n - 1)
    }
}

/// Left edge of the Start button, centred on a bar `bar_width` wide.
pub open spec fn start_left(bar_width: u32, start_width: u32) -> int {
    trunc_div(bar_width - start_width, 2)
}

/// What the mouse is over on the bar: 0 for the Start button, `i` for
/// app icon `i - 1`, or -1.
pub open spec fn spec_bar_hover(
    mx: i32,
    my: i32,
    widths: Seq<u32>,
    start_width: Option<u32>,
    bar_width: u32,
) -> i32 {
    match start_width {
        Some(sw) if my >= 0 && start_left(bar_width, sw) <= mx < start_left(bar_width, sw) + sw => 0,
        _ => hover_icons(widths, mx, my, widths.len() as int) as i32,
    }
}

proof fn lemma_sum_take(s: Seq<u32>, i: int)
    requires
        0 <= i < s.len(),
    ensures
        sum_u32(s.take(i + 1)) == sum_u32(s.take(i)) + s[i],
        0 <= sum_u32(s.take(i)),
{
    assert(s.take(i + 1).drop_last() =~= s.take(i));
    lemma_sum_nonneg(s.take(i));
}

/// A sum of widths is never negative.
pub proof fn lemma_sum_nonneg(s: Seq<u32>)
    ensures
        0 <= sum_u32(s),
    decreases s.len(),
{
    if s.len() > 0 {
        lemma_sum_nonneg(s.drop_last());
    }
}

proof fn lemma_sum_mono(s: Seq<u32>, i: int)
    requires
        0 <= i <= s.len(),
    ensures
        sum_u32(s.take(i)) <= sum_u32(s),
    decreases s.len() - i,
{
    if i < s.len() {
        lemma_sum_take(s, i);
        lemma_sum_mono(s, i + 1);
    } else {
        assert(s.take(i) =~= s);
    }
}

/// Hit test of the bar.
pub fn bar_hover(mx: i32, my: i32, widths: &Vec<u32>, start_width: Option<u32>, bar_width: u32) -> (r:
    i32)
    requires
        8 + sum_u32(widths@) <= i32::MAX,
        bar_width <= i32::MAX,
        match start_width {
            Some(sw) => sw <= i32::MAX,
            None => true,
        },
    ensures
        r == spec_bar_hover(mx, my, widths@, start_width, bar_width),
{
    let mut selected: i32 = -1;
    let mut x: i32 = 8;
    let mut idx: usize = 0;
    proof {
        assert(widths@.take(0) =~= Seq::<u32>::empty());
    }
    while idx < widths.len()
        invariant
            idx <= widths@.len(),
            8 + sum_u32(widths@) <= i32::MAX,
            x == icon_left(widths@, idx as int),
            selected == hover_icons(widths@, mx, my, idx as int) as i32,
        decreases widths.len() - idx,
    {
        let w = widths[idx];
        proof {
            lemma_sum_take(widths@, idx as int);
            lemma_sum_mono(widths@, idx + 1);
        }
        if my >= 0 && mx >= x && mx < x + w as i32 {
            selected = (idx + 1) as i32;
        }
        x = x + w as i32;
        idx = idx + 1;
    }
    match start_width {
        Some(sw) => {
            let sx = (bar_width as i32 - sw as i32) / 2;
            if my >= 0 && mx >= sx && mx < sx + sw as i32 {
                selected = 0;
            }
        },
        None => {},
    }
    selected
}

/// What a click on the bar does.
#[derive(Debug, PartialEq, Eq)]
pub enum BarClick {
    /// Open the Start menu.
    Start,
    /// Launch the app of bar icon `i`.
    Launch(usize),
    /// Nothing is under the mouse.
    Nothing,
}

/// The effect of pressing the left button while `selected` is under the
/// mouse, on a bar with `count` app icons.
pub open spec fn spec_bar_click(selected: i32, count: usize) -> BarClick {
    if selected == 0 {
        BarClick::Start
    } else if 1 <= selected <= count {
        BarClick::Launch((selected - 1) as usize)
    } else {
        BarClick::Nothing
    }
}

/// What pressing the left button on the bar does.
pub fn bar_click(selected: i32, count: usize) -> (c: BarClick)
    requires
        count < i32::MAX,
    ensures
        c == spec_bar_click(selected, count),
{
    if selected == 0 {
        return BarClick::Start;
    }
    let mut i: i32 = 1;
    let mut package_i: usize = 0;
    while package_i < count
        invariant
            package_i <= count < i32::MAX,
            i == package_i + 1,
            !(1 <= selected <= package_i),
        decreases count - package_i,
    {
        if i == selected {
            return BarClick::Launch(package_i);
        }
        i = i + 1;
        package_i = package_i + 1;
    }
    BarClick::Nothing
}

/// How many of the running children were started with `exec`: a bar icon
/// with any gets a running indicator.
pub open spec fn spec_running(children: Seq<Seq<char>>, exec: Seq<char>) -> nat
    decreases children.len(),
{
    if children.len() == 0 {
        0
    } else {
        spec_running(children.drop_last(), exec) + if children.last() == exec {
            1nat
        } else {
            0nat
        }
    }
}

/// Counts the running children started with `exec`.
pub fn running_count(children: &Vec<String>, exec: &str) -> (n: usize)
    ensures
        n == spec_running(children.deep_view(), exec@),
{
    let target = chars_of(exec);
    let mut n: usize = 0;
    let mut i: usize = 0;
    while i < children.len()
        invariant
            i <= children@.len(),
            target@ == exec@,
            n == spec_running(children.deep_view().take(i as int), exec@),
            n <= i,
        decreases children.len() - i,
    {
        assert(children.deep_view().take(i + 1).drop_last() =~= children.deep_view().take(i as int));
        if eq_chars(&chars_of(children[i].as_str()), &target) {
            n = n + 1;
        }
        i = i + 1;
    }
    assert(children.deep_view().take(children@.len() as int) =~= children.deep_view());
    n
}

/// The program that a Super-key shortcut starts: Super+B the browser,
/// Super+F the file manager, Super+T the terminal (on key press only).
pub open spec fn spec_super_program(scancode: u8, pressed: bool) -> Option<Seq<char>> {
    if !pressed {
        None
    } else if scancode == 0x30 {
        Some("netsurf-fb"@)
    } else if scancode == 0x21 {
        Some("cosmic-files"@)
    } else if scancode == 0x14 {
        Some("cosmic-term"@)
    } else {
        None
    }
}

/// The program bound to a Super-key shortcut.
pub fn super_program(scancode: u8, pressed: bool) -> (p: Option<&'static str>)
    ensures
        opt_view(p) == spec_super_program(scancode, pressed),
{
    if !pressed {
        None
    } else if scancode == 0x30 {
        Some("netsurf-fb")
    } else if scancode == 0x21 {
        Some("cosmic-files")
    } else if scancode == 0x14 {
        Some("cosmic-term")
    } else {
        None
    }
}

/// The remainder of Rust's truncating division.
pub open spec fn trunc_rem(a: int, b: int) -> int {
    a - trunc_div(a, b) * b
}

/// The bar's clock, `HH:MM` of the time of day (UTC) at `tv_sec`.
pub open spec fn spec_bar_clock(tv_sec: i64) -> Seq<char> {
    let s = trunc_rem(tv_sec as int, 86400);
    pad2_signed(trunc_div(s, 3600)) + seq![':'] + pad2_signed(trunc_rem(trunc_div(s, 60), 60))
}

/// The text of the bar's clock.
pub fn bar_clock(tv_sec: i64) -> (t: String)
    ensures
        t@ == spec_bar_clock(tv_sec),
{
    let s = tv_sec % 86400;
    let h = s / 3600;
    let m = s / 60 % 60;
    let mut out: Vec<char> = Vec::new();
    push_pad2_signed(&mut out, h);
    out.push(':');
    push_pad2_signed(&mut out, m);
    assert(out@ =~= spec_bar_clock(tv_sec));
    string_of(&out)
}

/// The last of `count` rows, `step` apart and `span` tall, under `my`, or -1.
pub open spec fn spec_row_hover(my: i32, count: int, step: int, span: int) -> int
    decreases count,
{
    if count <= 0 {
        -1
    } else if (count - 1) * step <= my < (count - 1) * step + span {
        count - 1
    } else {
        spec_row_hover(my, count - 1, step, span)
    }
}

/// Which row of a chooser the mouse is over: the last of `count` rows,
/// `step` apart, whose `span` tall band holds `my`; -1 for none.
pub fn row_hover(my: i32, count: usize, step: i32, span: i32) -> (r: i32)
    requires
        0 < step,
        0 <= span,
        count * step + span <= i32::MAX,
    ensures
        r == spec_row_hover(my, count as int, step as int, span as int),
{
    let mut selected: i32 = -1;
    let mut y: i32 = 0;
    let mut j: usize = 0;
    while j < count
        invariant
            j <= count,
            0 < step,
            0 <= span,
            count * step + span <= i32::MAX,
            y == j * step,
            selected == spec_row_hover(my, j as int, step as int, span as int),
        decreases count - j,
    {
        assert(j * step + step + span <= count * step + span) by (nonlinear_arith)
            requires
                j < count,
                0 < step,
        ;
        assert(j < i32::MAX) by (nonlinear_arith)
            requires
                j < count,
                count * step + span <= i32::MAX,
                0 < step,
                0 <= span,
        ;
        if my >= y && my < y + span {
            selected = j as i32;
        }
        assert((j + 1) * step == j * step + step) by (nonlinear_arith);
        y = y + step;
        j = j + 1;
    }
    selected
}

/// The first of `count` rows, `step` apart and tall, that holds `my`.
pub open spec fn spec_row_click(my: i32, count: int, step: int) -> Option<int> {
    if 0 <= my && my < count * step && step > 0 {
        Some(my as int / step)
    } else {
        None
    }
}

/// Which row of a chooser a click at `my` falls on.
pub fn row_click(my: i32, count: usize, step: i32) -> (r: Option<usize>)
    requires
        0 < step,
        count * step <= i32::MAX,
    ensures
        match r {
            Some(i) => spec_row_click(my, count as int, step as int) == Some(i as int),
            None => spec_row_click(my, count as int, step as int) is None,
        },
{
    let mut y: i32 = 0;
    let mut j: usize = 0;
    while j < count
        invariant
            j <= count,
            0 < step,
            count * step <= i32::MAX,
            y == j * step,
            !(0 <= my < j * step),
        decreases count - j,
    {
        assert(j * step + step <= count * step) by (nonlinear_arith)
            requires
                j < count,
                0 < step,
        ;
        if my >= y && my < y + step {
            proof {
                vstd::arithmetic::div_mod::lemma_fundamental_div_mod_converse(
                    my as int,
                    step as int,
                    j as int,
                    my - j * step,
                );
            }
            return Some(j);
        }
        assert((j + 1) * step == j * step + step) by (nonlinear_arith);
        y = y + step;
        j = j + 1;
    }
    None
}

/// The side an icon is sized to, and whether it needs resizing: `None` when
/// it already has that size.
pub open spec fn spec_icon_target(width: u32, height: u32, small: bool, scale: isize) -> Option<u32> {
    let size = if small { 32 * scale } else { 48 * scale };
    if width == size && height == size {
        None
    } else {
        Some(size as u32)
    }
}

/// To which square size a loaded icon must be resized, if at all.
pub fn icon_target(width: u32, height: u32, small: bool, scale: isize) -> (r: Option<u32>)
    requires
        0 <= scale,
        fits_i32(48, scale),
    ensures
        r == spec_icon_target(width, height, small, scale),
{
    let size = if small {
        icon_small_size(scale)
    } else {
        icon_size(scale)
    } as u32;
    if width == size && height == size {
        None
    } else {
        Some(size)
    }
}

/// Index of the first width above `max`, or `widths.len()`.
pub open spec fn first_over(widths: Seq<i32>, max: int) -> int
    decreases widths.len(),
{
    if widths.len() == 0 {
        0
    } else if widths[0] > max {
        0
    } else {
        1 + first_over(widths.drop_first(), max)
    }
}

/// A label cut to fit: `widths[k]` is the rendered width of the first
/// `k + 1` characters followed by an ellipsis. The name stays whole where
/// it fits or no shortened form is too wide; otherwise it is cut before the
/// first character whose shortened form is too wide, and an ellipsis added.
pub open spec fn spec_truncate(name: Seq<char>, full: int, widths: Seq<i32>, max: int) -> Seq<char> {
    let k = first_over(widths, max);
    if full <= max || k >= widths.len() {
        name
    } else {
        name.take(k).push('…')
    }
}

/// Cuts a desktop label to `max_width`, given the widths the font renders.
pub fn truncate_label(name: &str, full_width: i32, widths: &Vec<i32>, max_width: i32) -> (r: String)
    requires
        widths@.len() == name@.len(),
    ensures
        r@ == spec_truncate(name@, full_width as int, widths@, max_width as int),
{
    if full_width <= max_width {
        return name.to_owned();
    }
    let v = chars_of(name);
    let mut out: Vec<char> = Vec::new();
    let mut k: usize = 0;
    assert(widths@.skip(0) =~= widths@);
    while k < v.len()
        invariant
            k <= v@.len() == widths@.len(),
            full_width > max_width,
            v@ == name@,
            out@ == v@.take(k as int),
            first_over(widths@, max_width as int) == k + first_over(widths@.skip(k as int), max_width as int),
        decreases v.len() - k,
    {
        assert(widths@.skip(k as int)[0] == widths@[k as int]);
        if widths[k] > max_width {
            out.push('…');
            return string_of(&out);
        }
        assert(widths@.skip(k as int).drop_first() =~= widths@.skip(k + 1));
        out.push(v[k]);
        assert(v@.take(k + 1) =~= v@.take(k as int).push(v@[k as int]));
        k = k + 1;
    }
    assert(v@.take(v@.len() as int) =~= v@);
    string_of(&out)
}

/// What releasing the left button over the desktop grid does.
#[derive(Debug, PartialEq, Eq)]
pub struct DesktopRelease {
    /// Launch the entry under the mouse (a double click).
    pub activate: bool,
    /// The click to remember for a double click: `Some(cell)` starts the
    /// timer on this cell, `None` forgets the last click.
    pub last_click: Option<i32>,
    /// Whether the remembered click is kept as it was.
    pub keep_last_click: bool,
    /// The entry to highlight, where it changes.
    pub select: Option<i32>,
}

/// Two clicks on the same cell less than 500 ms apart open it.
pub open spec fn spec_desktop_release(cell: i32, selected: i32, last_click: Option<(i32, u64)>) -> DesktopRelease {
    let double = match last_click {
        Some((c, elapsed_ms)) => c == cell && elapsed_ms < 500,
        None => false,
    };
    DesktopRelease {
        activate: cell >= 0 && double,
        last_click: if cell >= 0 && !double {
            Some(cell)
        } else {
            None
        },
        keep_last_click: cell < 0,
        select: if cell != selected {
            Some(cell)
        } else {
            None
        },
    }
}

/// The effect of releasing the left button over grid cell `cell` (-1 for
/// none), with `selected` highlighted and `last_click` the cell of the last
/// click and the milliseconds since it.
pub fn desktop_release(cell: i32, selected: i32, last_click: Option<(i32, u64)>) -> (r: DesktopRelease)
    ensures
        r == spec_desktop_release(cell, selected, last_click),
{
    let double = match last_click {
        Some((c, elapsed_ms)) => c == cell && elapsed_ms < 500,
        None => false,
    };
    DesktopRelease {
        activate: cell >= 0 && double,
        last_click: if cell >= 0 && !double {
            Some(cell)
        } else {
            None
        },
        keep_last_click: cell < 0,
        select: if cell != selected {
            Some(cell)
        } else {
            None
        },
    }
}


proof fn lemma_icon_left_mono(widths: Seq<u32>, i: int, j: int)
    requires
        0 <= i <= j <= widths.len(),
    ensures
        icon_left(widths, i) <= icon_left(widths, j),
    decreases j - i,
{
    if i < j {
        lemma_icon_left_mono(widths, i, j - 1);
        lemma_sum_take(widths, j - 1);
    }
}

proof fn lemma_hover_finds_icon(widths: Seq<u32>, mx: i32, my: i32, k: int, n: int)
    requires
        my >= 0,
        0 <= k < n <= widths.len(),
        icon_left(widths, k) <= mx < icon_left(widths, k) + widths[k],
    ensures
        hover_icons(widths, mx, my, n) == k + 1,
    decreases n,
{
    if n - 1 > k {
        lemma_sum_take(widths, k);
        lemma_icon_left_mono(widths, k + 1, n - 1);
        lemma_hover_finds_icon(widths, mx, my, k, n - 1);
    }
}

/// Pressing the button over app icon `k` of the bar, away from the Start
/// button, launches the package of that icon.
pub proof fn lemma_click_on_icon_launches_it(
    mx: i32,
    my: i32,
    widths: Seq<u32>,
    start_width: Option<u32>,
    bar_width: u32,
    k: int,
)
    requires
        my >= 0,
        0 <= k < widths.len() < i32::MAX,
        icon_left(widths, k) <= mx < icon_left(widths, k) + widths[k],
        match start_width {
            Some(sw) => !(start_left(bar_width, sw) <= mx < start_left(bar_width, sw) + sw),
            None => true,
        },
    ensures
        spec_bar_click(spec_bar_hover(mx, my, widths, start_width, bar_width), widths.len() as usize)
            == BarClick::Launch(k as usize),
{
    lemma_hover_finds_icon(widths, mx, my, k, widths.len() as int);
}

/// In the Start menu and its submenus, whose rows are as tall as they are
/// apart, the row under the mouse is the row a click picks (-1 for none).
pub proof fn lemma_menu_hover_is_click(my: i32, count: int, step: int)
    requires
        step > 0,
        count >= 0,
    ensures
        spec_row_hover(my, count, step, step) == match spec_row_click(my, count, step) {
            Some(i) => i,
            None => -1,
        },
    decreases count,
{
    if count > 0 {
        lemma_menu_hover_is_click(my, count - 1, step);
        let c = count - 1;
        assert(count * step == c * step + step && c * step >= 0) by (nonlinear_arith)
            requires
                c == count - 1,
                c >= 0,
                step > 0,
        ;
        if c * step <= my < c * step + step {
            vstd::arithmetic::div_mod::lemma_fundamental_div_mod_converse(
                my as int,
                step,
                c,
                my - c * step,
            );
        }
    }
}


proof fn lemma_first_over(widths: Seq<i32>, max: int)
    ensures
        0 <= first_over(widths, max) <= widths.len(),
        forall|j: int| 0 <= j < first_over(widths, max) ==> #[trigger] widths[j] <= max,
        first_over(widths, max) < widths.len() ==> widths[first_over(widths, max)] > max,
    decreases widths.len(),
{
    if widths.len() > 0 && widths[0] <= max {
        lemma_first_over(widths.drop_first(), max);
        assert forall|j: int| 0 <= j < first_over(widths, max) implies #[trigger] widths[j] <= max by {
            if j > 0 {
                assert(widths[j] == widths.drop_first()[j - 1]);
            }
        }
    }
}

/// A label is cut only where the name does not fit, before the first
/// character whose shortened form is too wide: every shorter shortened
/// form fits, so a label cut after at least one character fits.
pub proof fn lemma_cut_label_fits(name: Seq<char>, full: int, widths: Seq<i32>, max: int)
    requires
        widths.len() == name.len(),
    ensures
        spec_truncate(name, full, widths, max) != name ==> {
            let k = first_over(widths, max);
            &&& full > max
            &&& 0 <= k < widths.len()
            &&& widths[k] > max
            &&& spec_truncate(name, full, widths, max) == name.take(k).push('…')
            &&& forall|j: int| 0 <= j < k ==> #[trigger] widths[j] <= max
        },
{
    lemma_first_over(widths, max);
}


/// A desktop entry opens on a double click: a click on cell `c` that does
/// not open it is remembered, and a second click on `c` less than 500 ms
/// later opens it; a click on another cell, a slower click or a click off
/// the grid never opens anything, and the highlight follows the mouse.
pub proof fn lemma_double_click_opens(
    c: i32,
    selected: i32,
    last_click: Option<(i32, u64)>,
    c2: i32,
    selected2: i32,
    elapsed: u64,
)
    requires
        c >= 0,
    ensures
        ({
            let first = spec_desktop_release(c, selected, last_click);
            !first.activate ==> first.last_click == Some(c) && !first.keep_last_click
                && spec_desktop_release(c2, selected2, Some((c, elapsed))).activate == (c2 == c
                && elapsed < 500)
        }),
        spec_desktop_release(c2, selected2, last_click).activate ==> c2 >= 0 && match last_click {
            Some((lc, t)) => lc == c2 && t < 500,
            None => false,
        },
        c2 < 0 ==> !spec_desktop_release(c2, selected2, last_click).activate
            && spec_desktop_release(c2, selected2, last_click).keep_last_click,
        spec_desktop_release(c2, selected2, last_click).select == (if c2 != selected2 {
            Some(c2)
        } else {
            None
        }),
{
}


/// A click in a chooser picks row `i` exactly when it falls in that row's
/// band `[i * step, (i + 1) * step)` and there is such a row.
pub proof fn lemma_row_click_band(my: i32, count: int, step: int, i: int)
    requires
        step > 0,
        count >= 0,
    ensures
        spec_row_click(my, count, step) == Some(i) <==> (0 <= i < count && i * step <= my < (i + 1)
            * step),
        spec_row_click(my, count, step) is None <==> !(0 <= my < count * step),
{
    if 0 <= my {
        let m = my as int;
        vstd::arithmetic::div_mod::lemma_fundamental_div_mod(m, step);
        vstd::arithmetic::div_mod::lemma_mod_bound(m, step);
        if 0 <= i && i * step <= m < (i + 1) * step {
            assert((i + 1) * step == i * step + step) by (nonlinear_arith);
            vstd::arithmetic::div_mod::lemma_fundamental_div_mod_converse(m, step, i, m - i * step);
            assert(i < count <==> (i + 1) * step <= count * step) by (nonlinear_arith)
                requires
                    step > 0,
            ;
        }
        if m < count * step {
            let q = m / step;
            assert(q * step <= m && m < (q + 1) * step) by (nonlinear_arith)
                requires
                    m == step * q + m % step,
                    0 <= m % step < step,
            ;
            assert(q < count) by (nonlinear_arith)
                requires
                    q * step <= m,
                    m < count * step,
                    step > 0,
            ;
        }
    }
}

/// The bar's clock at a time after the epoch reads `HH:MM`: the hour of
/// the day and the minute of the hour, in two digits each.
pub proof fn lemma_bar_clock_reads_time(tv_sec: i64)
    requires
        tv_sec >= 0,
    ensures
        ({
            let c = spec_bar_clock(tv_sec);
            &&& c.len() == 5
            &&& c[2] == ':'
            &&& (c[0] as int - 48) * 10 + (c[1] as int - 48) == (tv_sec % 86400) / 3600
            &&& (c[3] as int - 48) * 10 + (c[4] as int - 48) == (tv_sec / 60) % 60
        }),
{
    let t = tv_sec as int;
    let a = t / 86400;
    let sd = t % 86400;
    let h = sd / 3600;
    let q = sd / 60;
    let m = q % 60;
    assert(trunc_rem(t, 86400) == sd);
    assert(trunc_div(sd, 3600) == h);
    assert(trunc_div(sd, 60) == q);
    assert(trunc_rem(q, 60) == m);
    vstd::arithmetic::div_mod::lemma_fundamental_div_mod(t, 86400);
    vstd::arithmetic::div_mod::lemma_mod_bound(t, 86400);
    vstd::arithmetic::div_mod::lemma_fundamental_div_mod(sd, 60);
    vstd::arithmetic::div_mod::lemma_mod_bound(sd, 60);
    vstd::arithmetic::div_mod::lemma_fundamental_div_mod(q, 60);
    vstd::arithmetic::div_mod::lemma_mod_bound(q, 60);
    assert(t == 60 * (1440 * a + q) + sd % 60) by (nonlinear_arith)
        requires
            t == 86400 * a + sd,
            sd == 60 * q + sd % 60,
    ;
    vstd::arithmetic::div_mod::lemma_fundamental_div_mod_converse(t, 60, 1440 * a + q, sd % 60);
    assert(1440 * a + q == 60 * (24 * a + q / 60) + m) by (nonlinear_arith)
        requires
            q == 60 * (q / 60) + q % 60,
            m == q % 60,
    ;
    vstd::arithmetic::div_mod::lemma_fundamental_div_mod_converse(1440 * a + q, 60, 24 * a + q / 60, m);
    assert(h < 24) by {
        vstd::arithmetic::div_mod::lemma_div_is_ordered(sd, 86399, 3600);
    }
    lemma_two_digits(h as nat);
    lemma_two_digits(m as nat);
}

proof fn lemma_two_digits(n: nat)
    requires
        n < 100,
    ensures
        pad2_signed(n as int) == seq![((48 + n / 10) as char), ((48 + n % 10) as char)],
{
    reveal_with_fuel(dec, 2);
    assert(pad2_signed(n as int) =~= seq![((48 + n / 10) as char), ((48 + n % 10) as char)]);
}

/// A loaded icon is resized to the icon side at the scale (48 per scale
/// step, 32 for small icons) unless it is already that square.
pub proof fn lemma_icon_target_square(width: u32, height: u32, small: bool, scale: isize)
    requires
        0 <= scale,
        48 * scale <= u32::MAX,
    ensures
        ({
            let side = if small { 32 * scale } else { 48 * scale };
            match spec_icon_target(width, height, small, scale) {
                Some(s) => s == side && !(width == side && height == side),
                None => width == side && height == side,
            }
        }),
{
}

} // verus!
