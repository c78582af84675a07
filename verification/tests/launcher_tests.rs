use orbutils::launcher::{
    bar_click, bar_clock, bar_hover, category_exec, desktop_release, icon_target, menu_step,
    row_click, row_hover, running_count, super_program, truncate_label, BarClick,
    DesktopRelease, MenuStep,
};

#[test]
fn category_exec_prefixes() {
    assert_eq!(category_exec("Games"), "category=Games");
    assert_eq!(category_exec(""), "category=");
}

#[test]
fn menu_step_opens_category() {
    assert_eq!(
        menu_step(None, Some("category=Games")),
        MenuStep::Show(Some("Games".to_string()))
    );
    assert_eq!(
        menu_step(Some("Games"), Some("category=Tools")),
        MenuStep::Show(Some("Tools".to_string()))
    );
}

#[test]
fn menu_step_exit_goes_back_or_logs_out() {
    assert_eq!(menu_step(Some("Games"), Some("exit")), MenuStep::Show(None));
    assert_eq!(menu_step(None, Some("exit")), MenuStep::Logout);
}

#[test]
fn menu_step_launches_or_closes() {
    assert_eq!(
        menu_step(Some("Games"), Some("chess --fast")),
        MenuStep::Launch("chess --fast".to_string())
    );
    assert_eq!(menu_step(None, Some("exits")), MenuStep::Launch("exits".to_string()));
    assert_eq!(menu_step(None, None), MenuStep::Close);
    assert_eq!(menu_step(Some("Games"), None), MenuStep::Close);
}

#[test]
fn bar_hover_icons() {
    let widths = vec![48u32, 48, 48];
    // icons at x = 8..56, 56..104, 104..152
    assert_eq!(bar_hover(10, 5, &widths, None, 1000), 1);
    assert_eq!(bar_hover(56, 5, &widths, None, 1000), 2);
    assert_eq!(bar_hover(151, 5, &widths, None, 1000), 3);
    assert_eq!(bar_hover(152, 5, &widths, None, 1000), -1);
    assert_eq!(bar_hover(7, 5, &widths, None, 1000), -1);
    assert_eq!(bar_hover(10, -1, &widths, None, 1000), -1);
}

#[test]
fn bar_hover_start_button_centered() {
    let widths = vec![48u32];
    // start button 48 wide on a 1000 wide bar: x = 476..524
    assert_eq!(bar_hover(476, 0, &widths, Some(48), 1000), 0);
    assert_eq!(bar_hover(523, 0, &widths, Some(48), 1000), 0);
    assert_eq!(bar_hover(524, 0, &widths, Some(48), 1000), -1);
    // the start button wins over an icon beneath it
    assert_eq!(bar_hover(20, 0, &widths, Some(48), 40), 0);
}

#[test]
fn bar_click_effects() {
    assert_eq!(bar_click(0, 3), BarClick::Start);
    assert_eq!(bar_click(1, 3), BarClick::Launch(0));
    assert_eq!(bar_click(3, 3), BarClick::Launch(2));
    assert_eq!(bar_click(4, 3), BarClick::Nothing);
    assert_eq!(bar_click(-1, 3), BarClick::Nothing);
}

#[test]
fn running_count_matches_exact_exec() {
    let children = vec![
        "editor".to_string(),
        "term".to_string(),
        "editor".to_string(),
        "editor %f".to_string(),
    ];
    assert_eq!(running_count(&children, "editor"), 2);
    assert_eq!(running_count(&children, "term"), 1);
    assert_eq!(running_count(&children, "files"), 0);
    assert_eq!(running_count(&Vec::new(), "editor"), 0);
}

#[test]
fn super_shortcuts() {
    assert_eq!(super_program(0x30, true), Some("netsurf-fb"));
    assert_eq!(super_program(0x21, true), Some("cosmic-files"));
    assert_eq!(super_program(0x14, true), Some("cosmic-term"));
    assert_eq!(super_program(0x30, false), None);
    assert_eq!(super_program(0x10, true), None);
}

#[test]
fn bar_clock_formats_utc_time() {
    assert_eq!(bar_clock(0), "00:00");
    assert_eq!(bar_clock(3600 * 13 + 60 * 7 + 59), "13:07");
    assert_eq!(bar_clock(86400 + 3600 * 23 + 60 * 59), "23:59");
}

#[test]
fn bar_clock_before_epoch() {
    // Rust's remainder keeps the sign: -61 s is -0 h and -1 min
    assert_eq!(bar_clock(-61), "00:-1");
    assert_eq!(bar_clock(-3600 * 2), "-2:00");
}

#[test]
fn row_hover_picks_last_matching_row() {
    assert_eq!(row_hover(0, 3, 40, 40), 0);
    assert_eq!(row_hover(39, 3, 40, 40), 0);
    assert_eq!(row_hover(40, 3, 40, 40), 1);
    assert_eq!(row_hover(119, 3, 40, 40), 2);
    assert_eq!(row_hover(120, 3, 40, 40), -1);
    assert_eq!(row_hover(-1, 3, 40, 40), -1);
    // overlapping bands: the later row wins
    assert_eq!(row_hover(45, 3, 40, 50), 1);
}

#[test]
fn row_click_picks_row() {
    assert_eq!(row_click(0, 3, 40), Some(0));
    assert_eq!(row_click(85, 3, 40), Some(2));
    assert_eq!(row_click(120, 3, 40), None);
    assert_eq!(row_click(-3, 3, 40), None);
    assert_eq!(row_click(10, 0, 40), None);
}

#[test]
fn icon_target_sizes() {
    assert_eq!(icon_target(48, 48, false, 1), None);
    assert_eq!(icon_target(32, 32, true, 1), None);
    assert_eq!(icon_target(64, 64, false, 1), Some(48));
    assert_eq!(icon_target(48, 32, false, 1), Some(48));
    assert_eq!(icon_target(48, 48, true, 1), Some(32));
    assert_eq!(icon_target(48, 48, false, 2), Some(96));
}

#[test]
fn truncate_label_keeps_short_names() {
    let widths = vec![10, 20, 30];
    assert_eq!(truncate_label("abc", 25, &widths, 30), "abc");
}

#[test]
fn truncate_label_cuts_with_ellipsis() {
    // "a…" is 20 wide, "ab…" 31: cut before the second character
    let widths = vec![20, 31, 40, 50];
    assert_eq!(truncate_label("abcd", 45, &widths, 30), "a…");
    // even one character does not fit
    let widths = vec![35, 40];
    assert_eq!(truncate_label("ab", 32, &widths, 30), "…");
}

#[test]
fn truncate_label_no_cut_when_every_prefix_fits() {
    let widths = vec![10, 20];
    assert_eq!(truncate_label("ab", 40, &widths, 30), "ab");
}

#[test]
fn desktop_release_double_click_activates() {
    assert_eq!(
        desktop_release(2, 2, Some((2, 300))),
        DesktopRelease { activate: true, last_click: None, keep_last_click: false, select: None }
    );
}

#[test]
fn desktop_release_single_click_remembers() {
    assert_eq!(
        desktop_release(2, -1, None),
        DesktopRelease {
            activate: false,
            last_click: Some(2),
            keep_last_click: false,
            select: Some(2)
        }
    );
    // too slow for a double click
    assert_eq!(
        desktop_release(2, 2, Some((2, 500))),
        DesktopRelease { activate: false, last_click: Some(2), keep_last_click: false, select: None }
    );
    // another cell
    assert_eq!(
        desktop_release(3, 2, Some((2, 100))),
        DesktopRelease {
            activate: false,
            last_click: Some(3),
            keep_last_click: false,
            select: Some(3)
        }
    );
}

#[test]
fn desktop_release_outside_grid() {
    assert_eq!(
        desktop_release(-1, 2, Some((2, 100))),
        DesktopRelease { activate: false, last_click: None, keep_last_click: true, select: Some(-1) }
    );
}

#[test]
fn click_on_icon_launches_it() {
    let widths = vec![48u32, 32, 64, 48];
    let mut left = 8;
    for (k, w) in widths.iter().enumerate() {
        for mx in [left, left + *w as i32 / 2, left + *w as i32 - 1] {
            let hovered = bar_hover(mx, 3, &widths, Some(40), 2000);
            assert_eq!(bar_click(hovered, widths.len()), BarClick::Launch(k));
        }
        left += *w as i32;
    }
}

#[test]
fn menu_hover_is_click() {
    for my in -50..300 {
        let hover = row_hover(my, 6, 32, 32);
        let click = row_click(my, 6, 32).map(|i| i as i32).unwrap_or(-1);
        assert_eq!(hover, click, "my = {}", my);
    }
}

#[test]
fn cut_labels_fit() {
    let name = "Application Name";
    let n = name.chars().count();
    // widths grow by 7 per character plus the ellipsis
    let widths: Vec<i32> = (0..n).map(|k| 7 * (k as i32 + 1) + 9).collect();
    for max in [10, 30, 60, 100, 200] {
        let full = 7 * n as i32;
        let label = truncate_label(name, full, &widths, max);
        if label != name {
            let kept = label.chars().count() - 1;
            assert!(label.ends_with('…'));
            assert!(kept == 0 || widths[kept - 1] <= max);
            assert!(widths[kept] > max);
        }
    }
}
