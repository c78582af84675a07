use orbutils::bar::{
    bar_window, chooser_action, clock_left, start_menu, tray_lefts, BarWindow, ChooserAction,
};

#[test]
fn bar_window_floats_above_bottom() {
    assert_eq!(
        bar_window(1920, 1080, 1),
        BarWindow { x: 24, y: 1008, width: 1872, height: 48 }
    );
    assert_eq!(
        bar_window(3840, 2160, 2),
        BarWindow { x: 48, y: 2016, width: 3744, height: 96 }
    );
}

#[test]
fn bar_window_narrow_screen() {
    assert_eq!(bar_window(30, 100, 1), BarWindow { x: 24, y: 28, width: 0, height: 48 });
}

#[test]
fn clock_and_tray_from_the_right() {
    assert_eq!(clock_left(1872, 60), 1800);
    assert_eq!(tray_lefts(1800, &vec![32, 32, 32]), vec![1754, 1714, 1674]);
    assert_eq!(tray_lefts(100, &vec![10, 20]), vec![66, 48]);
    assert!(tray_lefts(100, &Vec::new()).is_empty());
}

#[test]
fn start_menu_sits_on_the_bar_row() {
    assert_eq!(start_menu(1080, 3, 1), (936, 96));
    assert_eq!(start_menu(1080, 0, 1), (1032, 0));
    assert_eq!(start_menu(2160, 2, 2), (1936, 128));
}

#[test]
fn chooser_actions() {
    assert_eq!(chooser_action(0), ChooserAction::NoApplication);
    assert_eq!(chooser_action(1), ChooserAction::OpenWithOnly);
    assert_eq!(chooser_action(2), ChooserAction::Ask);
    assert_eq!(chooser_action(17), ChooserAction::Ask);
}
