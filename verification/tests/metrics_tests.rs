use orbutils::metrics::{
    cell_at, cell_height, cell_origin, cell_pad, cell_width, chooser_width, desktop_layout, font_size,
    icon_size, icon_small_size, scale_for_display_height, DesktopLayout,
};

#[test]
fn scale_steps_every_1600_rows() {
    assert_eq!(scale_for_display_height(0), 1);
    assert_eq!(scale_for_display_height(1080), 1);
    assert_eq!(scale_for_display_height(1599), 1);
    assert_eq!(scale_for_display_height(1600), 2);
    assert_eq!(scale_for_display_height(3200), 3);
}

#[test]
fn sizes_at_scale_one() {
    assert_eq!(chooser_width(1), 200);
    assert_eq!(font_size(1), 16);
    assert_eq!(icon_size(1), 48);
    assert_eq!(icon_small_size(1), 32);
    assert_eq!(cell_pad(1), 8);
    assert_eq!(cell_width(1), 96);
    assert_eq!(cell_height(1), 88);
}

#[test]
fn sizes_grow_with_scale() {
    assert_eq!(chooser_width(2), 400);
    assert_eq!(font_size(2), 32);
    assert_eq!(icon_size(3), 144);
    assert_eq!(icon_small_size(3), 96);
    assert_eq!(cell_pad(2), 16);
    assert_eq!(cell_width(2), 192);
    assert_eq!(cell_height(2), 176);
}

#[test]
fn cell_at_fills_columns_first() {
    assert_eq!(cell_at(0, 0, 3, 5, 1), 0);
    assert_eq!(cell_at(10, 88, 3, 5, 1), 1);
    assert_eq!(cell_at(95, 175, 3, 5, 1), 1);
    assert_eq!(cell_at(96, 0, 3, 5, 1), 3);
    assert_eq!(cell_at(150, 100, 3, 5, 1), 4);
}

#[test]
fn cell_at_misses() {
    // beyond the last entry
    assert_eq!(cell_at(96, 176, 3, 5, 1), -1);
    // negative coordinates
    assert_eq!(cell_at(-1, 0, 3, 5, 1), -1);
    assert_eq!(cell_at(0, -5, 3, 5, 1), -1);
    // below the last row
    assert_eq!(cell_at(0, 264, 3, 5, 1), -1);
}

#[test]
fn cell_at_scaled() {
    assert_eq!(cell_at(192, 176, 2, 4, 2), 3);
    assert_eq!(cell_at(191, 175, 2, 4, 2), 0);
}

#[test]
fn click_in_cell_center_selects_that_entry() {
    // every entry of a 4-row grid of 10 entries is found at its cell's centre
    let rows = 4usize;
    for i in 0..10usize {
        let col = (i / rows) as i32;
        let row = (i % rows) as i32;
        let x = col * 96 + 48;
        let y = row * 88 + 44;
        assert_eq!(cell_at(x, y, rows, 10, 1), i as i32);
    }
}

#[test]
fn desktop_layout_full_hd() {
    assert_eq!(
        desktop_layout(1920, 1080, 10),
        DesktopLayout { rows: 8, cols: 2, shown: 10 }
    );
}

#[test]
fn desktop_layout_truncates_when_full() {
    assert_eq!(desktop_layout(200, 100, 50), DesktopLayout { rows: 1, cols: 1, shown: 1 });
    // 8 rows x 19 columns on a full HD screen
    assert_eq!(
        desktop_layout(1920, 1080, 500),
        DesktopLayout { rows: 8, cols: 19, shown: 152 }
    );
}

#[test]
fn desktop_layout_without_entries() {
    assert_eq!(desktop_layout(1920, 1080, 0), DesktopLayout { rows: 1, cols: 1, shown: 0 });
}

#[test]
fn cell_origins_and_hits_agree() {
    assert_eq!(cell_origin(0, 3, 1), (0, 0));
    assert_eq!(cell_origin(4, 3, 1), (96, 88));
    assert_eq!(cell_origin(7, 3, 2), (384, 176));
    for i in 0..12usize {
        let (x, y) = cell_origin(i, 5, 1);
        assert_eq!(cell_at(x, y, 5, 12, 1), i as i32);
        assert_eq!(cell_at(x + 95, y + 87, 5, 12, 1), i as i32);
    }
}
