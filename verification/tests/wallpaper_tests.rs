use orbutils::background::{
    cache_entry, cache_file_name, cache_key, hash_file_name, next_display_x, parse_display_url,
    unused_cache_files, vt_screens, BackgroundMode, DisplayUrl,
};
use orbutils::frames::{frame_idle, FrameState};
use orbutils::blend::{blend, colors_of_rgba, rgb, rgba, rgba_bytes};
use orbutils::pixels::{blend_sprite, compose_base, copy_rect, restore_dirty_tiles, Picture, Sprite};
use orbutils::rng::{display_seed, Rng};
use orbutils::tiles::{hits_dirty, mark_tiles, tile_grid, TILE};

#[test]
fn mode_from_str() {
    assert_eq!(BackgroundMode::from_str("center"), BackgroundMode::Center);
    assert_eq!(BackgroundMode::from_str("fill"), BackgroundMode::Fill);
    assert_eq!(BackgroundMode::from_str("scale"), BackgroundMode::Scale);
    assert_eq!(BackgroundMode::from_str("zoom"), BackgroundMode::Zoom);
    assert_eq!(BackgroundMode::from_str(""), BackgroundMode::Zoom);
    assert_eq!(BackgroundMode::from_str("Center"), BackgroundMode::Zoom);
}

#[test]
fn mode_names_match_debug() {
    for m in [
        BackgroundMode::Center,
        BackgroundMode::Fill,
        BackgroundMode::Scale,
        BackgroundMode::Zoom,
    ] {
        assert_eq!(m.name(), format!("{:?}", m));
    }
}

#[test]
fn cache_key_format() {
    assert_eq!(
        cache_key("/home/u/bg.png", 1700000000, BackgroundMode::Zoom, 1920, 1080),
        "/home/u/bg.png:1700000000:Zoom:1920x1080"
    );
    assert_eq!(cache_key("", 0, BackgroundMode::Fill, 0, 7), ":0:Fill:0x7");
}

#[test]
fn cache_file_name_is_hex_hash() {
    let key = cache_key("/bg.jpg", 42, BackgroundMode::Center, 800, 600);
    let hash = xxhash_rust::const_xxh3::xxh3_64(key.as_bytes());
    assert_eq!(
        cache_file_name("/bg.jpg", 42, BackgroundMode::Center, 800, 600),
        format!("{:x}.bmp", hash)
    );
}

#[test]
fn cache_file_name_depends_on_every_part() {
    let a = cache_file_name("/bg.jpg", 42, BackgroundMode::Center, 800, 600);
    assert_ne!(a, cache_file_name("/bg.png", 42, BackgroundMode::Center, 800, 600));
    assert_ne!(a, cache_file_name("/bg.jpg", 43, BackgroundMode::Center, 800, 600));
    assert_ne!(a, cache_file_name("/bg.jpg", 42, BackgroundMode::Zoom, 800, 600));
    assert_ne!(a, cache_file_name("/bg.jpg", 42, BackgroundMode::Center, 801, 600));
    assert_ne!(a, cache_file_name("/bg.jpg", 42, BackgroundMode::Center, 800, 601));
}

#[test]
fn hash_file_name_hex() {
    assert_eq!(hash_file_name(0), "0.bmp");
    assert_eq!(hash_file_name(255), "ff.bmp");
    assert_eq!(hash_file_name(0xdead_beef_0123), "deadbeef0123.bmp");
    assert_eq!(hash_file_name(u64::MAX), "ffffffffffffffff.bmp");
}

#[test]
fn unused_cache_files_keeps_order() {
    let files = vec!["a.bmp".to_string(), "b.bmp".to_string(), "c.bmp".to_string()];
    let used = vec!["b.bmp".to_string()];
    assert_eq!(unused_cache_files(&files, &used), vec!["a.bmp".to_string(), "c.bmp".to_string()]);
    assert!(unused_cache_files(&files, &files).is_empty());
    assert_eq!(unused_cache_files(&files, &Vec::new()), files);
}

#[test]
fn parse_display_url_fields() {
    let d = parse_display_url("display.vesa:3.1/1920/1080").unwrap();
    assert_eq!(
        d,
        DisplayUrl {
            scheme: "display.vesa".to_string(),
            vt_screen: "3.1".to_string(),
            width: 1920,
            height: 1080,
        }
    );
}

#[test]
fn parse_display_url_lenient_numbers() {
    let d = parse_display_url("orbital:2/abc").unwrap();
    assert_eq!((d.vt_screen.as_str(), d.width, d.height), ("2", 0, 0));
    let d = parse_display_url("s:1/640/480/extra:more").unwrap();
    assert_eq!((d.width, d.height), (640, 480));
    let d = parse_display_url("s:").unwrap();
    assert_eq!((d.vt_screen.as_str(), d.width, d.height), ("", 0, 0));
}

#[test]
fn parse_display_url_without_path() {
    assert_eq!(parse_display_url("display"), Err("no path".to_string()));
    assert_eq!(parse_display_url(""), Err("no path".to_string()));
}

#[test]
fn vt_screens_split() {
    assert_eq!(vt_screens("3.1"), Some((3, 1)));
    assert_eq!(vt_screens("3.x"), Some((3, 0)));
    assert_eq!(vt_screens(".5"), Some((0, 5)));
    assert_eq!(vt_screens("3"), None);
}

#[test]
fn next_display_is_right_of_last() {
    assert_eq!(next_display_x(0, 1920), 1920);
    assert_eq!(next_display_x(1920, 1280), 3200);
}

#[test]
fn rng_is_odd_seeded_xorshift() {
    let mut r = Rng::new(4);
    assert_eq!(r.0, 5);
    assert_eq!(r.next(), 1351845);
    assert_eq!(r.next(), 336141829);
    assert_eq!(r.0, 336141829);
    assert_eq!(Rng::new(0).0, 1);
}

#[test]
fn rng_never_zero() {
    let mut r = Rng::new(0xFFFF_FFFF);
    for _ in 0..10000 {
        assert_ne!(r.next(), 0);
    }
}

#[test]
fn display_seeds_wrap() {
    assert_eq!(display_seed(7, 3), 2654435797);
    assert_eq!(display_seed(0xFFFF_FFFF, 1), 2654435767);
    assert_eq!(display_seed(0, 0), 0x9E37_79B9);
}

#[test]
fn colours_pack_argb() {
    assert_eq!(rgba(1, 2, 3, 4), 0x0401_0203);
    assert_eq!(rgb(4, 2, 2), 0xFF04_0202);
}

#[test]
fn blend_pixels() {
    let d = 0x1122_3344;
    assert_eq!(blend(d, 0x00FF_FFFF), d);
    assert_eq!(blend(d, 0xFF12_3456), 0xFF12_3456);
    assert_eq!(blend(0xFF00_0000, 0x80FF_0000), 0xFE7F_0000);
    assert_eq!(blend(d, 0x80FF_FFFF), 0x8890_98A1);
}

#[test]
fn rgba_bytes_round_trip() {
    let colors = vec![0x1122_3344u32, 0xFF00_00FF, 0];
    let bytes = rgba_bytes(&colors);
    assert_eq!(bytes, vec![0x22, 0x33, 0x44, 0x11, 0, 0, 0xFF, 0xFF, 0, 0, 0, 0]);
    assert_eq!(colors_of_rgba(&bytes), colors);
}

#[test]
fn colors_of_rgba_ignores_partial_pixel() {
    assert_eq!(colors_of_rgba(&[1, 2, 3, 4, 5, 6]), vec![0x0401_0203]);
    assert!(colors_of_rgba(&[]).is_empty());
}

#[test]
fn tile_grid_is_clean() {
    let (tx, ty, d) = tile_grid(100, 50);
    assert_eq!((tx, ty, d.len()), (4, 2, 8));
    assert!(d.iter().all(|b| !b));
    assert_eq!(TILE, 32);
    let (tx, ty, d) = tile_grid(0, 0);
    assert_eq!((tx, ty, d.len()), (0, 0, 0));
}

#[test]
fn mark_and_hit_tiles() {
    let (tx, _ty, mut d) = tile_grid(100, 50);
    mark_tiles(&mut d, tx, 100, 50, (30, 10, 10, 10));
    assert_eq!(d, vec![true, true, false, false, false, false, false, false]);
    assert!(hits_dirty(&d, tx, 100, 50, (0, 0, 5, 5)));
    assert!(!hits_dirty(&d, tx, 100, 50, (70, 40, 5, 5)));
    assert!(!hits_dirty(&d, tx, 100, 50, (200, 200, 5, 5)));
    // a box touching the bottom-right corner
    mark_tiles(&mut d, tx, 100, 50, (99, 49, 10, 10));
    assert!(d[7]);
    assert!(hits_dirty(&d, tx, 100, 50, (96, 40, 1, 1)));
    assert!(!hits_dirty(&d, tx, 100, 50, (90, 40, 1, 1)));
}

#[test]
fn mark_tiles_clips_and_ignores_empty() {
    let (tx, _ty, mut d) = tile_grid(100, 50);
    mark_tiles(&mut d, tx, 100, 50, (-20, -20, 10, 10));
    mark_tiles(&mut d, tx, 100, 50, (10, 10, 0, 10));
    assert!(d.iter().all(|b| !b));
    mark_tiles(&mut d, tx, 100, 50, (-20, -20, 25, 25));
    assert_eq!(d[0], true);
    assert_eq!(d.iter().filter(|b| **b).count(), 1);
}

#[test]
fn marked_box_is_hit() {
    let (tx, _ty, mut d) = tile_grid(300, 200);
    let r = (140, 70, 20, 50);
    assert!(!hits_dirty(&d, tx, 300, 200, r));
    mark_tiles(&mut d, tx, 300, 200, r);
    assert!(hits_dirty(&d, tx, 300, 200, r));
}

#[test]
fn copy_rect_copies_only_the_rect() {
    let mut data = vec![0u32; 16];
    let base: Vec<u32> = (0..16).collect();
    copy_rect(&mut data, &base, 4, 1, 1, 2, 2);
    assert_eq!(data, vec![0, 0, 0, 0, 0, 5, 6, 0, 0, 9, 10, 0, 0, 0, 0, 0]);
}

#[test]
fn restore_dirty_tiles_merges_runs() {
    let (tx, ty, mut dirty) = tile_grid(40, 40);
    dirty[1] = true;
    dirty[2] = true;
    dirty[3] = true;
    let mut data = vec![1u32; 1600];
    let base = vec![2u32; 1600];
    let rects = restore_dirty_tiles(&mut data, &base, &dirty, tx, ty, 40, 40).unwrap();
    assert_eq!(rects, vec![(32, 0, 8, 32), (0, 32, 40, 8)]);
    for y in 0..40usize {
        for x in 0..40usize {
            let expect = if y >= 32 || x >= 32 { 2 } else { 1 };
            assert_eq!(data[y * 40 + x], expect);
        }
    }
}

#[test]
fn restore_dirty_tiles_waits_for_resize() {
    let (tx, ty, dirty) = tile_grid(40, 40);
    let mut data = vec![1u32; 100];
    let base = vec![2u32; 1600];
    assert_eq!(restore_dirty_tiles(&mut data, &base, &dirty, tx, ty, 40, 40), None);
    assert!(data.iter().all(|p| *p == 1));
}

#[test]
fn restore_clean_grid_sends_nothing() {
    let (tx, ty, dirty) = tile_grid(64, 64);
    let mut data = vec![1u32; 64 * 64];
    let base = vec![2u32; 64 * 64];
    assert_eq!(restore_dirty_tiles(&mut data, &base, &dirty, tx, ty, 64, 64), Some(Vec::new()));
    assert!(data.iter().all(|p| *p == 1));
}

#[test]
fn blend_sprite_clips_edges() {
    let spr = Sprite { w: 2, h: 2, data: vec![0xFF00_00FF; 4] };
    let mut dst = vec![0u32; 16];
    blend_sprite(&mut dst, 4, 4, &spr, -1, -1);
    let mut expect = vec![0u32; 16];
    expect[0] = 0xFF00_00FF;
    assert_eq!(dst, expect);
    blend_sprite(&mut dst, 4, 4, &spr, 3, 3);
    expect[15] = 0xFF00_00FF;
    assert_eq!(dst, expect);
    blend_sprite(&mut dst, 4, 4, &spr, 10, 0);
    assert_eq!(dst, expect);
}

#[test]
fn blend_sprite_skips_transparent_and_mixes() {
    let spr = Sprite { w: 2, h: 1, data: vec![0x0012_3456, 0x80FF_0000] };
    let mut dst = vec![0xFF00_0000u32; 4];
    blend_sprite(&mut dst, 2, 2, &spr, 0, 1);
    assert_eq!(dst, vec![0xFF00_0000, 0xFF00_0000, 0xFF00_0000, 0xFE7F_0000]);
}

#[test]
fn compose_base_without_picture() {
    assert_eq!(compose_base(3, 2, None), vec![0xFF04_0202; 6]);
}

#[test]
fn compose_base_centres_small_picture() {
    let pic = Picture { width: 1, height: 1, data: vec![7] };
    let b = compose_base(3, 3, Some(&pic));
    let f = 0xFF04_0202;
    assert_eq!(b, vec![f, f, f, f, 7, f, f, f, f]);
}

#[test]
fn compose_base_crops_large_picture() {
    let pic = Picture { width: 4, height: 4, data: (0..16).collect() };
    let b = compose_base(2, 2, Some(&pic));
    assert_eq!(b, vec![5, 6, 9, 10]);
}

#[test]
fn damage_is_exactly_the_dirty_tiles() {
    let (w, h) = (150i32, 70i32);
    let (tx, ty, mut dirty) = tile_grid(w, h);
    let mut seed = Rng::new(12345);
    for k in 0..dirty.len() {
        dirty[k] = seed.next() % 3 == 0;
    }
    let n = (w * h) as usize;
    let mut data = vec![1u32; n];
    let base = vec![2u32; n];
    let rects = restore_dirty_tiles(&mut data, &base, &dirty, tx, ty, w, h).unwrap();
    for py in 0..h {
        for px in 0..w {
            let in_damage = rects.iter().any(|&(x, y, rw, rh)| {
                x <= px && px < x + rw as i32 && y <= py && py < y + rh as i32
            });
            let tile_dirty = dirty[((py / 32) * tx + px / 32) as usize];
            assert_eq!(in_damage, tile_dirty, "pixel ({}, {})", px, py);
            let p = (py * w + px) as usize;
            assert_eq!(data[p], if tile_dirty { 2 } else { 1 });
        }
    }
}

#[test]
fn cache_entry_gives_name_and_hash() {
    let key = cache_key("/bg.png", 7, BackgroundMode::Scale, 1024, 768);
    let hash = xxhash_rust::const_xxh3::xxh3_64(key.as_bytes());
    let (name, h) = cache_entry("/bg.png", 7, BackgroundMode::Scale, 1024, 768);
    assert_eq!(h, hash);
    assert_eq!(name, format!("{:x}.bmp", hash));
    assert_eq!(name, cache_file_name("/bg.png", 7, BackgroundMode::Scale, 1024, 768));
}

#[test]
fn mark_and_hit_on_a_wider_grid() {
    // 6 tiles per row and 3 rows for a 100 x 50 screen that needs 4 x 2
    let mut d = vec![false; 20];
    mark_tiles(&mut d, 6, 100, 50, (30, 40, 10, 20));
    let set: Vec<usize> = (0..d.len()).filter(|&i| d[i]).collect();
    assert_eq!(set, vec![6, 7]);
    assert!(hits_dirty(&d, 6, 100, 50, (40, 33, 2, 2)));
    assert!(!hits_dirty(&d, 6, 100, 50, (0, 0, 5, 5)));
    // a box off the right edge marks nothing
    mark_tiles(&mut d, 6, 100, 50, (100, 0, 50, 50));
    assert_eq!((0..d.len()).filter(|&i| d[i]).count(), 2);
}

#[test]
fn frame_state_resize_once() {
    let mut f = FrameState::new(800, 600, true);
    assert_eq!(f.pending, Some((800, 600)));
    assert_eq!(f.take_resize(), Some(true));
    assert_eq!((f.width, f.height, f.pending, f.cache_once), (800, 600, None, false));
    assert_eq!(f.take_resize(), None);
    f.note_size(None);
    assert_eq!(f.take_resize(), None);
    f.note_size(Some((1024, 768)));
    assert_eq!(f.take_resize(), Some(false));
    assert_eq!((f.width, f.height), (1024, 768));
}

#[test]
fn frame_state_ticks_smoke_every_second_frame() {
    let mut f = FrameState::new(10, 10, false);
    assert_eq!(f.next_tick(), false);
    assert_eq!(f.next_tick(), true);
    assert_eq!(f.frame, 2);
    f.frame = u32::MAX;
    assert_eq!(f.next_tick(), true);
    assert_eq!(f.frame, 0);
}

#[test]
fn frame_pacing() {
    assert_eq!(frame_idle(0), 33_000_000);
    assert_eq!(frame_idle(20_000_000), 13_000_000);
    assert_eq!(frame_idle(32_999_999), 1);
    assert_eq!(frame_idle(33_000_000), 10_000_000);
    assert_eq!(frame_idle(u64::MAX), 10_000_000);
}
