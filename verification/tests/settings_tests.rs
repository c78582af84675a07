use orbutils::settings::{
    clicked_panel, os_release, panel_rows, trim_nonempty, utc_clock, Row, SystemInfo,
    PANEL_COUNT,
};

fn info() -> SystemInfo {
    SystemInfo {
        pretty_name: None,
        name: None,
        version: None,
        arch: "x86_64".to_string(),
        hostname: None,
        raid_active: false,
        package_sources: Vec::new(),
        now_secs: 0,
        user: None,
    }
}

#[test]
fn rows_constructors() {
    assert_eq!(
        Row::kv("Host", "eos"),
        Row { label: "Host".to_string(), value: "eos".to_string(), good: false }
    );
    assert_eq!(
        Row::ok("ASLR", "on"),
        Row { label: "ASLR".to_string(), value: "on".to_string(), good: true }
    );
    assert_eq!(
        Row::note("hello"),
        Row { label: String::new(), value: "hello".to_string(), good: false }
    );
}

#[test]
fn trim_nonempty_reads_small_files() {
    assert_eq!(trim_nonempty("  myhost \n"), Some("myhost".to_string()));
    assert_eq!(trim_nonempty(" \t\n "), None);
    assert_eq!(trim_nonempty(""), None);
    assert_eq!(trim_nonempty("\u{3000}a b\u{a0}"), Some("a b".to_string()));
}

#[test]
fn os_release_first_file_wins() {
    let files = vec![
        "NAME=E-OS\nVERSION=\"1.2\"\n".to_string(),
        "NAME=Redox\nPRETTY_NAME=\"Redox OS\"\n".to_string(),
    ];
    assert_eq!(os_release(&files, "NAME"), Some("E-OS".to_string()));
    assert_eq!(os_release(&files, "VERSION"), Some("1.2".to_string()));
    assert_eq!(os_release(&files, "PRETTY_NAME"), Some("Redox OS".to_string()));
    assert_eq!(os_release(&files, "ID"), None);
}

#[test]
fn os_release_needs_equals_right_after_key() {
    let files = vec!["NAMEX=1\nNAME = 2\nNAME= \" x \" \r\n".to_string()];
    // trimmed after '=', then the quotes stripped (inner spaces stay)
    assert_eq!(os_release(&files, "NAME"), Some(" x ".to_string()));
}

#[test]
fn os_release_first_line_of_file_wins() {
    let files = vec!["A=1\nA=2".to_string()];
    assert_eq!(os_release(&files, "A"), Some("1".to_string()));
    assert_eq!(os_release(&Vec::new(), "A"), None);
}

#[test]
fn utc_clock_formats() {
    assert_eq!(utc_clock(0), "00:00:00");
    assert_eq!(utc_clock(3661), "01:01:01");
    assert_eq!(utc_clock(86399), "23:59:59");
    assert_eq!(utc_clock(86400 * 5 + 45296), "12:34:56");
}

#[test]
fn panel_system_defaults() {
    let rows = panel_rows(0, &info());
    assert_eq!(
        rows,
        vec![
            Row::kv("System", "E-OS Crimson"),
            Row::kv("Wersja", "0.1.0 \"Genesis\""),
            Row::kv("Architektura", "x86_64"),
            Row::kv("Host", "eos"),
            Row::kv("Jądro", "Redox (mikrojądro, fork E-OS)"),
        ]
    );
}

#[test]
fn panel_system_prefers_pretty_name() {
    let mut i = info();
    i.name = Some("E-OS".to_string());
    assert_eq!(panel_rows(0, &i)[0], Row::kv("System", "E-OS"));
    i.pretty_name = Some("E-OS Crimson 0.2".to_string());
    i.version = Some("0.2".to_string());
    i.hostname = Some("box".to_string());
    let rows = panel_rows(0, &i);
    assert_eq!(rows[0], Row::kv("System", "E-OS Crimson 0.2"));
    assert_eq!(rows[1], Row::kv("Wersja", "0.2"));
    assert_eq!(rows[3], Row::kv("Host", "box"));
}

#[test]
fn panel_security_raid() {
    let mut i = info();
    let rows = panel_rows(1, &i);
    assert_eq!(rows.len(), 7);
    assert_eq!(rows[4], Row::ok("RAID-1 mirror", "dostępny (raid1d)"));
    assert_eq!(rows[6], Row::note("Pulpit bez telemetrii — dane pozostają lokalnie."));
    i.raid_active = true;
    assert_eq!(panel_rows(1, &i)[4], Row::ok("RAID-1 mirror", "aktywny (raid1d)"));
}

#[test]
fn panel_updates_lists_sources() {
    let mut i = info();
    i.package_sources = vec!["eos.toml".to_string(), "extra.toml".to_string()];
    let rows = panel_rows(2, &i);
    assert_eq!(
        rows,
        vec![
            Row::note("System aktualizacji (Settings → Update) — w budowie (R-7xx)."),
            Row::kv("Źródło", "eos.toml"),
            Row::kv("Źródło", "extra.toml"),
        ]
    );
}

#[test]
fn panel_network_clock_user() {
    let mut i = info();
    i.now_secs = 45296;
    i.user = Some("anna".to_string());
    assert_eq!(panel_rows(4, &i)[0], Row::kv("Host", "eos"));
    assert_eq!(panel_rows(7, &i)[0], Row::kv("Czas (UTC)", "12:34:56"));
    assert_eq!(panel_rows(8, &i)[0], Row::kv("Użytkownik", "anna"));
    assert_eq!(panel_rows(8, &info())[0], Row::kv("Użytkownik", "user"));
    assert_eq!(panel_rows(3, &i).len(), 2);
    assert_eq!(panel_rows(5, &i).len(), 1);
    assert_eq!(panel_rows(6, &i).len(), 1);
}

#[test]
fn panel_out_of_range_is_empty() {
    assert!(panel_rows(PANEL_COUNT, &info()).is_empty());
    assert!(panel_rows(100, &info()).is_empty());
}

#[test]
fn clicked_panel_in_sidebar() {
    assert_eq!(clicked_panel(10, 64, 3), Some(0));
    assert_eq!(clicked_panel(209, 64 + 40 * 8 + 39, 0), Some(8));
    // the active panel is not switched to again
    assert_eq!(clicked_panel(10, 64 + 40 * 3, 3), None);
    // past the last panel, the header, or right of the sidebar
    assert_eq!(clicked_panel(10, 64 + 40 * 9, 0), None);
    assert_eq!(clicked_panel(10, 63, 3), None);
    assert_eq!(clicked_panel(210, 100, 3), None);
}
