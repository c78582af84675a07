//! The E-OS Settings panel: content rows of each panel, values read from the
//! os-release files, the UTC clock and sidebar hit testing.

use vstd::prelude::*;

use crate::text::{
    chars_of, find_char, find_char_from, has_prefix, lemma_find_char, lines, push_all, slice_chars,
    starts_with_chars, string_of, trim, trim_char, trim_char_chars, trim_chars, pad2, push_pad2,
    dec, digit_char,
};

verus! {

/// Number of panels in the sidebar.
pub const PANEL_COUNT: usize = 9;

/// Left edge of the content area, right edge of the sidebar.
pub const SIDEBAR_W: i32 = 210;

/// Height of the header above the sidebar's panel list.
pub const HEADER_H: i32 = 64;

/// Height of one panel entry in the sidebar.
pub const ROW_H: i32 = 40;

/// One rendered content line: a labelled key/value, or a full-width note
/// (empty label).
#[derive(Debug, Clone, PartialEq, Eq)]
pub struct Row {
    pub label: String,
    pub value: String,
    /// The value is shown in the "good" colour.
    pub good: bool,
}

impl View for Row {
    type V = (Seq<char>, Seq<char>, bool);

    open spec fn view(&self) -> (Seq<char>, Seq<char>, bool) {
        (self.label@, self.value@, self.good)
    }
}

impl Row {
    /// A labelled value.
    pub fn kv(label: &str, value: &str) -> (r: Row)
        ensures
            r@ == (label@, value@, false),
    {
        Row { label: label.to_owned(), value: value.to_owned(), good: false }
    }

    /// A labelled value shown as good.
    pub fn ok(label: &str, value: &str) -> (r: Row)
        ensures
            r@ == (label@, value@, true),
    {
        Row { label: label.to_owned(), value: value.to_owned(), good: true }
    }

    /// A full-width note.
    pub fn note(value: &str) -> (r: Row)
        ensures
            r@ == (Seq::<char>::empty(), value@, false),
    {
        Row { label: String::new(), value: value.to_owned(), good: false }
    }
}

/// `s` trimmed, or `None` where nothing is left.
pub open spec fn spec_trim_nonempty(s: Seq<char>) -> Option<Seq<char>> {
    if trim(s).len() == 0 {
        None
    } else {
        Some(trim(s))
    }
}

/// The trimmed content of a small file such as `/etc/hostname`, unless it is
/// blank.
pub fn trim_nonempty(s: &str) -> (r: Option<String>)
    ensures
        opt_string_view(r) == spec_trim_nonempty(s@),
{
    let t = trim_chars(&chars_of(s));
    if t.len() == 0 {
        None
    } else {
        Some(string_of(&t))
    }
}

pub open spec fn opt_string_view(r: Option<String>) -> Option<Seq<char>> {
    match r {
        Some(s) => Some(s@),
        None => None,
    }
}

/// The value of a `KEY=value` line: after `=`, trimmed, then stripped of
/// surrounding double quotes.
pub open spec fn release_line_value(line: Seq<char>, key: Seq<char>) -> Option<Seq<char>> {
    if has_prefix(line, key.push('=')) {
        Some(trim_char(trim(line.skip(key.len() as int + 1)), '"'))
    } else {
        None
    }
}

/// The value of the first line of `lines` that assigns `key`.
pub open spec fn first_release_value(lines: Seq<Seq<char>>, key: Seq<char>) -> Option<Seq<char>>
    decreases lines.len(),
{
    if lines.len() == 0 {
        None
    } else {
        match release_line_value(lines[0], key) {
            Some(v) => Some(v),
            None => first_release_value(lines.drop_first(), key),
        }
    }
}

/// The value of `key` in the first release file that assigns it.
pub open spec fn spec_os_release(files: Seq<Seq<char>>, key: Seq<char>) -> Option<Seq<char>>
    decreases files.len(),
{
    if files.len() == 0 {
        None
    } else {
        match first_release_value(lines(files[0]), key) {
            Some(v) => Some(v),
            None => spec_os_release(files.drop_first(), key),
        }
    }
}

/// The value of `key` assigned by `line`, if it does.
fn release_line(line: &[char], key: &[char]) -> (r: Option<Vec<char>>)
    ensures
        match r {
            Some(v) => release_line_value(line@, key@) == Some(v@),
            None => release_line_value(line@, key@) is None,
        },
{
    let mut prefix: Vec<char> = Vec::new();
    push_all(&mut prefix, key);
    prefix.push('=');
    assert(prefix@ =~= key@.push('='));
    if !starts_with_chars(line, &prefix) {
        return None;
    }
    let rest = slice_chars(line, prefix.len(), line.len());
    assert(rest@ =~= line@.skip(key@.len() as int + 1));
    let t = trim_chars(&rest);
    Some(trim_char_chars(&t, '"'))
}

/// The line of `v` that starts at `start`, and where the next line starts.
pub(crate) fn next_line(v: &[char], start: usize) -> (r: (Vec<char>, usize))
    requires
        start < v@.len(),
    ensures
        start < r.1 <= v@.len(),
        lines(v@.skip(start as int)) == seq![r.0@] + lines(v@.skip(r.1 as int)),
{
    let k = find_char_from(v, '\n', start);
    let ghost s = v@.skip(start as int);
    proof {
        lemma_find_char(s, '\n');
    }
    if k == v.len() {
        let line = slice_chars(v, start, k);
        proof {
            assert(line@ =~= s);
            assert(v@.skip(k as int) =~= Seq::<char>::empty());
            assert(lines(v@.skip(k as int)) =~= Seq::<Seq<char>>::empty());
            assert(seq![line@] + Seq::<Seq<char>>::empty() =~= seq![line@]);
        }
        (line, k)
    } else {
        let end = if k > start && v[k - 1] == '\r' {
            k - 1
        } else {
            k
        };
        let line = slice_chars(v, start, end);
        proof {
            let f = find_char(s, '\n');
            assert(f == k - start);
            let l0 = s.take(f);
            if k > start && v@[k - 1] == '\r' {
                assert(l0.last() == v@[k - 1]);
                assert(l0.drop_last() =~= line@);
            } else {
                assert(l0 =~= line@);
            }
            assert(s.skip(f + 1) =~= v@.skip(k + 1));
        }
        (line, k + 1)
    }
}

/// The value of `key` among the lines of `content`.
fn content_value(content: &str, key: &[char]) -> (r: Option<Vec<char>>)
    ensures
        match r {
            Some(v) => first_release_value(lines(content@), key@) == Some(v@),
            None => first_release_value(lines(content@), key@) is None,
        },
{
    let v = chars_of(content);
    let mut start: usize = 0;
    assert(v@.skip(0) =~= v@);
    while start < v.len()
        invariant
            start <= v@.len(),
            v@ == content@,
            first_release_value(lines(v@), key@) == first_release_value(
                lines(v@.skip(start as int)),
                key@,
            ),
        decreases v.len() - start,
    {
        let (line, next) = next_line(&v, start);
        let ghost ls = lines(v@.skip(start as int));
        assert(ls[0] == line@);
        assert(ls.drop_first() =~= lines(v@.skip(next as int)));
        match release_line(&line, key) {
            Some(val) => {
                return Some(val);
            },
            None => {},
        }
        start = next;
    }
    assert(v@.skip(start as int) =~= Seq::<char>::empty());
    None
}

/// `KEY=value` from the release files: the contents of the files that could
/// be read (`/usr/share/eos/eos-release`, then `/etc/os-release`).
pub fn os_release(files: &Vec<String>, key: &str) -> (r: Option<String>)
    ensures
        opt_string_view(r) == spec_os_release(files.deep_view(), key@),
{
    let k = chars_of(key);
    let mut i: usize = 0;
    let ghost fs = files.deep_view();
    assert(fs.skip(0) =~= fs);
    while i < files.len()
        invariant
            i <= files@.len(),
            fs == files.deep_view(),
            k@ == key@,
            spec_os_release(fs, key@) == spec_os_release(fs.skip(i as int), key@),
        decreases files.len() - i,
    {
        assert(fs.skip(i as int)[0] == files[i as int]@);
        assert(fs.skip(i as int).drop_first() =~= fs.skip(i + 1));
        match content_value(files[i].as_str(), &k) {
            Some(v) => {
                return Some(string_of(&v));
            },
            None => {},
        }
        i = i + 1;
    }
    None
}


/// What the panels show of the system, as the settings program read it.
#[derive(Debug, Clone)]
pub struct SystemInfo {
    /// `PRETTY_NAME` from the release files.
    pub pretty_name: Option<String>,
    /// `NAME` from the release files.
    pub name: Option<String>,
    /// `VERSION` from the release files.
    pub version: Option<String>,
    /// The CPU architecture the program was built for.
    pub arch: String,
    /// The trimmed, non-blank content of `/etc/hostname`.
    pub hostname: Option<String>,
    /// Whether the RAID-1 scheme is present.
    pub raid_active: bool,
    /// File names in `/etc/pkg.d`, in the order the directory listed them.
    pub package_sources: Vec<String>,
    /// Seconds since the Unix epoch.
    pub now_secs: u64,
    /// The `USER` variable.
    pub user: Option<String>,
}

pub open spec fn or_default(o: Option<String>, d: Seq<char>) -> Seq<char> {
    match o {
        Some(s) => s@,
        None => d,
    }
}

pub open spec fn rows_view(rows: Seq<Row>) -> Seq<(Seq<char>, Seq<char>, bool)> {
    rows.map_values(|r: Row| r@)
}

/// `HH:MM:SS` of the time of day (UTC) `secs` seconds after the epoch.
pub open spec fn spec_utc_clock(secs: nat) -> Seq<char> {
    pad2((secs / 3600) % 24) + seq![':'] + pad2((secs / 60) % 60) + seq![':'] + pad2(secs % 60)
}

/// The time of day (UTC) `secs` seconds after the epoch, as `HH:MM:SS`.
pub fn utc_clock(secs: u64) -> (s: String)
    ensures
        s@ == spec_utc_clock(secs as nat),
{
    let mut out: Vec<char> = Vec::new();
    push_pad2(&mut out, (secs / 3600) % 24);
    out.push(':');
    push_pad2(&mut out, (secs / 60) % 60);
    out.push(':');
    push_pad2(&mut out, secs % 60);
    assert(out@ =~= spec_utc_clock(secs as nat));
    string_of(&out)
}

pub open spec fn source_rows(sources: Seq<Seq<char>>) -> Seq<(Seq<char>, Seq<char>, bool)> {
    sources.map_values(|s: Seq<char>| ("Źródło"@, s, false))
}

/// The rows of panel `idx`; panels beyond the last are empty.
pub open spec fn spec_panel_rows(idx: usize, info: SystemInfo) -> Seq<(Seq<char>, Seq<char>, bool)> {
    let host = or_default(info.hostname, "eos"@);
    if idx == 0 {
        seq![
            ("System"@, or_default(info.pretty_name, or_default(info.name, "E-OS Crimson"@)), false),
            ("Wersja"@, or_default(info.version, "0.1.0 \"Genesis\""@), false),
            ("Architektura"@, info.arch@, false),
            ("Host"@, host, false),
            ("Jądro"@, "Redox (mikrojądro, fork E-OS)"@, false),
        ]
    } else if idx == 1 {
        seq![
            ("Szyfrowanie dysku (FDE)"@, "AES-XTS · RedoxFS"@, true),
            ("W⊕X"@, "wymuszone na granicy syscalli"@, true),
            ("ASLR"@, "mmap + ld.so"@, true),
            ("overflow-checks"@, "kernel + base + relibc"@, true),
            ("RAID-1 mirror"@, if info.raid_active {
                "aktywny (raid1d)"@
            } else {
                "dostępny (raid1d)"@
            }, true),
            ("Podpisy pakietów"@, "ed25519 + ML-DSA-65 (hybrydowe PQ)"@, true),
            (Seq::<char>::empty(), "Pulpit bez telemetrii — dane pozostają lokalnie."@, false),
        ]
    } else if idx == 2 {
        seq![
            (Seq::<char>::empty(), "System aktualizacji (Settings → Update) — w budowie (R-7xx)."@, false),
        ] + source_rows(info.package_sources.deep_view())
    } else if idx == 3 {
        seq![
            (Seq::<char>::empty(), "Menedżer sterowników (Settings → Drivers) — w budowie (R-8xx)."@, false),
            (Seq::<char>::empty(), "Wykrywanie sprzętu + instalacja wyłącznie z podpisanego repo E-OS."@, false),
        ]
    } else if idx == 4 {
        seq![
            ("Host"@, host, false),
            (Seq::<char>::empty(), "Panel sieci — w budowie (R-902). Dziś: schematy netcfg / ifconfig."@, false),
        ]
    } else if idx == 5 {
        seq![(Seq::<char>::empty(), "Ustawienia ekranu — w budowie. Kompozytor: orbital."@, false)]
    } else if idx == 6 {
        seq![(Seq::<char>::empty(), "Miks i głośność — w budowie (R-D07). Sterowniki: ihdad / ac97d."@, false)]
    } else if idx == 7 {
        seq![
            ("Czas (UTC)"@, spec_utc_clock(info.now_secs as nat), false),
            (Seq::<char>::empty(), "Strefa czasowa: UTC. Lokalny czas + data — R-D05."@, false),
        ]
    } else if idx == 8 {
        seq![
            ("Użytkownik"@, or_default(info.user, "user"@), false),
            (Seq::<char>::empty(), "Zarządzanie kontami — w budowie. Kreator first-boot: R-602."@, false),
        ]
    } else {
        seq![]
    }
}

fn str_or<'a>(o: &'a Option<String>, d: &'a str) -> (r: &'a str)
    ensures
        r@ == or_default(*o, d@),
{
    match o {
        Some(s) => s.as_str(),
        None => d,
    }
}

/// The content rows of panel `idx`.
pub fn panel_rows(idx: usize, info: &SystemInfo) -> (rows: Vec<Row>)
    ensures
        rows_view(rows@) == spec_panel_rows(idx, *info),
{
    let mut rows: Vec<Row> = Vec::new();
    let host = str_or(&info.hostname, "eos");
    if idx == 0 {
        let name = match &info.pretty_name {
            Some(n) => n.as_str(),
            None => str_or(&info.name, "E-OS Crimson"),
        };
        rows.push(Row::kv("System", name));
        rows.push(Row::kv("Wersja", str_or(&info.version, "0.1.0 \"Genesis\"")));
        rows.push(Row::kv("Architektura", info.arch.as_str()));
        rows.push(Row::kv("Host", host));
        rows.push(Row::kv("Jądro", "Redox (mikrojądro, fork E-OS)"));
    } else if idx == 1 {
        rows.push(Row::ok("Szyfrowanie dysku (FDE)", "AES-XTS · RedoxFS"));
        rows.push(Row::ok("W⊕X", "wymuszone na granicy syscalli"));
        rows.push(Row::ok("ASLR", "mmap + ld.so"));
        rows.push(Row::ok("overflow-checks", "kernel + base + relibc"));
        rows.push(
            Row::ok(
                "RAID-1 mirror",
                if info.raid_active {
                    "aktywny (raid1d)"
                } else {
                    "dostępny (raid1d)"
                },
            ),
        );
        rows.push(Row::ok("Podpisy pakietów", "ed25519 + ML-DSA-65 (hybrydowe PQ)"));
        rows.push(Row::note("Pulpit bez telemetrii — dane pozostają lokalnie."));
    } else if idx == 2 {
        rows.push(Row::note("System aktualizacji (Settings → Update) — w budowie (R-7xx)."));
        let n = info.package_sources.len();
        let mut i: usize = 0;
        while i < n
            invariant
                i <= n == info.package_sources@.len(),
                rows_view(rows@) == seq![
                    (Seq::<char>::empty(), "System aktualizacji (Settings → Update) — w budowie (R-7xx)."@, false),
                ] + source_rows(info.package_sources.deep_view().take(i as int)),
            decreases n - i,
        {
            let ghost before = rows@;
            let row = Row::kv("Źródło", info.package_sources[i].as_str());
            rows.push(row);
            let ghost src = info.package_sources.deep_view();
            assert(src.take(i + 1) =~= src.take(i as int).push(info.package_sources[i as int]@));
            assert(rows_view(rows@) =~= rows_view(before).push(row@));
            assert(source_rows(src.take(i + 1)) =~= source_rows(src.take(i as int)).push(
                ("Źródło"@, info.package_sources[i as int]@, false),
            ));
            assert(rows_view(rows@) =~= seq![
                (Seq::<char>::empty(), "System aktualizacji (Settings → Update) — w budowie (R-7xx)."@, false),
            ] + source_rows(info.package_sources.deep_view().take(i + 1)));
            i = i + 1;
        }
        assert(info.package_sources.deep_view().take(n as int) =~= info.package_sources.deep_view());
    } else if idx == 3 {
        rows.push(Row::note("Menedżer sterowników (Settings → Drivers) — w budowie (R-8xx)."));
        rows.push(Row::note("Wykrywanie sprzętu + instalacja wyłącznie z podpisanego repo E-OS."));
    } else if idx == 4 {
        rows.push(Row::kv("Host", host));
        rows.push(Row::note("Panel sieci — w budowie (R-902). Dziś: schematy netcfg / ifconfig."));
    } else if idx == 5 {
        rows.push(Row::note("Ustawienia ekranu — w budowie. Kompozytor: orbital."));
    } else if idx == 6 {
        rows.push(Row::note("Miks i głośność — w budowie (R-D07). Sterowniki: ihdad / ac97d."));
    } else if idx == 7 {
        let clock = utc_clock(info.now_secs);
        rows.push(Row::kv("Czas (UTC)", clock.as_str()));
        rows.push(Row::note("Strefa czasowa: UTC. Lokalny czas + data — R-D05."));
    } else if idx == 8 {
        rows.push(Row::kv("Użytkownik", str_or(&info.user, "user")));
        rows.push(Row::note("Zarządzanie kontami — w budowie. Kreator first-boot: R-602."));
    }
    assert(rows_view(rows@) =~= spec_panel_rows(idx, *info));
    rows
}

/// The panel that a released click selects: a click in the sidebar, below
/// the header, on a panel other than the active one.
pub open spec fn spec_clicked_panel(mouse_x: i32, mouse_y: i32, active: usize) -> Option<usize> {
    if mouse_x < SIDEBAR_W && mouse_y >= HEADER_H {
        let idx = (mouse_y - HEADER_H) as int / ROW_H as int;
        if idx < PANEL_COUNT && idx != active {
            Some(idx as usize)
        } else {
            None
        }
    } else {
        None
    }
}

/// The panel to switch to when the left button is released at
/// `(mouse_x, mouse_y)`, if any.
pub fn clicked_panel(mouse_x: i32, mouse_y: i32, active: usize) -> (r: Option<usize>)
    ensures
        r == spec_clicked_panel(mouse_x, mouse_y, active),
{
    if mouse_x < SIDEBAR_W && mouse_y >= HEADER_H {
        let idx = ((mouse_y - HEADER_H) / ROW_H) as usize;
        if idx < PANEL_COUNT && idx != active {
            return Some(idx);
        }
    }
    None
}


/// The two-digit decimal form of `n < 100`: its tens, then its units.
proof fn lemma_pad2_digits(n: nat)
    requires
        n < 100,
    ensures
        pad2(n) == seq![((48 + n / 10) as char), ((48 + n % 10) as char)],
{
    reveal_with_fuel(dec, 2);
    if n >= 10 {
        assert(dec(n / 10) == seq![digit_char((n / 10) as int)]);
        assert(pad2(n) =~= seq![((48 + n / 10) as char), ((48 + n % 10) as char)]);
    } else {
        assert(pad2(n) =~= seq![((48 + n / 10) as char), ((48 + n % 10) as char)]);
    }
}

/// The value of a `HH:MM:SS` clock field: two decimal digits.
pub open spec fn two_digits(a: char, b: char) -> int {
    (a as int - 48) * 10 + (b as int - 48)
}

/// Each panel shows the facts of the system it is about: the Host rows
/// (System and Network panels) the hostname, or "eos" only when none is
/// known; the System panel the pretty name, else the name, else "E-OS
/// Crimson", the version or "0.1.0 \"Genesis\"", and the architecture; the
/// Security panel whether the RAID-1 mirror is active; the Updates panel one
/// "Źródło" row per package source, in order; the Date panel the UTC time of
/// day as `HH:MM:SS`; the User panel the user, or "user" when none is known.
/// Every panel has rows, and there are none past the last panel.
pub proof fn lemma_panels_show_system_info(idx: usize, info: SystemInfo)
    ensures
        ({
            let rows = spec_panel_rows(idx, info);
            let host = match info.hostname {
                Some(h) => h@,
                None => "eos"@,
            };
            &&& idx < PANEL_COUNT <==> rows.len() > 0
            &&& idx == 0 ==> rows.len() == 5 && rows[3] == ("Host"@, host, false) && rows[0] == (
                "System"@,
                match info.pretty_name {
                    Some(p) => p@,
                    None => match info.name {
                        Some(n) => n@,
                        None => "E-OS Crimson"@,
                    },
                },
                false,
            ) && rows[1] == (
                "Wersja"@,
                match info.version {
                    Some(v) => v@,
                    None => "0.1.0 \"Genesis\""@,
                },
                false,
            ) && rows[2] == ("Architektura"@, info.arch@, false)
            &&& idx == 4 ==> rows.len() == 2 && rows[0] == ("Host"@, host, false)
            &&& idx == 1 ==> rows.len() == 7 && rows[4].0 == "RAID-1 mirror"@ && rows[4].1 == (if info.raid_active {
                "aktywny (raid1d)"@
            } else {
                "dostępny (raid1d)"@
            })
            &&& idx == 2 ==> rows.len() == info.package_sources@.len() + 1 && forall|k: int|
                0 <= k < info.package_sources@.len() ==> #[trigger] rows[k + 1] == (
                    "Źródło"@,
                    info.package_sources@[k]@,
                    false,
                )
            &&& idx == 7 ==> rows.len() == 2 && rows[0].0 == "Czas (UTC)"@ && rows[0].1.len() == 8
                && rows[0].1[2] == ':' && rows[0].1[5] == ':' && two_digits(rows[0].1[0], rows[0].1[1])
                == (info.now_secs / 3600) % 24 && two_digits(rows[0].1[3], rows[0].1[4]) == (
                info.now_secs / 60) % 60 && two_digits(rows[0].1[6], rows[0].1[7]) == info.now_secs
                % 60
            &&& idx == 8 ==> rows.len() == 2 && rows[0] == (
                "Użytkownik"@,
                match info.user {
                    Some(u) => u@,
                    None => "user"@,
                },
                false,
            )
        }),
{
    let rows = spec_panel_rows(idx, info);
    if idx == 2 {
        let head = seq![
            (Seq::<char>::empty(), "System aktualizacji (Settings → Update) — w budowie (R-7xx)."@, false),
        ];
        let src = source_rows(info.package_sources.deep_view());
        assert(rows == head + src);
        assert forall|k: int| 0 <= k < info.package_sources@.len() implies #[trigger] rows[k + 1] == (
            "Źródło"@,
            info.package_sources@[k]@,
            false,
        ) by {
            assert(rows[k + 1] == src[k]);
            assert(info.package_sources.deep_view()[k] == info.package_sources@[k]@);
        }
    }
    if idx == 7 {
        let t = info.now_secs as nat;
        lemma_pad2_digits((t / 3600) % 24);
        lemma_pad2_digits((t / 60) % 60);
        lemma_pad2_digits(t % 60);
        let c = spec_utc_clock(t);
        assert(rows[0].1 == c);
        assert(c.len() == 8);
    }
}


/// Releasing the button switches to panel `i` exactly when the mouse is in
/// the sidebar (left of x = 210), on the 40-pixel row of panel `i` below
/// the 64-pixel header, and `i` is not the panel already shown.
pub proof fn lemma_click_switches_panel(mouse_x: i32, mouse_y: i32, active: usize, i: usize)
    ensures
        spec_clicked_panel(mouse_x, mouse_y, active) == Some(i) <==> (mouse_x < 210 && 64 + 40 * i
            <= mouse_y < 64 + 40 * (i + 1) && i < 9 && i != active),
        spec_clicked_panel(mouse_x, mouse_y, active) is None <==> !(mouse_x < 210 && 64 <= mouse_y
            < 64 + 40 * 9 && (mouse_y - 64) / 40 != active),
{
    if mouse_y >= 64 {
        let d = (mouse_y - 64) as int;
        vstd::arithmetic::div_mod::lemma_fundamental_div_mod(d, 40);
        vstd::arithmetic::div_mod::lemma_mod_bound(d, 40);
        if 64 + 40 * i <= mouse_y < 64 + 40 * (i + 1) {
            vstd::arithmetic::div_mod::lemma_fundamental_div_mod_converse(d, 40, i as int, d - 40 * i);
        }
    }
}

} // verus!
