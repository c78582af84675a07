//! The wallpaper program's decisions: the scaling mode, the name of the
//! cached scaled picture, pruning of the cache, and the displays read from
//! the display server's URL.

use vstd::prelude::*;

use crate::text::{
    chars_of, contains_char, dec, eq_chars, hex, parse_unsigned, parse_unsigned_chars, push_all,
    push_dec, push_hex, split_field, split_field_chars, string_of,
};

verus! {

/// How the wallpaper picture is fitted to the display.
#[derive(Clone, Copy, Debug, PartialEq, Eq)]
pub enum BackgroundMode {
    /// Do not resize the image, just center it
    Center,
    /// Resize the image to the display size
    Fill,
    /// Resize the image - keeping its aspect ratio, and fit it to the display with blank space
    Scale,
    /// Resize the image - keeping its aspect ratio, and crop to remove all blank space
    Zoom,
}

/// The mode named on the command line: `center`, `fill`, `scale`, and
/// anything else zoom.
pub open spec fn spec_mode_from_str(s: Seq<char>) -> BackgroundMode {
    if s == "center"@ {
        BackgroundMode::Center
    } else if s == "fill"@ {
        BackgroundMode::Fill
    } else if s == "scale"@ {
        BackgroundMode::Scale
    } else {
        BackgroundMode::Zoom
    }
}

/// The name of a mode as `{:?}` prints it.
pub open spec fn spec_mode_name(mode: BackgroundMode) -> Seq<char> {
    match mode {
        BackgroundMode::Center => "Center"@,
        BackgroundMode::Fill => "Fill"@,
        BackgroundMode::Scale => "Scale"@,
        BackgroundMode::Zoom => "Zoom"@,
    }
}

impl BackgroundMode {
    /// The mode named by a command-line argument.
    pub fn from_str(string: &str) -> (mode: BackgroundMode)
        ensures
            mode == spec_mode_from_str(string@),
    {
        let s = chars_of(string);
        if eq_chars(&s, &chars_of("center")) {
            BackgroundMode::Center
        } else if eq_chars(&s, &chars_of("fill")) {
            BackgroundMode::Fill
        } else if eq_chars(&s, &chars_of("scale")) {
            BackgroundMode::Scale
        } else {
            BackgroundMode::Zoom
        }
    }

    /// The name of the mode, as `{:?}` prints it.
    pub fn name(&self) -> (s: &'static str)
        ensures
            s@ == spec_mode_name(*self),
    {
        match self {
            BackgroundMode::Center => "Center",
            BackgroundMode::Fill => "Fill",
            BackgroundMode::Scale => "Scale",
            BackgroundMode::Zoom => "Zoom",
        }
    }
}

/// Names the 64-bit XXH3 hash (seed 0) of a byte sequence, as
/// `xxhash_rust::const_xxh3::xxh3_64` computes it.
pub uninterp spec fn xxh3_of(input: Seq<u8>) -> u64;

/// `xxhash_rust::const_xxh3::xxh3_64`: the hash of `input`. The contract
/// only names the result; the hash function itself is not stated.
#[verifier::external_body]
fn xxh3_64(input: &[u8]) -> (h: u64)
    ensures
        h == xxh3_of(input@),
{
    xxhash_rust::const_xxh3::xxh3_64(input)
}

/// The key that identifies a scaled picture: its path, modification time,
/// mode and target size, as `{path}:{mtime}:{mode:?}:{w}x{h}`.
pub open spec fn spec_cache_key(path: Seq<char>, mtime: u64, mode: BackgroundMode, w: u32, h: u32) -> Seq<
    char,
> {
    path + seq![':'] + dec(mtime as nat) + seq![':'] + spec_mode_name(mode) + seq![':'] + dec(
        w as nat,
    ) + seq!['x'] + dec(h as nat)
}

/// The name of a cached picture whose key hashes to `hash`: the hash in
/// lower-case hexadecimal, then `.bmp`.
pub open spec fn spec_hash_file_name(hash: u64) -> Seq<char> {
    hex(hash as nat) + ".bmp"@
}

/// The file name of the cached picture: the hash of the key's UTF-8 bytes,
/// named as in [`spec_hash_file_name`].
pub open spec fn spec_cache_file_name(key: Seq<char>) -> Seq<char> {
    spec_hash_file_name(xxh3_of(vstd::utf8::encode_utf8(key)))
}

/// The key of a scaled picture in the cache.
pub fn cache_key(path: &str, mtime: u64, mode: BackgroundMode, w: u32, h: u32) -> (key: String)
    ensures
        key@ == spec_cache_key(path@, mtime, mode, w, h),
{
    let mut out = chars_of(path);
    out.push(':');
    push_dec(&mut out, mtime);
    out.push(':');
    push_all(&mut out, &chars_of(mode.name()));
    out.push(':');
    push_dec(&mut out, w as u64);
    out.push('x');
    push_dec(&mut out, h as u64);
    assert(out@ =~= spec_cache_key(path@, mtime, mode, w, h));
    string_of(&out)
}

/// The file name, in the cache directory, of the picture at `path` scaled
/// with `mode` to `w` x `h`, for a file last modified `mtime` seconds after
/// the epoch.
pub fn cache_file_name(path: &str, mtime: u64, mode: BackgroundMode, w: u32, h: u32) -> (name:
    String)
    ensures
        name@ == spec_cache_file_name(spec_cache_key(path@, mtime, mode, w, h)),
{
    cache_entry(path, mtime, mode, w, h).0
}

/// The cache entry of the picture at `path` scaled with `mode` to `w` x `h`,
/// for a file last modified `mtime` seconds after the epoch: the file name
/// and the hash it is made from.
pub fn cache_entry(path: &str, mtime: u64, mode: BackgroundMode, w: u32, h: u32) -> (r: (String, u64))
    ensures
        r.1 == xxh3_of(vstd::utf8::encode_utf8(spec_cache_key(path@, mtime, mode, w, h))),
        r.0@ == spec_hash_file_name(r.1),
        r.0@ == spec_cache_file_name(spec_cache_key(path@, mtime, mode, w, h)),
{
    let key = cache_key(path, mtime, mode, w, h);
    let bytes = key.as_str().as_bytes();
    let hash = xxh3_64(bytes);
    (hash_file_name(hash), hash)
}

/// The cache file name for a key that hashes to `hash`.
pub fn hash_file_name(hash: u64) -> (name: String)
    ensures
        name@ == spec_hash_file_name(hash),
{
    let mut out: Vec<char> = Vec::new();
    push_hex(&mut out, hash);
    push_all(&mut out, &chars_of(".bmp"));
    assert(out@ =~= spec_hash_file_name(hash));
    string_of(&out)
}

/// The names among `files` that are not in `used`, in their order.
pub open spec fn spec_unused(files: Seq<Seq<char>>, used: Seq<Seq<char>>) -> Seq<Seq<char>> {
    files.filter(|f: Seq<char>| !used.contains(f))
}

fn contains_string(v: &Vec<String>, s: &str) -> (r: bool)
    ensures
        r == v.deep_view().contains(s@),
{
    let target = chars_of(s);
    let mut i: usize = 0;
    while i < v.len()
        invariant
            i <= v@.len(),
            target@ == s@,
            forall|k: int| 0 <= k < i ==> v.deep_view()[k] != s@,
        decreases v.len() - i,
    {
        if eq_chars(&chars_of(v[i].as_str()), &target) {
            assert(v.deep_view()[i as int] == s@);
            return true;
        }
        i = i + 1;
    }
    false
}

/// The files of the cache directory that no display used this run: they
/// are removed.
pub fn unused_cache_files(files: &Vec<String>, used: &Vec<String>) -> (r: Vec<String>)
    ensures
        r.deep_view() == spec_unused(files.deep_view(), used.deep_view()),
{
    let mut out: Vec<String> = Vec::new();
    let mut i: usize = 0;
    let ghost fv = files.deep_view();
    while i < files.len()
        invariant
            i <= files@.len(),
            fv == files.deep_view(),
            out.deep_view() == spec_unused(fv.take(i as int), used.deep_view()),
        decreases files.len() - i,
    {
        let ghost before = out.deep_view();
        let keep = !contains_string(used, files[i].as_str());
        if keep {
            out.push(files[i].clone());
        }
        proof {
            reveal_with_fuel(Seq::<_>::filter, 1);
            assert(fv.take(i + 1).drop_last() =~= fv.take(i as int));
            assert(fv.take(i + 1).last() == files[i as int]@);
            assert(out.deep_view() =~= spec_unused(fv.take(i + 1), used.deep_view()));
        }
        i = i + 1;
    }
    assert(fv.take(files.len() as int) =~= fv);
    out
}

/// A display as the display server's URL names it:
/// `scheme:vt.screen/width/height`.
#[derive(Debug, Clone, PartialEq, Eq)]
pub struct DisplayUrl {
    pub scheme: String,
    pub vt_screen: String,
    pub width: u32,
    pub height: u32,
}

/// A field parsed as a `u32`, or 0 where it is missing or no number.
pub open spec fn field_u32(s: Seq<char>, c: char, k: nat) -> u32 {
    match split_field(s, c, k) {
        Some(f) => match parse_unsigned(f, u32::MAX as nat) {
            Some(n) => n as u32,
            None => 0,
        },
        None => 0,
    }
}

/// What the URL of a display says: `None` where it has no path after the
/// scheme.
pub open spec fn spec_parse_display_url(url: Seq<char>) -> Option<(Seq<char>, Seq<char>, u32, u32)> {
    match split_field(url, ':', 1) {
        None => None,
        Some(path) => Some(
            (
                split_field(url, ':', 0)->0,
                split_field(path, '/', 0)->0,
                field_u32(path, '/', 1),
                field_u32(path, '/', 2),
            ),
        ),
    }
}

fn field_u32_chars(v: &[char], c: char, k: usize) -> (n: u32)
    ensures
        n == field_u32(v@, c, k as nat),
{
    match split_field_chars(v, c, k) {
        Some(f) => match parse_unsigned_chars(&f, 0xFFFF_FFFF) {
            Some(n) => n as u32,
            None => 0,
        },
        None => 0,
    }
}

/// Parses the URL of a display; `Err("no path")` where it has no path.
pub fn parse_display_url(url: &str) -> (r: Result<DisplayUrl, String>)
    ensures
        match r {
            Ok(d) => spec_parse_display_url(url@) == Some(
                (d.scheme@, d.vt_screen@, d.width, d.height),
            ),
            Err(e) => spec_parse_display_url(url@) is None && e@ == "no path"@,
        },
{
    let v = chars_of(url);
    let scheme = match split_field_chars(&v, ':', 0) {
        Some(s) => s,
        None => {
            return Err("no scheme name".to_owned());
        },
    };
    let path = match split_field_chars(&v, ':', 1) {
        Some(p) => p,
        None => {
            return Err("no path".to_owned());
        },
    };
    let vt_screen = match split_field_chars(&path, '/', 0) {
        Some(s) => s,
        None => Vec::new(),
    };
    let width = field_u32_chars(&path, '/', 1);
    let height = field_u32_chars(&path, '/', 2);
    Ok(DisplayUrl { scheme: string_of(&scheme), vt_screen: string_of(&vt_screen), width, height })
}

/// A field parsed as a `usize`, or 0 where it is missing or no number.
pub open spec fn field_usize(s: Seq<char>, c: char, k: nat) -> usize {
    match split_field(s, c, k) {
        Some(f) => match parse_unsigned(f, usize::MAX as nat) {
            Some(n) => n as usize,
            None => 0,
        },
        None => 0,
    }
}

/// The VT and first screen of a display whose `vt.screen` names both; a
/// display server that names them may have more screens on the same VT.
pub open spec fn spec_vt_screens(vt_screen: Seq<char>) -> Option<(usize, usize)> {
    if vt_screen.contains('.') {
        Some((field_usize(vt_screen, '.', 0), field_usize(vt_screen, '.', 1)))
    } else {
        None
    }
}

/// The VT and screen numbers of `vt.screen`, where it holds a dot.
pub fn vt_screens(vt_screen: &str) -> (r: Option<(usize, usize)>)
    ensures
        r == spec_vt_screens(vt_screen@),
{
    let v = chars_of(vt_screen);
    if !contains_char(&v, '.') {
        return None;
    }
    let vt = match split_field_chars(&v, '.', 0) {
        Some(f) => match parse_unsigned_chars(&f, usize::MAX as u64) {
            Some(n) => n as usize,
            None => 0,
        },
        None => 0,
    };
    let screen = match split_field_chars(&v, '.', 1) {
        Some(f) => match parse_unsigned_chars(&f, usize::MAX as u64) {
            Some(n) => n as usize,
            None => 0,
        },
        None => 0,
    };
    Some((vt, screen))
}

/// Displays of one VT sit side by side: the next starts where the last
/// ends.
pub fn next_display_x(last_x: i32, last_width: u32) -> (x: i32)
    requires
        i32::MIN <= last_x + (last_width as i32) <= i32::MAX,
    ensures
        x == last_x + (last_width as i32),
{
    last_x + last_width as i32
}

} // verus!
