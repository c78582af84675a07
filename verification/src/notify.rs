//! Desktop notifications: the message that `eos-notify` writes and the
//! toast that `eos-notifyd` makes of it.

use vstd::prelude::*;

use crate::text::{chars_of, find_char, find_char_from, lemma_find_char, slice_chars, string_of, trim, trim_chars};

verus! {

/// Width of a toast window.
pub const TOAST_W: u32 = 340;

/// Height of a toast window.
pub const TOAST_H: u32 = 84;

/// `s` with each newline turned into a space.
pub open spec fn newlines_to_spaces(s: Seq<char>) -> Seq<char> {
    s.map_values(|c: char| if c == '\n' { ' ' } else { c })
}

/// The message for a title and a body: the title on the first line (it can
/// hold no newline), the body after it.
pub open spec fn spec_message(title: Seq<char>, body: Seq<char>) -> Seq<char> {
    newlines_to_spaces(title) + seq!['\n'] + body
}

/// The message that `eos-notify <title> [body]` writes for its arguments, or
/// `None` without a title (the program then prints its usage).
pub open spec fn spec_notify_message(args: Seq<Seq<char>>) -> Option<Seq<char>> {
    if args.len() == 0 {
        None
    } else {
        Some(spec_message(args[0], if args.len() > 1 { args[1] } else { seq![] }))
    }
}

/// Builds the message of a notification from the program's arguments.
pub fn notify_message(args: &Vec<String>) -> (m: Option<String>)
    ensures
        match m {
            Some(s) => spec_notify_message(args.deep_view()) == Some(s@),
            None => spec_notify_message(args.deep_view()) is None,
        },
{
    if args.len() == 0 {
        return None;
    }
    let title = chars_of(args[0].as_str());
    let mut out: Vec<char> = Vec::new();
    let mut i: usize = 0;
    while i < title.len()
        invariant
            i <= title@.len(),
            out@ == newlines_to_spaces(title@.take(i as int)),
        decreases title.len() - i,
    {
        let c = title[i];
        out.push(if c == '\n' { ' ' } else { c });
        assert(newlines_to_spaces(title@.take(i + 1)) =~= newlines_to_spaces(title@.take(i as int)).push(
            if c == '\n' { ' ' } else { c },
        ));
        i = i + 1;
    }
    assert(title@.take(title@.len() as int) =~= title@);
    out.push('\n');
    if args.len() > 1 {
        let body = chars_of(args[1].as_str());
        let mut j: usize = 0;
        let ghost head = out@;
        while j < body.len()
            invariant
                j <= body@.len(),
                out@ == head + body@.take(j as int),
            decreases body.len() - j,
        {
            out.push(body[j]);
            assert(body@.take(j + 1) =~= body@.take(j as int).push(body@[j as int]));
            j = j + 1;
        }
        assert(body@.take(body@.len() as int) =~= body@);
    }
    assert(out@ =~= spec_notify_message(args.deep_view())->0);
    Some(string_of(&out))
}

/// What the daemon shows for the content of the message file: nothing when
/// it is blank, else the first line as the title and the rest as the body,
/// both trimmed.
pub open spec fn spec_parse_notification(content: Seq<char>) -> Option<(Seq<char>, Seq<char>)> {
    if trim(content).len() == 0 {
        None
    } else {
        let k = find_char(content, '\n');
        if k < content.len() {
            Some((trim(content.take(k)), trim(content.skip(k + 1))))
        } else {
            Some((trim(content), seq![]))
        }
    }
}

/// Splits the content of the message file into a title and a body.
pub fn parse_notification(content: &str) -> (r: Option<(String, String)>)
    ensures
        match r {
            Some((t, b)) => spec_parse_notification(content@) == Some((t@, b@)),
            None => spec_parse_notification(content@) is None,
        },
{
    let v = chars_of(content);
    if trim_chars(&v).len() == 0 {
        return None;
    }
    let k = find_char_from(&v, '\n', 0);
    assert(v@.skip(0) =~= v@);
    proof {
        lemma_find_char(v@, '\n');
    }
    if k < v.len() {
        let title = trim_chars(&slice_chars(&v, 0, k));
        let body = trim_chars(&slice_chars(&v, k + 1, v.len()));
        assert(v@.subrange(0, k as int) =~= v@.take(k as int));
        assert(v@.subrange(k + 1, v@.len() as int) =~= v@.skip(k + 1));
        Some((string_of(&title), string_of(&body)))
    } else {
        let title = trim_chars(&v);
        assert(trim(Seq::<char>::empty()) =~= Seq::<char>::empty());
        Some((string_of(&title), String::new()))
    }
}

/// Left edge of a toast in the top-right corner of a screen `screen_w` wide.
pub fn toast_x(screen_w: u32) -> (x: i32)
    requires
        (screen_w as i32) as int - 356 >= i32::MIN,
    ensures
        x == (screen_w as i32) as int - TOAST_W as int - 16,
{
    screen_w as i32 - TOAST_W as i32 - 16
}

/// A message that is not blank reaches the daemon as the title, with its
/// newlines turned into spaces, and the body, both trimmed.
pub proof fn lemma_message_round_trip(title: Seq<char>, body: Seq<char>)
    requires
        trim(spec_message(title, body)).len() > 0,
    ensures
        spec_parse_notification(spec_message(title, body)) == Some(
            (trim(newlines_to_spaces(title)), trim(body)),
        ),
{
    let t = newlines_to_spaces(title);
    let m = spec_message(title, body);
    lemma_find_char(m, '\n');
    let f = find_char(m, '\n');
    assert(m[t.len() as int] == '\n');
    if f < t.len() {
        assert(m[f] == t[f]);
    }
    assert(f == t.len());
    assert(m.take(f) =~= t);
    assert(m.skip(f + 1) =~= body);
}

} // verus!
