//! Application packages as the launcher and the desktop see them, and the
//! desktop's list of application icons.

use vstd::prelude::*;

use crate::order::{
    lemma_sorted_order, lemma_sorted_order_bounds, lemma_sorted_order_onto, lex_lt, listed,
    sorted_indices, sorted_order,
};
use crate::settings::next_line;
use crate::text::{
    chars_of, ends_with_chars, eq_chars, find_char, find_char_from, has_prefix, has_suffix,
    is_whitespace, is_ws, lemma_find_char, lines, push_all, slice_chars, starts_with_chars,
    string_of, trim_start,
};

verus! {

/// What the launcher reads of an application package.
#[derive(Debug, Clone)]
pub struct PackageInfo {
    /// File name of the manifest or desktop entry.
    pub id: String,
    pub name: String,
    /// The `Exec` command line.
    pub command: String,
    pub categories: Vec<String>,
    /// File patterns that the application opens (`*.txt`, `image/*`).
    pub accepts: Vec<String>,
}

/// The characters of `t` up to its first white space.
pub open spec fn word_end(t: Seq<char>) -> int
    decreases t.len(),
{
    if t.len() == 0 || is_ws(t[0]) {
        0
    } else {
        1 + word_end(t.drop_first())
    }
}

/// The first white-space separated word of `s`, as
/// `s.split_whitespace().next()` yields it.
pub open spec fn first_word(s: Seq<char>) -> Option<Seq<char>> {
    let t = trim_start(s);
    if t.len() == 0 {
        None
    } else {
        Some(t.take(word_end(t)))
    }
}

/// The part of `s` after its last `/`, as `s.rsplit('/').next()` yields it.
pub open spec fn after_last_slash(s: Seq<char>) -> Seq<char>
    decreases s.len(),
{
    if s.len() == 0 {
        s
    } else if s.last() == '/' {
        seq![]
    } else {
        after_last_slash(s.drop_last()).push(s.last())
    }
}

/// The key under which the desktop merges packages: the file name of the
/// program that `exec` runs, or the package name where `exec` is blank.
pub open spec fn exec_key(exec: Seq<char>, name: Seq<char>) -> Seq<char> {
    match first_word(exec) {
        Some(t) => after_last_slash(t),
        None => name,
    }
}

proof fn lemma_word_end(t: Seq<char>)
    ensures
        0 <= word_end(t) <= t.len(),
        forall|k: int| 0 <= k < word_end(t) ==> !is_ws(#[trigger] t[k]),
        word_end(t) < t.len() ==> is_ws(t[word_end(t)]),
    decreases t.len(),
{
    if t.len() > 0 && !is_ws(t[0]) {
        lemma_word_end(t.drop_first());
        assert forall|k: int| 0 <= k < word_end(t) implies !is_ws(#[trigger] t[k]) by {
            if k > 0 {
                assert(t[k] == t.drop_first()[k - 1]);
            }
        }
    }
}

proof fn lemma_trim_start_skip(s: Seq<char>, i: int)
    requires
        0 <= i < s.len(),
        is_ws(s[i]),
    ensures
        trim_start(s.skip(i)) == trim_start(s.skip(i + 1)),
{
    assert(s.skip(i).drop_first() =~= s.skip(i + 1));
}

/// The merge key of a package.
pub fn exec_key_of(exec: &str, name: &str) -> (key: Vec<char>)
    ensures
        key@ == exec_key(exec@, name@),
{
    let v = chars_of(exec);
    let n = v.len();
    let mut i: usize = 0;
    assert(v@.skip(0) =~= v@);
    while i < n && is_whitespace(v[i])
        invariant
            i <= n == v@.len(),
            trim_start(v@) == trim_start(v@.skip(i as int)),
        decreases n - i,
    {
        proof {
            lemma_trim_start_skip(v@, i as int);
        }
        i = i + 1;
    }
    let ghost t = v@.skip(i as int);
    assert(trim_start(v@) == t);
    if i == n {
        assert(t.len() == 0);
        return chars_of(name);
    }
    let mut j: usize = i;
    assert(t.skip(0) =~= t);
    while j < n && !is_whitespace(v[j])
        invariant
            i <= j <= n == v@.len(),
            t == v@.skip(i as int),
            word_end(t) == (j - i) + word_end(t.skip(j - i)),
        decreases n - j,
    {
        assert(t.skip(j - i).drop_first() =~= t.skip(j - i + 1));
        assert(t.skip(j - i)[0] == v@[j as int]);
        j = j + 1;
    }
    proof {
        if j < n {
            assert(t.skip(j - i)[0] == v@[j as int]);
        }
        assert(word_end(t) == j - i);
    }
    let ghost tok = t.take(j - i);
    assert(tok =~= v@.subrange(i as int, j as int));
    // The part after the last '/'.
    let mut k: usize = j;
    while k > i && v[k - 1] != '/'
        invariant
            i <= k <= j <= n == v@.len(),
            tok == v@.subrange(i as int, j as int),
            after_last_slash(tok) == after_last_slash(v@.subrange(i as int, k as int)) + v@.subrange(
                k as int,
                j as int,
            ),
        decreases k,
    {
        assert(v@.subrange(i as int, k as int).drop_last() =~= v@.subrange(i as int, k - 1));
        assert(v@.subrange(k - 1, j as int) =~= seq![v@[k - 1]] + v@.subrange(k as int, j as int));
        assert(after_last_slash(v@.subrange(i as int, k - 1)).push(v@[k - 1]) + v@.subrange(
            k as int,
            j as int,
        ) =~= after_last_slash(v@.subrange(i as int, k - 1)) + v@.subrange(k - 1, j as int));
        k = k - 1;
    }
    proof {
        assert(after_last_slash(v@.subrange(i as int, k as int)) =~= Seq::<char>::empty());
        assert(Seq::<char>::empty() + v@.subrange(k as int, j as int) =~= v@.subrange(
            k as int,
            j as int,
        ));
    }
    let mut key: Vec<char> = Vec::new();
    let mut m: usize = k;
    while m < j
        invariant
            k <= m <= j <= n == v@.len(),
            key@ == v@.subrange(k as int, m as int),
        decreases j - m,
    {
        key.push(v[m]);
        assert(v@.subrange(k as int, m + 1) =~= v@.subrange(k as int, m as int).push(v@[m as int]));
        m = m + 1;
    }
    key
}

/// Index of the first entry of `seen` with key `k`, or `seen.len()`.
pub open spec fn find_key(seen: Seq<(Seq<char>, int, bool)>, k: Seq<char>) -> int
    decreases seen.len(),
{
    if seen.len() == 0 {
        0
    } else if seen[0].0 == k {
        0
    } else {
        1 + find_key(seen.drop_first(), k)
    }
}

/// A package as the desktop reads it: name, `Exec` line and id.
pub open spec fn package_view(p: PackageInfo) -> (Seq<char>, Seq<char>, Seq<char>) {
    (p.name@, p.command@, p.id@)
}

/// The desktop's merge of the packages: the chosen package of each program
/// (by position), and for each merge key where its entry stands and whether
/// an XDG desktop entry (id ending in `.desktop`) filled it. A package with
/// an empty `Exec` line is left out; the first package of a key takes its
/// place, and an XDG entry replaces a package that is not one.
pub open spec fn merge(pk: Seq<(Seq<char>, Seq<char>, Seq<char>)>) -> (Seq<usize>, Seq<
    (Seq<char>, int, bool),
>)
    decreases pk.len(),
{
    if pk.len() == 0 {
        (seq![], seq![])
    } else {
        let (entries, seen) = merge(pk.drop_last());
        let i = (pk.len() - 1) as usize;
        let p = pk.last();
        if p.1.len() == 0 {
            (entries, seen)
        } else {
            let key = exec_key(p.1, p.0);
            let xdg = has_suffix(p.2, ".desktop"@);
            let f = find_key(seen, key);
            if 0 <= f < seen.len() {
                if xdg && !seen[f].2 {
                    (entries.update(seen[f].1, i), seen.update(f, (seen[f].0, seen[f].1, true)))
                } else {
                    (entries, seen)
                }
            } else {
                (entries.push(i), seen.push((key, entries.len() as int, xdg)))
            }
        }
    }
}

/// The entry positions recorded in `seen` point into `entries`.
pub open spec fn merge_wf(entries: Seq<usize>, seen: Seq<(Seq<char>, int, bool)>) -> bool {
    forall|f: int| 0 <= f < seen.len() ==> 0 <= #[trigger] seen[f].1 < entries.len()
}

proof fn lemma_find_key(seen: Seq<(Seq<char>, int, bool)>, k: Seq<char>)
    ensures
        0 <= find_key(seen, k) <= seen.len(),
        find_key(seen, k) < seen.len() ==> seen[find_key(seen, k)].0 == k,
        forall|f: int| 0 <= f < find_key(seen, k) ==> #[trigger] seen[f].0 != k,
    decreases seen.len(),
{
    if seen.len() > 0 && seen[0].0 != k {
        lemma_find_key(seen.drop_first(), k);
        assert forall|f: int| 0 <= f < find_key(seen, k) implies #[trigger] seen[f].0 != k by {
            if f > 0 {
                assert(seen[f] == seen.drop_first()[f - 1]);
            }
        }
    }
}

proof fn lemma_merge_wf(pk: Seq<(Seq<char>, Seq<char>, Seq<char>)>)
    ensures
        merge_wf(merge(pk).0, merge(pk).1),
    decreases pk.len(),
{
    if pk.len() > 0 {
        lemma_merge_wf(pk.drop_last());
        let (entries, seen) = merge(pk.drop_last());
        let p = pk.last();
        if p.1.len() > 0 {
            lemma_find_key(seen, exec_key(p.1, p.0));
        }
    }
}

/// The merge key of a package as the desktop reads it.
pub open spec fn key_of(p: (Seq<char>, Seq<char>, Seq<char>)) -> Seq<char> {
    exec_key(p.1, p.0)
}

/// The package is an XDG desktop entry.
pub open spec fn is_xdg(p: (Seq<char>, Seq<char>, Seq<char>)) -> bool {
    has_suffix(p.2, ".desktop"@)
}

/// Some merge slot holds the program of `p`, filled by an XDG entry where
/// `p` is one.
pub open spec fn served(seen: Seq<(Seq<char>, int, bool)>, p: (Seq<char>, Seq<char>, Seq<char>)) -> bool {
    exists|f: int| 0 <= f < seen.len() && seen[f].0 == key_of(p) && (is_xdg(p) ==> seen[f].2)
}

/// What the merge keeps true: one slot per program, each filled by a
/// package of that program with a command, and every such package served.
pub open spec fn merge_inv(
    pk: Seq<(Seq<char>, Seq<char>, Seq<char>)>,
    entries: Seq<usize>,
    seen: Seq<(Seq<char>, int, bool)>,
) -> bool {
    &&& seen.len() == entries.len()
    &&& forall|f: int| 0 <= f < seen.len() ==> (#[trigger] seen[f]).1 == f
    &&& forall|f: int|
        0 <= f < entries.len() ==> {
            let e = #[trigger] entries[f];
            &&& e < pk.len()
            &&& pk[e as int].1.len() > 0
            &&& key_of(pk[e as int]) == seen[f].0
            &&& is_xdg(pk[e as int]) == seen[f].2
        }
    &&& forall|f: int, g: int| 0 <= f < g < seen.len() ==> (#[trigger] seen[f]).0 != (#[trigger] seen[g]).0
    &&& forall|j: int| 0 <= j < pk.len() && pk[j].1.len() > 0 ==> #[trigger] served(seen, pk[j])
}

proof fn lemma_merge_inv(pk: Seq<(Seq<char>, Seq<char>, Seq<char>)>)
    requires
        pk.len() <= usize::MAX,
    ensures
        merge_inv(pk, merge(pk).0, merge(pk).1),
    decreases pk.len(),
{
    if pk.len() > 0 {
        let q = pk.drop_last();
        lemma_merge_inv(q);
        let (e, s) = merge(q);
        let i = (pk.len() - 1) as usize;
        let p = pk.last();
        assert(p == pk[i as int]);
        assert forall|j: int| 0 <= j < q.len() implies #[trigger] q[j] == pk[j] by {}
        if p.1.len() > 0 {
            let key = key_of(p);
            lemma_find_key(s, key);
            let f0 = find_key(s, key);
            let (e2, s2) = merge(pk);
            if f0 < s.len() {
                if is_xdg(p) && !s[f0].2 {
                    assert(s[f0].1 == f0);
                    assert(e2 == e.update(f0, i));
                    assert(s2 == s.update(f0, (s[f0].0, f0, true)));
                    assert forall|f: int| 0 <= f < e2.len() implies {
                        let x = #[trigger] e2[f];
                        &&& x < pk.len()
                        &&& pk[x as int].1.len() > 0
                        &&& key_of(pk[x as int]) == s2[f].0
                        &&& is_xdg(pk[x as int]) == s2[f].2
                    } by {
                        if f != f0 {
                            assert(e[f] == e2[f]);
                            assert(q[e[f] as int] == pk[e[f] as int]);
                        }
                    }
                    assert forall|f: int, g: int| 0 <= f < g < s2.len() implies (#[trigger] s2[f]).0
                        != (#[trigger] s2[g]).0 by {
                        assert(s[f].0 != s[g].0);
                    }
                    assert forall|j: int| 0 <= j < pk.len() && pk[j].1.len() > 0 implies #[trigger] served(
                        s2,
                        pk[j],
                    ) by {
                        if j == i {
                            assert(s2[f0].0 == key_of(pk[j]) && s2[f0].2);
                        } else {
                            assert(q[j] == pk[j]);
                            assert(served(s, q[j]));
                            let f = choose|f: int|
                                0 <= f < s.len() && s[f].0 == key_of(q[j]) && (is_xdg(q[j]) ==> s[f].2);
                            assert(s2[f].0 == s[f].0);
                            assert(s2[f].0 == key_of(pk[j]) && (is_xdg(pk[j]) ==> s2[f].2));
                        }
                    }
                } else {
                    assert(e2 == e && s2 == s);
                    assert forall|f: int| 0 <= f < e2.len() implies {
                        let x = #[trigger] e2[f];
                        &&& x < pk.len()
                        &&& pk[x as int].1.len() > 0
                        &&& key_of(pk[x as int]) == s2[f].0
                        &&& is_xdg(pk[x as int]) == s2[f].2
                    } by {
                        assert(q[e[f] as int] == pk[e[f] as int]);
                    }
                    assert forall|j: int| 0 <= j < pk.len() && pk[j].1.len() > 0 implies #[trigger] served(
                        s2,
                        pk[j],
                    ) by {
                        if j == i {
                            assert(s[f0].0 == key_of(pk[j]) && (is_xdg(pk[j]) ==> s[f0].2));
                        } else {
                            assert(q[j] == pk[j]);
                            assert(served(s, q[j]));
                        }
                    }
                }
            } else {
                assert(e2 == e.push(i));
                assert(s2 == s.push((key, e.len() as int, is_xdg(p))));
                assert forall|f: int| 0 <= f < s2.len() implies (#[trigger] s2[f]).1 == f by {
                    if f < s.len() {
                        assert(s2[f] == s[f]);
                    }
                }
                assert forall|f: int| 0 <= f < e2.len() implies {
                    let x = #[trigger] e2[f];
                    &&& x < pk.len()
                    &&& pk[x as int].1.len() > 0
                    &&& key_of(pk[x as int]) == s2[f].0
                    &&& is_xdg(pk[x as int]) == s2[f].2
                } by {
                    if f < e.len() {
                        assert(e2[f] == e[f]);
                        assert(s2[f] == s[f]);
                        assert(q[e[f] as int] == pk[e[f] as int]);
                    }
                }
                assert forall|f: int, g: int| 0 <= f < g < s2.len() implies (#[trigger] s2[f]).0
                    != (#[trigger] s2[g]).0 by {
                    assert(s2[f] == s[f]);
                    if g < s.len() {
                        assert(s2[g] == s[g]);
                    }
                }
                assert forall|j: int| 0 <= j < pk.len() && pk[j].1.len() > 0 implies #[trigger] served(
                    s2,
                    pk[j],
                ) by {
                    if j == i {
                        assert(s2[s.len() as int].0 == key_of(pk[j]));
                    } else {
                        assert(q[j] == pk[j]);
                        assert(served(s, q[j]));
                        let f = choose|f: int|
                            0 <= f < s.len() && s[f].0 == key_of(q[j]) && (is_xdg(q[j]) ==> s[f].2);
                        assert(s2[f] == s[f]);
                    }
                }
            }
        } else {
            assert forall|f: int| 0 <= f < e.len() implies {
                let x = #[trigger] e[f];
                &&& x < pk.len()
                &&& pk[x as int].1.len() > 0
                &&& key_of(pk[x as int]) == s[f].0
                &&& is_xdg(pk[x as int]) == s[f].2
            } by {
                assert(q[e[f] as int] == pk[e[f] as int]);
            }
            assert forall|j: int| 0 <= j < pk.len() && pk[j].1.len() > 0 implies #[trigger] served(
                s,
                pk[j],
            ) by {
                assert(j != i);
                assert(q[j] == pk[j]);
                assert(served(s, q[j]));
            }
        }
    }
}

/// The package `p` has an icon among `r`: one for its program, from an XDG
/// entry where `p` is one.
pub open spec fn has_icon(pk: Seq<(Seq<char>, Seq<char>, Seq<char>)>, r: Seq<usize>, p: (Seq<char>, Seq<char>, Seq<char>)) -> bool {
    exists|a: int| 0 <= a < r.len() && key_of(pk[r[a] as int]) == key_of(p) && (is_xdg(p) ==> is_xdg(pk[r[a] as int]))
}

/// The desktop shows one icon per program: each icon is a package with a
/// command, no two icons run the same program, every package with a command
/// has an icon for its program (from an XDG desktop entry where there is
/// one), and the icons are in name order.
pub proof fn lemma_desktop_apps(pk: Seq<(Seq<char>, Seq<char>, Seq<char>)>)
    requires
        pk.len() <= usize::MAX,
    ensures
        forall|a: int|
            0 <= a < spec_desktop_apps(pk).len() ==> #[trigger] spec_desktop_apps(pk)[a] < pk.len()
                && pk[spec_desktop_apps(pk)[a] as int].1.len() > 0,
        forall|a: int, b: int|
            0 <= a < b < spec_desktop_apps(pk).len() ==> key_of(pk[#[trigger] spec_desktop_apps(pk)[a] as int])
                != key_of(pk[#[trigger] spec_desktop_apps(pk)[b] as int]),
        forall|j: int|
            0 <= j < pk.len() && pk[j].1.len() > 0 ==> #[trigger] has_icon(pk, spec_desktop_apps(pk), pk[j]),
        forall|a: int, b: int|
            0 <= a < b < spec_desktop_apps(pk).len() ==> !lex_lt(
                pk[#[trigger] spec_desktop_apps(pk)[b] as int].0,
                pk[#[trigger] spec_desktop_apps(pk)[a] as int].0,
            ),
{
    lemma_merge_inv(pk);
    let (entries, seen) = merge(pk);
    let names = entry_names(pk, entries);
    let so = sorted_order(names);
    let r = spec_desktop_apps(pk);
    assert(entries.len() <= pk.len()) by {
        lemma_merge_len(pk);
    }
    lemma_sorted_order(names);
    lemma_sorted_order_onto(names);
    assert forall|a: int| 0 <= a < r.len() implies r[a] == entries[so[a] as int] by {}
    assert forall|a: int| 0 <= a < r.len() implies #[trigger] r[a] < pk.len() && pk[r[a] as int].1.len() > 0 by {
        assert(r[a] == entries[so[a] as int]);
    }
    assert forall|a: int, b: int| 0 <= a < b < r.len() implies key_of(pk[#[trigger] r[a] as int])
        != key_of(pk[#[trigger] r[b] as int]) by {
        let fa = so[a] as int;
        let fb = so[b] as int;
        assert(r[a] == entries[fa] && r[b] == entries[fb]);
        assert(fa != fb);
        if fa < fb {
            assert(seen[fa].0 != seen[fb].0);
        } else {
            assert(seen[fb].0 != seen[fa].0);
        }
    }
    assert forall|j: int| 0 <= j < pk.len() && pk[j].1.len() > 0 implies #[trigger] has_icon(pk, r, pk[j]) by {
        assert(served(seen, pk[j]));
        let f = choose|f: int|
            0 <= f < seen.len() && seen[f].0 == key_of(pk[j]) && (is_xdg(pk[j]) ==> seen[f].2);
        assert(listed(so, f));
        let a = choose|a: int| 0 <= a < so.len() && so[a] == f;
        assert(r[a] == entries[f]);
        assert(entries[f] == entries[f]);
    }
    assert forall|a: int, b: int| 0 <= a < b < r.len() implies !lex_lt(
        pk[#[trigger] r[b] as int].0,
        pk[#[trigger] r[a] as int].0,
    ) by {
        assert(names[so[a] as int] == pk[r[a] as int].0);
        assert(names[so[b] as int] == pk[r[b] as int].0);
    }
}

proof fn lemma_merge_len(pk: Seq<(Seq<char>, Seq<char>, Seq<char>)>)
    ensures
        merge(pk).0.len() <= pk.len(),
    decreases pk.len(),
{
    if pk.len() > 0 {
        lemma_merge_len(pk.drop_last());
        lemma_merge_wf(pk.drop_last());
        let (e, s) = merge(pk.drop_last());
        let p = pk.last();
        if p.1.len() > 0 {
            let f = find_key(s, exec_key(p.1, p.0));
            if 0 <= f < s.len() {
                if has_suffix(p.2, ".desktop"@) && !s[f].2 {
                    assert(merge(pk).0 == e.update(s[f].1, (pk.len() - 1) as usize));
                } else {
                    assert(merge(pk).0 == e);
                }
            } else {
                assert(merge(pk).0 == e.push((pk.len() - 1) as usize));
            }
        } else {
            assert(merge(pk).0 == e);
        }
    }
}

/// The names of the chosen packages, in the order of their entries.
pub open spec fn entry_names(pk: Seq<(Seq<char>, Seq<char>, Seq<char>)>, entries: Seq<usize>) -> Seq<
    Seq<char>,
> {
    entries.map_values(|j: usize| pk[j as int].0)
}

/// The desktop's application icons: one package per program, sorted by
/// name (stably), given by position in `pk`.
pub open spec fn spec_desktop_apps(pk: Seq<(Seq<char>, Seq<char>, Seq<char>)>) -> Seq<usize> {
    let entries = merge(pk).0;
    sorted_order(entry_names(pk, entries)).map_values(|q: usize| entries[q as int])
}

pub open spec fn packages_view(packages: Seq<PackageInfo>) -> Seq<(Seq<char>, Seq<char>, Seq<char>)> {
    packages.map_values(|p: PackageInfo| package_view(p))
}

/// The application icons of the desktop: which packages get an icon, in
/// the order the grid shows them.
pub fn desktop_apps(packages: &Vec<PackageInfo>) -> (r: Vec<usize>)
    ensures
        r@ == spec_desktop_apps(packages_view(packages@)),
{
    let ghost pk = packages_view(packages@);
    let mut entries: Vec<usize> = Vec::new();
    let mut seen_keys: Vec<Vec<char>> = Vec::new();
    let mut seen_idx: Vec<usize> = Vec::new();
    let mut seen_xdg: Vec<bool> = Vec::new();
    let desktop_suffix = chars_of(".desktop");
    let n = packages.len();
    let mut i: usize = 0;
    while i < n
        invariant
            i <= n == packages@.len(),
            pk == packages_view(packages@),
            desktop_suffix@ == ".desktop"@,
            seen_keys@.len() == seen_idx@.len() == seen_xdg@.len(),
            forall|q: int| 0 <= q < entries@.len() ==> #[trigger] entries@[q] < i,
            merge(pk.take(i as int)) == (
                entries@,
                Seq::new(
                    seen_keys@.len(),
                    |f: int| (seen_keys@[f]@, seen_idx@[f] as int, seen_xdg@[f]),
                ),
            ),
        decreases n - i,
    {
        let ghost seen = Seq::new(
            seen_keys@.len(),
            |f: int| (seen_keys@[f]@, seen_idx@[f] as int, seen_xdg@[f]),
        );
        proof {
            assert(pk.take(i + 1).drop_last() =~= pk.take(i as int));
            assert(pk.take(i + 1).last() == package_view(packages@[i as int]));
            lemma_merge_wf(pk.take(i as int));
        }
        let p = &packages[i];
        assert(pk.take(i + 1).last() == (p.name@, p.command@, p.id@));
        if !p.command.as_str().is_empty() {
            let key = exec_key_of(p.command.as_str(), p.name.as_str());
            let xdg = ends_with_chars(&chars_of(p.id.as_str()), &desktop_suffix);
            let mut f: usize = 0;
            proof {
                lemma_find_key(seen, key@);
                assert(seen.skip(0) =~= seen);
            }
            while f < seen_keys.len() && !eq_chars(&seen_keys[f], &key)
                invariant
                    f <= seen_keys@.len(),
                    seen_keys@.len() == seen_idx@.len() == seen_xdg@.len(),
                    seen == Seq::new(
                        seen_keys@.len(),
                        |g: int| (seen_keys@[g]@, seen_idx@[g] as int, seen_xdg@[g]),
                    ),
                    find_key(seen, key@) == f + find_key(seen.skip(f as int), key@),
                decreases seen_keys.len() - f,
            {
                assert(seen.skip(f as int).drop_first() =~= seen.skip(f + 1));
                assert(seen.skip(f as int)[0] == seen[f as int]);
                f = f + 1;
            }
            proof {
                if f < seen_keys@.len() {
                    assert(seen.skip(f as int)[0] == seen[f as int]);
                }
                assert(find_key(seen, key@) == f);
            }
            if f < seen_keys.len() {
                if xdg && !seen_xdg[f] {
                    let index = seen_idx[f];
                    entries.set(index, i);
                    seen_xdg.set(f, true);
                }
            } else {
                seen_keys.push(key);
                seen_idx.push(entries.len());
                seen_xdg.push(xdg);
                entries.push(i);
            }
            proof {
                assert(Seq::new(
                    seen_keys@.len(),
                    |g: int| (seen_keys@[g]@, seen_idx@[g] as int, seen_xdg@[g]),
                ) =~= merge(pk.take(i + 1)).1);
                assert(entries@ =~= merge(pk.take(i + 1)).0);
            }
        }
        i = i + 1;
    }
    proof {
        assert(pk.take(n as int) =~= pk);
    }
    // Sort the entries by package name.
    let mut names: Vec<String> = Vec::new();
    let mut e: usize = 0;
    while e < entries.len()
        invariant
            e <= entries@.len(),
            names@.len() == e,
            merge(pk).0 == entries@,
            pk == packages_view(packages@),
            forall|q: int| 0 <= q < entries@.len() ==> #[trigger] entries@[q] < packages@.len(),
            forall|q: int| 0 <= q < e ==> #[trigger] names@[q]@ == pk[entries@[q] as int].0,
        decreases entries.len() - e,
    {
        let j = entries[e];
        assert(pk[j as int] == package_view(packages@[j as int]));
        names.push(packages[j].name.clone());
        e = e + 1;
    }
    assert(names.deep_view() =~= entry_names(pk, entries@));
    let order = sorted_indices(&names);
    proof {
        lemma_sorted_order_bounds(names.deep_view());
    }
    let mut r: Vec<usize> = Vec::new();
    let mut q: usize = 0;
    while q < order.len()
        invariant
            q <= order@.len(),
            order@.len() == entries@.len(),
            forall|o: int| 0 <= o < order@.len() ==> #[trigger] order@[o] < entries@.len(),
            r@ == order@.take(q as int).map_values(|o: usize| entries@[o as int]),
        decreases order.len() - q,
    {
        r.push(entries[order[q]]);
        assert(order@.take(q + 1).map_values(|o: usize| entries@[o as int]) =~= order@.take(
            q as int,
        ).map_values(|o: usize| entries@[o as int]).push(entries@[order@[q as int] as int]));
        q = q + 1;
    }
    assert(order@.take(order@.len() as int) =~= order@);
    r
}

/// The packages in the order the launcher lists them: by name, stably.
pub fn packages_by_name(packages: &Vec<PackageInfo>) -> (order: Vec<usize>)
    ensures
        order@ == sorted_order(packages@.map_values(|p: PackageInfo| p.name@)),
{
    let mut names: Vec<String> = Vec::new();
    let mut i: usize = 0;
    while i < packages.len()
        invariant
            i <= packages@.len(),
            names.deep_view() == packages@.take(i as int).map_values(|p: PackageInfo| p.name@),
        decreases packages.len() - i,
    {
        names.push(packages[i].name.clone());
        assert(packages@.take(i + 1).map_values(|p: PackageInfo| p.name@) =~= packages@.take(
            i as int,
        ).map_values(|p: PackageInfo| p.name@).push(packages@[i as int].name@));
        assert(names.deep_view() =~= packages@.take(i + 1).map_values(|p: PackageInfo| p.name@));
        i = i + 1;
    }
    assert(packages@.take(packages@.len() as int) =~= packages@);
    sorted_indices(&names)
}

/// A file pattern of a package matches `path`: `*suffix` matches the paths
/// that end with `suffix`, `prefix*` those that start with `prefix`.
pub open spec fn accepts_path(accept: Seq<char>, path: Seq<char>) -> bool {
    ||| accept.len() > 0 && accept[0] == '*' && has_suffix(path, accept.drop_first())
    ||| accept.len() > 0 && accept.last() == '*' && has_prefix(path, accept.drop_last())
}

/// Some pattern of `accepts` matches `path`.
pub open spec fn accepts_any(accepts: Seq<Seq<char>>, path: Seq<char>) -> bool {
    exists|k: int| 0 <= k < accepts.len() && accepts_path(#[trigger] accepts[k], path)
}

/// Whether one of the package's file patterns matches `path`.
pub fn package_accepts(accepts: &Vec<String>, path: &str) -> (r: bool)
    ensures
        r == accepts_any(accepts.deep_view(), path@),
{
    let p = chars_of(path);
    let mut k: usize = 0;
    while k < accepts.len()
        invariant
            k <= accepts@.len(),
            p@ == path@,
            forall|j: int| 0 <= j < k ==> !accepts_path(#[trigger] accepts.deep_view()[j], path@),
        decreases accepts.len() - k,
    {
        let a = chars_of(accepts[k].as_str());
        assert(a@ == accepts.deep_view()[k as int]);
        if a.len() > 0 && a[0] == '*' {
            let rest = slice_chars(&a, 1, a.len());
            assert(rest@ =~= a@.drop_first());
            if ends_with_chars(&p, &rest) {
                return true;
            }
        }
        if a.len() > 0 && a[a.len() - 1] == '*' {
            let rest = slice_chars(&a, 0, a.len() - 1);
            assert(rest@ =~= a@.drop_last());
            if starts_with_chars(&p, &rest) {
                return true;
            }
        }
        k = k + 1;
    }
    false
}

/// The packages that can open `path`, in their order.
pub open spec fn spec_packages_for_path(packages: Seq<PackageInfo>, path: Seq<char>) -> Seq<usize> {
    Seq::new(packages.len(), |i: int| i as usize).filter(
        |i: usize| accepts_any(packages[i as int].accepts.deep_view(), path),
    )
}

/// Which packages the chooser offers for a file.
pub fn packages_for_path(packages: &Vec<PackageInfo>, path: &str) -> (r: Vec<usize>)
    ensures
        r@ == spec_packages_for_path(packages@, path@),
{
    let mut r: Vec<usize> = Vec::new();
    let mut i: usize = 0;
    let ghost all = Seq::new(packages@.len(), |j: int| j as usize);
    while i < packages.len()
        invariant
            i <= packages@.len(),
            all == Seq::new(packages@.len(), |j: int| j as usize),
            r@ == all.take(i as int).filter(
                |j: usize| accepts_any(packages@[j as int].accepts.deep_view(), path@),
            ),
        decreases packages.len() - i,
    {
        let ok = package_accepts(&packages[i].accepts, path);
        if ok {
            r.push(i);
        }
        proof {
            reveal_with_fuel(Seq::<_>::filter, 1);
            assert(all.take(i + 1).drop_last() =~= all.take(i as int));
            assert(all.take(i + 1).last() == i);
        }
        i = i + 1;
    }
    assert(all.take(packages@.len() as int) =~= all);
    r
}

/// Whether a file in `~/Desktop` gets an icon: hidden files do not.
pub fn shown_desktop_file(name: &str) -> (r: bool)
    ensures
        r == !(name@.len() > 0 && name@[0] == '.'),
{
    let v = chars_of(name);
    !(v.len() > 0 && v[0] == '.')
}


/// The values of the `key=value` lines among `ls`, in order: what follows
/// the `=` of each line that starts with `key=`.
pub open spec fn spec_manifest_values(ls: Seq<Seq<char>>, key: Seq<char>) -> Seq<Seq<char>>
    decreases ls.len(),
{
    if ls.len() == 0 {
        seq![]
    } else {
        (if has_prefix(ls[0], key.push('=')) {
            seq![ls[0].skip(key.len() as int + 1)]
        } else {
            seq![]
        }) + spec_manifest_values(ls.drop_first(), key)
    }
}

/// The values that the lines of an application manifest give `key`.
pub fn manifest_values(content: &str, key: &str) -> (r: Vec<String>)
    ensures
        r.deep_view() == spec_manifest_values(lines(content@), key@),
{
    let v = chars_of(content);
    let mut prefix: Vec<char> = Vec::new();
    push_all(&mut prefix, &chars_of(key));
    prefix.push('=');
    assert(prefix@ =~= key@.push('='));
    let mut out: Vec<String> = Vec::new();
    let mut start: usize = 0;
    assert(v@.skip(0) =~= v@);
    assert(out.deep_view() =~= Seq::<Seq<char>>::empty());
    while start < v.len()
        invariant
            start <= v@.len(),
            v@ == content@,
            prefix@ == key@.push('='),
            spec_manifest_values(lines(v@), key@) == out.deep_view() + spec_manifest_values(
                lines(v@.skip(start as int)),
                key@,
            ),
        decreases v.len() - start,
    {
        let (line, next) = next_line(&v, start);
        let ghost ls = lines(v@.skip(start as int));
        let ghost before = out.deep_view();
        assert(ls[0] == line@);
        assert(ls.drop_first() =~= lines(v@.skip(next as int)));
        if starts_with_chars(&line, &prefix) {
            let val = slice_chars(&line, prefix.len(), line.len());
            assert(val@ =~= line@.skip(key@.len() as int + 1));
            out.push(string_of(&val));
            assert(out.deep_view() =~= before.push(val@));
        }
        assert(out.deep_view() + spec_manifest_values(lines(v@.skip(next as int)), key@) =~= before
            + spec_manifest_values(ls, key@));
        start = next;
    }
    assert(v@.skip(start as int) =~= Seq::<char>::empty());
    assert(out.deep_view() + Seq::<Seq<char>>::empty() =~= out.deep_view());
    out
}


/// The fields of `s` split at every `c`, as `str::split(c)` yields them.
pub open spec fn split_fields(s: Seq<char>, c: char) -> Seq<Seq<char>>
    decreases s.len(),
{
    let k = find_char(s, c);
    if k < 0 || k >= s.len() {
        seq![s]
    } else {
        seq![s.take(k)] + split_fields(s.skip(k + 1), c)
    }
}

/// The categories that a `Categories=` value lists: its `;`-separated
/// fields, blank ones left out.
pub open spec fn spec_entry_categories(value: Seq<char>) -> Seq<Seq<char>> {
    split_fields(value, ';').filter(|f: Seq<char>| f.len() > 0)
}

/// The categories listed by a `Categories=` value.
pub fn entry_categories(value: &str) -> (r: Vec<String>)
    ensures
        r.deep_view() == spec_entry_categories(value@),
{
    let v = chars_of(value);
    let ghost pred = |f: Seq<char>| f.len() > 0;
    let mut out: Vec<String> = Vec::new();
    let mut start: usize = 0;
    assert(v@.skip(0) =~= v@);
    assert(out.deep_view() =~= Seq::<Seq<char>>::empty());
    loop
        invariant_except_break
            start <= v@.len(),
            v@ == value@,
            pred == (|f: Seq<char>| f.len() > 0),
            spec_entry_categories(value@) == out.deep_view() + split_fields(v@.skip(start as int), ';').filter(pred),
        ensures
            out.deep_view() == spec_entry_categories(value@),
        decreases v@.len() - start,
    {
        let ghost t = v@.skip(start as int);
        let k = find_char_from(&v, ';', start);
        proof {
            lemma_find_char(t, ';');
        }
        let field = slice_chars(&v, start, k);
        let ghost f = field@;
        let ghost before = out.deep_view();
        assert(f =~= t.take(k - start));
        if field.len() > 0 {
            out.push(string_of(&field));
            assert(out.deep_view() =~= before.push(f));
        }
        proof {
            let e = Seq::<Seq<char>>::empty();
            e.lemma_filter_len(pred);
            e.lemma_filter_push(f, pred);
            assert(e.push(f) =~= seq![f]);
            assert(e.filter(pred) =~= e);
            assert(pred(f) == (f.len() > 0));
            if f.len() > 0 {
                assert(seq![f].filter(pred) =~= seq![f]);
            } else {
                assert(seq![f].filter(pred) =~= e);
            }
            assert(out.deep_view() =~= before + seq![f].filter(pred));
        }
        if k == v.len() {
            proof {
                assert(f =~= t);
                assert(split_fields(t, ';') == seq![t]);
            }
            break;
        }
        proof {
            assert(t.skip(k - start + 1) =~= v@.skip(k + 1));
            assert(split_fields(t, ';') == seq![f] + split_fields(v@.skip(k + 1), ';'));
            Seq::filter_distributes_over_add(seq![f], split_fields(v@.skip(k + 1), ';'), pred);
            assert(out.deep_view() + split_fields(v@.skip(k + 1), ';').filter(pred) =~= before
                + split_fields(t, ';').filter(pred));
        }
        start = k + 1;
    }
    out
}

/// A package from the values of an XDG desktop entry's keys (`None` for a
/// key the entry lacks): none for an entry marked `NoDisplay=true` or
/// `Hidden=true` or without `Name` or `Exec`; otherwise the entry's name,
/// command and categories under the id `id`, accepting no files.
pub open spec fn spec_desktop_entry(
    id: Seq<char>,
    name: Option<Seq<char>>,
    exec: Option<Seq<char>>,
    categories: Option<Seq<char>>,
    no_display: Option<Seq<char>>,
    hidden: Option<Seq<char>>,
) -> Option<(Seq<char>, Seq<char>, Seq<char>, Seq<Seq<char>>)> {
    if no_display == Some("true"@) || hidden == Some("true"@) || name is None || exec is None {
        None
    } else {
        Some((
            id,
            name->0,
            exec->0,
            match categories {
                Some(c) => spec_entry_categories(c),
                None => seq![],
            },
        ))
    }
}

pub open spec fn opt_str(o: Option<&str>) -> Option<Seq<char>> {
    match o {
        Some(s) => Some(s@),
        None => None,
    }
}

fn is_true(o: Option<&str>) -> (b: bool)
    ensures
        b == (opt_str(o) == Some("true"@)),
{
    match o {
        Some(s) => eq_chars(&chars_of(s), &chars_of("true")),
        None => false,
    }
}

/// The package of an XDG desktop entry, from the values of its keys.
pub fn desktop_entry_package(
    id: &str,
    name: Option<&str>,
    exec: Option<&str>,
    categories: Option<&str>,
    no_display: Option<&str>,
    hidden: Option<&str>,
) -> (r: Option<PackageInfo>)
    ensures
        match r {
            Some(p) => {
                &&& spec_desktop_entry(
                    id@,
                    opt_str(name),
                    opt_str(exec),
                    opt_str(categories),
                    opt_str(no_display),
                    opt_str(hidden),
                ) == Some((p.id@, p.name@, p.command@, p.categories.deep_view()))
                &&& p.accepts@.len() == 0
            },
            None => spec_desktop_entry(
                id@,
                opt_str(name),
                opt_str(exec),
                opt_str(categories),
                opt_str(no_display),
                opt_str(hidden),
            ) is None,
        },
{
    if is_true(no_display) || is_true(hidden) {
        return None;
    }
    match (name, exec) {
        (Some(n), Some(e)) => {
            let cats = match categories {
                Some(c) => entry_categories(c),
                None => Vec::new(),
            };
            proof {
                if categories is None {
                    assert(cats.deep_view() =~= Seq::<Seq<char>>::empty());
                }
            }
            Some(PackageInfo {
                id: id.to_owned(),
                name: n.to_owned(),
                command: e.to_owned(),
                categories: cats,
                accepts: Vec::new(),
            })
        },
        _ => None,
    }
}

/// A desktop entry's `Icon=` value names a file when it is an absolute
/// path, a themed icon otherwise.
pub fn icon_is_path(icon: &str) -> (b: bool)
    ensures
        b == has_prefix(icon@, "/"@),
{
    starts_with_chars(&chars_of(icon), &chars_of("/"))
}


/// File pattern `p` matches `path`: `*suffix` the paths whose last
/// characters are `suffix`, `prefix*` those whose first characters are
/// `prefix`.
pub open spec fn pattern_matches(p: Seq<char>, path: Seq<char>) -> bool {
    let n = p.len() - 1;
    &&& p.len() > 0
    &&& n <= path.len()
    &&& {
        ||| p[0] == '*' && forall|j: int| 0 <= j < n ==> #[trigger] path[path.len() - n + j] == p[j + 1]
        ||| p[n] == '*' && forall|j: int| 0 <= j < n ==> #[trigger] path[j] == p[j]
    }
}

/// A package accepts a path exactly when some pattern of its list matches
/// it, whatever the pattern's place in the list: adding patterns never
/// takes a path away, and the order of the patterns does not matter.
pub proof fn lemma_accepts_some_pattern(accepts: Seq<Seq<char>>, path: Seq<char>)
    ensures
        accepts_any(accepts, path) <==> exists|k: int|
            0 <= k < accepts.len() && #[trigger] pattern_matches(accepts[k], path),
        forall|k: int|
            0 <= k < accepts.len() && #[trigger] pattern_matches(accepts[k], path) ==> accepts_any(
                accepts,
                path,
            ),
{
    assert forall|k: int| 0 <= k < accepts.len() implies accepts_path(#[trigger] accepts[k], path)
        == pattern_matches(accepts[k], path) by {
        let p = accepts[k];
        if p.len() > 0 {
            let n = p.len() - 1;
            if p[0] == '*' {
                if has_suffix(path, p.drop_first()) {
                    assert forall|j: int| 0 <= j < n implies #[trigger] path[path.len() - n + j] == p[j
                        + 1] by {
                        assert(path.skip(path.len() - n)[j] == p.drop_first()[j]);
                    }
                }
                if n <= path.len() && forall|j: int|
                    0 <= j < n ==> #[trigger] path[path.len() - n + j] == p[j + 1] {
                    assert forall|j: int| 0 <= j < n implies path.skip(path.len() - n)[j]
                        == p.drop_first()[j] by {
                        assert(path[path.len() - n + j] == p[j + 1]);
                    }
                    assert(path.skip(path.len() - n) =~= p.drop_first());
                }
            }
            if p[n] == '*' {
                if has_prefix(path, p.drop_last()) {
                    assert forall|j: int| 0 <= j < n implies #[trigger] path[j] == p[j] by {
                        assert(path.take(n)[j] == p.drop_last()[j]);
                    }
                }
                if n <= path.len() && forall|j: int| 0 <= j < n ==> #[trigger] path[j] == p[j] {
                    assert(path.take(n) =~= p.drop_last());
                }
            }
            assert(p.last() == p[n]);
        }
    }
}

/// The chooser offers exactly the packages that accept the path, each
/// once, in their order.
pub proof fn lemma_packages_for_path_offers(packages: Seq<PackageInfo>, path: Seq<char>)
    requires
        packages.len() <= usize::MAX,
    ensures
        forall|i: int|
            0 <= i < packages.len() ==> (#[trigger] listed(spec_packages_for_path(packages, path), i)
                <==> exists|k: int|
                0 <= k < packages[i].accepts@.len() && #[trigger] pattern_matches(
                    packages[i].accepts@[k]@,
                    path,
                )),
        forall|a: int, b: int|
            0 <= a < b < spec_packages_for_path(packages, path).len() ==> #[trigger] spec_packages_for_path(packages, path)[a]
                < #[trigger] spec_packages_for_path(packages, path)[b],
{
    let all = Seq::new(packages.len(), |j: int| j as usize);
    let pred = |i: usize| accepts_any(packages[i as int].accepts.deep_view(), path);
    let r = spec_packages_for_path(packages, path);
    assert(r == all.filter(pred));
    assert forall|i: int| 0 <= i < packages.len() implies (#[trigger] listed(r, i) <==> exists|k: int|
        0 <= k < packages[i].accepts@.len() && #[trigger] pattern_matches(
            packages[i].accepts@[k]@,
            path,
        )) by {
        let acc = packages[i].accepts.deep_view();
        lemma_accepts_some_pattern(acc, path);
        assert(forall|k: int| 0 <= k < acc.len() ==> #[trigger] acc[k] == packages[i].accepts@[k]@);
        assert(all[i] == i as usize);
        if listed(r, i) {
            let q = choose|q: int| 0 <= q < r.len() && r[q] == i;
            all.lemma_filter_pred(pred, q);
            assert(accepts_any(acc, path));
            let k = choose|k: int| 0 <= k < acc.len() && #[trigger] pattern_matches(acc[k], path);
            assert(pattern_matches(packages[i].accepts@[k]@, path));
        }
        if exists|k: int|
            0 <= k < packages[i].accepts@.len() && #[trigger] pattern_matches(
                packages[i].accepts@[k]@,
                path,
            ) {
            let k = choose|k: int|
                0 <= k < packages[i].accepts@.len() && #[trigger] pattern_matches(
                    packages[i].accepts@[k]@,
                    path,
                );
            assert(pattern_matches(acc[k], path));
            assert(pred(all[i]));
            all.lemma_filter_contains(pred, i);
            let q = choose|q: int| 0 <= q < r.len() && r[q] == all[i];
            assert(r[q] == i);
        }
    }
    lemma_filter_increasing(all, pred);
}

proof fn lemma_filter_increasing(s: Seq<usize>, pred: spec_fn(usize) -> bool)
    requires
        forall|a: int, b: int| 0 <= a < b < s.len() ==> #[trigger] s[a] < #[trigger] s[b],
    ensures
        forall|a: int, b: int|
            0 <= a < b < s.filter(pred).len() ==> #[trigger] s.filter(pred)[a] < #[trigger] s.filter(
                pred,
            )[b],
    decreases s.len(),
{
    reveal_with_fuel(Seq::<_>::filter, 1);
    if s.len() > 0 {
        let t = s.drop_last();
        lemma_filter_increasing(t, pred);
        t.lemma_filter_len(pred);
        let f = t.filter(pred);
        assert forall|q: int| 0 <= q < f.len() implies #[trigger] f[q] < s.last() by {
            assert(f.contains(f[q]));
            t.lemma_filter_contains_rev(pred, f[q]);
            let j = choose|j: int| 0 <= j < t.len() && t[j] == f[q];
            assert(s[j] == t[j]);
        }
    }
}

} // verus!
