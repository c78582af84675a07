//! Ordering of names: the lexicographic order of `String`s (code point by
//! code point, which is the byte order of their UTF-8), and the stable
//! insertion sort that the menus and the desktop grid use.

use vstd::prelude::*;

use crate::text::chars_of;

verus! {

/// `a` sorts strictly before `b`, as `String`'s `Ord` compares them.
pub open spec fn lex_lt(a: Seq<char>, b: Seq<char>) -> bool
    decreases a.len(),
{
    if a.len() == 0 {
        b.len() > 0
    } else if b.len() == 0 {
        false
    } else if a[0] != b[0] {
        (a[0] as u32) < (b[0] as u32)
    } else {
        lex_lt(a.drop_first(), b.drop_first())
    }
}

/// Whether `a` sorts strictly before `b`.
pub fn lex_less(a: &[char], b: &[char]) -> (r: bool)
    ensures
        r == lex_lt(a@, b@),
{
    let mut i: usize = 0;
    assert(a@.skip(0) =~= a@);
    assert(b@.skip(0) =~= b@);
    while i < a.len() && i < b.len() && a[i] == b[i]
        invariant
            i <= a@.len(),
            i <= b@.len(),
            lex_lt(a@, b@) == lex_lt(a@.skip(i as int), b@.skip(i as int)),
        decreases a.len() - i,
    {
        assert(a@.skip(i as int).drop_first() =~= a@.skip(i + 1));
        assert(b@.skip(i as int).drop_first() =~= b@.skip(i + 1));
        i = i + 1;
    }
    assert(a@.skip(i as int).len() == a@.len() - i);
    if i == a.len() {
        i < b.len()
    } else if i == b.len() {
        false
    } else {
        assert(a@.skip(i as int)[0] == a@[i as int]);
        assert(b@.skip(i as int)[0] == b@[i as int]);
        (a[i] as u32) < (b[i] as u32)
    }
}

/// Where a stable insertion puts an element with key `k` into `s`: after
/// every element whose key does not sort after `k`.
pub open spec fn upper_bound(s: Seq<(Seq<char>, usize)>, k: Seq<char>) -> int
    decreases s.len(),
{
    if s.len() == 0 {
        0
    } else if lex_lt(k, s[0].0) {
        0
    } else {
        1 + upper_bound(s.drop_first(), k)
    }
}

/// Stable insertion sort of keyed elements by key.
pub open spec fn isort(s: Seq<(Seq<char>, usize)>) -> Seq<(Seq<char>, usize)>
    decreases s.len(),
{
    if s.len() == 0 {
        s
    } else {
        let r = isort(s.drop_last());
        r.insert(upper_bound(r, s.last().0), s.last())
    }
}

/// The keys paired with their positions.
pub open spec fn keyed(keys: Seq<Seq<char>>) -> Seq<(Seq<char>, usize)> {
    Seq::new(keys.len(), |i: int| (keys[i], i as usize))
}

/// The positions of `keys` in stably sorted order.
pub open spec fn sorted_order(keys: Seq<Seq<char>>) -> Seq<usize> {
    isort(keyed(keys)).map_values(|p: (Seq<char>, usize)| p.1)
}

proof fn lemma_upper_bound(s: Seq<(Seq<char>, usize)>, k: Seq<char>)
    ensures
        0 <= upper_bound(s, k) <= s.len(),
        forall|j: int| 0 <= j < upper_bound(s, k) ==> !lex_lt(k, #[trigger] s[j].0),
        upper_bound(s, k) < s.len() ==> lex_lt(k, s[upper_bound(s, k)].0),
    decreases s.len(),
{
    if s.len() > 0 && !lex_lt(k, s[0].0) {
        lemma_upper_bound(s.drop_first(), k);
        assert forall|j: int| 0 <= j < upper_bound(s, k) implies !lex_lt(k, #[trigger] s[j].0) by {
            if j > 0 {
                assert(s[j] == s.drop_first()[j - 1]);
            }
        }
    }
}

pub proof fn lemma_isort_len(s: Seq<(Seq<char>, usize)>)
    ensures
        isort(s).len() == s.len(),
    decreases s.len(),
{
    if s.len() > 0 {
        lemma_isort_len(s.drop_last());
        lemma_upper_bound(isort(s.drop_last()), s.last().0);
    }
}

/// The positions of the keys, ordered by key; equal keys keep their order.
pub fn sorted_indices(keys: &Vec<String>) -> (order: Vec<usize>)
    ensures
        order@ == sorted_order(keys.deep_view()),
{
    let n = keys.len();
    let ghost kv = keyed(keys.deep_view());
    let mut out_keys: Vec<Vec<char>> = Vec::new();
    let mut out: Vec<usize> = Vec::new();
    let mut i: usize = 0;
    while i < n
        invariant
            i <= n == keys@.len(),
            kv == keyed(keys.deep_view()),
            out_keys@.len() == out@.len(),
            Seq::new(out@.len(), |j: int| (out_keys@[j]@, out@[j])) == isort(kv.take(i as int)),
        decreases n - i,
    {
        let key = chars_of(keys[i].as_str());
        let ghost cur = Seq::new(out@.len(), |j: int| (out_keys@[j]@, out@[j]));
        proof {
            lemma_upper_bound(cur, key@);
            assert(kv.take(i + 1).drop_last() =~= kv.take(i as int));
            assert(kv.take(i + 1).last() == (key@, i));
        }
        let mut pos: usize = 0;
        assert(cur.skip(0) =~= cur);
        while pos < out.len() && !lex_less(&key, &out_keys[pos])
            invariant
                pos <= out@.len() == out_keys@.len(),
                cur == Seq::new(out@.len(), |j: int| (out_keys@[j]@, out@[j])),
                upper_bound(cur, key@) == pos + upper_bound(cur.skip(pos as int), key@),
            decreases out.len() - pos,
        {
            assert(cur.skip(pos as int).drop_first() =~= cur.skip(pos + 1));
            assert(cur.skip(pos as int)[0] == cur[pos as int]);
            pos = pos + 1;
        }
        proof {
            if pos < out@.len() {
                assert(cur.skip(pos as int)[0] == cur[pos as int]);
            }
            assert(upper_bound(cur, key@) == pos);
        }
        let ghost before_keys = out_keys@;
        let ghost before = out@;
        out_keys.insert(pos, key);
        out.insert(pos, i);
        proof {
            assert(Seq::new(out@.len(), |j: int| (out_keys@[j]@, out@[j])) =~= cur.insert(
                pos as int,
                (key@, i),
            ));
        }
        i = i + 1;
    }
    proof {
        assert(kv.take(n as int) =~= kv);
        let s = isort(kv);
        assert(out@ =~= s.map_values(|p: (Seq<char>, usize)| p.1));
    }
    out
}

/// Every element that the sort puts out is one that it was given, and
/// every element it was given is put out.
pub proof fn lemma_isort_elements(s: Seq<(Seq<char>, usize)>)
    ensures
        isort(s).len() == s.len(),
        forall|q: int| 0 <= q < isort(s).len() ==> s.contains(#[trigger] isort(s)[q]),
        forall|j: int| 0 <= j < s.len() ==> isort(s).contains(#[trigger] s[j]),
    decreases s.len(),
{
    if s.len() > 0 {
        let r = isort(s.drop_last());
        lemma_isort_elements(s.drop_last());
        lemma_upper_bound(r, s.last().0);
        let pos = upper_bound(r, s.last().0);
        assert forall|j: int| 0 <= j < s.len() implies isort(s).contains(#[trigger] s[j]) by {
            if j == s.len() - 1 {
                assert(isort(s)[pos] == s[j]);
            } else {
                assert(s.drop_last()[j] == s[j]);
                let q = choose|q: int| 0 <= q < r.len() && r[q] == s.drop_last()[j];
                if q < pos {
                    assert(isort(s)[q] == s[j]);
                } else {
                    assert(isort(s)[q + 1] == s[j]);
                }
            }
        }
        assert forall|q: int| 0 <= q < isort(s).len() implies s.contains(#[trigger] isort(s)[q]) by {
            if q == pos {
                assert(s[s.len() - 1] == s.last());
            } else if q < pos {
                assert(isort(s)[q] == r[q]);
                let j = choose|j: int| 0 <= j < s.drop_last().len() && s.drop_last()[j] == r[q];
                assert(s[j] == r[q]);
            } else {
                assert(isort(s)[q] == r[q - 1]);
                let j = choose|j: int| 0 <= j < s.drop_last().len() && s.drop_last()[j] == r[q - 1];
                assert(s[j] == r[q - 1]);
            }
        }
    }
}

/// Position `j` occurs in `order`.
pub open spec fn listed(order: Seq<usize>, j: int) -> bool {
    exists|q: int| 0 <= q < order.len() && order[q] == j
}

/// The sorted order is a list of positions of the keys.
pub proof fn lemma_sorted_order_bounds(keys: Seq<Seq<char>>)
    ensures
        sorted_order(keys).len() == keys.len(),
        forall|q: int| 0 <= q < keys.len() ==> #[trigger] sorted_order(keys)[q] < keys.len(),
{
    let kv = keyed(keys);
    lemma_isort_elements(kv);
    assert forall|q: int| 0 <= q < keys.len() implies #[trigger] sorted_order(keys)[q] < keys.len() by {
        assert(kv.contains(isort(kv)[q]));
    }
}

/// The sorted order lists every position of the keys.
pub proof fn lemma_sorted_order_onto(keys: Seq<Seq<char>>)
    requires
        keys.len() <= usize::MAX,
    ensures
        forall|j: int| 0 <= j < keys.len() ==> #[trigger] listed(sorted_order(keys), j),
{
    let kv = keyed(keys);
    lemma_isort_elements(kv);
    assert forall|j: int| 0 <= j < keys.len() implies #[trigger] listed(sorted_order(keys), j) by {
        assert(isort(kv).contains(kv[j]));
        let q = choose|q: int| 0 <= q < isort(kv).len() && isort(kv)[q] == kv[j];
        assert(kv[j].1 == j);
        assert(sorted_order(keys)[q] == isort(kv)[q].1);
        assert(sorted_order(keys)[q] == j);
    }
}

/// No name sorts before itself.
pub proof fn lemma_lex_irreflexive(a: Seq<char>)
    ensures
        !lex_lt(a, a),
    decreases a.len(),
{
    if a.len() > 0 {
        lemma_lex_irreflexive(a.drop_first());
    }
}

/// The order of names is transitive.
pub proof fn lemma_lex_transitive(a: Seq<char>, b: Seq<char>, c: Seq<char>)
    requires
        lex_lt(a, b),
        lex_lt(b, c),
    ensures
        lex_lt(a, c),
    decreases a.len(),
{
    if a.len() > 0 && b.len() > 0 && c.len() > 0 && a[0] == b[0] && b[0] == c[0] {
        lemma_lex_transitive(a.drop_first(), b.drop_first(), c.drop_first());
    }
}

/// Of two different names one sorts before the other, and never both.
pub proof fn lemma_lex_total(a: Seq<char>, b: Seq<char>)
    ensures
        a != b ==> (lex_lt(a, b) || lex_lt(b, a)),
        !(lex_lt(a, b) && lex_lt(b, a)),
    decreases a.len(),
{
    if a.len() > 0 && b.len() > 0 {
        if a[0] == b[0] {
            lemma_lex_total(a.drop_first(), b.drop_first());
            if a != b {
                if a.drop_first() == b.drop_first() {
                    assert(a =~= seq![a[0]] + a.drop_first());
                    assert(b =~= seq![b[0]] + b.drop_first());
                }
            }
        } else {
            vstd::utf8::char_u32_cast(a[0], a[0] as u32);
            vstd::utf8::char_u32_cast(b[0], b[0] as u32);
            assert((a[0] as u32) != (b[0] as u32));
        }
    } else if a.len() == 0 && b.len() == 0 {
        assert(a =~= b);
    }
}

/// Keys do not decrease along `r`, and equal keys keep increasing tags.
pub open spec fn sorted_stable(r: Seq<(Seq<char>, usize)>) -> bool {
    forall|i: int, j: int|
        0 <= i < j < r.len() ==> !lex_lt(#[trigger] r[j].0, #[trigger] r[i].0) && (r[i].0 == r[j].0
            ==> r[i].1 < r[j].1)
}

proof fn lemma_isort_sorted(s: Seq<(Seq<char>, usize)>)
    requires
        forall|i: int, j: int| 0 <= i < j < s.len() ==> #[trigger] s[i].1 < #[trigger] s[j].1,
    ensures
        sorted_stable(isort(s)),
        isort(s).len() == s.len(),
        forall|q: int| 0 <= q < isort(s).len() ==> s.contains(#[trigger] isort(s)[q]),
    decreases s.len(),
{
    lemma_isort_elements(s);
    if s.len() > 0 {
        let t = s.drop_last();
        let r = isort(t);
        let x = s.last();
        lemma_isort_sorted(t);
        lemma_upper_bound(r, x.0);
        let pos = upper_bound(r, x.0);
        let out = isort(s);
        assert(out == r.insert(pos, x));
        assert forall|q: int| 0 <= q < r.len() implies #[trigger] r[q].1 < x.1 by {
            assert(t.contains(r[q]));
            let j = choose|j: int| 0 <= j < t.len() && t[j] == r[q];
            assert(s[j] == t[j]);
        }
        assert forall|i: int, j: int| 0 <= i < j < out.len() implies !lex_lt(
            #[trigger] out[j].0,
            #[trigger] out[i].0,
        ) && (out[i].0 == out[j].0 ==> out[i].1 < out[j].1) by {
            if i < pos && j < pos {
                assert(out[i] == r[i] && out[j] == r[j]);
            } else if i < pos && j == pos {
                assert(out[i] == r[i]);
                lemma_lex_total(x.0, r[i].0);
            } else if i < pos && j > pos {
                assert(out[i] == r[i] && out[j] == r[j - 1]);
            } else if i == pos {
                assert(out[j] == r[j - 1]);
                assert(lex_lt(x.0, r[pos].0));
                if pos < j - 1 {
                    assert(!lex_lt(r[j - 1].0, r[pos].0));
                    if lex_lt(r[j - 1].0, x.0) {
                        lemma_lex_transitive(r[j - 1].0, x.0, r[pos].0);
                    }
                } else {
                    lemma_lex_total(r[pos].0, x.0);
                }
                if x.0 == r[j - 1].0 {
                    if pos < j - 1 {
                        lemma_lex_irreflexive(x.0);
                        assert(lex_lt(x.0, r[pos].0));
                        assert(!lex_lt(r[j - 1].0, r[pos].0));
                    } else {
                        lemma_lex_irreflexive(x.0);
                    }
                }
            } else {
                assert(out[i] == r[i - 1] && out[j] == r[j - 1]);
            }
        }
    }
}

/// Stable sorting by name: the order lists every position exactly once,
/// the names it lists never decrease, and positions with equal names keep
/// their relative order.
pub proof fn lemma_sorted_order(keys: Seq<Seq<char>>)
    requires
        keys.len() <= usize::MAX,
    ensures
        sorted_order(keys).len() == keys.len(),
        forall|q: int| 0 <= q < keys.len() ==> #[trigger] sorted_order(keys)[q] < keys.len(),
        forall|i: int, j: int|
            0 <= i < j < keys.len() ==> #[trigger] sorted_order(keys)[i] != #[trigger] sorted_order(
                keys,
            )[j],
        forall|i: int, j: int|
            0 <= i < j < keys.len() ==> !lex_lt(
                keys[#[trigger] sorted_order(keys)[j] as int],
                keys[#[trigger] sorted_order(keys)[i] as int],
            ),
        forall|i: int, j: int|
            0 <= i < j < keys.len() && keys[#[trigger] sorted_order(keys)[i] as int]
                == keys[#[trigger] sorted_order(keys)[j] as int] ==> sorted_order(keys)[i]
                < sorted_order(keys)[j],
{
    let kv = keyed(keys);
    assert forall|i: int, j: int| 0 <= i < j < kv.len() implies #[trigger] kv[i].1 < #[trigger] kv[
        j].1 by {}
    lemma_isort_sorted(kv);
    lemma_sorted_order_bounds(keys);
    let r = isort(kv);
    assert forall|q: int| 0 <= q < r.len() implies #[trigger] r[q].0 == keys[r[q].1 as int] by {
        assert(kv.contains(r[q]));
        let j = choose|j: int| 0 <= j < kv.len() && kv[j] == r[q];
        assert(kv[j].1 == j);
    }
    assert forall|i: int, j: int| 0 <= i < j < keys.len() implies #[trigger] sorted_order(keys)[i]
        != #[trigger] sorted_order(keys)[j] by {
        assert(r[i].0 == keys[r[i].1 as int]);
        assert(r[j].0 == keys[r[j].1 as int]);
        if r[i].1 == r[j].1 {
            lemma_lex_irreflexive(r[i].0);
        }
    }
    assert forall|i: int, j: int| 0 <= i < j < keys.len() implies !lex_lt(
        keys[#[trigger] sorted_order(keys)[j] as int],
        keys[#[trigger] sorted_order(keys)[i] as int],
    ) by {
        assert(r[i].0 == keys[r[i].1 as int]);
        assert(r[j].0 == keys[r[j].1 as int]);
    }
    assert forall|i: int, j: int|
        0 <= i < j < keys.len() && keys[#[trigger] sorted_order(keys)[i] as int]
            == keys[#[trigger] sorted_order(keys)[j] as int] implies sorted_order(keys)[i]
        < sorted_order(keys)[j] by {
        assert(r[i].0 == keys[r[i].1 as int]);
        assert(r[j].0 == keys[r[j].1 as int]);
    }
}

} // verus!
