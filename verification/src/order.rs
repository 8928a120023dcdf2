//! Sort keys and a stable sort.
//!
//! Every ordering in the workspace (search ranking, task trees, paths,
//! references) is a lexicographic comparison of a tuple of integers and
//! strings.  Such a tuple is encoded as one sequence of `i128`: integers as
//! themselves, a string as its character codes plus one followed by a `0`
//! terminator, so that comparing encodings lexicographically compares the
//! tuples.  `sort_by_keys` then sorts by these keys, stably.
use vstd::prelude::*;

verus! {

/// Strict lexicographic order; a proper prefix comes first.
pub open spec fn lex_lt(a: Seq<i128>, b: Seq<i128>) -> bool
    decreases a.len(),
{
    if a.len() == 0 {
        b.len() > 0
    } else if b.len() == 0 {
        false
    } else if a[0] < b[0] {
        true
    } else if a[0] > b[0] {
        false
    } else {
        lex_lt(a.skip(1), b.skip(1))
    }
}

pub proof fn lemma_lex_irreflexive(a: Seq<i128>)
    ensures
        !lex_lt(a, a),
    decreases a.len(),
{
    if a.len() > 0 {
        lemma_lex_irreflexive(a.skip(1));
    }
}

pub proof fn lemma_lex_total(a: Seq<i128>, b: Seq<i128>)
    ensures
        a == b || lex_lt(a, b) || lex_lt(b, a),
    decreases a.len(),
{
    if a.len() > 0 && b.len() > 0 && a[0] == b[0] {
        lemma_lex_total(a.skip(1), b.skip(1));
        if a.skip(1) == b.skip(1) {
            assert(a == seq![a[0]] + a.skip(1));
            assert(b == seq![b[0]] + b.skip(1));
        }
    } else if a.len() == 0 && b.len() == 0 {
        assert(a == b);
    }
}

pub proof fn lemma_lex_asymmetric(a: Seq<i128>, b: Seq<i128>)
    ensures
        !(lex_lt(a, b) && lex_lt(b, a)),
    decreases a.len(),
{
    if a.len() > 0 && b.len() > 0 && a[0] == b[0] {
        lemma_lex_asymmetric(a.skip(1), b.skip(1));
    }
}

pub proof fn lemma_lex_transitive(a: Seq<i128>, b: Seq<i128>, c: Seq<i128>)
    requires
        lex_lt(a, b),
        lex_lt(b, c),
    ensures
        lex_lt(a, c),
    decreases a.len(),
{
    if a.len() > 0 && b.len() > 0 && c.len() > 0 && a[0] == b[0] && b[0] == c[0] {
        lemma_lex_transitive(a.skip(1), b.skip(1), c.skip(1));
    }
}

/// A shared prefix does not decide the order.
pub proof fn lemma_lex_common_prefix(p: Seq<i128>, x: Seq<i128>, y: Seq<i128>)
    ensures
        lex_lt(p + x, p + y) == lex_lt(x, y),
    decreases p.len(),
{
    if p.len() > 0 {
        assert((p + x).skip(1) == p.skip(1) + x);
        assert((p + y).skip(1) == p.skip(1) + y);
        lemma_lex_common_prefix(p.skip(1), x, y);
    } else {
        assert(p + x == x);
        assert(p + y == y);
    }
}

/// Two sequences that differ within their common length are ordered by
/// that difference, whatever follows them.
pub proof fn lemma_lex_decided(u: Seq<i128>, v: Seq<i128>, x: Seq<i128>, y: Seq<i128>, i: int)
    requires
        0 <= i < u.len(),
        i < v.len(),
        u[i] != v[i],
        forall|k: int| 0 <= k < i ==> u[k] == v[k],
    ensures
        lex_lt(u + x, v + y) == lex_lt(u, v),
    decreases i,
{
    if i > 0 {
        assert((u + x).skip(1) == u.skip(1) + x);
        assert((v + y).skip(1) == v.skip(1) + y);
        lemma_lex_decided(u.skip(1), v.skip(1), x, y, i - 1);
    }
}

/// Whether `a` comes before `b` in the lexicographic order of keys.
pub fn lex_less(a: &Vec<i128>, b: &Vec<i128>) -> (lt: bool)
    ensures
        lt == lex_lt(a@, b@),
{
    let mut i: usize = 0;
    assert(a@.skip(0) == a@);
    assert(b@.skip(0) == b@);
    while i < a.len() && i < b.len()
        invariant
            i <= a.len(),
            i <= b.len(),
            lex_lt(a@, b@) == lex_lt(a@.skip(i as int), b@.skip(i as int)),
        decreases a.len() - i,
    {
        assert(a@.skip(i as int)[0] == a@[i as int]);
        assert(b@.skip(i as int)[0] == b@[i as int]);
        if a[i] < b[i] {
            return true;
        }
        if a[i] > b[i] {
            return false;
        }
        assert(a@.skip(i as int).skip(1) == a@.skip(i + 1));
        assert(b@.skip(i as int).skip(1) == b@.skip(i + 1));
        i = i + 1;
    }
    i < b.len()
}

// ---------------------------------------------------------------------------
// Encoding strings.

/// The key element of a character: its code plus one.
pub open spec fn char_code(c: char) -> i128 {
    ((c as u32) + 1) as i128
}

/// The key of a string: its character codes plus one, then `0`.
pub open spec fn str_key(s: Seq<char>) -> Seq<i128> {
    s.map_values(|c: char| char_code(c)).push(0)
}

/// Lexicographic order of strings by character code (which is the byte
/// order of their UTF-8 encodings).
pub open spec fn str_lt(a: Seq<char>, b: Seq<char>) -> bool
    decreases a.len(),
{
    if a.len() == 0 {
        b.len() > 0
    } else if b.len() == 0 {
        false
    } else if (a[0] as u32) < (b[0] as u32) {
        true
    } else if (a[0] as u32) > (b[0] as u32) {
        false
    } else {
        str_lt(a.skip(1), b.skip(1))
    }
}

proof fn lemma_str_key_skip(s: Seq<char>)
    requires
        s.len() > 0,
    ensures
        str_key(s).skip(1) == str_key(s.skip(1)),
        str_key(s)[0] == char_code(s[0]),
{
    assert(str_key(s).skip(1) =~= str_key(s.skip(1)));
}

/// Comparing string keys, with anything after them, compares the strings
/// first and what follows only when the strings are equal.
pub proof fn lemma_str_key_order(a: Seq<char>, b: Seq<char>, x: Seq<i128>, y: Seq<i128>)
    ensures
        lex_lt(str_key(a) + x, str_key(b) + y) == (str_lt(a, b) || (a == b && lex_lt(x, y))),
    decreases a.len(),
{
    if a.len() == 0 && b.len() == 0 {
        assert(a == b);
        lemma_lex_common_prefix(str_key(a), x, y);
    } else if a.len() == 0 {
        assert(str_key(a)[0] == 0);
        lemma_str_key_skip(b);
        lemma_lex_decided(str_key(a), str_key(b), x, y, 0);
    } else if b.len() == 0 {
        assert(str_key(b)[0] == 0);
        lemma_str_key_skip(a);
        lemma_lex_decided(str_key(a), str_key(b), x, y, 0);
    } else {
        lemma_str_key_skip(a);
        lemma_str_key_skip(b);
        if a[0] != b[0] {
            lemma_char_codes_differ(a[0], b[0]);
            lemma_lex_decided(str_key(a), str_key(b), x, y, 0);
        } else {
            assert((str_key(a) + x).skip(1) == str_key(a.skip(1)) + x);
            assert((str_key(b) + y).skip(1) == str_key(b.skip(1)) + y);
            lemma_str_key_order(a.skip(1), b.skip(1), x, y);
            if a.skip(1) == b.skip(1) {
                assert(a == seq![a[0]] + a.skip(1));
                assert(b == seq![b[0]] + b.skip(1));
            }
            if a == b {
                assert(a.skip(1) == b.skip(1));
            }
        }
    }
}

/// Appends the key of `s` to `key`.
pub fn push_str_key(key: &mut Vec<i128>, s: &Vec<char>)
    ensures
        final(key)@ == old(key)@ + str_key(s@),
{
    let ghost start = key@;
    let mut i: usize = 0;
    while i < s.len()
        invariant
            i <= s.len(),
            key@ == start + s@.take(i as int).map_values(|c: char| char_code(c)),
        decreases s.len() - i,
    {
        let code = (s[i] as u32) as i128 + 1;
        assert(code == char_code(s@[i as int]));
        key.push(code);
        assert(s@.take(i + 1).map_values(|c: char| char_code(c)) =~= s@.take(i as int).map_values(
            |c: char| char_code(c),
        ).push(code));
        i = i + 1;
    }
    key.push(0);
    assert(s@.take(s.len() as int) == s@);
    assert(key@ =~= start + str_key(s@));
}

proof fn lemma_char_codes_differ(a: char, b: char)
    requires
        a != b,
    ensures
        a as u32 != b as u32,
{
}

/// `u` and `v` differ at a position inside both, after an equal prefix:
/// whatever follows them, that position orders them.
pub open spec fn decided(u: Seq<i128>, v: Seq<i128>) -> bool {
    exists|i: int| 0 <= i < u.len() && i < v.len() && u[i] != v[i] && forall|k: int| 0 <= k < i ==> #[trigger] u[k] == v[k]
}

/// A decided pair stays decided, and orders the same, with anything
/// appended; it is decided the other way round too.
pub proof fn lemma_decided_extend(u: Seq<i128>, v: Seq<i128>, x: Seq<i128>, y: Seq<i128>)
    requires
        decided(u, v),
    ensures
        decided(u + x, v + y),
        decided(v, u),
        lex_lt(u + x, v + y) == lex_lt(u, v),
        u + x != v + y,
{
    let i = choose|i: int| 0 <= i < u.len() && i < v.len() && u[i] != v[i] && forall|k: int| 0 <= k < i ==> #[trigger] u[k] == v[k];
    lemma_lex_decided(u, v, x, y, i);
    assert((u + x)[i] == u[i] && (v + y)[i] == v[i]);
    assert forall|k: int| 0 <= k < i implies #[trigger] (u + x)[k] == (v + y)[k] by {
        assert(u[k] == v[k]);
    }
    assert forall|k: int| 0 <= k < i implies #[trigger] v[k] == u[k] by {
        assert(u[k] == v[k]);
    }
}

/// A pair decided after an equal prefix is decided.
pub proof fn lemma_decided_after(p: Seq<i128>, u: Seq<i128>, v: Seq<i128>)
    requires
        decided(u, v),
    ensures
        decided(p + u, p + v),
{
    let i = choose|i: int| 0 <= i < u.len() && i < v.len() && u[i] != v[i] && forall|k: int| 0 <= k < i ==> #[trigger] u[k] == v[k];
    let j = p.len() + i;
    assert((p + u)[j] == u[i] && (p + v)[j] == v[i]);
    assert forall|k: int| 0 <= k < j implies #[trigger] (p + u)[k] == (p + v)[k] by {
        if k >= p.len() {
            assert(u[k - p.len()] == v[k - p.len()]);
        }
    }
}

/// The keys of two different strings are decided.
pub proof fn lemma_str_key_decided(a: Seq<char>, b: Seq<char>)
    requires
        a != b,
    ensures
        decided(str_key(a), str_key(b)),
    decreases a.len(),
{
    let ka = str_key(a);
    let kb = str_key(b);
    if a.len() == 0 || b.len() == 0 {
        if a.len() == 0 && b.len() == 0 {
            assert(a =~= b);
        }
        if a.len() > 0 {
            lemma_str_key_skip(a);
            assert(ka[0] >= 1);
        } else {
            assert(ka[0] == 0);
        }
        if b.len() > 0 {
            lemma_str_key_skip(b);
            assert(kb[0] >= 1);
        } else {
            assert(kb[0] == 0);
        }
        assert(ka[0] != kb[0]);
        assert(forall|k: int| 0 <= k < 0 ==> #[trigger] ka[k] == kb[k]);
    } else {
        lemma_str_key_skip(a);
        lemma_str_key_skip(b);
        if a[0] != b[0] {
            lemma_char_codes_differ(a[0], b[0]);
            assert(ka[0] != kb[0]);
            assert(forall|k: int| 0 <= k < 0 ==> #[trigger] ka[k] == kb[k]);
        } else {
            if a.skip(1) == b.skip(1) {
                assert(a == seq![a[0]] + a.skip(1));
                assert(b == seq![b[0]] + b.skip(1));
            }
            lemma_str_key_decided(a.skip(1), b.skip(1));
            assert(ka == seq![ka[0]] + ka.skip(1));
            assert(kb == seq![kb[0]] + kb.skip(1));
            lemma_decided_after(seq![ka[0]], ka.skip(1), kb.skip(1));
        }
    }
}

// ---------------------------------------------------------------------------
// Stable sorting by keys.

/// Item `i` comes before item `j`: by key, then by position.
pub open spec fn index_before(keys: Seq<Seq<i128>>, i: int, j: int) -> bool {
    lex_lt(keys[i], keys[j]) || (keys[i] == keys[j] && i < j)
}

/// `perm` lists every position of `keys` once, in key order, equal keys in
/// their original order.
pub open spec fn sorted_permutation(keys: Seq<Seq<i128>>, perm: Seq<int>) -> bool {
    &&& perm.len() == keys.len()
    &&& forall|q: int| 0 <= q < perm.len() ==> 0 <= #[trigger] perm[q] < keys.len()
    &&& perm.no_duplicates()
    &&& forall|q1: int, q2: int|
        0 <= q1 < q2 < perm.len() ==> index_before(keys, #[trigger] perm[q1], #[trigger] perm[q2])
}

/// `out` holds the items of `items` in the order `perm` gives.
pub open spec fn permuted<T>(items: Seq<T>, out: Seq<T>, perm: Seq<int>) -> bool {
    out.len() == perm.len() && forall|q: int| 0 <= q < out.len() ==> #[trigger] out[q] == items[perm[q]]
}

/// Sorts `items` by `keys` (lexicographically), keeping the original order
/// of items with equal keys.
pub fn sort_by_keys<T>(items: Vec<T>, keys: &Vec<Vec<i128>>) -> (out: Vec<T>)
    requires
        items.len() == keys.len(),
    ensures
        exists|perm: Seq<int>|
            sorted_permutation(keys@.map_values(|k: Vec<i128>| k@), perm) && permuted(
                items@,
                out@,
                perm,
            ),
{
    let ghost ks = keys@.map_values(|k: Vec<i128>| k@);
    let ghost orig = items@;
    let n = items.len();
    let mut items = items;
    let mut reversed: Vec<T> = Vec::new();
    while items.len() > 0
        invariant
            items.len() + reversed.len() == n,
            forall|k: int| 0 <= k < items.len() ==> items@[k] == orig[k],
            forall|k: int| 0 <= k < reversed.len() ==> reversed@[k] == orig[n - 1 - k],
        decreases items.len(),
    {
        let item = items.pop().unwrap();
        reversed.push(item);
    }
    let mut out: Vec<T> = Vec::new();
    let mut perm: Vec<usize> = Vec::new();
    let mut i: usize = 0;
    while i < n
        invariant
            n == keys.len(),
            ks == keys@.map_values(|k: Vec<i128>| k@),
            ks.len() == n,
            i <= n,
            reversed.len() == n - i,
            forall|k: int| 0 <= k < reversed.len() ==> reversed@[k] == orig[n - 1 - k],
            out.len() == i,
            perm.len() == i,
            forall|q: int| 0 <= q < i ==> (#[trigger] perm@[q] as int) < i,
            forall|q: int| 0 <= q < i ==> out@[q] == orig[perm@[q] as int],
            forall|q1: int, q2: int| 0 <= q1 < q2 < i ==> perm@[q1] != perm@[q2],
            forall|q1: int, q2: int|
                0 <= q1 < q2 < i ==> index_before(ks, #[trigger] perm@[q1] as int, #[trigger] perm@[q2] as int),
        decreases n - i,
    {
        let item = reversed.pop().unwrap();
        let mut p: usize = 0;
        while p < perm.len() && !lex_less(&keys[i], &keys[perm[p]])
            invariant
                p <= perm.len(),
                perm.len() == i,
                i < n,
                n == keys.len(),
                ks == keys@.map_values(|k: Vec<i128>| k@),
                forall|q: int| 0 <= q < i ==> (#[trigger] perm@[q] as int) < i,
                forall|q: int| 0 <= q < p ==> !lex_lt(ks[i as int], #[trigger] ks[perm@[q] as int]),
            decreases perm.len() - p,
        {
            p = p + 1;
        }
        proof {
            assert forall|q: int| p <= q < i implies lex_lt(ks[i as int], #[trigger] ks[perm@[q] as int]) by {
                if q > p {
                    assert(index_before(ks, perm@[p as int] as int, perm@[q] as int));
                    if lex_lt(ks[perm@[p as int] as int], ks[perm@[q] as int]) {
                        lemma_lex_transitive(ks[i as int], ks[perm@[p as int] as int], ks[perm@[q] as int]);
                    }
                }
            }
        }
        let ghost old_perm = perm@;
        let ghost old_out = out@;
        out.insert(p, item);
        perm.insert(p, i);
        proof {
            assert forall|q: int| 0 <= q < i + 1 implies (#[trigger] perm@[q] as int) < i + 1 by {
                if q < p {
                    assert(perm@[q] == old_perm[q]);
                } else if q > p {
                    assert(perm@[q] == old_perm[q - 1]);
                }
            }
            assert forall|q: int| 0 <= q < i + 1 implies out@[q] == orig[perm@[q] as int] by {
                if q < p {
                    assert(perm@[q] == old_perm[q]);
                    assert(out@[q] == old_out[q]);
                } else if q > p {
                    assert(perm@[q] == old_perm[q - 1]);
                    assert(out@[q] == old_out[q - 1]);
                }
            }
            assert forall|q1: int, q2: int| 0 <= q1 < q2 < i + 1 implies perm@[q1] != perm@[q2] by {
                if q1 != p && q2 != p {
                    let a = if q1 < p { q1 } else { q1 - 1 };
                    let b = if q2 < p { q2 } else { q2 - 1 };
                    assert(perm@[q1] == old_perm[a]);
                    assert(perm@[q2] == old_perm[b]);
                } else if q1 == p {
                    assert(perm@[q2] == old_perm[q2 - 1]);
                    assert((old_perm[q2 - 1] as int) < i);
                } else {
                    assert(perm@[q1] == old_perm[q1]);
                    assert((old_perm[q1] as int) < i);
                }
            }
            assert forall|q1: int, q2: int| 0 <= q1 < q2 < i + 1 implies index_before(
                ks,
                #[trigger] perm@[q1] as int,
                #[trigger] perm@[q2] as int,
            ) by {
                if q1 != p && q2 != p {
                    let a = if q1 < p { q1 } else { q1 - 1 };
                    let b = if q2 < p { q2 } else { q2 - 1 };
                    assert(perm@[q1] == old_perm[a]);
                    assert(perm@[q2] == old_perm[b]);
                    assert(index_before(ks, old_perm[a] as int, old_perm[b] as int));
                } else if q1 == p {
                    assert(perm@[q2] == old_perm[q2 - 1]);
                    assert(lex_lt(ks[i as int], ks[old_perm[q2 - 1] as int]));
                } else {
                    assert(perm@[q1] == old_perm[q1]);
                    assert(!lex_lt(ks[i as int], ks[old_perm[q1] as int]));
                    assert((old_perm[q1] as int) < i);
                    lemma_lex_total(ks[i as int], ks[old_perm[q1] as int]);
                }
            }
        }
        i = i + 1;
    }
    proof {
        let gp = perm@.map_values(|x: usize| x as int);
        assert(sorted_permutation(ks, gp)) by {
            assert forall|q: int| 0 <= q < gp.len() implies 0 <= #[trigger] gp[q] < ks.len() by {
                assert(gp[q] == perm@[q] as int);
            }
            assert forall|q1: int, q2: int|
                (0 <= q1 < gp.len() && 0 <= q2 < gp.len() && q1 != q2) implies gp[q1] != gp[q2] by {
                if q1 < q2 {
                    assert(perm@[q1] != perm@[q2]);
                } else {
                    assert(perm@[q2] != perm@[q1]);
                }
            }
            assert forall|q1: int, q2: int| 0 <= q1 < q2 < gp.len() implies index_before(
                ks,
                #[trigger] gp[q1],
                #[trigger] gp[q2],
            ) by {
                assert(gp[q1] == perm@[q1] as int);
                assert(gp[q2] == perm@[q2] as int);
            }
        }
        assert(permuted(orig, out@, gp));
    }
    out
}

// ---------------------------------------------------------------------------
// Permutations.

/// `p` lists each of `0..n` once.
pub open spec fn is_permutation(p: Seq<int>, n: int) -> bool {
    p.len() == n && (forall|q: int| 0 <= q < n ==> 0 <= #[trigger] p[q] < n) && p.no_duplicates()
}

/// A permutation of `0..n` holds every one of them.
pub proof fn lemma_permutation_onto(p: Seq<int>, n: int)
    requires
        is_permutation(p, n),
    ensures
        forall|i: int| 0 <= i < n ==> #[trigger] p.contains(i),
{
    let s = p.to_set();
    let r = vstd::set_lib::set_int_range(0, n);
    p.unique_seq_to_set();
    vstd::set_lib::lemma_int_range(0, n);
    assert forall|x: int| s.contains(x) implies r.contains(x) by {
        let q = choose|q: int| 0 <= q < p.len() && p[q] == x;
    }
    vstd::seq_lib::seq_to_set_is_finite(p);
    vstd::set_lib::lemma_subset_equality(s, r);
    assert forall|i: int| 0 <= i < n implies #[trigger] p.contains(i) by {
        assert(r.contains(i));
        assert(s.contains(i));
    }
}

/// A strictly increasing sequence of `n` values from `0..n` is `0, 1, …`.
proof fn lemma_increasing_is_identity(v: Seq<int>, n: int)
    requires
        v.len() == n,
        forall|q: int| 0 <= q < n ==> 0 <= #[trigger] v[q] < n,
        forall|a: int, b: int| 0 <= a < b < n ==> #[trigger] v[a] < #[trigger] v[b],
    ensures
        forall|q: int| 0 <= q < n ==> #[trigger] v[q] == q,
{
    assert forall|q: int| 0 <= q < n implies #[trigger] v[q] == q by {
        lemma_increasing_lower(v, n, q);
        lemma_increasing_upper(v, n, q);
    }
}

proof fn lemma_increasing_lower(v: Seq<int>, n: int, q: int)
    requires
        v.len() == n,
        0 <= q < n,
        forall|k: int| 0 <= k < n ==> 0 <= #[trigger] v[k] < n,
        forall|a: int, b: int| 0 <= a < b < n ==> #[trigger] v[a] < #[trigger] v[b],
    ensures
        v[q] >= q,
    decreases q,
{
    if q > 0 {
        lemma_increasing_lower(v, n, q - 1);
        assert(v[q - 1] < v[q]);
    }
}

proof fn lemma_increasing_upper(v: Seq<int>, n: int, q: int)
    requires
        v.len() == n,
        0 <= q < n,
        forall|k: int| 0 <= k < n ==> 0 <= #[trigger] v[k] < n,
        forall|a: int, b: int| 0 <= a < b < n ==> #[trigger] v[a] < #[trigger] v[b],
    ensures
        v[q] <= q + (n - 1 - q) - (n - 1 - q),
    decreases n - q,
{
    if q < n - 1 {
        lemma_increasing_upper(v, n, q + 1);
        assert(v[q] < v[q + 1]);
        lemma_increasing_upper_rec(v, n, q);
    }
}

proof fn lemma_increasing_upper_rec(v: Seq<int>, n: int, q: int)
    requires
        v.len() == n,
        0 <= q < n,
        forall|k: int| 0 <= k < n ==> 0 <= #[trigger] v[k] < n,
        forall|a: int, b: int| 0 <= a < b < n ==> #[trigger] v[a] < #[trigger] v[b],
    ensures
        v[q] <= n - 1 - (n - 1 - q),
    decreases n - q,
{
    if q < n - 1 {
        lemma_increasing_upper_rec(v, n, q + 1);
        assert(v[q] < v[q + 1]);
    }
}

pub open spec fn usize_seq(p: Seq<usize>) -> Seq<int> {
    p.map_values(|x: usize| x as int)
}

/// Reorders `items` so that position `q` holds `items[order[q]]`.
pub fn apply_permutation<T>(items: Vec<T>, order: &Vec<usize>) -> (out: Vec<T>)
    requires
        is_permutation(usize_seq(order@), items.len() as int),
    ensures
        out.len() == items.len(),
        forall|q: int| 0 <= q < out.len() ==> #[trigger] out@[q] == items@[order@[q] as int],
{
    let n = items.len();
    let ghost p = usize_seq(order@);
    let mut inverse: Vec<usize> = Vec::new();
    let mut k: usize = 0;
    while k < n
        invariant
            k <= n,
            inverse.len() == k,
        decreases n - k,
    {
        inverse.push(0);
        k = k + 1;
    }
    let mut q: usize = 0;
    while q < n
        invariant
            q <= n,
            n == items.len(),
            order.len() == n,
            p == usize_seq(order@),
            is_permutation(p, n as int),
            inverse.len() == n,
            forall|j: int| 0 <= j < q ==> #[trigger] inverse@[order@[j] as int] == j,
        decreases n - q,
    {
        assert(p[q as int] == order@[q as int] as int);
        let ghost before = inverse@;
        inverse.set(order[q], q);
        proof {
            assert forall|j: int| 0 <= j < q + 1 implies #[trigger] inverse@[order@[j] as int] == j by {
                if j < q {
                    assert(p[j] == order@[j] as int);
                    assert(p[j] != p[q as int]);
                }
            }
        }
        q = q + 1;
    }
    proof {
        lemma_permutation_onto(p, n as int);
    }
    let mut keys: Vec<Vec<i128>> = Vec::new();
    let mut i: usize = 0;
    while i < n
        invariant
            i <= n,
            n == items.len(),
            inverse.len() == n,
            keys.len() == i,
            forall|j: int| 0 <= j < i ==> #[trigger] keys@[j]@ == seq![inverse@[j] as i128],
        decreases n - i,
    {
        let key: Vec<i128> = vec![inverse[i] as i128];
        keys.push(key);
        i = i + 1;
    }
    let ghost orig = items@;
    let out = sort_by_keys(items, &keys);
    proof {
        let ks = keys@.map_values(|k: Vec<i128>| k@);
        let perm = choose|perm: Seq<int>| sorted_permutation(ks, perm) && permuted(orig, out@, perm);
        // Every position holds its own index in the inverse.
        assert forall|i: int| 0 <= i < n implies 0 <= #[trigger] inverse@[i] < n && order@[inverse@[i] as int] as int == i by {
            assert(p.contains(i));
            let q = choose|q: int| 0 <= q < n && p[q] == i;
            assert(order@[q] as int == i);
            assert(inverse@[order@[q] as int] == q);
        }
        let v = Seq::new(n as nat, |q: int| inverse@[perm[q]] as int);
        assert forall|a: int, b: int| 0 <= a < b < n implies #[trigger] v[a] < #[trigger] v[b] by {
            assert(index_before(ks, perm[a], perm[b]));
            assert(ks[perm[a]] == seq![inverse@[perm[a]] as i128]);
            assert(ks[perm[b]] == seq![inverse@[perm[b]] as i128]);
            if inverse@[perm[a]] == inverse@[perm[b]] {
                assert(order@[inverse@[perm[a]] as int] as int == perm[a]);
                assert(order@[inverse@[perm[b]] as int] as int == perm[b]);
                assert(perm[a] != perm[b]);
            }
            assert(ks[perm[a]].skip(1).len() == 0);
            assert(ks[perm[b]].skip(1).len() == 0);
        }
        lemma_increasing_is_identity(v, n as int);
        assert forall|q: int| 0 <= q < out.len() implies #[trigger] out@[q] == orig[order@[q] as int] by {
            assert(v[q] == q);
            assert(order@[inverse@[perm[q]] as int] as int == perm[q]);
        }
    }
    out
}

// ---------------------------------------------------------------------------
// Sorting with duplicates removed.

/// No earlier position has the same key as `i`.
pub open spec fn first_of_key(keys: Seq<Seq<i128>>, i: int) -> bool {
    0 <= i < keys.len() && forall|j: int| 0 <= j < i ==> keys[j] != #[trigger] keys[i]
}

/// `out` holds, for each distinct key, the first item with that key, in
/// increasing key order.
pub open spec fn unique_sorted_by<T>(items: Seq<T>, keys: Seq<Seq<i128>>, out: Seq<T>) -> bool {
    exists|idx: Seq<int>|
        #![trigger idx.len()]
        idx.len() == out.len() && (forall|q: int| 0 <= q < idx.len() ==> first_of_key(keys, #[trigger] idx[q]) && out[q] == items[idx[q]])
            && (forall|q1: int, q2: int| 0 <= q1 < q2 < idx.len() ==> lex_lt(keys[#[trigger] idx[q1]], keys[#[trigger] idx[q2]]))
            && (forall|i: int| #[trigger] first_of_key(keys, i) ==> idx.contains(i))
}

/// Keeps the first item of each key and sorts them by key.
pub fn unique_sorted<T>(items: Vec<T>, keys: &Vec<Vec<i128>>) -> (out: Vec<T>)
    requires
        items.len() == keys.len(),
    ensures
        unique_sorted_by(items@, keys@.map_values(|k: Vec<i128>| k@), out@),
{
    let ghost ks = keys@.map_values(|k: Vec<i128>| k@);
    let ghost orig = items@;
    let n = items.len();
    let mut items = items;
    let mut reversed: Vec<T> = Vec::new();
    while items.len() > 0
        invariant
            items.len() + reversed.len() == n,
            forall|k: int| 0 <= k < items.len() ==> items@[k] == orig[k],
            forall|k: int| 0 <= k < reversed.len() ==> reversed@[k] == orig[n - 1 - k],
        decreases items.len(),
    {
        let item = items.pop().unwrap();
        reversed.push(item);
    }
    let mut kept: Vec<T> = Vec::new();
    let mut kept_keys: Vec<Vec<i128>> = Vec::new();
    let mut kept_at: Vec<usize> = Vec::new();
    let mut i: usize = 0;
    while i < n
        invariant
            i <= n,
            n == keys.len(),
            ks == keys@.map_values(|k: Vec<i128>| k@),
            reversed.len() == n - i,
            forall|k: int| 0 <= k < reversed.len() ==> reversed@[k] == orig[n - 1 - k],
            kept.len() == kept_keys.len(),
            kept.len() == kept_at.len(),
            forall|q: int| 0 <= q < kept_at.len() ==> (#[trigger] kept_at@[q] as int) < i && first_of_key(ks, kept_at@[q] as int)
                && kept@[q] == orig[kept_at@[q] as int] && kept_keys@[q]@ == ks[kept_at@[q] as int],
            forall|q1: int, q2: int| 0 <= q1 < q2 < kept_at.len() ==> (#[trigger] kept_at@[q1]) < (#[trigger] kept_at@[q2]),
            forall|j: int| 0 <= j < i && #[trigger] first_of_key(ks, j) ==> kept_at@.contains(j as usize),
        decreases n - i,
    {
        let item = reversed.pop().unwrap();
        let mut seen = false;
        let mut j: usize = 0;
        while j < i
            invariant
                j <= i < n,
                n == keys.len(),
                ks == keys@.map_values(|k: Vec<i128>| k@),
                seen == exists|m: int| 0 <= m < j && #[trigger] ks[m] == ks[i as int],
            decreases i - j,
        {
            let same = lex_equal(&keys[j], &keys[i]);
            proof {
                assert(ks[j as int] == keys@[j as int]@);
                assert(ks[i as int] == keys@[i as int]@);
                if exists|m: int| 0 <= m < j + 1 && #[trigger] ks[m] == ks[i as int] {
                    let m = choose|m: int| 0 <= m < j + 1 && #[trigger] ks[m] == ks[i as int];
                    if m < j {
                        assert(exists|m2: int| 0 <= m2 < j && #[trigger] ks[m2] == ks[i as int]);
                    }
                }
            }
            if same {
                seen = true;
            }
            j = j + 1;
        }
        if !seen {
            let ghost before = kept_at@;
            kept.push(item);
            kept_keys.push(copy_key(&keys[i]));
            kept_at.push(i);
            proof {
                assert(first_of_key(ks, i as int));
                assert forall|jj: int| 0 <= jj < i + 1 && #[trigger] first_of_key(ks, jj) implies kept_at@.contains(jj as usize) by {
                    if jj < i {
                        let q = choose|q: int| 0 <= q < before.len() && before[q] == jj as usize;
                        assert(kept_at@[q] == jj as usize);
                    } else {
                        assert(kept_at@[kept_at.len() - 1] == i);
                    }
                }
            }
        } else {
            proof {
                assert(!first_of_key(ks, i as int));
            }
        }
        i = i + 1;
    }
    let ghost kept_view = kept@;
    let ghost at = kept_at@;
    let sorted = sort_by_keys(kept, &kept_keys);
    proof {
        let kk = kept_keys@.map_values(|k: Vec<i128>| k@);
        let perm = choose|perm: Seq<int>| sorted_permutation(kk, perm) && permuted(kept_view, sorted@, perm);
        let idx = Seq::new(perm.len(), |q: int| at[perm[q]] as int);
        assert forall|q: int| 0 <= q < idx.len() implies first_of_key(ks, #[trigger] idx[q]) && sorted@[q] == orig[idx[q]] by {
            assert(0 <= perm[q] < kk.len());
        }
        assert forall|q1: int, q2: int| 0 <= q1 < q2 < idx.len() implies lex_lt(ks[#[trigger] idx[q1]], ks[#[trigger] idx[q2]]) by {
            assert(index_before(kk, perm[q1], perm[q2]));
            assert(kk[perm[q1]] == ks[idx[q1]]);
            assert(kk[perm[q2]] == ks[idx[q2]]);
            if kk[perm[q1]] == kk[perm[q2]] {
                assert(perm[q1] != perm[q2]);
                let a = at[perm[q1]] as int;
                let b = at[perm[q2]] as int;
                if perm[q1] < perm[q2] {
                    assert(a < b);
                    assert(first_of_key(ks, b));
                    assert(ks[a] != ks[b]);
                } else {
                    assert(b < a);
                    assert(first_of_key(ks, a));
                    assert(ks[b] != ks[a]);
                }
            }
        }
        assert forall|i: int| #[trigger] first_of_key(ks, i) implies idx.contains(i) by {
            assert(at.contains(i as usize));
            let q = choose|q: int| 0 <= q < at.len() && at[q] == i as usize;
            lemma_permutation_onto(perm, at.len() as int);
            assert(perm.contains(q));
            let r = choose|r: int| 0 <= r < perm.len() && perm[r] == q;
            assert(idx[r] == i);
        }
        assert(idx.len() == sorted@.len());
    }
    sorted
}

fn lex_equal(a: &Vec<i128>, b: &Vec<i128>) -> (eq: bool)
    ensures
        eq == (a@ == b@),
{
    if a.len() != b.len() {
        return false;
    }
    let mut i: usize = 0;
    while i < a.len()
        invariant
            i <= a.len(),
            a.len() == b.len(),
            forall|k: int| 0 <= k < i ==> a@[k] == b@[k],
        decreases a.len() - i,
    {
        if a[i] != b[i] {
            return false;
        }
        i = i + 1;
    }
    assert(a@ =~= b@);
    true
}

/// A copy of a key.
pub fn copy_key(k: &Vec<i128>) -> (c: Vec<i128>)
    ensures
        c@ == k@,
{
    let mut c: Vec<i128> = Vec::new();
    let mut i: usize = 0;
    while i < k.len()
        invariant
            i <= k.len(),
            c@ == k@.take(i as int),
        decreases k.len() - i,
    {
        c.push(k[i]);
        assert(k@.take(i + 1) == k@.take(i as int).push(k@[i as int]));
        i = i + 1;
    }
    assert(k@.take(k.len() as int) == k@);
    c
}

} // verus!
