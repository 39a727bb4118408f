//! The order of strings (by their UTF-8 bytes, as `str`'s `Ord` documents)
//! and a verified in-place sort.
use vstd::prelude::*;

verus! {

/// Lexicographic order on byte sequences: a proper prefix comes first, and
/// otherwise the first differing byte decides.
pub open spec fn bytes_lt(a: Seq<u8>, b: Seq<u8>) -> bool
    decreases a.len(),
{
    if a.len() == 0 {
        b.len() > 0
    } else if b.len() == 0 {
        false
    } else if a[0] != b[0] {
        a[0] < b[0]
    } else {
        bytes_lt(a.drop_first(), b.drop_first())
    }
}

/// String order: `str`'s `Ord`, which compares the UTF-8 encodings byte by byte.
pub open spec fn str_lt(a: Seq<char>, b: Seq<char>) -> bool {
    bytes_lt(vstd::utf8::encode_utf8(a), vstd::utf8::encode_utf8(b))
}

pub proof fn lemma_bytes_lt_irreflexive(a: Seq<u8>)
    ensures
        !bytes_lt(a, a),
    decreases a.len(),
{
    if a.len() > 0 {
        lemma_bytes_lt_irreflexive(a.drop_first());
    }
}

pub proof fn lemma_bytes_lt_transitive(a: Seq<u8>, b: Seq<u8>, c: Seq<u8>)
    requires
        bytes_lt(a, b),
        bytes_lt(b, c),
    ensures
        bytes_lt(a, c),
    decreases a.len(),
{
    if a.len() > 0 && b.len() > 0 && c.len() > 0 && a[0] == b[0] && b[0] == c[0] {
        lemma_bytes_lt_transitive(a.drop_first(), b.drop_first(), c.drop_first());
    }
}

pub proof fn lemma_bytes_lt_total(a: Seq<u8>, b: Seq<u8>)
    ensures
        a == b || bytes_lt(a, b) || bytes_lt(b, a),
    decreases a.len(),
{
    if a.len() > 0 && b.len() > 0 && a[0] == b[0] {
        lemma_bytes_lt_total(a.drop_first(), b.drop_first());
        if a.drop_first() == b.drop_first() {
            assert(a =~= seq![a[0]] + a.drop_first());
            assert(b =~= seq![b[0]] + b.drop_first());
        }
    } else if a.len() == 0 && b.len() == 0 {
        assert(a =~= b);
    }
}

pub proof fn lemma_bytes_lt_asymmetric(a: Seq<u8>, b: Seq<u8>)
    requires
        bytes_lt(a, b),
    ensures
        !bytes_lt(b, a),
{
    if bytes_lt(b, a) {
        lemma_bytes_lt_transitive(a, b, a);
        lemma_bytes_lt_irreflexive(a);
    }
}

pub proof fn lemma_encode_injective(a: Seq<char>, b: Seq<char>)
    requires
        vstd::utf8::encode_utf8(a) == vstd::utf8::encode_utf8(b),
    ensures
        a == b,
{
    vstd::utf8::encode_utf8_decode_utf8(a);
    vstd::utf8::encode_utf8_decode_utf8(b);
}

/// Distinct strings are ordered one way or the other.
pub proof fn lemma_str_lt_total(a: Seq<char>, b: Seq<char>)
    ensures
        a == b || str_lt(a, b) || str_lt(b, a),
{
    lemma_bytes_lt_total(vstd::utf8::encode_utf8(a), vstd::utf8::encode_utf8(b));
    if vstd::utf8::encode_utf8(a) == vstd::utf8::encode_utf8(b) {
        lemma_encode_injective(a, b);
    }
}

/// The outcome of comparing two values.
#[derive(Debug, Clone, Copy, PartialEq, Eq, Structural)]
pub enum Order {
    Before,
    Same,
    After,
}

/// Compares two byte slices lexicographically.
pub fn compare_bytes(a: &[u8], b: &[u8]) -> (r: Order)
    ensures
        r == Order::Before <==> bytes_lt(a@, b@),
        r == Order::After <==> bytes_lt(b@, a@),
        r == Order::Same <==> a@ == b@,
{
    let mut i: usize = 0;
    while i < a.len() && i < b.len()
        invariant
            i <= a@.len(),
            i <= b@.len(),
            a@.take(i as int) == b@.take(i as int),
        decreases a@.len() - i,
    {
        if a[i] != b[i] {
            proof {
                lemma_lt_after_common_prefix(a@, b@, i as int);
                lemma_lt_after_common_prefix(b@, a@, i as int);
            }
            if a[i] < b[i] {
                return Order::Before;
            } else {
                return Order::After;
            }
        }
        proof {
            assert(a@.take(i + 1) == a@.take(i as int).push(a@[i as int]));
            assert(b@.take(i + 1) == b@.take(i as int).push(b@[i as int]));
        }
        i = i + 1;
    }
    proof {
        lemma_lt_after_common_prefix(a@, b@, i as int);
        lemma_lt_after_common_prefix(b@, a@, i as int);
        if a@.len() == i && b@.len() == i {
            assert(a@ == a@.take(i as int));
            assert(b@ == b@.take(i as int));
        }
    }
    if a.len() < b.len() {
        Order::Before
    } else if a.len() > b.len() {
        Order::After
    } else {
        Order::Same
    }
}

/// After a common prefix of length `i`, the order is decided by what follows.
proof fn lemma_lt_after_common_prefix(a: Seq<u8>, b: Seq<u8>, i: int)
    requires
        0 <= i <= a.len(),
        i <= b.len(),
        a.take(i) == b.take(i),
    ensures
        bytes_lt(a, b) == bytes_lt(a.skip(i), b.skip(i)),
    decreases i,
{
    if i > 0 {
        assert(a[0] == a.take(i)[0]);
        assert(b[0] == b.take(i)[0]);
        assert(a.drop_first().take(i - 1) =~= a.take(i).drop_first());
        assert(b.drop_first().take(i - 1) =~= b.take(i).drop_first());
        lemma_lt_after_common_prefix(a.drop_first(), b.drop_first(), i - 1);
        assert(a.drop_first().skip(i - 1) =~= a.skip(i));
        assert(b.drop_first().skip(i - 1) =~= b.skip(i));
    } else {
        assert(a.skip(0) == a);
        assert(b.skip(0) == b);
    }
}

/// Compares two strings in `str` order.
pub fn compare_str(a: &str, b: &str) -> (r: Order)
    ensures
        r == Order::Before <==> str_lt(a@, b@),
        r == Order::After <==> str_lt(b@, a@),
        r == Order::Same <==> a@ == b@,
{
    let r = compare_bytes(a.as_bytes(), b.as_bytes());
    proof {
        if vstd::utf8::encode_utf8(a@) == vstd::utf8::encode_utf8(b@) {
            lemma_encode_injective(a@, b@);
        }
    }
    r
}

/// Whether `v` is ordered by `lt`: no later element comes strictly before an
/// earlier one.
pub open spec fn sorted_by<T>(v: Seq<T>, lt: spec_fn(T, T) -> bool) -> bool {
    forall|i: int, j: int| 0 <= i < j < v.len() ==> !lt(#[trigger] v[j], #[trigger] v[i])
}

/// Whether `lt` is transitive.
pub open spec fn transitive<T>(lt: spec_fn(T, T) -> bool) -> bool {
    forall|a: T, b: T, c: T| #[trigger] lt(a, b) && #[trigger] lt(b, c) ==> lt(a, c)
}

/// Sorts `v` in place by `less`, which decides the relation `lt`; the result
/// is a permutation of the input with no element before one that precedes it.
pub fn sort_by<T, F: Fn(&T, &T) -> bool>(v: &mut Vec<T>, less: F, Ghost(lt): Ghost<
    spec_fn(T, T) -> bool,
>)
    requires
        transitive(lt),
        forall|a: T, b: T| #[trigger] lt(a, b) ==> !lt(b, a),
        forall|a: &T, b: &T| #[trigger] less.requires((a, b)),
        forall|a: &T, b: &T, r: bool| less.ensures((a, b), r) ==> r == lt(*a, *b),
    ensures
        final(v)@.to_multiset() == old(v)@.to_multiset(),
        sorted_by(final(v)@, lt),
{
    broadcast use vstd::seq_lib::group_to_multiset_ensures, vstd::multiset::group_multiset_axioms;

    let n = v.len();
    let mut i: usize = 1;
    if n == 0 {
        return;
    }
    while i < n
        invariant
            1 <= i <= n,
            n == v@.len(),
            transitive(lt),
            forall|a: T, b: T| #[trigger] lt(a, b) ==> !lt(b, a),
            forall|a: &T, b: &T| #[trigger] less.requires((a, b)),
            forall|a: &T, b: &T, r: bool| less.ensures((a, b), r) ==> r == lt(*a, *b),
            v@.to_multiset() == old(v)@.to_multiset(),
            sorted_by(v@.take(i as int), lt),
        decreases n - i,
    {
        let ghost before = v@;
        let x = v.remove(i);
        let mut p: usize = 0;
        while p < i && !less(&x, &v[p])
            invariant
                p <= i,
                i < n,
                v@.len() == n - 1,
                forall|a: &T, b: &T| #[trigger] less.requires((a, b)),
                forall|a: &T, b: &T, r: bool| less.ensures((a, b), r) ==> r == lt(*a, *b),
                forall|k: int| 0 <= k < p ==> !lt(x, #[trigger] v@[k]),
            decreases i - p,
        {
            p = p + 1;
        }
        let ghost removed = v@;
        v.insert(p, x);
        proof {
            let sorted_prefix = before.take(i as int);
            assert(removed == before.remove(i as int));
            assert(v@ == removed.insert(p as int, x));
            assert(x == before[i as int]);
            assert forall|k: int| 0 <= k < i implies #[trigger] removed[k] == sorted_prefix[k] by {
                assert(removed[k] == before[k]);
            }
            let w = v@.take(i + 1);
            assert forall|a: int, b: int| 0 <= a < b < w.len() implies !lt(
                #[trigger] w[b],
                #[trigger] w[a],
            ) by {
                if b < p {
                    assert(w[a] == removed[a] && w[b] == removed[b]);
                    assert(!lt(sorted_prefix[b], sorted_prefix[a]));
                } else if b == p {
                    assert(w[b] == x);
                    assert(w[a] == removed[a]);
                } else if a == p {
                    assert(w[a] == x);
                    assert(w[b] == removed[b - 1]);
                    assert(lt(x, removed[p as int]));
                    if p < b - 1 {
                        assert(!lt(sorted_prefix[b - 1], sorted_prefix[p as int]));
                        if lt(removed[b - 1], x) {
                            assert(lt(removed[b - 1], removed[p as int]));
                        }
                    }
                } else if a > p {
                    assert(w[a] == removed[a - 1] && w[b] == removed[b - 1]);
                    assert(!lt(sorted_prefix[b - 1], sorted_prefix[a - 1]));
                } else {
                    assert(w[a] == removed[a]);
                    assert(w[b] == removed[b - 1]);
                    assert(!lt(sorted_prefix[b - 1], sorted_prefix[a]));
                }
            }
            vstd::seq_lib::to_multiset_remove(before, i as int);
            vstd::seq_lib::to_multiset_insert(removed, p as int, x);
            assert(removed.to_multiset() == before.to_multiset().remove(x));
            assert(v@.to_multiset() == removed.to_multiset().insert(x));
            assert(before.contains(x));
            vstd::seq_lib::to_multiset_contains(before, x);
            assert(before.to_multiset().count(x) > 0);
            assert(before.to_multiset().remove(x).insert(x) =~= before.to_multiset());
        }
        i = i + 1;
    }
    assert(v@.take(n as int) == v@);
}

/// Two permutations of one multiset that are both sorted by an order that is
/// total on their elements are the same sequence.
pub proof fn lemma_sorted_permutation_unique<T>(s: Seq<T>, t: Seq<T>, lt: spec_fn(T, T) -> bool)
    requires
        s.to_multiset() == t.to_multiset(),
        sorted_by(s, lt),
        sorted_by(t, lt),
        forall|a: T, b: T| s.contains(a) && s.contains(b) && a != b ==> #[trigger] lt(a, b) || #[trigger] lt(b, a),
    ensures
        s == t,
    decreases s.len(),
{
    broadcast use vstd::seq_lib::group_to_multiset_ensures, vstd::multiset::group_multiset_axioms;

    if s.len() == 0 {
        assert(t.to_multiset().len() == 0);
        assert(s =~= t);
    } else {
        vstd::seq_lib::to_multiset_len(s);
        vstd::seq_lib::to_multiset_len(t);
        assert(t.len() == s.len());
        let x = s.last();
        let y = t.last();
        assert(s.contains(x)) by {
            assert(s[s.len() - 1] == x);
        }
        assert(t.contains(y)) by {
            assert(t[t.len() - 1] == y);
        }
        vstd::seq_lib::to_multiset_contains(s, x);
        vstd::seq_lib::to_multiset_contains(t, x);
        vstd::seq_lib::to_multiset_contains(s, y);
        vstd::seq_lib::to_multiset_contains(t, y);
        let j = choose|j: int| 0 <= j < t.len() && t[j] == x;
        let i = choose|i: int| 0 <= i < s.len() && s[i] == y;
        if x != y {
            if j < t.len() - 1 {
                assert(!lt(t[t.len() - 1], t[j]));
            }
            if i < s.len() - 1 {
                assert(!lt(s[s.len() - 1], s[i]));
            }
            assert(lt(x, y) || lt(y, x));
        }
        assert(x == y);
        let s0 = s.drop_last();
        let t0 = t.drop_last();
        assert(s =~= s0.push(x));
        assert(t =~= t0.push(y));
        vstd::seq_lib::to_multiset_build(s0, x);
        vstd::seq_lib::to_multiset_build(t0, y);
        assert forall|v: T| s0.to_multiset().count(v) == t0.to_multiset().count(v) by {
            assert(s.to_multiset().count(v) == s0.to_multiset().insert(x).count(v));
            assert(t.to_multiset().count(v) == t0.to_multiset().insert(x).count(v));
        }
        assert(s0.to_multiset() =~= t0.to_multiset());
        assert forall|a: int, b: int| 0 <= a < b < s0.len() implies !lt(#[trigger] s0[b], #[trigger] s0[a]) by {
            assert(s0[a] == s[a] && s0[b] == s[b]);
        }
        assert forall|a: int, b: int| 0 <= a < b < t0.len() implies !lt(#[trigger] t0[b], #[trigger] t0[a]) by {
            assert(t0[a] == t[a] && t0[b] == t[b]);
        }
        assert forall|a: T, b: T| s0.contains(a) && s0.contains(b) && a != b implies #[trigger] lt(a, b) || #[trigger] lt(b, a) by {
            let ka = choose|k: int| 0 <= k < s0.len() && s0[k] == a;
            let kb = choose|k: int| 0 <= k < s0.len() && s0[k] == b;
            assert(s[ka] == a && s[kb] == b);
            assert(s.contains(a) && s.contains(b));
        }
        lemma_sorted_permutation_unique(s0, t0, lt);
    }
}

/// Where `x` goes in `t`: before the first element that `x` precedes.
pub open spec fn insertion_point<T>(t: Seq<T>, x: T, lt: spec_fn(T, T) -> bool) -> int
    decreases t.len(),
{
    if t.len() == 0 {
        0
    } else if lt(x, t[0]) {
        0
    } else {
        1 + insertion_point(t.drop_first(), x, lt)
    }
}

proof fn lemma_insertion_point<T>(t: Seq<T>, x: T, lt: spec_fn(T, T) -> bool)
    ensures
        0 <= insertion_point(t, x, lt) <= t.len(),
        forall|k: int| 0 <= k < insertion_point(t, x, lt) ==> !lt(x, #[trigger] t[k]),
        insertion_point(t, x, lt) < t.len() ==> lt(x, t[insertion_point(t, x, lt)]),
    decreases t.len(),
{
    if t.len() > 0 && !lt(x, t[0]) {
        let r = t.drop_first();
        lemma_insertion_point(r, x, lt);
        assert forall|k: int| 0 <= k < insertion_point(t, x, lt) implies !lt(x, #[trigger] t[k]) by {
            if k > 0 {
                assert(t[k] == r[k - 1]);
            }
        }
    }
}

/// Inserting `x` at its insertion point keeps a sorted sequence sorted.
proof fn lemma_insert_sorted<T>(t: Seq<T>, x: T, lt: spec_fn(T, T) -> bool)
    requires
        transitive(lt),
        forall|a: T, b: T| #[trigger] lt(a, b) ==> !lt(b, a),
        sorted_by(t, lt),
    ensures
        sorted_by(t.insert(insertion_point(t, x, lt), x), lt),
{
    lemma_insertion_point(t, x, lt);
    let p = insertion_point(t, x, lt);
    let w = t.insert(p, x);
    assert forall|a: int, b: int| 0 <= a < b < w.len() implies !lt(#[trigger] w[b], #[trigger] w[a]) by {
        if b < p {
            assert(w[a] == t[a] && w[b] == t[b]);
        } else if b == p {
            assert(w[b] == x && w[a] == t[a]);
        } else if a == p {
            assert(w[a] == x && w[b] == t[b - 1]);
            assert(lt(x, t[p]));
            if p < b - 1 {
                assert(!lt(t[b - 1], t[p]));
                if lt(t[b - 1], x) {
                    assert(lt(t[b - 1], t[p]));
                }
            }
        } else if a > p {
            assert(w[a] == t[a - 1] && w[b] == t[b - 1]);
        } else {
            assert(w[a] == t[a] && w[b] == t[b - 1]);
        }
    }
}

/// A rearrangement of `s` that is sorted by `lt`.
pub open spec fn insertion_sorted<T>(s: Seq<T>, lt: spec_fn(T, T) -> bool) -> Seq<T>
    decreases s.len(),
{
    if s.len() == 0 {
        s
    } else {
        let t = insertion_sorted(s.drop_last(), lt);
        t.insert(insertion_point(t, s.last(), lt), s.last())
    }
}

/// Every sequence has a rearrangement sorted by a strict order: insertion
/// sort yields one.
pub proof fn lemma_insertion_sorted<T>(s: Seq<T>, lt: spec_fn(T, T) -> bool)
    requires
        transitive(lt),
        forall|a: T, b: T| #[trigger] lt(a, b) ==> !lt(b, a),
    ensures
        insertion_sorted(s, lt).to_multiset() == s.to_multiset(),
        sorted_by(insertion_sorted(s, lt), lt),
    decreases s.len(),
{
    broadcast use vstd::seq_lib::group_to_multiset_ensures;

    if s.len() > 0 {
        let s0 = s.drop_last();
        let x = s.last();
        lemma_insertion_sorted(s0, lt);
        let t = insertion_sorted(s0, lt);
        lemma_insertion_point(t, x, lt);
        lemma_insert_sorted(t, x, lt);
        vstd::seq_lib::to_multiset_insert(t, insertion_point(t, x, lt), x);
        assert(s =~= s0.push(x));
        vstd::seq_lib::to_multiset_build(s0, x);
    }
}

} // verus!
