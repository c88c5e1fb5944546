//! Stable ordering of keyed items, and the keys the suggestion lists are
//! ordered by: counts, and text compared as `String`s compare (by their UTF-8
//! bytes).
use vstd::prelude::*;
use vstd::utf8::encode_utf8;

verus! {

/// An exec key whose view carries a total preorder, which exec code can test.
pub trait SortKey: View + Sized {
    /// Whether a key with view `a` may come before one with view `b`.
    spec fn key_le(a: Self::V, b: Self::V) -> bool;

    /// Tests `key_le`.
    fn precedes(&self, other: &Self) -> (r: bool)
        ensures
            r == Self::key_le(self@, other@),
    ;

    /// Any two keys are comparable.
    proof fn lemma_total(a: Self::V, b: Self::V)
        ensures
            Self::key_le(a, b) || Self::key_le(b, a),
    ;

    /// The order is transitive.
    proof fn lemma_transitive(a: Self::V, b: Self::V, c: Self::V)
        requires
            Self::key_le(a, b),
            Self::key_le(b, c),
        ensures
            Self::key_le(a, c),
    ;
}

impl SortKey for usize {
    open spec fn key_le(a: usize, b: usize) -> bool {
        a <= b
    }

    fn precedes(&self, other: &Self) -> (r: bool) {
        *self <= *other
    }

    proof fn lemma_total(a: usize, b: usize) {
    }

    proof fn lemma_transitive(a: usize, b: usize, c: usize) {
    }
}

/// Lexicographic order on byte strings: a prefix comes first.
pub open spec fn bytes_le(a: Seq<u8>, b: Seq<u8>) -> bool
    decreases a.len(),
{
    if a.len() == 0 {
        true
    } else if b.len() == 0 {
        false
    } else if a[0] != b[0] {
        a[0] < b[0]
    } else {
        bytes_le(a.drop_first(), b.drop_first())
    }
}

/// Any two byte strings are comparable.
pub proof fn lemma_bytes_le_total(a: Seq<u8>, b: Seq<u8>)
    ensures
        bytes_le(a, b) || bytes_le(b, a),
    decreases a.len(),
{
    if a.len() > 0 && b.len() > 0 && a[0] == b[0] {
        lemma_bytes_le_total(a.drop_first(), b.drop_first());
    }
}

/// The lexicographic order is transitive.
pub proof fn lemma_bytes_le_transitive(a: Seq<u8>, b: Seq<u8>, c: Seq<u8>)
    requires
        bytes_le(a, b),
        bytes_le(b, c),
    ensures
        bytes_le(a, c),
    decreases a.len(),
{
    if a.len() > 0 && b.len() > 0 && c.len() > 0 && a[0] == b[0] && b[0] == c[0] {
        lemma_bytes_le_transitive(a.drop_first(), b.drop_first(), c.drop_first());
    }
}

/// Law: `bytes_le` is the lexicographic order: `a` comes first exactly when
/// it is a prefix of `b` (so a shorter prefix precedes the longer string) or
/// at the first position where they differ `a` has the smaller byte.
pub proof fn lemma_bytes_le_is_lexicographic(a: Seq<u8>, b: Seq<u8>)
    ensures
        bytes_le(a, b) <==> ((a.len() <= b.len() && b.take(a.len() as int) == a) || exists|i: int|
            0 <= i < a.len() && i < b.len() && a.take(i) == b.take(i) && #[trigger] a[i] < b[i]),
    decreases a.len(),
{
    if a.len() == 0 {
        assert(b.take(0) =~= a);
    } else if b.len() == 0 {
    } else if a[0] != b[0] {
        if a[0] < b[0] {
            assert(a.take(0) =~= b.take(0));
        } else {
            if exists|i: int|
                0 <= i < a.len() && i < b.len() && a.take(i) == b.take(i) && #[trigger] a[i] < b[i] {
                let i = choose|i: int|
                    0 <= i < a.len() && i < b.len() && a.take(i) == b.take(i) && #[trigger] a[i]
                        < b[i];
                if i > 0 {
                    assert(a.take(i)[0] == b.take(i)[0]);
                }
            }
            if a.len() <= b.len() && b.take(a.len() as int) == a {
                assert(b.take(a.len() as int)[0] == a[0]);
            }
        }
    } else {
        let a1 = a.drop_first();
        let b1 = b.drop_first();
        lemma_bytes_le_is_lexicographic(a1, b1);
        if a1.len() <= b1.len() && b1.take(a1.len() as int) == a1 {
            assert forall|x: int| 0 <= x < a.len() implies #[trigger] b.take(a.len() as int)[x] == a[x] by {
                if x > 0 {
                    assert(b1.take(a1.len() as int)[x - 1] == a1[x - 1]);
                }
            }
            assert(b.take(a.len() as int) =~= a);
        }
        if a.len() <= b.len() && b.take(a.len() as int) == a {
            assert(b1.take(a1.len() as int) =~= a1);
        }
        if exists|i: int|
            0 <= i < a1.len() && i < b1.len() && a1.take(i) == b1.take(i) && #[trigger] a1[i]
                < b1[i] {
            let i = choose|i: int|
                0 <= i < a1.len() && i < b1.len() && a1.take(i) == b1.take(i) && #[trigger] a1[i]
                    < b1[i];
            assert forall|x: int| 0 <= x < i + 1 implies #[trigger] a.take(i + 1)[x] == b.take(i + 1)[x] by {
                if x > 0 {
                    assert(a1.take(i)[x - 1] == b1.take(i)[x - 1]);
                }
            }
            assert(a.take(i + 1) =~= b.take(i + 1));
            assert(a[i + 1] == a1[i]);
        }
        if exists|i: int|
            0 <= i < a.len() && i < b.len() && a.take(i) == b.take(i) && #[trigger] a[i] < b[i] {
            let i = choose|i: int|
                0 <= i < a.len() && i < b.len() && a.take(i) == b.take(i) && #[trigger] a[i] < b[i];
            assert(i > 0);
            assert(a1.take(i - 1) =~= b1.take(i - 1)) by {
                assert forall|x: int| 0 <= x < i - 1 implies a1[x] == b1[x] by {
                    assert(a.take(i)[x + 1] == b.take(i)[x + 1]);
                }
            }
            assert(a1[i - 1] == a[i]);
        }
    }
}

/// Law: a text whose UTF-8 bytes are a proper prefix of another's is ordered
/// before it, never after.
pub proof fn lemma_prefix_text_comes_first(a: Seq<char>, b: Seq<char>)
    requires
        encode_utf8(a).len() < encode_utf8(b).len(),
        encode_utf8(b).take(encode_utf8(a).len() as int) == encode_utf8(a),
    ensures
        String::key_le(a, b),
        !String::key_le(b, a),
{
    let x = encode_utf8(a);
    let y = encode_utf8(b);
    lemma_bytes_le_is_lexicographic(x, y);
    lemma_bytes_le_is_lexicographic(y, x);
    if exists|i: int| 0 <= i < y.len() && i < x.len() && y.take(i) == x.take(i) && #[trigger] y[i] < x[i] {
        let i = choose|i: int|
            0 <= i < y.len() && i < x.len() && y.take(i) == x.take(i) && #[trigger] y[i] < x[i];
        assert(y.take(x.len() as int)[i] == y[i]);
    }
}

/// Comparing from position `i` on decides the comparison when the strings
/// agree before it.
proof fn lemma_bytes_le_skip(a: Seq<u8>, b: Seq<u8>, i: int)
    requires
        0 <= i <= a.len(),
        i <= b.len(),
        a.take(i) == b.take(i),
    ensures
        bytes_le(a, b) == bytes_le(a.skip(i), b.skip(i)),
    decreases i,
{
    if i > 0 {
        assert(a[0] == a.take(i)[0]);
        assert(b[0] == b.take(i)[0]);
        assert(a.drop_first().take(i - 1) =~= a.take(i).drop_first());
        assert(b.drop_first().take(i - 1) =~= b.take(i).drop_first());
        lemma_bytes_le_skip(a.drop_first(), b.drop_first(), i - 1);
        assert(a.drop_first().skip(i - 1) =~= a.skip(i));
        assert(b.drop_first().skip(i - 1) =~= b.skip(i));
    } else {
        assert(a.skip(0) =~= a);
        assert(b.skip(0) =~= b);
    }
}

/// Lexicographic comparison of two byte strings.
pub fn bytes_precede(a: &[u8], b: &[u8]) -> (r: bool)
    ensures
        r == bytes_le(a@, b@),
{
    let mut i: usize = 0;
    while i < a.len() && i < b.len() && a[i] == b[i]
        invariant
            i <= a@.len(),
            i <= b@.len(),
            a@.take(i as int) == b@.take(i as int),
        decreases a@.len() - i,
    {
        assert(a@.take(i + 1) =~= a@.take(i as int).push(a@[i as int]));
        assert(b@.take(i + 1) =~= b@.take(i as int).push(b@[i as int]));
        i = i + 1;
    }
    proof {
        lemma_bytes_le_skip(a@, b@, i as int);
    }
    if i == a.len() {
        true
    } else if i == b.len() {
        false
    } else {
        a[i] < b[i]
    }
}

impl SortKey for String {
    /// Text orders as `String`'s `Ord` orders it: by its UTF-8 bytes.
    open spec fn key_le(a: Seq<char>, b: Seq<char>) -> bool {
        bytes_le(encode_utf8(a), encode_utf8(b))
    }

    fn precedes(&self, other: &Self) -> (r: bool) {
        bytes_precede(self.as_str().as_bytes(), other.as_str().as_bytes())
    }

    proof fn lemma_total(a: Seq<char>, b: Seq<char>) {
        lemma_bytes_le_total(encode_utf8(a), encode_utf8(b));
    }

    proof fn lemma_transitive(a: Seq<char>, b: Seq<char>, c: Seq<char>) {
        lemma_bytes_le_transitive(encode_utf8(a), encode_utf8(b), encode_utf8(c));
    }
}

/// `s` with `e` inserted after every entry whose key may precede `e`'s, and
/// before the run of entries at the end whose keys may not.
pub open spec fn insert_in_order<K: SortKey, V>(s: Seq<(K::V, V)>, e: (K::V, V)) -> Seq<(K::V, V)>
    decreases s.len(),
{
    if s.len() > 0 && !K::key_le(s.last().0, e.0) {
        insert_in_order::<K, V>(s.drop_last(), e).push(s.last())
    } else {
        s.push(e)
    }
}

/// The entries of `t` ordered by key, entries with equal keys keeping their
/// order in `t` (a stable sort).
pub open spec fn sorted_by_key<K: SortKey, V>(t: Seq<(K::V, V)>) -> Seq<(K::V, V)>
    decreases t.len(),
{
    if t.len() == 0 {
        Seq::empty()
    } else {
        insert_in_order::<K, V>(sorted_by_key::<K, V>(t.drop_last()), t.last())
    }
}

/// The entries of an exec sequence, each key taken by its view.
pub open spec fn keyed_view<K: SortKey, V>(s: Seq<(K, V)>) -> Seq<(K::V, V)> {
    s.map_values(|e: (K, V)| (e.0@, e.1))
}

/// Sorts the entries stably by key (as `sort_by_key` does).
pub fn sort_by_key_stable<K: SortKey, V>(items: Vec<(K, V)>) -> (r: Vec<(K, V)>)
    ensures
        keyed_view(r@) == sorted_by_key::<K, V>(keyed_view(items@)),
{
    let ghost t = keyed_view(items@);
    let mut out: Vec<(K, V)> = Vec::new();
    for e in it: items
        invariant
            it.seq() == items@,
            t == keyed_view(items@),
            keyed_view(out@) == sorted_by_key::<K, V>(t.take(it.index() as int)),
    {
        let ghost before = keyed_view(out@);
        let ghost ev = (e.0@, e.1);
        let mut p: usize = out.len();
        proof {
            assert(before.take(p as int) =~= before);
            assert(insert_in_order::<K, V>(before, ev) + before.skip(p as int) =~= insert_in_order::<
                K,
                V,
            >(before, ev));
        }
        while p > 0 && !out[p - 1].0.precedes(&e.0)
            invariant
                keyed_view(out@) == before,
                before.len() == out@.len(),
                ev == (e.0@, e.1),
                p <= out@.len(),
                insert_in_order::<K, V>(before, ev) == insert_in_order::<K, V>(
                    before.take(p as int),
                    ev,
                ) + before.skip(p as int),
            decreases p,
        {
            proof {
                let x = before.take(p as int);
                assert(before[p - 1].0 == out@[p - 1].0@);
                assert(x.drop_last() =~= before.take(p - 1));
                assert(insert_in_order::<K, V>(x, ev) == insert_in_order::<K, V>(
                    before.take(p - 1),
                    ev,
                ).push(before[p - 1]));
                assert(insert_in_order::<K, V>(before.take(p - 1), ev).push(before[p - 1])
                    + before.skip(p as int) =~= insert_in_order::<K, V>(before.take(p - 1), ev)
                    + before.skip(p - 1));
            }
            p = p - 1;
        }
        proof {
            let x = before.take(p as int);
            if p > 0 {
                assert(before[p - 1].0 == out@[p - 1].0@);
            }
            assert(insert_in_order::<K, V>(x, ev) == x.push(ev));
            assert(x.push(ev) + before.skip(p as int) =~= before.insert(p as int, ev));
            let k = it.index() as int;
            assert(t.take(k + 1).drop_last() =~= t.take(k));
            assert(t.take(k + 1).last() == ev);
        }
        out.insert(p, e);
        proof {
            assert(keyed_view(out@) =~= before.insert(p as int, ev));
        }
    }
    proof {
        assert(t.take(t.len() as int) =~= t);
    }
    out
}

/// Entries are in key order: no entry's key comes after a later entry's key.
pub open spec fn ordered_by_key<K: SortKey, V>(s: Seq<(K::V, V)>) -> bool {
    forall|i: int, j: int|
        0 <= i < j < s.len() ==> K::key_le(#[trigger] s[i].0, #[trigger] s[j].0)
}

/// Whether an entry's key is equivalent to `k` (each may precede the other).
pub open spec fn has_key_equivalent_to<K: SortKey, V>(k: K::V) -> spec_fn((K::V, V)) -> bool {
    |x: (K::V, V)| K::key_le(x.0, k) && K::key_le(k, x.0)
}

/// Where `insert_in_order` puts its entry.
spec fn insert_position<K: SortKey, V>(s: Seq<(K::V, V)>, e: (K::V, V)) -> int
    decreases s.len(),
{
    if s.len() > 0 && !K::key_le(s.last().0, e.0) {
        insert_position::<K, V>(s.drop_last(), e)
    } else {
        s.len() as int
    }
}

/// `insert_in_order` inserts its entry at one position: after an entry that
/// may precede it and before entries that may not.
proof fn lemma_insert_in_order_position<K: SortKey, V>(s: Seq<(K::V, V)>, e: (K::V, V))
    ensures
        0 <= insert_position::<K, V>(s, e) <= s.len(),
        insert_in_order::<K, V>(s, e) == s.insert(insert_position::<K, V>(s, e), e),
        forall|j: int|
            insert_position::<K, V>(s, e) <= j < s.len() ==> !K::key_le((#[trigger] s[j]).0, e.0),
        insert_position::<K, V>(s, e) > 0 ==> K::key_le(s[insert_position::<K, V>(s, e) - 1].0, e.0),
    decreases s.len(),
{
    if s.len() > 0 && !K::key_le(s.last().0, e.0) {
        let d = s.drop_last();
        lemma_insert_in_order_position::<K, V>(d, e);
        let p = insert_position::<K, V>(d, e);
        assert(d.insert(p, e).push(s.last()) =~= s.insert(p, e));
        assert forall|j: int| p <= j < s.len() implies !K::key_le((#[trigger] s[j]).0, e.0) by {
            if j < s.len() - 1 {
                assert(s[j] == d[j]);
            }
        }
        if p > 0 {
            assert(s[p - 1] == d[p - 1]);
        }
    } else {
        assert(s.push(e) =~= s.insert(s.len() as int, e));
    }
}

proof fn lemma_insert_keeps_order<K: SortKey, V>(s: Seq<(K::V, V)>, e: (K::V, V))
    requires
        ordered_by_key::<K, V>(s),
    ensures
        ordered_by_key::<K, V>(insert_in_order::<K, V>(s, e)),
{
    lemma_insert_in_order_position::<K, V>(s, e);
    let p = insert_position::<K, V>(s, e);
    let r = s.insert(p, e);
    assert forall|i: int| 0 <= i < p implies K::key_le((#[trigger] s[i]).0, e.0) by {
        if i < p - 1 {
            assert(K::key_le(s[i].0, s[p - 1].0));
            K::lemma_transitive(s[i].0, s[p - 1].0, e.0);
        }
    }
    assert forall|j: int| p <= j < s.len() implies K::key_le(e.0, (#[trigger] s[j]).0) by {
        K::lemma_total(s[j].0, e.0);
    }
    assert forall|i: int, j: int| 0 <= i < j < r.len() implies K::key_le(
        #[trigger] r[i].0,
        #[trigger] r[j].0,
    ) by {
        let ri = if i < p {
            s[i]
        } else if i == p {
            e
        } else {
            s[i - 1]
        };
        let rj = if j < p {
            s[j]
        } else if j == p {
            e
        } else {
            s[j - 1]
        };
        assert(r[i] == ri && r[j] == rj);
        if i < p && j > p {
            K::lemma_transitive(s[i].0, e.0, s[j - 1].0);
        } else if i < p && j < p {
            assert(K::key_le(s[i].0, s[j].0));
        } else if i > p {
            assert(K::key_le(s[i - 1].0, s[j - 1].0));
        }
    }
}

/// Law: the stable sort puts entries in key order.
pub proof fn lemma_sorted_by_key_is_ordered<K: SortKey, V>(t: Seq<(K::V, V)>)
    ensures
        ordered_by_key::<K, V>(sorted_by_key::<K, V>(t)),
    decreases t.len(),
{
    if t.len() > 0 {
        lemma_sorted_by_key_is_ordered::<K, V>(t.drop_last());
        lemma_insert_keeps_order::<K, V>(sorted_by_key::<K, V>(t.drop_last()), t.last());
    }
}

/// Law: the stable sort keeps every entry, as often as it occurs, and adds
/// none.
pub proof fn lemma_sorted_by_key_permutes<K: SortKey, V>(t: Seq<(K::V, V)>)
    ensures
        sorted_by_key::<K, V>(t).to_multiset() == t.to_multiset(),
        sorted_by_key::<K, V>(t).len() == t.len(),
    decreases t.len(),
{
    broadcast use vstd::seq_lib::group_to_multiset_ensures;
    broadcast use vstd::multiset::group_multiset_axioms;

    if t.len() > 0 {
        let d = t.drop_last();
        let e = t.last();
        lemma_sorted_by_key_permutes::<K, V>(d);
        let s = sorted_by_key::<K, V>(d);
        lemma_insert_in_order_position::<K, V>(s, e);
        let p = insert_position::<K, V>(s, e);
        assert(s.insert(p, e) =~= s.take(p).push(e) + s.skip(p));
        assert(s =~= s.take(p) + s.skip(p));
        vstd::seq_lib::lemma_multiset_commutative(s.take(p).push(e), s.skip(p));
        vstd::seq_lib::lemma_multiset_commutative(s.take(p), s.skip(p));
        assert(t =~= d.push(e));
        assert(sorted_by_key::<K, V>(t).to_multiset() =~= t.to_multiset());
    }
}

/// Law: the sort is stable; the entries whose keys are equivalent to any key
/// `k` come out in the order they came in.
pub proof fn lemma_sorted_by_key_is_stable<K: SortKey, V>(t: Seq<(K::V, V)>, k: K::V)
    ensures
        sorted_by_key::<K, V>(t).filter(has_key_equivalent_to::<K, V>(k)) == t.filter(
            has_key_equivalent_to::<K, V>(k),
        ),
    decreases t.len(),
{
    let f = has_key_equivalent_to::<K, V>(k);
    if t.len() == 0 {
        reveal(Seq::filter);
    } else {
        let d = t.drop_last();
        let e = t.last();
        lemma_sorted_by_key_is_stable::<K, V>(d, k);
        let s = sorted_by_key::<K, V>(d);
        lemma_insert_in_order_position::<K, V>(s, e);
        let p = insert_position::<K, V>(s, e);
        let a = s.take(p);
        let b = s.skip(p);
        assert(s.insert(p, e) =~= a.push(e) + b);
        assert(s =~= a + b);
        Seq::filter_distributes_over_add(a.push(e), b, f);
        Seq::filter_distributes_over_add(a, b, f);
        assert(a.push(e).drop_last() =~= a);
        assert(t.filter(f) == if f(e) {
            d.filter(f).push(e)
        } else {
            d.filter(f)
        }) by {
            reveal(Seq::filter);
        }
        assert(a.push(e).filter(f) == if f(e) {
            a.filter(f).push(e)
        } else {
            a.filter(f)
        }) by {
            reveal(Seq::filter);
        }
        if f(e) {
            assert forall|j: int| 0 <= j < b.len() implies !f(#[trigger] b[j]) by {
                assert(b[j] == s[p + j]);
                if f(b[j]) {
                    K::lemma_transitive(b[j].0, k, e.0);
                }
            }
            b.lemma_all_neg_filter_empty(f);
            assert(b.filter(f).len() == 0);
            assert(a.filter(f).push(e) + b.filter(f) =~= a.filter(f).push(e));
            assert(a.filter(f) + b.filter(f) =~= a.filter(f));
        }
    }
}

/// Every entry of the sorted list is an entry of the input.
pub proof fn lemma_sorted_entry_is_input_entry<K: SortKey, V>(t: Seq<(K::V, V)>, i: int)
    requires
        0 <= i < sorted_by_key::<K, V>(t).len(),
    ensures
        t.contains(sorted_by_key::<K, V>(t)[i]),
{
    broadcast use vstd::seq_lib::group_to_multiset_ensures;

    let s = sorted_by_key::<K, V>(t);
    lemma_sorted_by_key_permutes::<K, V>(t);
    assert(s.contains(s[i]));
    assert(s.to_multiset().count(s[i]) > 0);
}

} // verus!
