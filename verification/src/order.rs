//! Orders and the stable insertion sort that the reports are sorted with.
use vstd::prelude::*;

verus! {

/// Inserts `x` into the sorted `s` after every element `y` with `le(y, x)`.
pub open spec fn insert_ordered<T>(s: Seq<T>, x: T, le: spec_fn(T, T) -> bool) -> Seq<T>
    decreases s.len(),
{
    if s.len() == 0 {
        seq![x]
    } else if le(s.last(), x) {
        s.push(x)
    } else {
        insert_ordered(s.drop_last(), x, le).push(s.last())
    }
}

/// `s` sorted by `le` with a stable insertion sort: equal elements keep their order.
pub open spec fn insertion_sorted<T>(s: Seq<T>, le: spec_fn(T, T) -> bool) -> Seq<T>
    decreases s.len(),
{
    if s.len() == 0 {
        s
    } else {
        insert_ordered(insertion_sorted(s.drop_last(), le), s.last(), le)
    }
}

/// Inserting at the place found by scanning back from the end is `insert_ordered`.
pub proof fn lemma_insert_ordered_at<T>(s: Seq<T>, x: T, le: spec_fn(T, T) -> bool, j: int)
    requires
        0 <= j <= s.len(),
        forall|i: int| j <= i < s.len() ==> !le(#[trigger] s[i], x),
        j > 0 ==> le(s[j - 1], x),
    ensures
        insert_ordered(s, x, le) == s.insert(j, x),
    decreases s.len(),
{
    if s.len() == 0 {
        assert(s.insert(j, x) =~= seq![x]);
    } else if j == s.len() {
        assert(s.insert(j, x) =~= s.push(x));
    } else {
        lemma_insert_ordered_at(s.drop_last(), x, le, j);
        assert(s.insert(j, x) =~= s.drop_last().insert(j, x).push(s.last()));
    }
}

/// Whether the byte string `a` comes no later than `b` in lexicographic order.
pub open spec fn lex_le(a: Seq<u8>, b: Seq<u8>) -> bool
    decreases a.len(),
{
    if a.len() == 0 {
        true
    } else if b.len() == 0 {
        false
    } else if a[0] != b[0] {
        a[0] < b[0]
    } else {
        lex_le(a.drop_first(), b.drop_first())
    }
}

/// Compares two byte strings lexicographically, as `Ord` does for byte slices and strings.
pub fn bytes_le(a: &[u8], b: &[u8]) -> (r: bool)
    ensures
        r == lex_le(a@, b@),
{
    let mut i: usize = 0;
    assert(a@.skip(0) =~= a@);
    assert(b@.skip(0) =~= b@);
    while i < a.len() && i < b.len() && a[i] == b[i]
        invariant
            i <= a@.len(),
            i <= b@.len(),
            lex_le(a@, b@) == lex_le(a@.skip(i as int), b@.skip(i as int)),
        decreases a@.len() - i,
    {
        assert(a@.skip(i as int).drop_first() =~= a@.skip(i + 1));
        assert(b@.skip(i as int).drop_first() =~= b@.skip(i + 1));
        i = i + 1;
    }
    if i == a.len() {
        true
    } else if i == b.len() {
        false
    } else {
        a[i] < b[i]
    }
}


/// Where `insert_ordered` puts `x`: after the last element that `le` lets before it, scanning
/// back from the end.
pub open spec fn insert_position<T>(s: Seq<T>, x: T, le: spec_fn(T, T) -> bool) -> int
    decreases s.len(),
{
    if s.len() == 0 {
        0
    } else if le(s.last(), x) {
        s.len() as int
    } else {
        insert_position(s.drop_last(), x, le)
    }
}

/// `insert_ordered` inserts at `insert_position`, after an element that `le` lets before `x`
/// and before every element that it does not.
pub proof fn lemma_insert_position<T>(s: Seq<T>, x: T, le: spec_fn(T, T) -> bool)
    ensures
        0 <= insert_position(s, x, le) <= s.len(),
        forall|i: int|
            insert_position(s, x, le) <= i < s.len() ==> !le(#[trigger] s[i], x),
        insert_position(s, x, le) > 0 ==> le(s[insert_position(s, x, le) - 1], x),
        insert_ordered(s, x, le) == s.insert(insert_position(s, x, le), x),
    decreases s.len(),
{
    if s.len() > 0 && !le(s.last(), x) {
        lemma_insert_position(s.drop_last(), x, le);
        let p = insert_position(s, x, le);
        assert forall|i: int| p <= i < s.len() implies !le(#[trigger] s[i], x) by {
            if i < s.len() - 1 {
                assert(s[i] == s.drop_last()[i]);
            }
        }
    }
    lemma_insert_ordered_at(s, x, le, insert_position(s, x, le));
}

/// Whether `le` is total and transitive.
pub open spec fn total_preorder<T>(le: spec_fn(T, T) -> bool) -> bool {
    &&& forall|a: T, b: T| #![trigger le(a, b)] le(a, b) || le(b, a)
    &&& forall|a: T, b: T, c: T| #![trigger le(a, b), le(b, c)] le(a, b) && le(b, c) ==> le(a, c)
}

/// Whether `s` is in order by `le`.
pub open spec fn sorted_by<T>(s: Seq<T>, le: spec_fn(T, T) -> bool) -> bool {
    forall|i: int, j: int| 0 <= i < j < s.len() ==> le(#[trigger] s[i], #[trigger] s[j])
}

/// Inserting into a sorted sequence keeps it sorted and adds exactly the new element.
pub proof fn lemma_insert_ordered_sorted<T>(s: Seq<T>, x: T, le: spec_fn(T, T) -> bool)
    requires
        total_preorder(le),
        sorted_by(s, le),
    ensures
        sorted_by(insert_ordered(s, x, le), le),
        insert_ordered(s, x, le).to_multiset() == s.to_multiset().insert(x),
        insert_ordered(s, x, le).len() == s.len() + 1,
{
    broadcast use vstd::seq_lib::to_multiset_insert;

    lemma_insert_position(s, x, le);
    let p = insert_position(s, x, le);
    let r = s.insert(p, x);
    assert forall|i: int, j: int| 0 <= i < j < r.len() implies le(#[trigger] r[i], #[trigger] r[j]) by {
        if j < p {
            assert(r[i] == s[i] && r[j] == s[j]);
        } else if j == p {
            assert(r[i] == s[i] && le(s[p - 1], x));
            if i < p - 1 {
                assert(le(s[i], s[p - 1]));
            }
        } else if i > p {
            assert(r[i] == s[i - 1] && r[j] == s[j - 1]);
        } else if i == p {
            assert(!le(s[j - 1], x));
        } else {
            assert(r[i] == s[i] && r[j] == s[j - 1]);
            assert(!le(s[j - 1], x));
            assert(le(s[i], s[p - 1]));
            assert(le(s[p - 1], x));
            assert(le(x, s[j - 1]));
        }
    }
}

/// The insertion sort puts its input in order, as a permutation of it.
pub proof fn law_insertion_sorted<T>(s: Seq<T>, le: spec_fn(T, T) -> bool)
    requires
        total_preorder(le),
    ensures
        sorted_by(insertion_sorted(s, le), le),
        insertion_sorted(s, le).to_multiset() == s.to_multiset(),
        insertion_sorted(s, le).len() == s.len(),
    decreases s.len(),
{
    broadcast use vstd::seq_lib::to_multiset_build;

    if s.len() > 0 {
        law_insertion_sorted(s.drop_last(), le);
        lemma_insert_ordered_sorted(insertion_sorted(s.drop_last(), le), s.last(), le);
        assert(s.drop_last().push(s.last()) =~= s);
    }
}

/// The lexicographic order of byte strings is total.
pub proof fn lemma_lex_le_total(a: Seq<u8>, b: Seq<u8>)
    ensures
        lex_le(a, b) || lex_le(b, a),
    decreases a.len(),
{
    if a.len() > 0 && b.len() > 0 && a[0] == b[0] {
        lemma_lex_le_total(a.drop_first(), b.drop_first());
    }
}

/// The lexicographic order of byte strings is transitive.
pub proof fn lemma_lex_le_transitive(a: Seq<u8>, b: Seq<u8>, c: Seq<u8>)
    requires
        lex_le(a, b),
        lex_le(b, c),
    ensures
        lex_le(a, c),
    decreases a.len(),
{
    if a.len() > 0 && b.len() > 0 && c.len() > 0 && a[0] == b[0] && b[0] == c[0] {
        lemma_lex_le_transitive(a.drop_first(), b.drop_first(), c.drop_first());
    }
}

/// Inserting into a sorted sequence and then filtering is filtering and then inserting, when
/// the new element passes the filter; otherwise the insertion leaves no trace.
pub proof fn lemma_insert_ordered_filter<T>(
    t: Seq<T>,
    x: T,
    le: spec_fn(T, T) -> bool,
    p: spec_fn(T) -> bool,
)
    requires
        total_preorder(le),
        sorted_by(t, le),
    ensures
        insert_ordered(t, x, le).filter(p) == if p(x) {
            insert_ordered(t.filter(p), x, le)
        } else {
            t.filter(p)
        },
    decreases t.len(),
{
    reveal(Seq::filter);
    if t.len() == 0 {
        assert(seq![x].drop_last() =~= Seq::<T>::empty());
        assert(t.filter(p) =~= Seq::<T>::empty());
    } else if le(t.last(), x) {
        assert(t.push(x).drop_last() =~= t);
        let f = t.filter(p);
        if p(x) && f.len() > 0 {
            let y = f.last();
            assert(f.contains(y)) by {
                assert(f[f.len() - 1] == y);
            }
            t.lemma_filter_contains_rev(p, y);
            let i = choose|i: int| 0 <= i < t.len() && t[i] == y;
            if i < t.len() - 1 {
                assert(le(t[i], t[t.len() - 1]));
            }
            assert(le(y, x));
        }
    } else {
        let rest = t.drop_last();
        assert(sorted_by(rest, le)) by {
            assert forall|i: int, j: int| 0 <= i < j < rest.len() implies le(
                #[trigger] rest[i],
                #[trigger] rest[j],
            ) by {
                assert(rest[i] == t[i] && rest[j] == t[j]);
            }
        }
        lemma_insert_ordered_filter(rest, x, le, p);
        let inserted = insert_ordered(rest, x, le);
        assert(inserted.push(t.last()).drop_last() =~= inserted);
        if p(t.last()) {
            let f = rest.filter(p).push(t.last());
            assert(f.drop_last() =~= rest.filter(p));
        }
    }
}

/// The stable insertion sort commutes with filtering: sorting the kept elements gives the
/// sorted sequence with the others left out.
pub proof fn lemma_insertion_sorted_filter<T>(
    s: Seq<T>,
    le: spec_fn(T, T) -> bool,
    p: spec_fn(T) -> bool,
)
    requires
        total_preorder(le),
    ensures
        insertion_sorted(s.filter(p), le) == insertion_sorted(s, le).filter(p),
    decreases s.len(),
{
    reveal(Seq::filter);
    if s.len() == 0 {
        assert(s.filter(p) =~= s);
    } else {
        let rest = s.drop_last();
        lemma_insertion_sorted_filter(rest, le, p);
        law_insertion_sorted(rest, le);
        lemma_insert_ordered_filter(insertion_sorted(rest, le), s.last(), le, p);
        if p(s.last()) {
            let f = rest.filter(p).push(s.last());
            assert(f.drop_last() =~= rest.filter(p));
        }
    }
}

/// Mapping after filtering is filtering after mapping, with a test on the images that agrees
/// with the test on the originals.
pub proof fn lemma_filter_map_values<A, B>(
    s: Seq<A>,
    f: spec_fn(A) -> B,
    p: spec_fn(A) -> bool,
    q: spec_fn(B) -> bool,
)
    requires
        forall|a: A| #[trigger] q(f(a)) == p(a),
    ensures
        s.filter(p).map_values(f) == s.map_values(f).filter(q),
    decreases s.len(),
{
    reveal(Seq::filter);
    if s.len() == 0 {
        assert(s.filter(p).map_values(f) =~= s.map_values(f).filter(q));
    } else {
        let rest = s.drop_last();
        lemma_filter_map_values(rest, f, p, q);
        assert(s.map_values(f).drop_last() =~= rest.map_values(f));
        assert(q(f(s.last())) == p(s.last()));
        if p(s.last()) {
            assert(rest.filter(p).push(s.last()).map_values(f) =~= rest.filter(p).map_values(
                f,
            ).push(f(s.last())));
        }
    }
}

/// Byte strings are ordered by their first difference: where `a` and `b` agree before index
/// `k` and `a[k] < b[k]`, `a` comes first and `b` does not.
pub proof fn law_lex_le_first_difference(a: Seq<u8>, b: Seq<u8>, k: int)
    requires
        0 <= k < a.len(),
        k < b.len(),
        a.take(k) == b.take(k),
        a[k] < b[k],
    ensures
        lex_le(a, b),
        !lex_le(b, a),
    decreases k,
{
    if k > 0 {
        assert(a[0] == a.take(k)[0] && b[0] == b.take(k)[0]);
        assert(a.drop_first().take(k - 1) =~= a.take(k).drop_first());
        assert(b.drop_first().take(k - 1) =~= b.take(k).drop_first());
        law_lex_le_first_difference(a.drop_first(), b.drop_first(), k - 1);
    }
}

/// A prefix of a byte string comes no later than the string, and a proper prefix comes
/// strictly first.
pub proof fn law_lex_le_prefix_first(a: Seq<u8>, n: int)
    requires
        0 <= n <= a.len(),
    ensures
        lex_le(a.take(n), a),
        n < a.len() ==> !lex_le(a, a.take(n)),
    decreases n,
{
    if n > 0 {
        assert(a.take(n)[0] == a[0]);
        assert(a.take(n).drop_first() =~= a.drop_first().take(n - 1));
        law_lex_le_prefix_first(a.drop_first(), n - 1);
    } else {
        assert(a.take(n).len() == 0);
    }
}

/// Every byte string comes no later than itself.
pub proof fn law_lex_le_reflexive(a: Seq<u8>)
    ensures
        lex_le(a, a),
{
    law_lex_le_prefix_first(a, a.len() as int);
    assert(a.take(a.len() as int) =~= a);
}

} // verus!
