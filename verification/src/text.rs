//! Small verified helpers on text and bytes.
use vstd::prelude::*;

verus! {

/// Whether two byte slices hold the same bytes.
pub fn bytes_eq(a: &[u8], b: &[u8]) -> (r: bool)
    ensures
        r == (a@ == b@),
{
    if a.len() != b.len() {
        return false;
    }
    let mut i: usize = 0;
    while i < a.len()
        invariant
            a.len() == b.len(),
            i <= a.len(),
            forall|j: int| 0 <= j < i ==> a@[j] == b@[j],
        decreases a.len() - i,
    {
        if a[i] != b[i] {
            return false;
        }
        i = i + 1;
    }
    assert(a@ =~= b@);
    true
}

/// Whether two strings hold the same characters.
pub fn text_eq(a: &str, b: &str) -> (r: bool)
    ensures
        r == (a@ == b@),
{
    let r = bytes_eq(a.as_bytes(), b.as_bytes());
    proof {
        vstd::utf8::encode_utf8_decode_utf8(a@);
        vstd::utf8::encode_utf8_decode_utf8(b@);
    }
    r
}

/// The characters of a string, in order.
pub fn chars_of(s: &str) -> (v: Vec<char>)
    ensures
        v@ == s@,
{
    let mut v: Vec<char> = Vec::new();
    proof {
        broadcast use vstd::string::axiom_spec_iter;
    }
    for c in it: s.chars()
        invariant
            v@ == it.seq().take(it.index() as int),
            it.seq() == s@,
    {
        v.push(c);
    }
    assert(v@ =~= s@);
    v
}


/// The ASCII lower-case form of a byte; other bytes stay as they are.
pub open spec fn ascii_lower(b: u8) -> u8 {
    if 65 <= b <= 90 {
        (b + 32) as u8
    } else {
        b
    }
}

/// Whether two byte strings are equal once ASCII letters are lower-cased.
pub open spec fn ascii_case_eq(a: Seq<u8>, b: Seq<u8>) -> bool {
    &&& a.len() == b.len()
    &&& forall|i: int| 0 <= i < a.len() ==> ascii_lower(a[i]) == ascii_lower(b[i])
}

/// Compares two byte strings, ignoring the case of ASCII letters.
pub fn eq_ignore_ascii_case(a: &[u8], b: &[u8]) -> (r: bool)
    ensures
        r == ascii_case_eq(a@, b@),
{
    if a.len() != b.len() {
        return false;
    }
    let mut i: usize = 0;
    while i < a.len()
        invariant
            a.len() == b.len(),
            i <= a.len(),
            forall|j: int| 0 <= j < i ==> ascii_lower(a@[j]) == ascii_lower(b@[j]),
        decreases a.len() - i,
    {
        let x: u8 = if 65 <= a[i] && a[i] <= 90 {
            a[i] + 32
        } else {
            a[i]
        };
        let y: u8 = if 65 <= b[i] && b[i] <= 90 {
            b[i] + 32
        } else {
            b[i]
        };
        if x != y {
            return false;
        }
        i = i + 1;
    }
    true
}

/// The pieces of `s` between occurrences of `sep`, as `str::split(sep)` yields them.
pub open spec fn split_on(s: Seq<char>, sep: char) -> Seq<Seq<char>>
    decreases s.len(),
{
    if s.len() == 0 {
        seq![Seq::<char>::empty()]
    } else {
        let prior = split_on(s.drop_last(), sep);
        if s.last() == sep {
            prior.push(Seq::<char>::empty())
        } else {
            prior.update(prior.len() - 1, prior.last().push(s.last()))
        }
    }
}

/// `split_on` always yields at least one piece.
pub proof fn lemma_split_on_nonempty(s: Seq<char>, sep: char)
    ensures
        split_on(s, sep).len() >= 1,
    decreases s.len(),
{
    if s.len() > 0 {
        lemma_split_on_nonempty(s.drop_last(), sep);
    }
}

/// The complete pieces of a prefix of `s` stay the first pieces of every longer prefix.
pub proof fn lemma_split_on_prefix(s: Seq<char>, sep: char, i: int, j: int)
    requires
        0 <= i <= j <= s.len(),
    ensures
        split_on(s.take(j), sep).len() >= split_on(s.take(i), sep).len(),
        split_on(s.take(j), sep).take(split_on(s.take(i), sep).len() - 1) == split_on(
            s.take(i),
            sep,
        ).drop_last(),
    decreases j - i,
{
    lemma_split_on_nonempty(s.take(i), sep);
    if i == j {
        assert(split_on(s.take(j), sep).take(split_on(s.take(i), sep).len() - 1)
            =~= split_on(s.take(i), sep).drop_last());
    } else {
        lemma_split_on_prefix(s, sep, i, j - 1);
        lemma_split_on_nonempty(s.take(j - 1), sep);
        assert(s.take(j).drop_last() =~= s.take(j - 1));
        let n: int = split_on(s.take(i), sep).len() - 1;
        let prior = split_on(s.take(j - 1), sep);
        assert(split_on(s.take(j), sep).take(n) =~= prior.take(n));
    }
}

/// A separator followed by text without it adds that text as one more piece.
pub proof fn lemma_split_on_append_piece(s: Seq<char>, t: Seq<char>, sep: char)
    requires
        forall|i: int| 0 <= i < t.len() ==> t[i] != sep,
    ensures
        split_on(s + seq![sep] + t, sep) == split_on(s, sep).push(t),
    decreases t.len(),
{
    let u = s + seq![sep] + t;
    if t.len() == 0 {
        assert(u.drop_last() =~= s);
        assert(t =~= Seq::<char>::empty());
    } else {
        assert(u.drop_last() =~= s + seq![sep] + t.drop_last());
        lemma_split_on_append_piece(s, t.drop_last(), sep);
        assert(t.drop_last().push(t.last()) =~= t);
        assert(split_on(u, sep) =~= split_on(s, sep).push(t));
    }
}

/// Text without the separator extends the last piece.
pub proof fn lemma_split_on_extend_last(s: Seq<char>, t: Seq<char>, sep: char)
    requires
        forall|i: int| 0 <= i < t.len() ==> t[i] != sep,
    ensures
        split_on(s + t, sep).len() == split_on(s, sep).len(),
        split_on(s + t, sep).last() == split_on(s, sep).last() + t,
    decreases t.len(),
{
    lemma_split_on_nonempty(s, sep);
    if t.len() == 0 {
        assert(s + t =~= s);
        assert(split_on(s, sep).last() + t =~= split_on(s, sep).last());
    } else {
        assert((s + t).drop_last() =~= s + t.drop_last());
        lemma_split_on_extend_last(s, t.drop_last(), sep);
        lemma_split_on_nonempty(s + t.drop_last(), sep);
        assert(split_on(s, sep).last() + t.drop_last() + seq![t.last()] =~= split_on(s, sep).last()
            + t);
        assert(split_on(s, sep).last() + t.drop_last() + seq![t.last()] =~= (split_on(s, sep).last()
            + t.drop_last()).push(t.last()));
    }
}

/// Text that is empty or ends with the separator ends with an empty piece.
pub proof fn lemma_split_on_ends_empty(s: Seq<char>, sep: char)
    requires
        s.len() == 0 || s.last() == sep,
    ensures
        split_on(s, sep).last() == Seq::<char>::empty(),
{
}

} // verus!
