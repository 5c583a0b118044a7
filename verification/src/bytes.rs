//! Searching, comparing and splitting byte strings.

use vstd::prelude::*;

verus! {

/// The bytes of `s`, in UTF-8.
pub open spec fn text(s: &str) -> Seq<u8> {
    vstd::utf8::encode_utf8(s@)
}

/// The index of the first `sep` in `s`, or the length of `s` if there is none.
pub open spec fn first_index(s: Seq<u8>, sep: u8) -> int
    decreases s.len(),
{
    if s.len() == 0 || s[0] == sep {
        0
    } else {
        1 + first_index(s.skip(1), sep)
    }
}

/// The pieces of `s` between its separators, in order. There is always one
/// more piece than there are separators, so pieces may be empty.
pub open spec fn pieces(s: Seq<u8>, sep: u8) -> Seq<Seq<u8>>
    decreases s.len(),
{
    let i = first_index(s, sep);
    if 0 <= i < s.len() {
        seq![s.take(i)] + pieces(s.skip(i + 1), sep)
    } else {
        seq![s]
    }
}

/// `s` up to its first `sep`, or all of `s` if there is none.
pub open spec fn before(s: Seq<u8>, sep: u8) -> Seq<u8> {
    s.take(first_index(s, sep))
}

/// What follows the first `sep` in `s`, or nothing if there is none.
pub open spec fn after(s: Seq<u8>, sep: u8) -> Seq<u8> {
    let i = first_index(s, sep);
    if i < s.len() {
        s.skip(i + 1)
    } else {
        Seq::empty()
    }
}

/// Whether `part` stands in `s` at index `i`.
pub open spec fn occurs_at(s: Seq<u8>, part: Seq<u8>, i: int) -> bool {
    &&& 0 <= i
    &&& i + part.len() <= s.len()
    &&& s.subrange(i, i + part.len()) == part
}

/// Whether `part` stands anywhere in `s`.
pub open spec fn occurs(s: Seq<u8>, part: Seq<u8>) -> bool {
    exists|i: int| occurs_at(s, part, i)
}

/// The first index at which `part` stands in `s`, if it stands there at all.
pub open spec fn first_part(s: Seq<u8>, part: Seq<u8>) -> Option<int>
    decreases s.len(),
{
    if occurs_at(s, part, 0) {
        Some(0)
    } else if s.len() == 0 {
        None
    } else {
        match first_part(s.skip(1), part) {
            Some(i) => Some(i + 1),
            None => None,
        }
    }
}

/// Strings of the same bytes are the same string.
pub proof fn lemma_text_injective(a: &str, b: &str)
    ensures
        text(a) == text(b) <==> a@ == b@,
{
    vstd::utf8::encode_utf8_decode_utf8(a@);
    vstd::utf8::encode_utf8_decode_utf8(b@);
}

/// The bytes of an ASCII string are its characters.
pub proof fn lemma_text_ascii(s: &str)
    requires
        s.is_ascii(),
    ensures
        text(s) == Seq::new(s@.len(), |i: int| s@[i] as u8),
{
    vstd::utf8::is_ascii_chars_encode_utf8(s@);
    assert(text(s) =~= Seq::new(s@.len(), |i: int| s@[i] as u8));
}

/// `first_index` is the one index at which the search for `sep` stops.
pub proof fn lemma_first_index(s: Seq<u8>, sep: u8, k: int)
    requires
        0 <= k <= s.len(),
        forall|j: int| 0 <= j < k ==> s[j] != sep,
        k < s.len() ==> s[k] == sep,
    ensures
        first_index(s, sep) == k,
    decreases s.len(),
{
    if k > 0 {
        lemma_first_index(s.skip(1), sep, k - 1);
    }
}

/// Where `first_index` lies, and what stands before it and at it.
pub proof fn lemma_first_index_holds(s: Seq<u8>, sep: u8)
    ensures
        0 <= first_index(s, sep) <= s.len(),
        forall|j: int| 0 <= j < first_index(s, sep) ==> s[j] != sep,
        first_index(s, sep) < s.len() ==> s[first_index(s, sep)] == sep,
    decreases s.len(),
{
    if s.len() > 0 && s[0] != sep {
        lemma_first_index_holds(s.skip(1), sep);
        assert forall|j: int| 0 <= j < first_index(s, sep) implies s[j] != sep by {
            if j > 0 {
                assert(s[j] == s.skip(1)[j - 1]);
            }
        }
    }
}

/// Whether `sep` does not occur in `s`.
pub open spec fn is_free(s: Seq<u8>, sep: u8) -> bool {
    forall|i: int| 0 <= i < s.len() ==> s[i] != sep
}

/// A byte string without separators is its only piece.
pub proof fn lemma_single_piece(s: Seq<u8>, sep: u8)
    requires
        is_free(s, sep),
    ensures
        pieces(s, sep) == seq![s],
{
    lemma_first_index(s, sep, s.len() as int);
}

/// Law: the pieces of two byte strings with a separator between them are the
/// pieces of the one and then those of the other.
pub proof fn pieces_of_joined(a: Seq<u8>, sep: u8, b: Seq<u8>)
    ensures
        pieces(a + seq![sep] + b, sep) == pieces(a, sep) + pieces(b, sep),
    decreases a.len(),
{
    let s = a + seq![sep] + b;
    let i = first_index(a, sep);
    lemma_first_index_holds(a, sep);
    assert forall|j: int| 0 <= j < i implies s[j] != sep by {
        assert(s[j] == a[j]);
    }
    lemma_first_index(s, sep, i);
    if i < a.len() {
        let rest = a.skip(i + 1);
        assert(s.skip(i + 1) =~= rest + seq![sep] + b);
        assert(s.take(i) =~= a.take(i));
        pieces_of_joined(rest, sep, b);
        assert(pieces(s, sep) =~= pieces(a, sep) + pieces(b, sep));
    } else {
        assert(s.skip(i + 1) =~= b);
        assert(s.take(i) =~= a);
        assert(pieces(s, sep) =~= pieces(a, sep) + pieces(b, sep));
    }
}

/// The index of the first `sep` in `s`, or the length of `s`.
pub fn find(s: &[u8], sep: u8) -> (i: usize)
    ensures
        i <= s@.len(),
        i == first_index(s@, sep),
        i < s@.len() ==> s@[i as int] == sep,
{
    let mut i: usize = 0;
    while i < s.len() && s[i] != sep
        invariant
            i <= s@.len(),
            forall|j: int| 0 <= j < i ==> s@[j] != sep,
        decreases s@.len() - i,
    {
        i += 1;
    }
    proof {
        lemma_first_index(s@, sep, i as int);
    }
    i
}

/// `s` up to its first `sep`.
pub fn take_before(s: &[u8], sep: u8) -> (r: &[u8])
    ensures
        r@ == before(s@, sep),
{
    let i: usize = find(s, sep);
    vstd::slice::slice_subrange(s, 0, i)
}

/// What follows the first `sep` in `s`; empty if there is none.
pub fn take_after(s: &[u8], sep: u8) -> (r: &[u8])
    ensures
        r@ == after(s@, sep),
{
    let i: usize = find(s, sep);
    if i < s.len() {
        vstd::slice::slice_subrange(s, i + 1, s.len())
    } else {
        vstd::slice::slice_subrange(s, i, i)
    }
}

/// The pieces of `s` between its separators.
pub fn split(s: &[u8], sep: u8) -> (r: Vec<&[u8]>)
    ensures
        r@.len() == pieces(s@, sep).len(),
        forall|k: int| 0 <= k < r@.len() ==> (#[trigger] r@[k])@ == pieces(s@, sep)[k],
{
    let mut r: Vec<&[u8]> = Vec::new();
    let mut rest: &[u8] = s;
    let ghost mut done: Seq<Seq<u8>> = Seq::empty();
    assert(pieces(s@, sep) =~= done + pieces(rest@, sep));
    loop
        invariant
            pieces(s@, sep) == done + pieces(rest@, sep),
            r@.len() == done.len(),
            forall|k: int| 0 <= k < r@.len() ==> (#[trigger] r@[k])@ == done[k],
        decreases rest@.len(),
    {
        let i: usize = find(rest, sep);
        let piece: &[u8] = vstd::slice::slice_subrange(rest, 0, i);
        r.push(piece);
        if i >= rest.len() {
            assert(piece@ =~= rest@);
            assert(pieces(rest@, sep) =~= seq![rest@]);
            return r;
        }
        let ghost next = rest@.skip(i + 1);
        proof {
            assert(pieces(rest@, sep) == seq![rest@.take(i as int)] + pieces(next, sep));
            assert(done + pieces(rest@, sep) =~= done.push(piece@) + pieces(next, sep));
            done = done.push(piece@);
        }
        rest = vstd::slice::slice_subrange(rest, i + 1, rest.len());
        assert(rest@ =~= next);
    }
}

/// Whether `a` and `b` hold the same bytes.
pub fn equal(a: &[u8], b: &[u8]) -> (r: bool)
    ensures
        r == (a@ == b@),
{
    if a.len() != b.len() {
        return false;
    }
    let mut i: usize = 0;
    while i < a.len()
        invariant
            i <= a@.len() == b@.len(),
            forall|j: int| 0 <= j < i ==> a@[j] == b@[j],
        decreases a@.len() - i,
    {
        if a[i] != b[i] {
            return false;
        }
        i += 1;
    }
    assert(a@ =~= b@);
    true
}

/// `first_part` is an occurrence, no occurrence comes before it, and it is
/// missing only where there is none.
pub proof fn lemma_first_part_holds(s: Seq<u8>, part: Seq<u8>)
    ensures
        match first_part(s, part) {
            Some(i) => occurs_at(s, part, i) && forall|j: int|
                0 <= j < i ==> !occurs_at(s, part, j),
            None => !occurs(s, part),
        },
    decreases s.len(),
{
    if !occurs_at(s, part, 0) && s.len() > 0 {
        let rest = s.skip(1);
        lemma_first_part_holds(rest, part);
        assert forall|j: int| j != 0 implies occurs_at(s, part, j) == occurs_at(
            rest,
            part,
            j - 1,
        ) by {
            if 0 < j && j + part.len() <= s.len() {
                assert(s.subrange(j, j + part.len()) =~= rest.subrange(
                    j - 1,
                    j - 1 + part.len(),
                ));
            }
        }
    }
}

/// The first index at which `part` stands in `s`, if it stands there at all.
pub fn find_part(s: &[u8], part: &[u8]) -> (r: Option<usize>)
    ensures
        match r {
            Some(i) => first_part(s@, part@) == Some(i as int) && i + part@.len() <= s@.len(),
            None => first_part(s@, part@) is None,
        },
        r is Some == occurs(s@, part@),
{
    proof {
        lemma_first_part_holds(s@, part@);
    }
    if part.len() > s.len() {
        return None;
    }
    let len: usize = s.len();
    let last: usize = len - part.len();
    let mut i: usize = 0;
    loop
        invariant
            i <= last,
            last + part@.len() == len,
            len == s@.len(),
            forall|j: int| 0 <= j < i ==> !occurs_at(s@, part@, j),
            match first_part(s@, part@) {
                Some(i) => occurs_at(s@, part@, i) && forall|j: int|
                    0 <= j < i ==> !occurs_at(s@, part@, j),
                None => !occurs(s@, part@),
            },
        decreases last - i,
    {
        if equal(vstd::slice::slice_subrange(s, i, i + part.len()), part) {
            assert(occurs_at(s@, part@, i as int));
            return Some(i);
        }
        if i == last {
            return None;
        }
        i += 1;
    }
}

} // verus!
