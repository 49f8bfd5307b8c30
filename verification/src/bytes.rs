//! Searching and comparing byte sequences.
//!
//! Everything the parser knows about its input is phrased with three
//! notions defined here: a pattern *occurs at* a position, the *first
//! occurrence* of a pattern, and a sequence *begins with* a prefix.

use vstd::prelude::*;
use vstd::slice::slice_subrange;

verus! {

/// The ASCII code of the carriage return.
pub const CR: u8 = 13;

/// The ASCII code of the line feed.
pub const LF: u8 = 10;

/// No byte of `s` is a carriage return or a line feed.
pub open spec fn free_of_line_breaks(s: Seq<u8>) -> bool {
    forall|i: int| 0 <= i < s.len() ==> #[trigger] s[i] != CR && s[i] != LF
}

/// `pat` fills the positions `i .. i + pat.len()` of `s`.
pub open spec fn occurs_at(s: Seq<u8>, pat: Seq<u8>, i: int) -> bool {
    &&& 0 <= i
    &&& i + pat.len() <= s.len()
    &&& s.subrange(i, i + pat.len()) == pat
}

/// The least position at or after `from` at which `pat` occurs in `s`.
pub open spec fn first_occurrence_from(s: Seq<u8>, pat: Seq<u8>, from: int) -> Option<int>
    decreases s.len() + 1 - from,
{
    if from < 0 || from + pat.len() > s.len() {
        None
    } else if occurs_at(s, pat, from) {
        Some(from)
    } else {
        first_occurrence_from(s, pat, from + 1)
    }
}

/// The least position at which `pat` occurs in `s`.
pub open spec fn first_occurrence(s: Seq<u8>, pat: Seq<u8>) -> Option<int> {
    first_occurrence_from(s, pat, 0)
}

/// `s` starts with the bytes of `prefix`.
pub open spec fn begins_with(s: Seq<u8>, prefix: Seq<u8>) -> bool {
    occurs_at(s, prefix, 0)
}

/// What `first_occurrence_from` returns is an occurrence, and no
/// occurrence lies between `from` and it.
pub proof fn lemma_first_occurrence_from(s: Seq<u8>, pat: Seq<u8>, from: int)
    requires
        0 <= from,
    ensures
        match first_occurrence_from(s, pat, from) {
            Some(i) => {
                &&& from <= i
                &&& occurs_at(s, pat, i)
                &&& forall|j: int| from <= j < i ==> !occurs_at(s, pat, j)
            },
            None => forall|j: int| from <= j ==> !occurs_at(s, pat, j),
        },
    decreases s.len() + 1 - from,
{
    if from + pat.len() > s.len() {
    } else if occurs_at(s, pat, from) {
    } else {
        lemma_first_occurrence_from(s, pat, from + 1);
    }
}

/// An occurrence with none before it is the first occurrence.
pub proof fn lemma_first_occurrence_is(s: Seq<u8>, pat: Seq<u8>, from: int, i: int)
    requires
        0 <= from <= i,
        occurs_at(s, pat, i),
        forall|j: int| from <= j < i ==> !occurs_at(s, pat, j),
    ensures
        first_occurrence_from(s, pat, from) == Some(i),
{
    lemma_first_occurrence_from(s, pat, from);
}

/// Without any occurrence at or after `from` there is no first one.
pub proof fn lemma_first_occurrence_none(s: Seq<u8>, pat: Seq<u8>, from: int)
    requires
        0 <= from,
        forall|j: int| from <= j ==> !occurs_at(s, pat, j),
    ensures
        first_occurrence_from(s, pat, from) is None,
{
    lemma_first_occurrence_from(s, pat, from);
}

/// Bytes appended to `s` neither create nor destroy an occurrence that
/// lies wholly within `s`.
pub proof fn lemma_occurs_at_append(s: Seq<u8>, t: Seq<u8>, pat: Seq<u8>, i: int)
    requires
        0 <= i,
        i + pat.len() <= s.len(),
    ensures
        occurs_at(s + t, pat, i) == occurs_at(s, pat, i),
{
    assert((s + t).subrange(i, i + pat.len()) =~= s.subrange(i, i + pat.len()));
}

/// A first occurrence stays the first occurrence when bytes are appended.
pub proof fn lemma_first_occurrence_append(s: Seq<u8>, t: Seq<u8>, pat: Seq<u8>)
    requires
        first_occurrence(s, pat) is Some,
    ensures
        first_occurrence(s + t, pat) == first_occurrence(s, pat),
{
    let i = first_occurrence(s, pat)->0;
    lemma_first_occurrence_from(s, pat, 0);
    lemma_occurs_at_append(s, t, pat, i);
    assert forall|j: int| 0 <= j < i implies !occurs_at(s + t, pat, j) by {
        lemma_occurs_at_append(s, t, pat, j);
    }
    lemma_first_occurrence_is(s + t, pat, 0, i);
}

/// Whether `needle` occurs in `haystack` at position `at`.
pub fn matches_at(haystack: &[u8], needle: &[u8], at: usize) -> (found: bool)
    requires
        at + needle@.len() <= haystack@.len(),
    ensures
        found == occurs_at(haystack@, needle@, at as int),
{
    let mut k: usize = 0;
    while k < needle.len()
        invariant
            k <= needle.len(),
            at + needle.len() <= haystack.len(),
            forall|j: int| 0 <= j < k ==> haystack@[at + j] == needle@[j],
        decreases needle@.len() - k,
    {
        if haystack[at + k] != needle[k] {
            proof {
                let window = haystack@.subrange(at as int, at + needle@.len());
                assert(window[k as int] == haystack@[at + k]);
            }
            return false;
        }
        k = k + 1;
    }
    assert(haystack@.subrange(at as int, at + needle@.len()) =~= needle@);
    true
}

/// The first position at or after `from` at which `needle` occurs in
/// `haystack`.
pub fn find_from(haystack: &[u8], needle: &[u8], from: usize) -> (found: Option<usize>)
    ensures
        match found {
            Some(i) => {
                &&& first_occurrence_from(haystack@, needle@, from as int) == Some(i as int)
                &&& from <= i
                &&& i + needle.len() <= haystack.len()
            },
            None => first_occurrence_from(haystack@, needle@, from as int) is None,
        },
{
    if needle.len() > haystack.len() || from > haystack.len() - needle.len() {
        return None;
    }
    let last: usize = haystack.len() - needle.len();
    let mut i: usize = from;
    loop
        invariant
            from <= i <= last,
            last + needle.len() == haystack.len(),
            first_occurrence_from(haystack@, needle@, from as int) == first_occurrence_from(
                haystack@,
                needle@,
                i as int,
            ),
        decreases last - i,
    {
        if matches_at(haystack, needle, i) {
            return Some(i);
        }
        if i == last {
            return None;
        }
        i = i + 1;
    }
}

/// The first position at which `needle` occurs in `haystack`.
pub fn find(haystack: &[u8], needle: &[u8]) -> (found: Option<usize>)
    ensures
        match found {
            Some(i) => {
                &&& first_occurrence(haystack@, needle@) == Some(i as int)
                &&& i + needle.len() <= haystack.len()
            },
            None => first_occurrence(haystack@, needle@) is None,
        },
{
    find_from(haystack, needle, 0)
}

/// Whether `s` starts with `prefix`.
pub fn starts_with(s: &[u8], prefix: &[u8]) -> (yes: bool)
    ensures
        yes == begins_with(s@, prefix@),
{
    if prefix.len() > s.len() {
        return false;
    }
    matches_at(s, prefix, 0)
}

/// Whether `a` and `b` hold the same bytes.
pub fn equal(a: &[u8], b: &[u8]) -> (same: bool)
    ensures
        same == (a@ == b@),
{
    if a.len() != b.len() {
        return false;
    }
    let same = matches_at(a, b, 0);
    assert(a@.subrange(0, a@.len() as int) =~= a@);
    same
}

/// The bytes of `s` from position `from` to the end.
pub fn tail(s: &[u8], from: usize) -> (rest: &[u8])
    requires
        from <= s@.len(),
    ensures
        rest@ == s@.skip(from as int),
{
    slice_subrange(s, from, s.len())
}

/// The bytes of `s` before position `to`.
pub fn head(s: &[u8], to: usize) -> (front: &[u8])
    requires
        to <= s@.len(),
    ensures
        front@ == s@.take(to as int),
{
    slice_subrange(s, 0, to)
}

/// The pieces of `s` that lie between the occurrences of `sep`, found from
/// left to right. There is always at least one piece; an empty `sep`
/// separates nothing.
pub open spec fn split(s: Seq<u8>, sep: Seq<u8>) -> Seq<Seq<u8>>
    decreases s.len(),
{
    match first_occurrence(s, sep) {
        Some(i) => if sep.len() > 0 && 0 <= i && i + sep.len() <= s.len() {
            seq![s.take(i)] + split(s.skip(i + sep.len()), sep)
        } else {
            seq![s]
        },
        None => seq![s],
    }
}

/// The views of the byte strings in `lines`, in order.
pub open spec fn views_of(lines: Seq<Vec<u8>>) -> Seq<Seq<u8>> {
    Seq::new(lines.len(), |i: int| lines[i]@)
}

/// A copy of `s` that owns its bytes.
pub fn to_vec(s: &[u8]) -> (copy: Vec<u8>)
    ensures
        copy@ == s@,
{
    let mut copy: Vec<u8> = Vec::new();
    copy.extend_from_slice(s);
    assert(copy@ =~= s@);
    copy
}

/// Cuts `s` at every occurrence of `sep`, from left to right.
pub fn split_at_each(s: &[u8], sep: &[u8]) -> (pieces: Vec<Vec<u8>>)
    ensures
        views_of(pieces@) == split(s@, sep@),
{
    let mut pieces: Vec<Vec<u8>> = Vec::new();
    let mut rest: &[u8] = s;
    if sep.len() == 0 {
        pieces.push(to_vec(rest));
        assert(views_of(pieces@) =~= split(s@, sep@));
        return pieces;
    }
    loop
        invariant
            sep.len() > 0,
            split(s@, sep@) == views_of(pieces@) + split(rest@, sep@),
        decreases rest.len(),
    {
        match find(rest, sep) {
            Some(i) => {
                proof {
                    lemma_first_occurrence_from(rest@, sep@, 0);
                }
                let ghost before = views_of(pieces@);
                pieces.push(to_vec(head(rest, i)));
                assert(views_of(pieces@) =~= before + seq![rest@.take(i as int)]);
                rest = tail(rest, i + sep.len());
            },
            None => {
                let ghost before = views_of(pieces@);
                pieces.push(to_vec(rest));
                assert(views_of(pieces@) =~= before + seq![rest@]);
                return pieces;
            },
        }
    }
}

/// The pieces put together again, with `sep` between each two.
pub open spec fn join(pieces: Seq<Seq<u8>>, sep: Seq<u8>) -> Seq<u8>
    decreases pieces.len(),
{
    if pieces.len() == 0 {
        Seq::<u8>::empty()
    } else if pieces.len() == 1 {
        pieces[0]
    } else {
        pieces[0] + sep + join(pieces.drop_first(), sep)
    }
}

/// Splitting loses nothing and leaves no separator behind: the pieces,
/// joined by the separator, are the sequence that was split, and the
/// separator occurs in none of them.
pub proof fn lemma_split_joins_back(s: Seq<u8>, sep: Seq<u8>)
    ensures
        split(s, sep).len() >= 1,
        join(split(s, sep), sep) == s,
        sep.len() > 0 ==> forall|k: int|
            0 <= k < split(s, sep).len() ==> first_occurrence(#[trigger] split(s, sep)[k], sep)
                is None,
    decreases s.len(),
{
    lemma_first_occurrence_from(s, sep, 0);
    match first_occurrence(s, sep) {
        Some(i) => {
            if sep.len() > 0 {
                let first = s.take(i);
                let rest = s.skip(i + sep.len());
                let others = split(rest, sep);
                lemma_split_joins_back(rest, sep);
                let pieces = seq![first] + others;
                assert(pieces.drop_first() =~= others);
                assert(first + sep + rest =~= s) by {
                    assert(s.subrange(i, i + sep.len()) == sep);
                }
                assert(first_occurrence(first, sep) is None) by {
                    assert forall|j: int| 0 <= j implies !occurs_at(first, sep, j) by {
                        if j + sep.len() <= first.len() {
                            assert(!occurs_at(s, sep, j));
                            assert(first.subrange(j, j + sep.len()) =~= s.subrange(
                                j,
                                j + sep.len(),
                            ));
                        }
                    }
                    lemma_first_occurrence_none(first, sep, 0);
                }
                assert forall|k: int| 0 <= k < pieces.len() implies first_occurrence(
                    #[trigger] pieces[k],
                    sep,
                ) is None by {
                    if k > 0 {
                        assert(pieces[k] == others[k - 1]);
                    }
                }
            }
        },
        None => {},
    }
}

} // verus!
