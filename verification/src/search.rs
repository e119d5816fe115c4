//! Occurrences of one byte sequence inside another.
//!
//! Everything here is plain substring search: no index is built, the
//! haystack is walked from the starting offset until the needle is seen.

use vstd::prelude::*;

verus! {

/// `needle` stands in `haystack` at offset `at`.
pub open spec fn occurs_at(haystack: Seq<u8>, needle: Seq<u8>, at: int) -> bool {
    &&& 0 <= at
    &&& at + needle.len() <= haystack.len()
    &&& haystack.subrange(at, at + needle.len()) == needle
}

/// The least offset at or after `from` at which `needle` stands in
/// `haystack`, if there is one.
pub open spec fn first_occurrence(haystack: Seq<u8>, needle: Seq<u8>, from: int) -> Option<int>
    decreases haystack.len() - from + 1,
{
    if from < 0 || from + needle.len() > haystack.len() {
        None
    } else if occurs_at(haystack, needle, from) {
        Some(from)
    } else {
        first_occurrence(haystack, needle, from + 1)
    }
}

/// What `first_occurrence` means: a result is an occurrence at or after
/// `from` with no occurrence between `from` and it; no result means that
/// there is no occurrence at or after `from` at all.
pub proof fn lemma_first_occurrence(haystack: Seq<u8>, needle: Seq<u8>, from: int)
    requires
        0 <= from,
    ensures
        match first_occurrence(haystack, needle, from) {
            Some(at) => {
                &&& from <= at
                &&& occurs_at(haystack, needle, at)
                &&& forall|k: int| from <= k < at ==> !occurs_at(haystack, needle, k)
            },
            None => forall|k: int| from <= k ==> !occurs_at(haystack, needle, k),
        },
    decreases haystack.len() - from + 1,
{
    if from + needle.len() > haystack.len() {
    } else if occurs_at(haystack, needle, from) {
    } else {
        lemma_first_occurrence(haystack, needle, from + 1);
    }
}

/// The converse of `lemma_first_occurrence`: the least occurrence at or
/// after `from` is the one that `first_occurrence` gives.
pub proof fn lemma_least_occurrence_is_first(
    haystack: Seq<u8>,
    needle: Seq<u8>,
    from: int,
    at: int,
)
    requires
        0 <= from <= at,
        occurs_at(haystack, needle, at),
        forall|k: int| from <= k < at ==> !occurs_at(haystack, needle, k),
    ensures
        first_occurrence(haystack, needle, from) == Some(at),
{
    lemma_first_occurrence(haystack, needle, from);
}

/// Without an occurrence at or after `from` there is no first one.
pub proof fn lemma_no_occurrence_is_none(haystack: Seq<u8>, needle: Seq<u8>, from: int)
    requires
        0 <= from,
        forall|k: int| from <= k ==> !occurs_at(haystack, needle, k),
    ensures
        first_occurrence(haystack, needle, from) is None,
{
    lemma_first_occurrence(haystack, needle, from);
}

/// Whether `needle` stands at an offset depends only on the bytes at that
/// offset: an occurrence that ends inside `head` is one of `head` alone.
pub proof fn lemma_occurs_in_head(head: Seq<u8>, tail: Seq<u8>, needle: Seq<u8>, at: int)
    requires
        at + needle.len() <= head.len(),
    ensures
        occurs_at(head + tail, needle, at) == occurs_at(head, needle, at),
{
    if 0 <= at {
        assert((head + tail).subrange(at, at + needle.len()) =~= head.subrange(
            at,
            at + needle.len(),
        ));
    }
}

/// An occurrence that begins behind `head` is one of `tail` alone.
pub proof fn lemma_occurs_in_tail(head: Seq<u8>, tail: Seq<u8>, needle: Seq<u8>, at: int)
    requires
        0 <= at,
    ensures
        occurs_at(head + tail, needle, head.len() + at) == occurs_at(tail, needle, at),
{
    if at + needle.len() <= tail.len() {
        assert((head + tail).subrange(head.len() + at, head.len() + at + needle.len())
            =~= tail.subrange(at, at + needle.len()));
    }
}

/// A first occurrence found in `head` is also the first one in `head`
/// followed by anything.
pub proof fn lemma_first_occurrence_in_head(
    head: Seq<u8>,
    tail: Seq<u8>,
    needle: Seq<u8>,
    from: int,
)
    requires
        0 <= from,
        first_occurrence(head, needle, from) is Some,
    ensures
        first_occurrence(head + tail, needle, from) == first_occurrence(head, needle, from),
{
    let at = first_occurrence(head, needle, from)->0;
    lemma_first_occurrence(head, needle, from);
    assert forall|k: int| from <= k <= at implies #[trigger] occurs_at(head + tail, needle, k)
        == occurs_at(head, needle, k) by {
        lemma_occurs_in_head(head, tail, needle, k);
    }
    lemma_least_occurrence_is_first(head + tail, needle, from, at);
}

/// A first occurrence in `head` followed by `tail` that ends inside `head`
/// is the first one in `head` alone.
pub proof fn lemma_first_occurrence_of_head(
    head: Seq<u8>,
    tail: Seq<u8>,
    needle: Seq<u8>,
    from: int,
)
    requires
        0 <= from,
        first_occurrence(head + tail, needle, from) matches Some(at) && at + needle.len()
            <= head.len(),
    ensures
        first_occurrence(head, needle, from) == first_occurrence(head + tail, needle, from),
{
    let at = first_occurrence(head + tail, needle, from)->0;
    lemma_first_occurrence(head + tail, needle, from);
    assert forall|k: int| from <= k <= at implies occurs_at(head + tail, needle, k)
        == #[trigger] occurs_at(head, needle, k) by {
        lemma_occurs_in_head(head, tail, needle, k);
    }
    lemma_least_occurrence_is_first(head, needle, from, at);
}

/// Searching `head` followed by `tail` from behind `head` is searching
/// `tail`.
pub proof fn lemma_first_occurrence_in_tail(
    head: Seq<u8>,
    tail: Seq<u8>,
    needle: Seq<u8>,
    from: int,
)
    requires
        0 <= from,
    ensures
        first_occurrence(head + tail, needle, head.len() + from) == match first_occurrence(
            tail,
            needle,
            from,
        ) {
            Some(at) => Some(head.len() + at),
            None => None,
        },
{
    lemma_first_occurrence(tail, needle, from);
    assert forall|k: int| head.len() + from <= k implies #[trigger] occurs_at(
        head + tail,
        needle,
        k,
    ) == occurs_at(tail, needle, k - head.len()) by {
        lemma_occurs_in_tail(head, tail, needle, k - head.len());
    }
    match first_occurrence(tail, needle, from) {
        Some(at) => {
            let whole = head + tail;
            lemma_least_occurrence_is_first(whole, needle, head.len() + from, head.len() + at);
        },
        None => {
            lemma_no_occurrence_is_none(head + tail, needle, head.len() + from);
        },
    }
}

/// Tells whether `needle` stands in `haystack` at offset `at`.
pub fn matches_at(haystack: &[u8], needle: &[u8], at: usize) -> (found: bool)
    ensures
        found == occurs_at(haystack@, needle@, at as int),
{
    if needle.len() > haystack.len() || at > haystack.len() - needle.len() {
        return false;
    }
    let mut k: usize = 0;
    while k < needle.len()
        invariant
            k <= needle.len(),
            at + needle.len() <= haystack.len(),
            forall|j: int| 0 <= j < k ==> haystack@[at + j] == needle@[j],
        decreases needle.len() - k,
    {
        if haystack[at + k] != needle[k] {
            return false;
        }
        k += 1;
    }
    assert(haystack@.subrange(at as int, at + needle@.len()) =~= needle@);
    true
}

/// Finds the first place at or after `from` where `needle` stands in
/// `haystack`.
pub fn find_from(haystack: &[u8], needle: &[u8], from: usize) -> (found: Option<usize>)
    ensures
        match found {
            Some(at) => {
                &&& first_occurrence(haystack@, needle@, from as int) == Some(at as int)
                &&& at + needle.len() <= haystack.len()
            },
            None => first_occurrence(haystack@, needle@, from as int) is None,
        },
{
    if needle.len() > haystack.len() || from > haystack.len() - needle.len() {
        return None;
    }
    let last: usize = haystack.len() - needle.len();
    let mut at: usize = from;
    loop
        invariant
            from <= at <= last,
            last == haystack.len() - needle.len(),
            first_occurrence(haystack@, needle@, from as int) == first_occurrence(
                haystack@,
                needle@,
                at as int,
            ),
        decreases last - at,
    {
        if matches_at(haystack, needle, at) {
            return Some(at);
        }
        if at == last {
            assert(first_occurrence(haystack@, needle@, at + 1) is None);
            return None;
        }
        at += 1;
    }
}

} // verus!
