//! Searching byte sequences.

use vstd::prelude::*;

verus! {

/// Whether `needle` occurs in `hay` at `at`.
pub open spec fn matches_at(hay: Seq<u8>, at: int, needle: Seq<u8>) -> bool {
    0 <= at && at + needle.len() <= hay.len() && hay.subrange(at, at + needle.len()) == needle
}

/// The least offset at or after `from` at which `needle` occurs.
pub open spec fn next_match(hay: Seq<u8>, from: int, needle: Seq<u8>) -> Option<int>
    decreases hay.len() - from + 1,
{
    if from < 0 || from + needle.len() > hay.len() {
        None
    } else if matches_at(hay, from, needle) {
        Some(from)
    } else {
        next_match(hay, from + 1, needle)
    }
}

pub proof fn lemma_next_match(hay: Seq<u8>, from: int, needle: Seq<u8>)
    requires
        0 <= from,
    ensures
        next_match(hay, from, needle) matches Some(at) ==> from <= at && matches_at(hay, at, needle)
            && forall|k: int| from <= k < at ==> !matches_at(hay, k, needle),
        next_match(hay, from, needle) is None ==> forall|k: int|
            from <= k ==> !matches_at(hay, k, needle),
    decreases hay.len() - from + 1,
{
    if from + needle.len() <= hay.len() && !matches_at(hay, from, needle) {
        lemma_next_match(hay, from + 1, needle);
    }
}

pub fn bytes_match_at(hay: &[u8], at: usize, needle: &[u8]) -> (found: bool)
    ensures
        found == matches_at(hay@, at as int, needle@),
{
    if at > hay.len() || needle.len() > hay.len() - at {
        return false;
    }
    let mut i: usize = 0;
    while i < needle.len()
        invariant
            i <= needle.len(),
            at + needle.len() <= hay.len(),
            hay@.subrange(at as int, at + i) == needle@.subrange(0, i as int),
        decreases needle.len() - i,
    {
        if hay[at + i] != needle[i] {
            proof {
                assert(hay@.subrange(at as int, at + needle.len())[i as int] == hay@[at + i]);
            }
            return false;
        }
        proof {
            assert(hay@.subrange(at as int, at + i + 1) =~= hay@.subrange(at as int, at + i).push(
                hay@[at + i],
            ));
            assert(needle@.subrange(0, i + 1) =~= needle@.subrange(0, i as int).push(
                needle@[i as int],
            ));
        }
        i = i + 1;
    }
    proof {
        assert(needle@.subrange(0, needle.len() as int) =~= needle@);
    }
    true
}

/// The least offset at or after `from` at which `needle` occurs.
pub fn find_bytes(hay: &[u8], from: usize, needle: &[u8]) -> (found: Option<usize>)
    ensures
        match found {
            Some(at) => next_match(hay@, from as int, needle@) == Some(at as int) && from <= at
                && at + needle@.len() <= hay@.len(),
            None => next_match(hay@, from as int, needle@) is None,
        },
{
    let mut at: usize = from;
    while at <= hay.len() && needle.len() <= hay.len() - at
        invariant
            from <= at,
            next_match(hay@, from as int, needle@) == next_match(hay@, at as int, needle@),
        decreases hay.len() + 1 - at,
    {
        if bytes_match_at(hay, at, needle) {
            return Some(at);
        }
        proof {
            if needle.len() == 0 {
                assert(hay@.subrange(at as int, at as int) =~= needle@);
            }
        }
        at = at + 1;
    }
    None
}

} // verus!
