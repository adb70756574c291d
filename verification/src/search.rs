//! Finding byte strings inside byte strings.
//!
//! The search is the plain one: the first occurrence at or after a position,
//! and the non-overlapping occurrences that a left-to-right scan yields.

use vstd::prelude::*;

verus! {

/// Whether `needle` occurs in `hay` starting at `pos`.
pub open spec fn occurs_at(hay: Seq<u8>, needle: Seq<u8>, pos: int) -> bool {
    0 <= pos && pos + needle.len() <= hay.len() && hay.subrange(pos, pos + needle.len()) == needle
}

/// The first position at or after `from` where `needle` occurs.
pub open spec fn find_from(hay: Seq<u8>, needle: Seq<u8>, from: int) -> Option<int>
    decreases hay.len() + 1 - from,
{
    if from < 0 || from + needle.len() > hay.len() {
        None
    } else if occurs_at(hay, needle, from) {
        Some(from)
    } else {
        find_from(hay, needle, from + 1)
    }
}

/// How far a search moves past a match: the needle's length, and at least one.
pub open spec fn match_step(needle: Seq<u8>) -> int {
    if needle.len() == 0 { 1 } else { needle.len() as int }
}

/// A found position is an occurrence, and the first one at or after `from`.
pub proof fn lemma_find_from(hay: Seq<u8>, needle: Seq<u8>, from: int)
    requires
        0 <= from,
    ensures
        find_from(hay, needle, from) matches Some(p) ==> from <= p && p + needle.len() <= hay.len()
            && occurs_at(hay, needle, p)
            && forall|q: int| from <= q < p ==> !occurs_at(hay, needle, q),
        find_from(hay, needle, from) is None ==> forall|q: int|
            from <= q ==> !occurs_at(hay, needle, q),
    decreases hay.len() + 1 - from,
{
    if from + needle.len() > hay.len() {
    } else if !occurs_at(hay, needle, from) {
        lemma_find_from(hay, needle, from + 1);
    }
}

/// Every non-overlapping occurrence of `needle` at or after `from`, in order:
/// after a match the search resumes past its end.
pub open spec fn hits_from(hay: Seq<u8>, needle: Seq<u8>, from: int) -> Seq<int>
    decreases hay.len() + 1 - from,
{
    match find_from(hay, needle, from) {
        None => Seq::empty(),
        Some(p) => {
            proof {
                lemma_find_from(hay, needle, from);
            }
            seq![p] + hits_from(hay, needle, p + match_step(needle))
        },
    }
}

/// The first occurrence of `needle` at or after `from`.
pub fn find_bytes(hay: &[u8], needle: &[u8], from: usize) -> (r: Option<usize>)
    ensures
        r matches Some(p) ==> find_from(hay@, needle@, from as int) == Some(p as int),
        r is None ==> find_from(hay@, needle@, from as int) is None,
{
    let n = needle.len();
    let len = hay.len();
    if from > len || n > len - from {
        return None;
    }
    let mut i = from;
    while i <= len - n
        invariant
            n == needle@.len(),
            len == hay@.len(),
            n <= len,
            from <= i,
            find_from(hay@, needle@, from as int) == find_from(hay@, needle@, i as int),
        decreases len - i,
    {
        let mut j: usize = 0;
        while j < n && hay[i + j] == needle[j]
            invariant
                j <= n,
                i + n <= len,
                n == needle@.len(),
                len == hay@.len(),
                forall|k: int| 0 <= k < j ==> hay@[i + k] == needle@[k],
            decreases n - j,
        {
            j += 1;
        }
        if j == n {
            assert(hay@.subrange(i as int, i + n) =~= needle@);
            return Some(i);
        }
        assert(hay@.subrange(i as int, i + n)[j as int] != needle@[j as int]);
        i += 1;
    }
    None
}

/// Hits are positions within the member.
pub proof fn lemma_hits_within(hay: Seq<u8>, needle: Seq<u8>, from: int)
    requires
        0 <= from,
    ensures
        forall|i: int| 0 <= i < hits_from(hay, needle, from).len() ==> from <= #[trigger] hits_from(hay, needle, from)[i] <= hay.len(),
    decreases hay.len() + 1 - from,
{
    lemma_find_from(hay, needle, from);
    match find_from(hay, needle, from) {
        None => {},
        Some(p) => {
            lemma_hits_within(hay, needle, p + match_step(needle));
            let rest = hits_from(hay, needle, p + match_step(needle));
            assert forall|i: int| 0 <= i < hits_from(hay, needle, from).len() implies from <= #[trigger] hits_from(hay, needle, from)[i] <= hay.len() by {
                if i > 0 {
                    assert(hits_from(hay, needle, from)[i] == rest[i - 1]);
                }
            }
        },
    }
}

} // verus!
