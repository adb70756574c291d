//! Finding parseable payloads inside a decompressed gzip member.
//!
//! A decompressed member is *not* JSON. It is a binary-framed container that
//! embeds JSON documents as blob payloads, with arbitrary binary bytes before
//! and after each one. Two discovery strategies sit behind one interface:
//!
//! * [`fragment_scanner::FragmentScanner`] locates JSON by anchor field names
//!   and brace matching. Tolerant, format-change resistant, but blind to
//!   anything it has no anchor for.
//! * [`envelope::EnvelopeDecoder`] decodes the binary framing into named blobs.
//!
//! This is reverse-engineered behaviour and is not based on a published
//! Microsoft Prague/Fluid file-format specification.

pub mod envelope;
pub mod fragment_scanner;

use vstd::prelude::*;
use crate::json::{Json, json_from_bytes};

verus! {

/// A JSON document recovered from inside a member.
#[derive(Debug)]
pub struct PayloadCandidate {
    pub member_index: usize,
    /// Byte range within the *decompressed* member.
    pub start: usize,
    pub end: usize,
    /// Which anchor led to this payload. Diagnostic only.
    pub anchor: &'static str,
    pub value: Json,
}

impl Clone for PayloadCandidate {
    fn clone(&self) -> (r: Self)
        ensures
            r.member_index == self.member_index,
            r.start == self.start,
            r.end == self.end,
            r.anchor == self.anchor,
            r.value@ == self.value@,
    {
        PayloadCandidate {
            member_index: self.member_index,
            start: self.start,
            end: self.end,
            anchor: self.anchor,
            value: self.value.deep_copy(),
        }
    }
}

impl PayloadCandidate {
    /// Size in bytes of the JSON slice this payload was parsed from.
    pub fn byte_len(&self) -> (n: usize)
        requires
            self.start <= self.end,
        ensures
            n == self.end - self.start,
    {
        self.end - self.start
    }
}

/// Whether a payload is a JSON object parsed from exactly its byte range of the
/// member it was found in.
pub open spec fn parsed_from(p: PayloadCandidate, member_index: usize, member: Seq<u8>) -> bool {
    &&& p.member_index == member_index
    &&& p.start <= p.end <= member.len()
    &&& json_from_bytes(member.subrange(p.start as int, p.end as int)) == Some(p.value)
    &&& p.value is Object
}

/// Why a strategy could not run on a member.
#[derive(Debug)]
pub enum DiscoveryError {
    Unsupported(String),
}

impl DiscoveryError {
    /// The text of the error, as it is displayed.
    pub fn message(&self) -> (r: String)
        ensures
            r@ == (match self {
                DiscoveryError::Unsupported(m) => m@,
            }),
    {
        match self {
            DiscoveryError::Unsupported(m) => m.clone(),
        }
    }
}

/// A strategy for locating parseable payloads inside one decompressed member.
pub trait PayloadDiscovery {
    /// Name used in diagnostics to record which strategy produced a payload.
    fn name(&self) -> &'static str;

    /// Every payload returned is a JSON object parsed from exactly its range of
    /// `member`.
    fn discover(&self, member_index: usize, member: &[u8]) -> (r: Result<Vec<PayloadCandidate>, DiscoveryError>)
        ensures
            r matches Ok(found) ==> forall|i: int|
                0 <= i < found@.len() ==> parsed_from(#[trigger] found@[i], member_index, member@),
    ;
}

/// Whether `a` sorts no later than `b` by `(start, end)`.
pub open spec fn span_le(a: PayloadCandidate, b: PayloadCandidate) -> bool {
    a.start < b.start || (a.start == b.start && a.end <= b.end)
}

/// Whether payloads are in `(start, end)` order.
pub open spec fn spans_sorted(s: Seq<PayloadCandidate>) -> bool {
    forall|i: int, j: int| 0 <= i < j < s.len() ==> span_le(#[trigger] s[i], #[trigger] s[j])
}

/// The first position in `s` whose payload sorts strictly after `x`.
pub open spec fn first_after(s: Seq<PayloadCandidate>, x: PayloadCandidate) -> int
    decreases s.len(),
{
    if s.len() == 0 {
        0
    } else if !span_le(s[0], x) {
        0
    } else {
        1 + first_after(s.drop_first(), x)
    }
}

/// A stable sort of payloads by `(start, end)`: each payload in turn goes after
/// every earlier one that does not sort after it.
pub open spec fn sort_by_span(s: Seq<PayloadCandidate>) -> Seq<PayloadCandidate>
    decreases s.len(),
{
    if s.len() == 0 {
        s
    } else {
        let sorted = sort_by_span(s.drop_last());
        sorted.insert(first_after(sorted, s.last()), s.last())
    }
}

proof fn lemma_first_after(s: Seq<PayloadCandidate>, x: PayloadCandidate)
    ensures
        0 <= first_after(s, x) <= s.len(),
        forall|i: int| 0 <= i < first_after(s, x) ==> span_le(#[trigger] s[i], x),
        first_after(s, x) < s.len() ==> !span_le(s[first_after(s, x)], x),
    decreases s.len(),
{
    if s.len() > 0 && span_le(s[0], x) {
        lemma_first_after(s.drop_first(), x);
        assert forall|i: int| 0 <= i < first_after(s, x) implies span_le(#[trigger] s[i], x) by {
            if i > 0 {
                assert(s[i] == s.drop_first()[i - 1]);
            }
        }
    }
}

/// The stable sort puts payloads in `(start, end)` order and keeps each one.
pub proof fn lemma_sort_by_span(s: Seq<PayloadCandidate>)
    ensures
        spans_sorted(sort_by_span(s)),
        sort_by_span(s).to_multiset() == s.to_multiset(),
        sort_by_span(s).len() == s.len(),
    decreases s.len(),
{
    broadcast use vstd::seq_lib::group_to_multiset_ensures;
    if s.len() > 0 {
        let prefix = s.drop_last();
        lemma_sort_by_span(prefix);
        let sorted = sort_by_span(prefix);
        let x = s.last();
        let p = first_after(sorted, x);
        lemma_first_after(sorted, x);
        let r = sorted.insert(p, x);
        assert(r == sort_by_span(s));
        assert forall|i: int, j: int| 0 <= i < j < r.len() implies span_le(#[trigger] r[i], #[trigger] r[j]) by {
            if j < p {
                assert(r[i] == sorted[i] && r[j] == sorted[j]);
            } else if j == p {
                assert(r[i] == sorted[i]);
            } else if i == p {
                assert(r[j] == sorted[j - 1]);
                assert(!span_le(sorted[p], x));
                if j - 1 > p {
                    assert(span_le(sorted[p], sorted[j - 1]));
                }
            } else if i < p {
                assert(r[i] == sorted[i] && r[j] == sorted[j - 1]);
            } else {
                assert(r[i] == sorted[i - 1] && r[j] == sorted[j - 1]);
            }
        }
        assert(s == prefix.push(x));
        assert(r.to_multiset() == sorted.to_multiset().insert(x));
        assert(s.to_multiset() == prefix.to_multiset().insert(x));
    }
}

/// Sorts payloads by `(start, end)`, keeping the discovery order of payloads
/// with equal ranges.
pub fn sort_payloads(found: Vec<PayloadCandidate>) -> (r: Vec<PayloadCandidate>)
    ensures
        r@ == sort_by_span(found@),
        spans_sorted(r@),
        r@.to_multiset() == found@.to_multiset(),
{
    let ghost all = found@;
    let n = found.len();
    // Reverse first, so that each payload can be taken from the back.
    let mut src = found;
    let mut rest: Vec<PayloadCandidate> = Vec::new();
    while src.len() > 0
        invariant
            all =~= src@ + rest@.reverse(),
        decreases src.len(),
    {
        let ghost before = rest@;
        let x = src.pop().unwrap();
        rest.push(x);
        assert(rest@.reverse() =~= seq![x] + before.reverse());
    }
    let mut sorted: Vec<PayloadCandidate> = Vec::new();
    let mut taken: usize = 0;
    while taken < n
        invariant
            n == all.len(),
            taken <= n,
            rest@ =~= all.subrange(taken as int, n as int).reverse(),
            sorted@ == sort_by_span(all.take(taken as int)),
        decreases n - taken,
    {
        let x = rest.pop().unwrap();
        assert(x == all[taken as int]);
        let ghost prev = sorted@;
        let mut p: usize = 0;
        proof { lemma_first_after(prev, x); }
        assert(prev.skip(0) =~= prev);
        while p < sorted.len() && span_before(&sorted[p], &x)
            invariant
                sorted@ == prev,
                p <= prev.len(),
                first_after(prev, x) == p + first_after(prev.skip(p as int), x),
            decreases prev.len() - p,
        {
            assert(prev.skip(p as int).drop_first() =~= prev.skip(p + 1));
            p += 1;
        }
        proof {
            if p < prev.len() {
                assert(prev.skip(p as int)[0] == prev[p as int]);
            }
        }
        sorted.insert(p, x);
        assert(all.take(taken + 1).drop_last() =~= all.take(taken as int));
        taken += 1;
    }
    assert(all.take(n as int) =~= all);
    proof { lemma_sort_by_span(all); }
    sorted
}

/// Exec form of [`span_le`].
fn span_before(a: &PayloadCandidate, b: &PayloadCandidate) -> (r: bool)
    ensures
        r == span_le(*a, *b),
{
    a.start < b.start || (a.start == b.start && a.end <= b.end)
}


/// Whether no two payloads cover the same range.
pub open spec fn spans_distinct(s: Seq<PayloadCandidate>) -> bool {
    forall|i: int, j: int|
        0 <= i < j < s.len() ==> !(#[trigger] s[i].start == #[trigger] s[j].start && s[i].end == s[j].end)
}

/// Sorting keeps ranges distinct.
pub proof fn lemma_sort_keeps_spans_distinct(s: Seq<PayloadCandidate>)
    requires
        spans_distinct(s),
    ensures
        spans_distinct(sort_by_span(s)),
    decreases s.len(),
{
    broadcast use vstd::seq_lib::group_to_multiset_ensures;
    if s.len() > 0 {
        let prefix = s.drop_last();
        assert forall|i: int, j: int| 0 <= i < j < prefix.len() implies !(#[trigger] prefix[i].start
            == #[trigger] prefix[j].start && prefix[i].end == prefix[j].end) by {
            assert(prefix[i] == s[i] && prefix[j] == s[j]);
        }
        lemma_sort_keeps_spans_distinct(prefix);
        lemma_sort_by_span(prefix);
        let sorted = sort_by_span(prefix);
        let x = s.last();
        lemma_first_after(sorted, x);
        let p = first_after(sorted, x);
        let r = sorted.insert(p, x);
        assert(r == sort_by_span(s));
        assert forall|k: int| 0 <= k < sorted.len() implies !((#[trigger] sorted[k]).start == x.start
            && sorted[k].end == x.end) by {
            assert(sorted.contains(sorted[k]));
            assert(sorted.to_multiset().count(sorted[k]) > 0);
            assert(prefix.contains(sorted[k]));
            let m = choose|m: int| 0 <= m < prefix.len() && prefix[m] == sorted[k];
            assert(s[m] == prefix[m]);
            assert(s[s.len() - 1] == x);
        }
        assert forall|i: int, j: int| 0 <= i < j < r.len() implies !(#[trigger] r[i].start == #[trigger] r[j].start
            && r[i].end == r[j].end) by {
            if j < p {
                assert(r[i] == sorted[i] && r[j] == sorted[j]);
            } else if j == p {
                assert(r[i] == sorted[i]);
                assert(r[j] == x);
            } else if i == p {
                assert(r[i] == x);
                assert(r[j] == sorted[j - 1]);
            } else if i < p {
                assert(r[i] == sorted[i] && r[j] == sorted[j - 1]);
            } else {
                assert(r[i] == sorted[i - 1] && r[j] == sorted[j - 1]);
            }
        }
    }
}

} // verus!
