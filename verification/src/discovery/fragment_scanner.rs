//! Locates embedded JSON documents inside a binary-framed member.
//!
//! The strategy is anchor-driven rather than path-driven, because Microsoft may
//! nest Fluid state differently between Loop versions:
//!
//! 1. find a known field name (the anchor) anywhere in the member's bytes;
//! 2. walk backwards to a candidate `{`;
//! 3. brace-match forwards, tracking string state so that braces and quotes
//!    inside JSON string values are ignored;
//! 4. parse the resulting slice as JSON;
//! 5. accept it only if it parses as an object and still contains the anchor.
//!
//! Candidates are tried nearest-first, so the *smallest* enclosing object wins.
//! That matters: the anchor `segmentTexts` sits inside a merge-tree chunk object
//! which itself sits inside much larger structures.
//!
//! No regex is used, and no fixed byte offset is assumed.

use vstd::prelude::*;
use vstd::string::*;
use crate::json::{Json, json_from_bytes};
use crate::search::{find_from, hits_from, match_step, lemma_find_from, lemma_hits_within, find_bytes};
use super::{PayloadCandidate, DiscoveryError, PayloadDiscovery, parsed_from, sort_by_span, sort_payloads, spans_distinct};

verus! {

// ---------------------------------------------------------------------------
// Opening braces before an anchor
// ---------------------------------------------------------------------------

/// The last `{` in `data[floor..cursor]`.
pub open spec fn brace_before(data: Seq<u8>, floor: int, cursor: int) -> Option<int>
    decreases cursor - floor,
{
    if cursor <= floor {
        None
    } else if data[cursor - 1] == 0x7bu8 {
        Some(cursor - 1)
    } else {
        brace_before(data, floor, cursor - 1)
    }
}

/// The `skip`-th `{` (counting from zero) walking backwards from `cursor`,
/// not going below `floor`.
pub open spec fn nth_brace(data: Seq<u8>, floor: int, cursor: int, skip: nat) -> Option<int>
    decreases skip,
{
    match brace_before(data, floor, cursor) {
        None => None,
        Some(p) => if skip == 0 { Some(p) } else { nth_brace(data, floor, p, (skip - 1) as nat) },
    }
}

/// The lowest position a backward search from `hit` may look at.
pub open spec fn lookback_floor(hit: int, limits: ScannerLimits) -> int {
    if hit > limits.max_lookback { hit - limits.max_lookback } else { 0 }
}

// ---------------------------------------------------------------------------
// Brace matching
// ---------------------------------------------------------------------------

/// Whether `b` is JSON insignificant whitespace.
pub open spec fn is_json_space(b: u8) -> bool {
    b == 0x09u8 || b == 0x0au8 || b == 0x0du8 || b == 0x20u8
}

/// The brace matcher's state after reading `data[..i]`: nesting `depth`,
/// whether it is inside a string, and whether the previous byte was an escape.
/// Returns the end of the object, or `None` when it does not close before
/// `limit` or a control byte appears where JSON forbids one.
pub open spec fn scan_object(data: Seq<u8>, limit: int, i: int, depth: int, in_string: bool, escaped: bool) -> Option<int>
    decreases limit - i,
{
    if i >= limit {
        None
    } else {
        let b = data[i];
        if in_string {
            if escaped {
                scan_object(data, limit, i + 1, depth, true, false)
            } else if b == 0x5cu8 {
                scan_object(data, limit, i + 1, depth, true, true)
            } else if b == 0x22u8 {
                scan_object(data, limit, i + 1, depth, false, false)
            } else if b < 0x20u8 {
                None
            } else {
                scan_object(data, limit, i + 1, depth, true, false)
            }
        } else if b == 0x22u8 {
            scan_object(data, limit, i + 1, depth, true, false)
        } else if b == 0x7bu8 {
            scan_object(data, limit, i + 1, depth + 1, false, false)
        } else if b == 0x7du8 {
            if depth - 1 == 0 {
                Some(i + 1)
            } else {
                scan_object(data, limit, i + 1, depth - 1, false, false)
            }
        } else if is_json_space(b) {
            scan_object(data, limit, i + 1, depth, false, false)
        } else if b < 0x20u8 {
            None
        } else {
            scan_object(data, limit, i + 1, depth, false, false)
        }
    }
}

/// The exclusive end of the JSON object opening at `start`, looking at no more
/// than `max_bytes` bytes.
pub open spec fn object_end(data: Seq<u8>, start: int, max_bytes: int) -> Option<int> {
    if 0 <= start < data.len() && data[start] == 0x7bu8 {
        let limit = if start + max_bytes < data.len() { start + max_bytes } else { data.len() as int };
        scan_object(data, limit, start, 0, false, false)
    } else {
        None
    }
}

proof fn lemma_scan_object_bounds(data: Seq<u8>, limit: int, i: int, depth: int, in_string: bool, escaped: bool)
    requires
        0 <= i,
        limit <= data.len(),
    ensures
        scan_object(data, limit, i, depth, in_string, escaped) matches Some(e) ==> i < e <= limit
            && data[e - 1] == 0x7du8,
    decreases limit - i,
{
    if i < limit {
        lemma_scan_object_bounds(data, limit, i + 1, depth, true, false);
        lemma_scan_object_bounds(data, limit, i + 1, depth, true, true);
        lemma_scan_object_bounds(data, limit, i + 1, depth, false, false);
        lemma_scan_object_bounds(data, limit, i + 1, depth + 1, false, false);
        lemma_scan_object_bounds(data, limit, i + 1, depth - 1, false, false);
    }
}

/// A matched object starts with `{`, ends with `}` and stays within both the
/// data and the byte budget.
pub proof fn lemma_object_end(data: Seq<u8>, start: int, max_bytes: int)
    requires
        0 <= max_bytes,
    ensures
        object_end(data, start, max_bytes) matches Some(end) ==> 0 <= start < end <= data.len()
            && end <= start + max_bytes && data[start] == 0x7bu8 && data[end - 1] == 0x7du8,
{
    if 0 <= start < data.len() && data[start] == 0x7bu8 {
        let limit = if start + max_bytes < data.len() { start + max_bytes } else { data.len() as int };
        lemma_scan_object_bounds(data, limit, start, 0, false, false);
    }
}

/// Returns the exclusive end offset of the JSON object opening at `start`.
///
/// Quote-aware and escape-aware: braces and quotes inside string values do not
/// affect nesting depth. Returns `None` if the object does not close within
/// `max_bytes`, or if a control byte appears where JSON forbids one, which is
/// the usual sign that `start` was a brace inside binary framing rather than the
/// start of a real object.
pub fn match_object(data: &[u8], start: usize, max_bytes: usize) -> (r: Option<usize>)
    ensures
        r matches Some(end) ==> object_end(data@, start as int, max_bytes as int) == Some(end as int),
        r is None ==> object_end(data@, start as int, max_bytes as int) is None,
        r matches Some(end) ==> start < end <= data@.len() && end - start <= max_bytes
            && data@[start as int] == 0x7bu8 && data@[end - 1] == 0x7du8,
{
    proof { lemma_object_end(data@, start as int, max_bytes as int); }
    if start >= data.len() || data[start] != 0x7bu8 {
        return None;
    }
    let len = data.len();
    let limit = if max_bytes < len - start { start + max_bytes } else { len };
    let ghost spec_limit: int = if start + max_bytes < len { start + max_bytes } else { len as int };
    assert(limit == spec_limit);
    let mut depth: usize = 0;
    let mut in_string = false;
    let mut escaped = false;
    let mut i = start;
    while i < limit
        invariant
            start <= i <= limit <= len,
            len == data@.len(),
            data@[start as int] == 0x7bu8,
            limit == spec_limit,
            object_end(data@, start as int, max_bytes as int) == scan_object(
                data@,
                limit as int,
                i as int,
                depth as int,
                in_string,
                escaped,
            ),
            (i == start && depth == 0 && !in_string && !escaped) || depth >= 1,
            depth <= i - start,
            escaped ==> in_string,
        decreases limit - i,
    {
        let byte = data[i];
        let ghost (d0, s0, e0) = (depth as int, in_string, escaped);
        if in_string {
            if escaped {
                escaped = false;
            } else if byte == 0x5cu8 {
                escaped = true;
            } else if byte == 0x22u8 {
                in_string = false;
            } else if byte < 0x20u8 {
                return None;
            }
        } else if byte == 0x22u8 {
            in_string = true;
        } else if byte == 0x7bu8 {
            depth += 1;
        } else if byte == 0x7du8 {
            depth -= 1;
            if depth == 0 {
                assert(object_end(data@, start as int, max_bytes as int) == Some(i + 1));
                proof { lemma_object_end(data@, start as int, max_bytes as int); }
                return Some(i + 1);
            }
        } else if byte == 0x09u8 || byte == 0x0au8 || byte == 0x0du8 || byte == 0x20u8 {
        } else if byte < 0x20u8 {
            return None;
        }
        assert(scan_object(data@, limit as int, i as int, d0, s0, e0) == scan_object(
            data@,
            limit as int,
            i + 1,
            depth as int,
            in_string,
            escaped,
        ));
        i += 1;
    }
    None
}

// ---------------------------------------------------------------------------
// The scanner
// ---------------------------------------------------------------------------

/// Bounds that keep a malformed member from causing unbounded work.
#[derive(Debug, Clone, Copy)]
pub struct ScannerLimits {
    /// How far back from an anchor to look for the opening brace.
    pub max_lookback: usize,
    /// How many candidate opening braces to try per anchor hit.
    pub max_brace_candidates: usize,
    /// Largest object that will be brace-matched.
    pub max_object_bytes: usize,
    /// Total accepted payloads per member.
    pub max_payloads_per_member: usize,
}

impl Default for ScannerLimits {
    fn default() -> (r: Self)
        ensures
            r.max_lookback == 1024 * 1024,
            r.max_brace_candidates == 64,
            r.max_object_bytes == 32 * 1024 * 1024,
            r.max_payloads_per_member == 4096,
    {
        ScannerLimits {
            max_lookback: 1024 * 1024,
            max_brace_candidates: 64,
            max_object_bytes: 32 * 1024 * 1024,
            max_payloads_per_member: 4096,
        }
    }
}

/// Field names that mark a payload worth parsing.
///
/// The first five identify Fluid merge-tree chunk summaries; `package`
/// identifies the component-identity record that names the Loop component and
/// its build version.
pub open spec fn default_anchor_texts() -> Seq<Seq<char>> {
    seq![
        "\"chunkStartSegmentIndex\""@,
        "\"segmentTexts\""@,
        "\"headerMetadata\""@,
        "\"orderedChunkMetadata\""@,
        "\"chunkSegmentCount\""@,
        "\"package\""@,
    ]
}

/// The anchors a default scanner looks for, in search order.
pub fn default_anchors() -> (r: Vec<&'static str>)
    ensures
        r@.map_values(|a: &'static str| a@) == default_anchor_texts(),
{
    let r = vec![
        "\"chunkStartSegmentIndex\"",
        "\"segmentTexts\"",
        "\"headerMetadata\"",
        "\"orderedChunkMetadata\"",
        "\"chunkSegmentCount\"",
        "\"package\"",
    ];
    assert(r@.map_values(|a: &'static str| a@) =~= default_anchor_texts());
    r
}

/// Finds JSON objects by anchor field names and brace matching.
#[derive(Debug)]
pub struct FragmentScanner {
    anchors: Vec<&'static str>,
    limits: ScannerLimits,
}

impl Default for FragmentScanner {
    fn default() -> (r: Self)
        ensures
            r.anchors()@.map_values(|a: &'static str| a@) == default_anchor_texts(),
            r.limits() == ScannerLimits::default_limits(),
    {
        FragmentScanner { anchors: default_anchors(), limits: ScannerLimits::default() }
    }
}

impl ScannerLimits {
    /// The limits `ScannerLimits::default()` gives.
    pub open spec fn default_limits() -> ScannerLimits {
        ScannerLimits {
            max_lookback: 1048576usize,
            max_brace_candidates: 64,
            max_object_bytes: 33554432usize,
            max_payloads_per_member: 4096,
        }
    }
}

impl FragmentScanner {
    /// The anchors, in search order.
    pub closed spec fn anchors(&self) -> Vec<&'static str> {
        self.anchors
    }

    /// The limits in force.
    pub closed spec fn limits(&self) -> ScannerLimits {
        self.limits
    }

    /// A scanner looking for the given anchors, with default limits.
    pub fn with_anchors(anchors: Vec<&'static str>) -> (r: Self)
        ensures
            r.anchors() == anchors,
            r.limits() == ScannerLimits::default_limits(),
    {
        FragmentScanner { anchors, limits: ScannerLimits::default() }
    }

    /// The same scanner with other limits.
    pub fn with_limits(self, limits: ScannerLimits) -> (r: Self)
        ensures
            r.anchors() == self.anchors(),
            r.limits() == limits,
    {
        FragmentScanner { limits, ..self }
    }
}


// ---------------------------------------------------------------------------
// What discovery computes
// ---------------------------------------------------------------------------

/// The smallest object enclosing `hit` that parses: opening braces are tried
/// nearest-first, starting with the `skip`-th. Gives the object's range and
/// value.
pub open spec fn extract_from(member: Seq<u8>, hit: int, limits: ScannerLimits, skip: nat) -> Option<(int, int, Json)>
    decreases limits.max_brace_candidates - skip,
{
    if skip >= limits.max_brace_candidates {
        None
    } else {
        match nth_brace(member, lookback_floor(hit, limits), hit, skip) {
            None => None,
            Some(start) => match object_end(member, start, limits.max_object_bytes as int) {
                None => extract_from(member, hit, limits, skip + 1),
                Some(end) => if end <= hit {
                    extract_from(member, hit, limits, skip + 1)
                } else {
                    match json_from_bytes(member.subrange(start, end)) {
                        Some(v) => if v is Object {
                            Some((start, end, v))
                        } else {
                            extract_from(member, hit, limits, skip + 1)
                        },
                        None => extract_from(member, hit, limits, skip + 1),
                    }
                },
            },
        }
    }
}

/// Whether a payload starting at `start` has been accepted.
pub open spec fn has_start(found: Seq<PayloadCandidate>, start: int) -> bool {
    exists|i: int| 0 <= i < found.len() && #[trigger] found[i].start == start
}

/// Whether a payload with exactly this range has been accepted.
pub open spec fn has_span(found: Seq<PayloadCandidate>, start: int, end: int) -> bool {
    exists|i: int| 0 <= i < found.len() && #[trigger] found[i].start == start && found[i].end == end
}

/// Handles one anchor hit. A hit whose nearest brace already starts an accepted
/// payload is skipped (anchors often co-occur inside one object); otherwise the
/// enclosing object is extracted and kept unless its range is already known.
pub open spec fn take_hit(
    member: Seq<u8>,
    limits: ScannerLimits,
    member_index: usize,
    found: Seq<PayloadCandidate>,
    event: (&'static str, int),
) -> Seq<PayloadCandidate> {
    let hit = event.1;
    let known = match nth_brace(member, lookback_floor(hit, limits), hit, 0) {
        Some(b) => has_start(found, b),
        None => false,
    };
    if known {
        found
    } else {
        match extract_from(member, hit, limits, 0) {
            None => found,
            Some(x) => if has_span(found, x.0, x.1) {
                found
            } else {
                found.push(
                    PayloadCandidate {
                        member_index,
                        start: x.0 as usize,
                        end: x.1 as usize,
                        anchor: event.0,
                        value: x.2,
                    },
                )
            },
        }
    }
}

/// Every anchor hit, anchor by anchor in search order, each anchor's hits in
/// position order.
pub open spec fn anchor_events(member: Seq<u8>, anchors: Seq<&'static str>) -> Seq<(&'static str, int)>
    decreases anchors.len(),
{
    if anchors.len() == 0 {
        Seq::empty()
    } else {
        let a = anchors.last();
        anchor_events(member, anchors.drop_last()) + hits_from(member, a.spec_bytes(), 0).map_values(
            |h: int| (a, h),
        )
    }
}

/// The payloads accepted after the given hits, and whether the per-member cap
/// stopped the scan. Once the cap is reached at a hit, nothing more happens.
pub open spec fn scan_events(
    member: Seq<u8>,
    limits: ScannerLimits,
    member_index: usize,
    events: Seq<(&'static str, int)>,
) -> (Seq<PayloadCandidate>, bool)
    decreases events.len(),
{
    if events.len() == 0 {
        (Seq::empty(), false)
    } else {
        let before = scan_events(member, limits, member_index, events.drop_last());
        if before.1 || before.0.len() >= limits.max_payloads_per_member {
            (before.0, true)
        } else {
            (take_hit(member, limits, member_index, before.0, events.last()), false)
        }
    }
}

/// Once the cap has stopped a scan, later hits change nothing.
proof fn lemma_scan_capped(
    member: Seq<u8>,
    limits: ScannerLimits,
    member_index: usize,
    events: Seq<(&'static str, int)>,
    n: int,
)
    requires
        0 <= n <= events.len(),
        scan_events(member, limits, member_index, events.take(n)).1,
    ensures
        scan_events(member, limits, member_index, events) == scan_events(member, limits, member_index, events.take(n)),
    decreases events.len() - n,
{
    if n < events.len() {
        assert(events.take(n + 1).drop_last() =~= events.take(n));
        lemma_scan_capped(member, limits, member_index, events, n + 1);
    } else {
        assert(events.take(n) =~= events);
    }
}

/// The events of the first anchors come first among the events of all.
proof fn lemma_anchor_events_prefix(member: Seq<u8>, anchors: Seq<&'static str>, a: int)
    requires
        0 <= a <= anchors.len(),
    ensures
        anchor_events(member, anchors.take(a)).is_prefix_of(anchor_events(member, anchors)),
    decreases anchors.len() - a,
{
    if a < anchors.len() {
        lemma_anchor_events_prefix(member, anchors, a + 1);
        assert(anchors.take(a + 1).drop_last() =~= anchors.take(a));
    } else {
        assert(anchors.take(a) =~= anchors);
    }
}

/// What a scan of the member returns: the accepted payloads in `(start, end)`
/// order, or in acceptance order when the per-member cap cut the scan short.
pub open spec fn scan_result(
    member: Seq<u8>,
    anchors: Seq<&'static str>,
    limits: ScannerLimits,
    member_index: usize,
) -> Seq<PayloadCandidate> {
    let r = scan_events(member, limits, member_index, anchor_events(member, anchors));
    if r.1 { r.0 } else { sort_by_span(r.0) }
}

/// Every accepted payload is a JSON object parsed from exactly its range.
proof fn lemma_scan_parsed(
    member: Seq<u8>,
    limits: ScannerLimits,
    member_index: usize,
    events: Seq<(&'static str, int)>,
)
    requires
        member.len() <= usize::MAX,
        forall|i: int| 0 <= i < events.len() ==> 0 <= (#[trigger] events[i]).1 <= member.len(),
    ensures
        forall|i: int| 0 <= i < scan_events(member, limits, member_index, events).0.len()
            ==> parsed_from(#[trigger] scan_events(member, limits, member_index, events).0[i], member_index, member),
    decreases events.len(),
{
    if events.len() > 0 {
        let prefix = events.drop_last();
        assert forall|i: int| 0 <= i < prefix.len() implies 0 <= (#[trigger] prefix[i]).1 <= member.len() by {
            assert(prefix[i] == events[i]);
        }
        lemma_scan_parsed(member, limits, member_index, prefix);
        let hit = events.last().1;
        lemma_extract_from(member, hit, limits, 0);
        let prev = scan_events(member, limits, member_index, prefix).0;
        let now = scan_events(member, limits, member_index, events).0;
        assert forall|i: int| 0 <= i < now.len() implies parsed_from(#[trigger] now[i], member_index, member) by {
            if i < prev.len() {
                assert(now[i] == prev[i]);
            }
        }
    }
}

/// An extracted object encloses the hit, lies within the member and parses as
/// a JSON object.
proof fn lemma_extract_from(member: Seq<u8>, hit: int, limits: ScannerLimits, skip: nat)
    ensures
        extract_from(member, hit, limits, skip) matches Some(x) ==> 0 <= x.0 < x.1 <= member.len()
            && x.1 > hit && json_from_bytes(member.subrange(x.0, x.1)) == Some(x.2) && x.2 is Object,
    decreases limits.max_brace_candidates - skip,
{
    if skip < limits.max_brace_candidates {
        lemma_extract_from(member, hit, limits, skip + 1);
        match nth_brace(member, lookback_floor(hit, limits), hit, skip) {
            Some(start) => lemma_object_end(member, start, limits.max_object_bytes as int),
            None => {},
        }
    }
}

proof fn lemma_anchor_events_within(member: Seq<u8>, anchors: Seq<&'static str>)
    ensures
        forall|i: int| 0 <= i < anchor_events(member, anchors).len() ==> 0 <= (#[trigger] anchor_events(member, anchors)[i]).1 <= member.len(),
    decreases anchors.len(),
{
    if anchors.len() > 0 {
        let a = anchors.last();
        lemma_anchor_events_within(member, anchors.drop_last());
        lemma_hits_within(member, a.spec_bytes(), 0);
        let first = anchor_events(member, anchors.drop_last());
        let hs = hits_from(member, a.spec_bytes(), 0);
        assert forall|i: int| 0 <= i < anchor_events(member, anchors).len() implies 0 <= (#[trigger] anchor_events(member, anchors)[i]).1 <= member.len() by {
            if i >= first.len() {
                assert(anchor_events(member, anchors)[i].1 == hs[i - first.len()]);
            } else {
                assert(anchor_events(member, anchors)[i] == first[i]);
            }
        }
    }
}

/// Every payload a scan returns is a JSON object parsed from exactly its range
/// of the member.
pub proof fn lemma_scan_result_parsed(
    member: Seq<u8>,
    anchors: Seq<&'static str>,
    limits: ScannerLimits,
    member_index: usize,
)
    requires
        member.len() <= usize::MAX,
    ensures
        forall|i: int| 0 <= i < scan_result(member, anchors, limits, member_index).len()
            ==> parsed_from(#[trigger] scan_result(member, anchors, limits, member_index)[i], member_index, member),
{
    let events = anchor_events(member, anchors);
    lemma_anchor_events_within(member, anchors);
    lemma_scan_parsed(member, limits, member_index, events);
    let r = scan_events(member, limits, member_index, events);
    if !r.1 {
        super::lemma_sort_by_span(r.0);
        let s = sort_by_span(r.0);
        assert forall|i: int| 0 <= i < s.len() implies parsed_from(#[trigger] s[i], member_index, member) by {
            s.to_multiset_ensures();
            r.0.to_multiset_ensures();
            assert(s.contains(s[i]));
            assert(s.to_multiset().count(s[i]) > 0);
            assert(r.0.to_multiset().count(s[i]) > 0);
            assert(r.0.contains(s[i]));
            let j = choose|j: int| 0 <= j < r.0.len() && r.0[j] == s[i];
            assert(parsed_from(r.0[j], member_index, member));
        }
    }
}


// ---------------------------------------------------------------------------
// Discovery
// ---------------------------------------------------------------------------

/// Whether some payload in `found` starts at `start`.
fn starts_at(found: &Vec<PayloadCandidate>, start: usize) -> (r: bool)
    ensures
        r == has_start(found@, start as int),
{
    let mut k: usize = 0;
    while k < found.len()
        invariant
            k <= found@.len(),
            forall|j: int| 0 <= j < k ==> (#[trigger] found@[j]).start != start,
        decreases found@.len() - k,
    {
        if found[k].start == start {
            return true;
        }
        k += 1;
    }
    false
}

/// Whether some payload in `found` has exactly the range `start..end`.
fn covers_range(found: &Vec<PayloadCandidate>, start: usize, end: usize) -> (r: bool)
    ensures
        r == has_span(found@, start as int, end as int),
{
    let mut k: usize = 0;
    while k < found.len()
        invariant
            k <= found@.len(),
            forall|j: int| 0 <= j < k ==> !((#[trigger] found@[j]).start == start && found@[j].end == end),
        decreases found@.len() - k,
    {
        if found[k].start == start && found[k].end == end {
            return true;
        }
        k += 1;
    }
    false
}

impl FragmentScanner {
    /// The `skip`-th opening brace before `hit`, nearest first, no further back
    /// than the lookback limit.
    fn nearest_brace(&self, member: &[u8], hit: usize, skip: usize) -> (r: Option<usize>)
        requires
            hit <= member@.len(),
        ensures
            r matches Some(p) ==> nth_brace(member@, lookback_floor(hit as int, self.limits), hit as int, skip as nat)
                == Some(p as int),
            r is None ==> nth_brace(member@, lookback_floor(hit as int, self.limits), hit as int, skip as nat) is None,
    {
        let floor = if hit > self.limits.max_lookback { hit - self.limits.max_lookback } else { 0 };
        let mut cursor = hit;
        let mut skipped: usize = 0;
        while cursor > floor
            invariant
                floor == lookback_floor(hit as int, self.limits),
                floor <= cursor <= hit <= member@.len(),
                skipped <= skip,
                nth_brace(member@, floor as int, hit as int, skip as nat) == nth_brace(
                    member@,
                    floor as int,
                    cursor as int,
                    (skip - skipped) as nat,
                ),
            decreases cursor,
        {
            cursor -= 1;
            if member[cursor] == 0x7bu8 {
                if skipped == skip {
                    return Some(cursor);
                }
                skipped += 1;
            }
        }
        None
    }

    /// Finds the smallest JSON object that encloses `hit` and parses.
    fn extract(&self, member: &[u8], hit: usize) -> (r: Option<(usize, usize, Json)>)
        requires
            hit <= member@.len(),
        ensures
            r matches Some(x) ==> extract_from(member@, hit as int, self.limits, 0) == Some(
                (x.0 as int, x.1 as int, x.2),
            ),
            r is None ==> extract_from(member@, hit as int, self.limits, 0) is None,
    {
        let mut skip: usize = 0;
        while skip < self.limits.max_brace_candidates
            invariant
                hit <= member@.len(),
                extract_from(member@, hit as int, self.limits, 0) == extract_from(
                    member@,
                    hit as int,
                    self.limits,
                    skip as nat,
                ),
            decreases self.limits.max_brace_candidates - skip,
        {
            let start = match self.nearest_brace(member, hit, skip) {
                Some(p) => p,
                None => return None,
            };
            match match_object(member, start, self.limits.max_object_bytes) {
                None => {},
                Some(end) => {
                    if end > hit {
                        match Json::parse_bytes(&member[start..end]) {
                            Some(value) => {
                                if value.is_object() {
                                    return Some((start, end, value));
                                }
                            },
                            None => {},
                        }
                    }
                },
            }
            skip += 1;
        }
        None
    }
}

impl PayloadDiscovery for FragmentScanner {
    /// Names this strategy in diagnostics: `fragment-scanner`.
    fn name(&self) -> (r: &'static str)
        ensures
            r@ == "fragment-scanner"@,
    {
        "fragment-scanner"
    }

    /// Anchors are searched in order, each one's hits in position order. The
    /// payloads come back sorted by `(start, end)`, except when the per-member
    /// cap stops the scan, which returns what was accepted so far as it stands.
    fn discover(&self, member_index: usize, member: &[u8]) -> (r: Result<Vec<PayloadCandidate>, DiscoveryError>)
        ensures
            r matches Ok(found) && found@ == scan_result(member@, self.anchors()@, self.limits(), member_index),
    {
        let ghost anchors = self.anchors@;
        let ghost limits = self.limits;
        assert(member@.len() == member.len());
        let mut found: Vec<PayloadCandidate> = Vec::new();
        let ghost mut events: Seq<(&'static str, int)> = Seq::empty();
        assert(anchors.take(0) =~= Seq::<&'static str>::empty());
        let mut a: usize = 0;
        while a < self.anchors.len()
            invariant
                anchors == self.anchors@,
                limits == self.limits,
                member@.len() <= usize::MAX,
                a <= anchors.len(),
                events == anchor_events(member@, anchors.take(a as int)),
                scan_events(member@, limits, member_index, events) == (found@, false),
            decreases anchors.len() - a,
        {
            let anchor: &'static str = self.anchors[a];
            let needle = anchor.as_bytes();
            let ghost base = events;
            let ghost mut done: Seq<int> = Seq::empty();
            let ghost step = match_step(needle@);
            assert(anchors.take(a + 1).drop_last() =~= anchors.take(a as int));
            assert(anchors.take(a + 1).last() == anchor);
            assert(done + hits_from(member@, needle@, 0) =~= hits_from(member@, needle@, 0));
            assert(base + done.map_values(|h: int| (anchor, h)) =~= base);
            let mut pos: usize = 0;
            loop
                invariant_except_break
                    hits_from(member@, needle@, 0) == done + hits_from(member@, needle@, pos as int),
                invariant
                    anchors == self.anchors@,
                    limits == self.limits,
                    a < anchors.len(),
                    anchor == anchors[a as int],
                    needle@ == anchor.spec_bytes(),
                    step == match_step(needle@),
                    member@.len() <= usize::MAX,
                    pos <= member@.len() + 1,
                    base == anchor_events(member@, anchors.take(a as int)),
                    events == base + done.map_values(|h: int| (anchor, h)),
                    scan_events(member@, limits, member_index, events) == (found@, false),
                ensures
                    hits_from(member@, needle@, 0) == done,
                decreases member@.len() + 1 - pos,
            {
                let hit = match find_bytes(member, needle, pos) {
                    Some(h) => h,
                    None => {
                        assert(done + hits_from(member@, needle@, pos as int) =~= done);
                        break;
                    },
                };
                proof {
                    lemma_find_from(member@, needle@, pos as int);
                }
                let ghost rest = hits_from(member@, needle@, hit + step);
                assert(hits_from(member@, needle@, pos as int) == seq![hit as int] + rest);
                let ghost ev = (anchor, hit as int);
                let ghost events2 = events.push(ev);
                assert(events2.drop_last() =~= events);
                if found.len() >= self.limits.max_payloads_per_member {
                    proof {
                        let all = anchor_events(member@, anchors);
                        let mine = anchor_events(member@, anchors.take(a + 1));
                        assert(anchors.take(a + 1).drop_last() =~= anchors.take(a as int));
                        assert(anchors.take(a + 1).last() == anchor);
                        lemma_anchor_events_prefix(member@, anchors, a + 1);
                        assert(mine == base + hits_from(member@, needle@, 0).map_values(|h: int| (anchor, h)));
                        assert(hits_from(member@, needle@, 0) =~= done.push(hit as int) + rest);
                        assert(events2 =~= base + done.push(hit as int).map_values(|h: int| (anchor, h)));
                        assert(mine =~= events2 + rest.map_values(|h: int| (anchor, h)));
                        assert(all.take(events2.len() as int) =~= events2);
                        lemma_scan_capped(member@, limits, member_index, all, events2.len() as int);
                        assert(anchors.take(anchors.len() as int) =~= anchors);
                        lemma_scan_result_parsed(member@, anchors, limits, member_index);
                        assert forall|i: int| 0 <= i < found@.len() implies parsed_from(
                            #[trigger] found@[i],
                            member_index,
                            member@,
                        ) by {
                            assert(found@[i] == scan_result(member@, anchors, limits, member_index)[i]);
                        }
                    }
                    return Ok(found);
                }
                let known = match self.nearest_brace(member, hit, 0) {
                    Some(b) => starts_at(&found, b),
                    None => false,
                };
                if !known {
                    match self.extract(member, hit) {
                        Some(x) => {
                            let (start, end, value) = x;
                            if !covers_range(&found, start, end) {
                                found.push(
                                    PayloadCandidate { member_index, start, end, anchor, value },
                                );
                            }
                        },
                        None => {},
                    }
                }
                proof {
                    assert(hits_from(member@, needle@, 0) =~= done.push(hit as int) + rest);
                    assert(events2 =~= base + done.push(hit as int).map_values(|h: int| (anchor, h)));
                    done = done.push(hit as int);
                    events = events2;
                }
                if needle.len() == 0 && hit >= member.len() {
                    assert(rest =~= Seq::<int>::empty());
                    assert(done + rest =~= done);
                    break;
                }
                pos = if needle.len() == 0 { hit + 1 } else { hit + needle.len() };
            }
            assert(events =~= anchor_events(member@, anchors.take(a + 1)));
            a += 1;
        }
        assert(anchors.take(anchors.len() as int) =~= anchors);
        let sorted = sort_payloads(found);
        proof {
            lemma_scan_result_parsed(member@, anchors, limits, member_index);
            assert forall|i: int| 0 <= i < sorted@.len() implies parsed_from(
                #[trigger] sorted@[i],
                member_index,
                member@,
            ) by {
                assert(sorted@[i] == scan_result(member@, anchors, limits, member_index)[i]);
            }
        }
        Ok(sorted)
    }
}


proof fn lemma_scan_events_distinct(
    member: Seq<u8>,
    limits: ScannerLimits,
    member_index: usize,
    events: Seq<(&'static str, int)>,
)
    requires
        member.len() <= usize::MAX,
    ensures
        spans_distinct(scan_events(member, limits, member_index, events).0),
    decreases events.len(),
{
    if events.len() > 0 {
        lemma_scan_events_distinct(member, limits, member_index, events.drop_last());
        let before = scan_events(member, limits, member_index, events.drop_last());
        if !(before.1 || before.0.len() >= limits.max_payloads_per_member) {
            let found = before.0;
            let after = take_hit(member, limits, member_index, found, events.last());
            lemma_extract_from(member, events.last().1, limits, 0);
            assert forall|i: int, j: int| 0 <= i < j < after.len() implies !(#[trigger] after[i].start
                == #[trigger] after[j].start && after[i].end == after[j].end) by {
                if j >= found.len() {
                    assert(after[i] == found[i]);
                    if after[i].start == after[j].start && after[i].end == after[j].end {
                        assert(has_span(found, after[j].start as int, after[j].end as int));
                    }
                } else {
                    assert(after[i] == found[i] && after[j] == found[j]);
                }
            }
        }
    }
}

/// No range is reported twice: anchors that co-occur inside one object give
/// that object once.
pub proof fn lemma_no_range_reported_twice(
    member: Seq<u8>,
    anchors: Seq<&'static str>,
    limits: ScannerLimits,
    member_index: usize,
)
    requires
        member.len() <= usize::MAX,
    ensures
        spans_distinct(scan_result(member, anchors, limits, member_index)),
{
    let events = anchor_events(member, anchors);
    lemma_scan_events_distinct(member, limits, member_index, events);
    let r = scan_events(member, limits, member_index, events);
    if !r.1 {
        super::lemma_sort_keeps_spans_distinct(r.0);
    }
}

} // verus!
