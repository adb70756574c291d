//! Embedded gzip member discovery and bounded decompression.
//!
//! A `.loop` / `.fluid` container holds many independent gzip members laid out
//! end to end. Members are found by scanning for the gzip magic `1F 8B 08`
//! rather than by following a container index, because the container framing is
//! not yet decoded.
//!
//! This is reverse-engineered behaviour and is not based on a published
//! Microsoft Prague/Fluid file-format specification.
//!
//! Assumption (not confirmed): a byte sequence `1F 8B 08` that fails to inflate
//! is a coincidental match inside compressed data, not a corrupt member. Either
//! way it is recorded as a failed candidate and skipped.

use std::io::Read;
use vstd::prelude::*;
use vstd::utf8::valid_utf8;
use crate::digest::{sha256, sha256_of};
use crate::search::{find_bytes, find_from, hits_from, lemma_find_from};
use crate::text::{decimal, decimal_digits};
use crate::warning::{Warning, WarningView};

verus! {

/// Bounds on decompression, to keep a malformed or hostile file from exhausting
/// memory. These are generous relative to the observed corpus, whose largest
/// single member decompresses to about 0.5 MB.
#[derive(Debug, Clone, Copy)]
pub struct Limits {
    pub max_member_bytes: u64,
    pub max_total_bytes: u64,
}

impl Limits {
    /// The limits `Limits::default()` gives: 64 MiB per member, 512 MiB in all.
    pub open spec fn default_limits() -> Limits {
        Limits { max_member_bytes: 67108864u64, max_total_bytes: 536870912u64 }
    }
}

impl Default for Limits {
    fn default() -> (r: Self)
        ensures
            r == Limits::default_limits(),
    {
        Limits { max_member_bytes: 67108864u64, max_total_bytes: 536870912u64 }
    }
}

/// A gzip signature that was found and successfully inflated.
#[derive(Debug)]
pub struct GzipMember {
    pub index: usize,
    /// Byte offset of the `1F 8B 08` signature within the source file.
    pub file_offset: usize,
    /// Bytes consumed from the file by this member, when the decoder reported it.
    pub compressed_len: Option<usize>,
    pub data: Vec<u8>,
    /// True when the member hit `max_member_bytes` and `data` is incomplete.
    pub truncated: bool,
    /// True when inflation errored partway and `data` holds only what was recovered.
    pub partial: bool,
    pub sha256: [u8; 32],
}

/// The content of a [`GzipMember`].
pub struct MemberView {
    pub index: usize,
    pub file_offset: usize,
    pub compressed_len: Option<usize>,
    pub data: Seq<u8>,
    pub truncated: bool,
    pub partial: bool,
    pub sha256: Seq<u8>,
}

impl View for GzipMember {
    type V = MemberView;

    open spec fn view(&self) -> MemberView {
        MemberView {
            index: self.index,
            file_offset: self.file_offset,
            compressed_len: self.compressed_len,
            data: self.data@,
            truncated: self.truncated,
            partial: self.partial,
            sha256: self.sha256@,
        }
    }
}

/// Whether a byte string is valid UTF-8.
///
/// Trusted: calls `std::str::from_utf8`, which succeeds exactly on valid UTF-8.
#[verifier::external_body]
fn utf8_valid(bytes: &[u8]) -> (r: bool)
    ensures
        r == valid_utf8(bytes@),
{
    std::str::from_utf8(bytes).is_ok()
}

impl GzipMember {
    /// Whether the member's bytes are valid UTF-8.
    pub fn is_utf8(&self) -> (r: bool)
        ensures
            r == valid_utf8(self.data@),
    {
        utf8_valid(self.data.as_slice())
    }
}

/// A signature that did not inflate.
#[derive(Debug)]
pub struct FailedCandidate {
    pub file_offset: usize,
    pub error: String,
}

impl Clone for FailedCandidate {
    fn clone(&self) -> (r: Self)
        ensures
            r.file_offset == self.file_offset,
            r.error@ == self.error@,
    {
        FailedCandidate { file_offset: self.file_offset, error: self.error.clone() }
    }
}

/// Everything a scan found.
#[derive(Debug)]
pub struct ScanResult {
    pub members: Vec<GzipMember>,
    pub failed: Vec<FailedCandidate>,
    /// Every `1F 8B 08` offset found, whether or not it inflated.
    pub candidate_offsets: Vec<usize>,
    pub warnings: Vec<Warning>,
}

impl Default for ScanResult {
    fn default() -> (r: Self)
        ensures
            r.members@.len() == 0,
            r.failed@.len() == 0,
            r.candidate_offsets@.len() == 0,
            r.warnings@.len() == 0,
    {
        ScanResult { members: Vec::new(), failed: Vec::new(), candidate_offsets: Vec::new(), warnings: Vec::new() }
    }
}

/// The gzip signature: magic bytes and the deflate method.
pub open spec fn gzip_magic() -> Seq<u8> {
    seq![0x1fu8, 0x8bu8, 0x08u8]
}

/// What inflating one gzip member at the start of `input` gives, reading at
/// most `max_bytes` bytes of output: the bytes produced, how many input bytes
/// the decoder left unread, and the text of the error that stopped it, if any.
pub uninterp spec fn inflate_outcome(input: Seq<u8>, max_bytes: u64) -> (Seq<u8>, int, Option<Seq<char>>);

/// Inflates the gzip member at the start of `input`, reading at most
/// `max_bytes` of output.
///
/// Trusted: wraps `flate2::bufread::GzDecoder` behind `Read::take(max_bytes)`
/// and `read_to_end`. The contract names the outcome (`inflate_outcome`), and
/// states what `Read::take` and the borrowed slice reader promise: no more than
/// `max_bytes` bytes come out, and what is left unread is a suffix of the input.
#[verifier::external_body]
fn inflate_raw(input: &[u8], max_bytes: u64) -> (r: (Vec<u8>, usize, Option<String>))
    ensures
        r.0@.len() <= max_bytes,
        r.1 <= input@.len(),
        inflate_outcome(input@, max_bytes) == (r.0@, r.1 as int, match r.2 {
            Some(e) => Some(e@),
            None => None::<Seq<char>>,
        }),
{
    let mut remaining: &[u8] = input;
    let mut out = Vec::new();
    let mut decoder = flate2::bufread::GzDecoder::new(&mut remaining);
    let result = decoder.by_ref().take(max_bytes).read_to_end(&mut out);
    drop(decoder);
    (out, remaining.len(), result.err().map(|e| e.to_string()))
}

/// The text of the warning given when the total budget stops the scan.
pub open spec fn budget_message(file_offset: int, limit: u64) -> Seq<char> {
    "stopped inflating at offset "@ + decimal_digits(file_offset as nat)
        + ": total decompressed output reached the "@ + decimal_digits(limit as nat) + " byte limit"@
}

/// The text of the warning given when a member reaches the per-member limit.
pub open spec fn truncated_message(limit: u64) -> Seq<char> {
    "member reached the "@ + decimal_digits(limit as nat) + " byte per-member limit and was truncated"@
}

/// The text of the warning given when inflation fails part way.
pub open spec fn partial_message(recovered: nat, error: Seq<char>) -> Seq<char> {
    "member failed partway through inflation; recovered "@ + decimal_digits(recovered) + " bytes: "@ + error
}

/// A warning placed at a member.
pub open spec fn member_warning(code: Seq<char>, message: Seq<char>, index: int, file_offset: int) -> WarningView {
    WarningView {
        code,
        message,
        member_index: Some(index as usize),
        file_offset: Some(file_offset as usize),
    }
}

/// The state of a scan after some signatures.
pub struct ScanView {
    pub members: Seq<MemberView>,
    pub failed: Seq<(int, Seq<char>)>,
    pub candidates: Seq<int>,
    pub warnings: Seq<WarningView>,
    /// Decompressed bytes so far, saturating at `u64::MAX`.
    pub total: int,
    /// Whether the total budget stopped the scan.
    pub stopped: bool,
}

/// `a + b`, saturating at `u64::MAX`.
pub open spec fn saturating_sum(a: int, b: int) -> int {
    if a + b > u64::MAX { u64::MAX as int } else { a + b }
}

/// How many output bytes to ask of a member limited to `max` bytes: one more
/// than the limit, so that a member that ends exactly at the limit is seen to
/// be complete and only one with more to give is cut short. A zero limit reads
/// nothing, and the largest limit cannot be exceeded.
pub open spec fn read_limit(max: u64) -> u64 {
    if max == 0 || max == u64::MAX { max } else { (max + 1) as u64 }
}

/// Handles the signature at `off`, given the state before it. A member keeps
/// at most `max_member_bytes` bytes; it is truncated when the decoder had more
/// to give than that.
pub open spec fn scan_signature(data: Seq<u8>, limits: Limits, s: ScanView, off: int) -> ScanView {
    if s.total >= limits.max_total_bytes {
        ScanView {
            candidates: s.candidates.push(off),
            warnings: s.warnings.push(
                member_warning(
                    "decompression_budget_exhausted"@,
                    budget_message(off, limits.max_total_bytes),
                    s.members.len() as int,
                    off,
                ),
            ),
            stopped: true,
            ..s
        }
    } else {
        let o = inflate_outcome(data.subrange(off, data.len() as int), read_limit(limits.max_member_bytes));
        let over = o.0.len() > limits.max_member_bytes;
        let out = if over { o.0.take(limits.max_member_bytes as int) } else { o.0 };
        let consumed = data.len() - off - o.1;
        if out.len() == 0 {
            ScanView {
                candidates: s.candidates.push(off),
                failed: s.failed.push(
                    (
                        off,
                        match o.2 {
                            Some(e) => e,
                            None => "inflated to zero bytes"@,
                        },
                    ),
                ),
                ..s
            }
        } else {
            let index = s.members.len() as int;
            let truncated = o.2 is None && over;
            let partial = o.2 is Some;
            let w1 = if truncated {
                seq![member_warning("member_truncated"@, truncated_message(limits.max_member_bytes), index, off)]
            } else {
                Seq::empty()
            };
            let w2 = match o.2 {
                Some(e) => seq![
                    member_warning(
                        "member_partially_inflated"@,
                        partial_message(out.len(), e),
                        index,
                        off,
                    ),
                ],
                None => Seq::empty(),
            };
            ScanView {
                candidates: s.candidates.push(off),
                warnings: s.warnings + w1 + w2,
                total: saturating_sum(s.total, out.len() as int),
                members: s.members.push(
                    MemberView {
                        index: index as usize,
                        file_offset: off as usize,
                        compressed_len: if consumed > 0 { Some(consumed as usize) } else { None },
                        data: out,
                        truncated,
                        partial,
                        sha256: sha256_of(out),
                    },
                ),
                ..s
            }
        }
    }
}

/// The state of a scan after the given signatures, in order. Once the budget
/// stops the scan, later signatures are not looked at.
pub open spec fn scan_signatures(data: Seq<u8>, limits: Limits, offsets: Seq<int>) -> ScanView
    decreases offsets.len(),
{
    if offsets.len() == 0 {
        ScanView {
            members: Seq::empty(),
            failed: Seq::empty(),
            candidates: Seq::empty(),
            warnings: Seq::empty(),
            total: 0,
            stopped: false,
        }
    } else {
        let s = scan_signatures(data, limits, offsets.drop_last());
        if s.stopped { s } else { scan_signature(data, limits, s, offsets.last()) }
    }
}

/// What scanning a file gives: every signature handled in file order.
pub open spec fn scan_model(data: Seq<u8>, limits: Limits) -> ScanView {
    scan_signatures(data, limits, hits_from(data, gzip_magic(), 0))
}

/// Whether a scan result holds what a scan state says.
pub open spec fn result_matches(r: ScanResult, m: ScanView) -> bool {
    &&& r.members@.map_values(|g: GzipMember| g@) == m.members
    &&& r.failed@.map_values(|f: FailedCandidate| (f.file_offset as int, f.error@)) == m.failed
    &&& r.candidate_offsets@.map_values(|o: usize| o as int) == m.candidates
    &&& r.warnings@.map_values(|w: Warning| w@) == m.warnings
}

proof fn lemma_scan_stopped(data: Seq<u8>, limits: Limits, offsets: Seq<int>, n: int)
    requires
        0 <= n <= offsets.len(),
        scan_signatures(data, limits, offsets.take(n)).stopped,
    ensures
        scan_signatures(data, limits, offsets) == scan_signatures(data, limits, offsets.take(n)),
    decreases offsets.len() - n,
{
    if n < offsets.len() {
        assert(offsets.take(n + 1).drop_last() =~= offsets.take(n));
        lemma_scan_stopped(data, limits, offsets, n + 1);
    } else {
        assert(offsets.take(n) =~= offsets);
    }
}

/// A warning placed at a member, with its message.
fn warning_at(code: &str, message: String, index: usize, file_offset: usize) -> (w: Warning)
    ensures
        w@ == member_warning(code@, message@, index as int, file_offset as int),
{
    Warning::new(code, message).at_member(index, file_offset)
}

/// Finds every gzip signature in `data` and attempts to inflate each one.
///
/// Candidates are independent: a failure never stops the scan. Once the
/// decompressed output reaches `max_total_bytes`, the next signature is
/// recorded with a warning and the scan ends.
pub fn scan(data: &[u8], limits: Limits) -> (r: ScanResult)
    ensures
        result_matches(r, scan_model(data@, limits)),
        forall|i: int| 0 <= i < r.members.len() ==> 0 < (#[trigger] r.members[i]).data.len() <= limits.max_member_bytes,
        r.members.len() > 0 ==> member_bytes(r.members@.map_values(|g: GzipMember| g@)) < limits.max_total_bytes
            + limits.max_member_bytes,
        limits.max_total_bytes == 0 ==> r.members.len() == 0,
{
    let mut result = ScanResult::default();
    let mut total_out: u64 = 0;
    let magic: [u8; 3] = [0x1fu8, 0x8bu8, 0x08u8];
    let ghost magic_seq = gzip_magic();
    assert(magic@ =~= magic_seq);
    let ghost all = hits_from(data@, magic_seq, 0);
    let ghost mut done: Seq<int> = Seq::empty();
    assert(done + all =~= all);
    assert(result.members@.map_values(|g: GzipMember| g@) =~= Seq::<MemberView>::empty());
    assert(result.failed@.map_values(|f: FailedCandidate| (f.file_offset as int, f.error@)) =~= Seq::<(int, Seq<char>)>::empty());
    assert(result.candidate_offsets@.map_values(|o: usize| o as int) =~= Seq::<int>::empty());
    assert(result.warnings@.map_values(|w: Warning| w@) =~= Seq::<WarningView>::empty());
    let mut pos: usize = 0;
    loop
        invariant_except_break
            all == done + hits_from(data@, magic_seq, pos as int),
        invariant
            magic@ == magic_seq,
            magic_seq == gzip_magic(),
            all == hits_from(data@, magic_seq, 0),
            pos <= data@.len() + 1,
            result_matches(result, scan_signatures(data@, limits, done)),
            !scan_signatures(data@, limits, done).stopped,
            total_out as int == scan_signatures(data@, limits, done).total,
            scan_signatures(data@, limits, done).members.len() == result.members@.len(),
        ensures
            all == done,
        decreases data@.len() + 1 - pos,
    {
        let file_offset = match find_bytes(data, &magic, pos) {
            Some(h) => h,
            None => {
                assert(done + hits_from(data@, magic_seq, pos as int) =~= done);
                break;
            },
        };
        proof {
            lemma_find_from(data@, magic_seq, pos as int);
        }
        let ghost rest = hits_from(data@, magic_seq, file_offset + 3);
        assert(hits_from(data@, magic_seq, pos as int) == seq![file_offset as int] + rest);
        let ghost before = scan_signatures(data@, limits, done);
        let ghost done2 = done.push(file_offset as int);
        assert(done2.drop_last() =~= done);
        assert(all =~= done2 + rest);
        let ghost after = scan_signatures(data@, limits, done2);
        assert(after == scan_signature(data@, limits, before, file_offset as int));

        let ghost cands = result.candidate_offsets@;
        result.candidate_offsets.push(file_offset);
        assert(result.candidate_offsets@.map_values(|o: usize| o as int) =~= cands.map_values(|o: usize| o as int).push(file_offset as int));

        if total_out >= limits.max_total_bytes {
            let mut message = String::from_str("stopped inflating at offset ");
            let d = decimal(file_offset as u64);
            message.append(d.as_str());
            message.append(": total decompressed output reached the ");
            let d2 = decimal(limits.max_total_bytes);
            message.append(d2.as_str());
            message.append(" byte limit");
            let w = warning_at("decompression_budget_exhausted", message, result.members.len(), file_offset);
            let ghost ws = result.warnings@;
            result.warnings.push(w);
            assert(result.warnings@.map_values(|w: Warning| w@) =~= ws.map_values(|w: Warning| w@).push(w@));
            proof {
                assert(all.take(done2.len() as int) =~= done2);
                lemma_scan_stopped(data@, limits, all, done2.len() as int);
                lemma_result_within_limits(result, data@, limits);
            }
            return result;
        }

        let index = result.members.len();
        let max = limits.max_member_bytes;
        let reading: u64 = if max == 0 || max == u64::MAX { max } else { max + 1 };
        let (mut out, left, error) = inflate_raw(&data[file_offset..data.len()], reading);
        assert(data@.subrange(file_offset as int, data@.len() as int) =~= data@.subrange(file_offset as int, data@.len() as int));
        let consumed = data.len() - file_offset - left;
        let over = out.len() as u64 > max;
        if over {
            out.truncate(max as usize);
        }
        if out.len() == 0 {
            let reason = match error {
                Some(e) => e,
                None => String::from_str("inflated to zero bytes"),
            };
            let ghost fs = result.failed@;
            result.failed.push(FailedCandidate { file_offset, error: reason });
            assert(result.failed@.map_values(|f: FailedCandidate| (f.file_offset as int, f.error@)) =~= fs.map_values(
                |f: FailedCandidate| (f.file_offset as int, f.error@),
            ).push((file_offset as int, reason@)));
        } else {
            let truncated = error.is_none() && over;
            let partial = error.is_some();
            let ghost ws0 = result.warnings@.map_values(|w: Warning| w@);
            if truncated {
                let mut message = String::from_str("member reached the ");
                let d = decimal(limits.max_member_bytes);
                message.append(d.as_str());
                message.append(" byte per-member limit and was truncated");
                let w = warning_at("member_truncated", message, index, file_offset);
                let ghost ws = result.warnings@;
                result.warnings.push(w);
                assert(result.warnings@.map_values(|w: Warning| w@) =~= ws.map_values(|w: Warning| w@).push(w@));
            }
            let ghost ws1 = result.warnings@.map_values(|w: Warning| w@);
            match &error {
                Some(e) => {
                    let mut message = String::from_str("member failed partway through inflation; recovered ");
                    let d = decimal(out.len() as u64);
                    message.append(d.as_str());
                    message.append(" bytes: ");
                    message.append(e.as_str());
                    let w = warning_at("member_partially_inflated", message, index, file_offset);
                    let ghost ws = result.warnings@;
                    result.warnings.push(w);
                    assert(result.warnings@.map_values(|w: Warning| w@) =~= ws.map_values(|w: Warning| w@).push(w@));
                },
                None => {},
            }
            proof {
                let o = inflate_outcome(data@.subrange(file_offset as int, data@.len() as int), read_limit(max));
                let w1 = if truncated {
                    seq![member_warning("member_truncated"@, truncated_message(limits.max_member_bytes), index as int, file_offset as int)]
                } else {
                    Seq::<WarningView>::empty()
                };
                assert(ws1 =~= ws0 + w1);
                assert(after.warnings =~= result.warnings@.map_values(|w: Warning| w@));
            }
            total_out = total_out.saturating_add(out.len() as u64);
            let digest = sha256(out.as_slice());
            let compressed_len = if consumed > 0 { Some(consumed) } else { None };
            let ghost ms = result.members@;
            let member = GzipMember { index, file_offset, compressed_len, data: out, truncated, partial, sha256: digest };
            result.members.push(member);
            assert(result.members@.map_values(|g: GzipMember| g@) =~= ms.map_values(|g: GzipMember| g@).push(member@));
        }
        proof {
            done = done2;
        }
        pos = file_offset + 3;
    }
    proof {
        lemma_result_within_limits(result, data@, limits);
    }
    result
}


proof fn lemma_signatures_accounted(data: Seq<u8>, limits: Limits, offsets: Seq<int>)
    ensures
        ({
            let m = scan_signatures(data, limits, offsets);
            &&& m.members.len() + m.failed.len() + (if m.stopped { 1int } else { 0int }) == m.candidates.len()
            &&& !m.stopped ==> m.candidates == offsets
            &&& m.candidates.len() <= offsets.len()
            &&& m.candidates == offsets.take(m.candidates.len() as int)
            &&& m.stopped ==> m.warnings.len() > 0 && m.warnings.last().code == "decompression_budget_exhausted"@
            &&& forall|i: int| 0 <= i < m.members.len() ==> (#[trigger] m.members[i]).index == i as usize
        }),
    decreases offsets.len(),
{
    if offsets.len() == 0 {
        assert(offsets.take(0) =~= offsets);
    } else {
        lemma_signatures_accounted(data, limits, offsets.drop_last());
        let s = scan_signatures(data, limits, offsets.drop_last());
        if s.stopped {
            assert(offsets.drop_last().take(s.candidates.len() as int) =~= offsets.take(s.candidates.len() as int));
        } else {
            assert(offsets.take(offsets.len() as int) =~= offsets);
            assert(offsets.drop_last().push(offsets.last()) =~= offsets);
            let m = scan_signatures(data, limits, offsets);
            assert forall|i: int| 0 <= i < m.members.len() implies (#[trigger] m.members[i]).index == i as usize by {
                if i < s.members.len() {
                    assert(m.members[i] == s.members[i]);
                }
            }
        }
    }
}

/// The decompressed bytes held by these members, in all.
pub open spec fn member_bytes(members: Seq<MemberView>) -> int
    decreases members.len(),
{
    if members.len() == 0 {
        0
    } else {
        member_bytes(members.drop_last()) + members.last().data.len()
    }
}

proof fn lemma_signatures_bounded(data: Seq<u8>, limits: Limits, offsets: Seq<int>)
    ensures
        ({
            let m = scan_signatures(data, limits, offsets);
            &&& m.total == if member_bytes(m.members) > u64::MAX { u64::MAX as int } else { member_bytes(m.members) }
            &&& forall|i: int|
                0 <= i < m.members.len() ==> 0 < (#[trigger] m.members[i]).data.len() <= limits.max_member_bytes
            &&& m.members.len() > 0 ==> member_bytes(m.members) < limits.max_total_bytes + limits.max_member_bytes
            &&& limits.max_total_bytes == 0 ==> m.members.len() == 0
        }),
    decreases offsets.len(),
{
    if offsets.len() > 0 {
        lemma_signatures_bounded(data, limits, offsets.drop_last());
        let s = scan_signatures(data, limits, offsets.drop_last());
        if !s.stopped {
            let m = scan_signatures(data, limits, offsets);
            if m.members.len() > s.members.len() {
                assert(m.members.drop_last() =~= s.members);
                assert forall|i: int| 0 <= i < m.members.len() implies 0 < (#[trigger] m.members[i]).data.len()
                    <= limits.max_member_bytes by {
                    if i < s.members.len() {
                        assert(m.members[i] == s.members[i]);
                    }
                }
            }
        }
    }
}

/// What a scan keeps stays within its limits: every member holds at least one
/// byte and at most `max_member_bytes`; all members together hold less than
/// `max_total_bytes + max_member_bytes`, because a member is only inflated
/// while the total is still under `max_total_bytes`; and a zero total budget
/// inflates nothing.
pub proof fn lemma_scan_within_limits(data: Seq<u8>, limits: Limits)
    ensures
        forall|i: int|
            0 <= i < scan_model(data, limits).members.len() ==> 0 < (#[trigger] scan_model(data, limits).members[i]).data.len()
                <= limits.max_member_bytes,
        scan_model(data, limits).members.len() > 0 ==> member_bytes(scan_model(data, limits).members)
            < limits.max_total_bytes + limits.max_member_bytes,
        limits.max_total_bytes == 0 ==> scan_model(data, limits).members.len() == 0,
{
    lemma_signatures_bounded(data, limits, hits_from(data, gzip_magic(), 0));
}

/// The bounds of `lemma_scan_within_limits`, read on a scan's result.
proof fn lemma_result_within_limits(r: ScanResult, data: Seq<u8>, limits: Limits)
    requires
        result_matches(r, scan_model(data, limits)),
    ensures
        forall|i: int| 0 <= i < r.members.len() ==> 0 < (#[trigger] r.members[i]).data.len() <= limits.max_member_bytes,
        r.members.len() > 0 ==> member_bytes(r.members@.map_values(|g: GzipMember| g@)) < limits.max_total_bytes
            + limits.max_member_bytes,
        limits.max_total_bytes == 0 ==> r.members.len() == 0,
{
    lemma_scan_within_limits(data, limits);
    let m = scan_model(data, limits);
    assert(r.members@.map_values(|g: GzipMember| g@).len() == m.members.len());
    assert forall|i: int| 0 <= i < r.members.len() implies 0 < (#[trigger] r.members[i]).data.len()
        <= limits.max_member_bytes by {
        assert(r.members@.map_values(|g: GzipMember| g@)[i] == m.members[i]);
    }
}

/// Every gzip signature a scan looked at is accounted for: inflated into a
/// member, rejected with a reason, or the one at which the total budget
/// stopped the scan. The signatures looked at are the first ones of the file,
/// in order: all of them when the budget never stopped the scan, and when it
/// did, the last warning says so. Members are numbered in the order they were
/// found.
pub proof fn lemma_every_signature_accounted_for(data: Seq<u8>, limits: Limits)
    ensures
        scan_model(data, limits).members.len() + scan_model(data, limits).failed.len() + (if scan_model(
            data,
            limits,
        ).stopped {
            1int
        } else {
            0int
        }) == scan_model(data, limits).candidates.len(),
        !scan_model(data, limits).stopped ==> scan_model(data, limits).candidates == hits_from(data, gzip_magic(), 0),
        scan_model(data, limits).candidates == hits_from(data, gzip_magic(), 0).take(
            scan_model(data, limits).candidates.len() as int,
        ),
        scan_model(data, limits).stopped ==> scan_model(data, limits).warnings.len() > 0 && scan_model(
            data,
            limits,
        ).warnings.last().code == "decompression_budget_exhausted"@,
        forall|i: int|
            0 <= i < scan_model(data, limits).members.len() ==> (#[trigger] scan_model(data, limits).members[i]).index
                == i as usize,
{
    lemma_signatures_accounted(data, limits, hits_from(data, gzip_magic(), 0));
}

} // verus!
