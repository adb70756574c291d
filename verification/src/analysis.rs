//! The shared pipeline: bytes -> gzip members -> embedded payloads -> merge
//! trees. Both `inspect` and `extract` run this, so the two commands can never
//! disagree about what a file contains.

use vstd::prelude::*;
use crate::container::{self, FormatAssessment, identity_views, identities_seen, payload_values, identity_order};
use crate::discovery::envelope::{self, EnvelopeIndex, LocationView, read_result, location_of};
use crate::discovery::fragment_scanner::{FragmentScanner, ScannerLimits, scan_result, default_anchor_texts};
use crate::discovery::{PayloadCandidate, PayloadDiscovery};
use crate::fluid::merge_tree::{self, Chunk, ChunkView, MergeTree, TreeRole, tree_views, chunk_views, assembly,
    segment_views, props_of, SegmentView, warning_list};
use crate::fluid::properties::{self, PropertyClass, class_of};
use crate::gzip::{self, FailedCandidate, GzipMember, MemberView, ScanView, scan_model, result_matches};
use crate::order::stable_sort_by;
use crate::input::SourceFile;
use crate::json::{JsonValue, view_members};
use crate::operations::OperationLog;
use crate::search::{find_bytes, find_from};
use crate::strmap::StrMap;
use crate::text::{decimal, same_text};
use crate::warning::{Warning, WarningView};

pub use crate::digest::hex;

verus! {

/// What the inspect report says about one gzip member.
#[derive(Debug)]
pub struct MemberInfo {
    pub index: usize,
    pub file_offset: usize,
    pub compressed_len: Option<usize>,
    pub decompressed_len: usize,
    pub is_utf8: bool,
    pub truncated: bool,
    pub partial: bool,
    pub sha256: String,
    pub json_payloads: usize,
    pub merge_tree_chunks: usize,
    /// Whether the container framing decoded for this member, and why not.
    pub envelope: EnvelopeStatus,
}

/// Whether a member's framing decoded.
#[derive(Debug)]
pub enum EnvelopeStatus {
    /// Decoded, with this many blob paths recovered.
    Decoded { blob_paths: usize, channels: usize },
    /// Not an envelope, or a tag this reader does not know.
    Unreadable { reason: String },
}

impl EnvelopeStatus {
    /// A copy of this status.
    pub fn copy(&self) -> (r: EnvelopeStatus)
        ensures
            match (r, *self) {
                (EnvelopeStatus::Decoded { blob_paths: a, channels: b }, EnvelopeStatus::Decoded { blob_paths: c, channels: d }) => a == c && b == d,
                (EnvelopeStatus::Unreadable { reason: a }, EnvelopeStatus::Unreadable { reason: b }) => a@ == b@,
                _ => false,
            },
    {
        match self {
            EnvelopeStatus::Decoded { blob_paths, channels } => EnvelopeStatus::Decoded {
                blob_paths: *blob_paths,
                channels: *channels,
            },
            EnvelopeStatus::Unreadable { reason } => EnvelopeStatus::Unreadable { reason: reason.clone() },
        }
    }
}

impl MemberInfo {
    /// Whether two member summaries say the same.
    pub open spec fn same(self, other: MemberInfo) -> bool {
        &&& self.index == other.index
        &&& self.file_offset == other.file_offset
        &&& self.compressed_len == other.compressed_len
        &&& self.decompressed_len == other.decompressed_len
        &&& self.is_utf8 == other.is_utf8
        &&& self.truncated == other.truncated
        &&& self.partial == other.partial
        &&& self.sha256@ == other.sha256@
        &&& self.json_payloads == other.json_payloads
        &&& self.merge_tree_chunks == other.merge_tree_chunks
        &&& match (self.envelope, other.envelope) {
            (EnvelopeStatus::Decoded { blob_paths: a, channels: b }, EnvelopeStatus::Decoded { blob_paths: c, channels: d }) => a == c && b == d,
            (EnvelopeStatus::Unreadable { reason: a }, EnvelopeStatus::Unreadable { reason: b }) => a@ == b@,
            _ => false,
        }
    }

    /// A copy of this summary.
    pub fn copy(&self) -> (r: MemberInfo)
        ensures
            r.same(*self),
    {
        MemberInfo {
            index: self.index,
            file_offset: self.file_offset,
            compressed_len: self.compressed_len,
            decompressed_len: self.decompressed_len,
            is_utf8: self.is_utf8,
            truncated: self.truncated,
            partial: self.partial,
            sha256: self.sha256.clone(),
            json_payloads: self.json_payloads,
            merge_tree_chunks: self.merge_tree_chunks,
            envelope: self.envelope.copy(),
        }
    }
}

/// How often a property key occurs, and how well it is understood.
#[derive(Debug, Clone, Copy)]
pub struct PropertyUsage {
    pub class: PropertyClass,
    pub occurrences: usize,
}

/// Everything the pipeline found in one file.
#[derive(Debug)]
pub struct Analysis {
    pub path: String,
    pub extension: String,
    pub file_size: usize,
    pub members: Vec<GzipMember>,
    pub member_info: Vec<MemberInfo>,
    pub failed_candidates: Vec<FailedCandidate>,
    pub gzip_candidates: usize,
    pub payloads: Vec<PayloadCandidate>,
    /// Payload counts per anchor, in anchor order.
    pub payloads_by_anchor: StrMap<usize>,
    pub chunk_candidates: usize,
    pub trees: Vec<MergeTree>,
    /// One index per member whose framing decoded.
    pub envelopes: Vec<EnvelopeIndex>,
    /// Operations found in the container, grouped by what they address.
    pub operations: OperationLog,
    pub assessment: FormatAssessment,
    /// Property keys in key order, with their usage.
    pub properties: StrMap<PropertyUsage>,
    pub warnings: Vec<Warning>,
}

/// The payloads a scanner with these anchors and the default limits finds in
/// each member, member by member.
pub open spec fn member_payloads(members: Seq<MemberView>, anchors: Seq<&'static str>) -> Seq<PayloadCandidate>
    decreases members.len(),
{
    if members.len() == 0 {
        Seq::empty()
    } else {
        member_payloads(members.drop_last(), anchors) + scan_result(
            members.last().data,
            anchors,
            ScannerLimits::default_limits(),
            members.last().index,
        )
    }
}

/// Whether a member summary reports a member's own facts: where it was, its
/// sizes, whether it is UTF-8, whether it was cut short, and its digest.
pub open spec fn summarises(info: MemberInfo, m: GzipMember) -> bool {
    &&& info.index == m.index
    &&& info.file_offset == m.file_offset
    &&& info.compressed_len == m.compressed_len
    &&& info.decompressed_len == m.data@.len()
    &&& info.is_utf8 == vstd::utf8::valid_utf8(m.data@)
    &&& info.truncated == m.truncated
    &&& info.partial == m.partial
    &&& info.sha256@ == crate::digest::hex_of(m.sha256@)
}

/// Whether a member summary's framing status is what reading the member's
/// framing gives: decoded exactly when the member reads as an envelope, and
/// otherwise the reader's own error.
pub open spec fn envelope_reported(info: MemberInfo, data: Seq<u8>) -> bool {
    match info.envelope {
        EnvelopeStatus::Decoded { blob_paths, channels } => exists|index: EnvelopeIndex|
            #![trigger read_result(data, Ok(index))]
            read_result(data, Ok(index)) && blob_paths == index.blob_paths.entries().len()
                && channels == index.channel_packages.entries().len(),
        EnvelopeStatus::Unreadable { reason } => exists|e: envelope::EnvelopeError|
            #![trigger read_result(data, Err(e))]
            read_result(data, Err(e)) && reason@ == e.describe(),
    }
}

/// How many payloads of a member are merge-tree chunks.
pub open spec fn chunk_count(ps: Seq<PayloadCandidate>, member_file_offset: usize, data: Seq<u8>) -> int
    decreases ps.len(),
{
    if ps.len() == 0 {
        0
    } else {
        let p = ps.last();
        chunk_count(ps.drop_last(), member_file_offset, data) + if merge_tree::chunk_of(
            p.value@,
            p.member_index,
            member_file_offset,
            p.start,
            data.subrange(p.start as int, p.end as int),
        ) is Some {
            1int
        } else {
            0int
        }
    }
}

/// Payload counts per anchor, each saturating at `usize::MAX`.
pub open spec fn anchor_counts(ps: Seq<PayloadCandidate>) -> Map<Seq<char>, usize>
    decreases ps.len(),
{
    if ps.len() == 0 {
        Map::empty()
    } else {
        let m = anchor_counts(ps.drop_last());
        let k = ps.last().anchor@;
        m.insert(k, if m.contains_key(k) { if m[k] < usize::MAX { (m[k] + 1) as usize } else { m[k] } } else { 1 })
    }
}

/// How many times each property key occurs across segments.
pub open spec fn key_occurrences(segs: Seq<SegmentView>, key: Seq<char>) -> int
    decreases segs.len(),
{
    if segs.len() == 0 {
        0
    } else {
        key_occurrences(segs.drop_last(), key) + match props_of(segs.last()) {
            Some(p) => count_key(p, key),
            None => 0,
        }
    }
}

/// How many members of a property list have this key.
pub open spec fn count_key(p: Seq<(Seq<char>, JsonValue)>, key: Seq<char>) -> int
    decreases p.len(),
{
    if p.len() == 0 {
        0
    } else {
        count_key(p.drop_last(), key) + if p.last().0 == key { 1int } else { 0int }
    }
}

impl Analysis {
    /// The maps the analysis holds keep their keys sorted.
    pub open spec fn wf(&self) -> bool {
        &&& self.properties.wf()
        &&& forall|k: int| 0 <= k < self.envelopes@.len() ==> (#[trigger] self.envelopes@[k]).wf()
    }

    /// The tree holding the document body: the first the framing named, else
    /// the first the heuristic chose.
    pub fn body_candidate(&self) -> (r: Option<&MergeTree>)
        ensures
            match body_index(self.trees@) {
                Some(i) => r matches Some(t) && *t == self.trees@[i],
                None => r is None,
            },
    {
        let mut i: usize = 0;
        assert(self.trees@.skip(0) =~= self.trees@);
        while i < self.trees.len()
            invariant
                i <= self.trees@.len(),
                first_role(self.trees@, TreeRole::Body) == shift(first_role(self.trees@.skip(i as int), TreeRole::Body), i as int),
            decreases self.trees@.len() - i,
        {
            assert(self.trees@.skip(i as int)[0] == self.trees@[i as int]);
            assert(self.trees@.skip(i as int).drop_first() =~= self.trees@.skip(i + 1));
            if self.trees[i].role == TreeRole::Body {
                return Some(&self.trees[i]);
            }
            i += 1;
        }
        let mut j: usize = 0;
        assert(self.trees@.skip(0) =~= self.trees@);
        while j < self.trees.len()
            invariant
                j <= self.trees@.len(),
                first_role(self.trees@, TreeRole::Body) is None,
                first_role(self.trees@, TreeRole::BodyCandidate) == shift(first_role(self.trees@.skip(j as int), TreeRole::BodyCandidate), j as int),
            decreases self.trees@.len() - j,
        {
            assert(self.trees@.skip(j as int)[0] == self.trees@[j as int]);
            assert(self.trees@.skip(j as int).drop_first() =~= self.trees@.skip(j + 1));
            if self.trees[j].role == TreeRole::BodyCandidate {
                return Some(&self.trees[j]);
            }
            j += 1;
        }
        None
    }

    /// Trees that may hold the document title, in report order.
    pub fn title_candidates(&self) -> (r: Vec<&MergeTree>)
        ensures
            r@.map_values(|t: &MergeTree| *t) == self.trees@.filter(
                |t: MergeTree| t.role is Title || t.role is TitleCandidate,
            ),
    {
        let mut out: Vec<&MergeTree> = Vec::new();
        let mut i: usize = 0;
        let ghost pred = |t: MergeTree| t.role is Title || t.role is TitleCandidate;
        assert(self.trees@.take(0).filter(pred) =~= Seq::<MergeTree>::empty());
        while i < self.trees.len()
            invariant
                i <= self.trees@.len(),
                pred == |t: MergeTree| t.role is Title || t.role is TitleCandidate,
                out@.map_values(|t: &MergeTree| *t) == self.trees@.take(i as int).filter(pred),
            decreases self.trees@.len() - i,
        {
            let t = &self.trees[i];
            assert(self.trees@.take(i + 1) =~= self.trees@.take(i as int).push(*t));
            proof {
                self.trees@.take(i as int).lemma_filter_push(*t, pred);
            }
            let ghost before = out@;
            if t.role.is_title() {
                out.push(t);
                assert(out@.map_values(|t: &MergeTree| *t) =~= before.map_values(|t: &MergeTree| *t).push(*t));
            }
            i += 1;
        }
        assert(self.trees@.take(i as int) =~= self.trees@);
        out
    }

    /// True when the container framing placed at least one tree.
    pub fn has_structural_classification(&self) -> (r: bool)
        ensures
            r == exists|i: int| 0 <= i < self.trees@.len() && (#[trigger] self.trees@[i]).role.structural(),
    {
        let mut i: usize = 0;
        while i < self.trees.len()
            invariant
                i <= self.trees@.len(),
                forall|k: int| 0 <= k < i ==> !(#[trigger] self.trees@[k]).role.structural(),
            decreases self.trees@.len() - i,
        {
            if self.trees[i].role.is_structural() {
                return true;
            }
            i += 1;
        }
        false
    }

    /// Chunk copies collapsed as byte-identical, across all trees (saturating
    /// at `usize::MAX`).
    pub fn collapsed_duplicates(&self) -> (n: usize)
        ensures
            n == sum_duplicates(self.trees@),
    {
        let mut n: usize = 0;
        let mut i: usize = 0;
        assert(self.trees@.take(0) =~= Seq::<MergeTree>::empty());
        while i < self.trees.len()
            invariant
                i <= self.trees@.len(),
                n == sum_duplicates(self.trees@.take(i as int)),
            decreases self.trees@.len() - i,
        {
            assert(self.trees@.take(i + 1).drop_last() =~= self.trees@.take(i as int));
            n = n.saturating_add(self.trees[i].duplicate_copies);
            i += 1;
        }
        assert(self.trees@.take(i as int) =~= self.trees@);
        n
    }
}

/// The position of the first tree with `role`.
pub open spec fn first_role(trees: Seq<MergeTree>, role: TreeRole) -> Option<int>
    decreases trees.len(),
{
    if trees.len() == 0 {
        None
    } else if trees[0].role == role {
        Some(0)
    } else {
        shift(first_role(trees.drop_first(), role), 1)
    }
}

/// A position moved by `d`.
pub open spec fn shift(o: Option<int>, d: int) -> Option<int> {
    match o {
        Some(k) => Some(k + d),
        None => None,
    }
}

/// The position of the body tree: the first the framing named, else the first
/// the heuristic chose.
pub open spec fn body_index(trees: Seq<MergeTree>) -> Option<int> {
    match first_role(trees, TreeRole::Body) {
        Some(i) => Some(i),
        None => first_role(trees, TreeRole::BodyCandidate),
    }
}

/// The duplicate copies of trees, summed, saturating at `usize::MAX`.
pub open spec fn sum_duplicates(trees: Seq<MergeTree>) -> int
    decreases trees.len(),
{
    if trees.len() == 0 {
        0
    } else {
        let s = sum_duplicates(trees.drop_last()) + trees.last().duplicate_copies;
        if s > usize::MAX { usize::MAX as int } else { s }
    }
}

impl MergeTree {
    /// Whether the role is the body, however decided.
    pub fn is_body_role(&self) -> (r: bool)
        ensures
            r == (self.role is Body || self.role is BodyCandidate),
    {
        self.role.is_body()
    }
}


/// The segments of trees, one tree after another.
pub open spec fn all_segments(trees: Seq<MergeTree>) -> Seq<SegmentView>
    decreases trees.len(),
{
    if trees.len() == 0 {
        Seq::empty()
    } else {
        all_segments(trees.drop_last()) + segment_views(trees.last().segments@)
    }
}

/// `n`, saturating at `usize::MAX`.
pub open spec fn capped(n: int) -> int {
    if n > usize::MAX { usize::MAX as int } else { n }
}

/// The property keys in order, joined with `, `.
pub open spec fn join_keys(keys: Seq<Seq<char>>) -> Seq<char>
    decreases keys.len(),
{
    if keys.len() == 0 {
        Seq::empty()
    } else if keys.len() == 1 {
        keys[0]
    } else {
        join_keys(keys.drop_last()) + ", "@ + keys.last()
    }
}

/// The keys whose class is unknown, in key order.
pub open spec fn unknown_keys(entries: Seq<(String, PropertyUsage)>) -> Seq<Seq<char>>
    decreases entries.len(),
{
    if entries.len() == 0 {
        Seq::empty()
    } else {
        let rest = unknown_keys(entries.drop_last());
        if entries.last().1.class == PropertyClass::Unknown { rest.push(entries.last().0@) } else { rest }
    }
}

/// Counts property keys across trees and reports keys never seen before.
fn collect_properties(trees: &Vec<MergeTree>, warnings: &mut Vec<Warning>) -> (r: StrMap<PropertyUsage>)
    ensures
        r.wf(),
        forall|k: Seq<char>| #[trigger] r.as_map().contains_key(k) <==> key_occurrences(all_segments(trees@), k) > 0,
        forall|k: Seq<char>| #[trigger] r.as_map().contains_key(k) ==> r.as_map()[k].class == class_of(k)
            && r.as_map()[k].occurrences == capped(key_occurrences(all_segments(trees@), k)),
        ({
            let u = unknown_keys(r.entries());
            &&& u.len() == 0 ==> final(warnings)@ == old(warnings)@
            &&& u.len() > 0 ==> final(warnings)@.len() == old(warnings)@.len() + 1
                && final(warnings)@.take(old(warnings)@.len() as int) == old(warnings)@
                && final(warnings)@.last()@ == WarningView {
                code: "unknown_properties"@,
                message: crate::text::decimal_digits(u.len()) + " property key(s) not seen before, preserved but not interpreted: "@
                    + join_keys(u),
                member_index: None,
                file_offset: None,
            }
        }),
{
    let mut counts: StrMap<PropertyUsage> = StrMap::new();
    let ghost mut segs: Seq<SegmentView> = Seq::empty();
    let mut t: usize = 0;
    assert(trees@.take(0) =~= Seq::<MergeTree>::empty());
    while t < trees.len()
        invariant
            t <= trees@.len(),
            counts.wf(),
            segs == all_segments(trees@.take(t as int)),
            forall|k: Seq<char>| #[trigger] counts.as_map().contains_key(k) <==> key_occurrences(segs, k) > 0,
            forall|k: Seq<char>| #[trigger] counts.as_map().contains_key(k) ==> counts.as_map()[k].class == class_of(k)
                && counts.as_map()[k].occurrences == capped(key_occurrences(segs, k)),
        decreases trees@.len() - t,
    {
        assert(trees@.take(t + 1).drop_last() =~= trees@.take(t as int));
        let tree = &trees[t];
        let ghost tv = segment_views(tree.segments@);
        let ghost base = segs;
        let mut i: usize = 0;
        assert(tv.take(0) =~= Seq::<SegmentView>::empty());
        assert(base + tv.take(0) =~= base);
        while i < tree.segments.len()
            invariant
                i <= tree.segments@.len(),
                tv == segment_views(tree.segments@),
                counts.wf(),
                forall|k: Seq<char>| #[trigger] counts.as_map().contains_key(k) <==> key_occurrences(base + tv.take(i as int), k) > 0,
                forall|k: Seq<char>| #[trigger] counts.as_map().contains_key(k) ==> counts.as_map()[k].class == class_of(k)
                    && counts.as_map()[k].occurrences == capped(key_occurrences(base + tv.take(i as int), k)),
            decreases tree.segments@.len() - i,
        {
            let ghost cur = base + tv.take(i as int);
            let ghost next = base + tv.take(i + 1);
            assert(next.drop_last() =~= cur);
            assert(next.last() == tree.segments@[i as int]@);
            match tree.segments[i].props() {
                None => {
                    assert forall|k: Seq<char>| key_occurrences(next, k) == key_occurrences(cur, k) by {}
                },
                Some(props) => {
                    let ghost pv = props.view_props();
                    let mut j: usize = 0;
                    assert(pv.take(0) =~= Seq::<(Seq<char>, JsonValue)>::empty());
                    proof { crate::json::lemma_view_members_index(props.0@); }
                    while j < props.0.len()
                        invariant
                            j <= props.0@.len(),
                            pv == props.view_props(),
                            pv.len() == props.0@.len(),
                            forall|q: int| 0 <= q < props.0@.len() ==> (#[trigger] pv[q]).0 == props.0@[q].0@,
                            counts.wf(),
                            forall|k: Seq<char>| #[trigger] counts.as_map().contains_key(k) <==> key_occurrences(cur, k)
                                + count_key(pv.take(j as int), k) > 0,
                            forall|k: Seq<char>| #[trigger] counts.as_map().contains_key(k) ==> counts.as_map()[k].class
                                == class_of(k) && counts.as_map()[k].occurrences == capped(
                                key_occurrences(cur, k) + count_key(pv.take(j as int), k),
                            ),
                        decreases props.0@.len() - j,
                    {
                        let key = &props.0[j].0;
                        assert(pv.take(j + 1).drop_last() =~= pv.take(j as int));
                        assert(pv.take(j + 1).last().0 == key@);
                        proof {
                            lemma_key_occurrences_nonneg(cur, key@);
                            lemma_count_key_nonneg(pv.take(j as int), key@);
                        }
                        let usage = match counts.get(key.as_str()) {
                            Some(u) => PropertyUsage { class: u.class, occurrences: u.occurrences.saturating_add(1) },
                            None => PropertyUsage { class: properties::classify(key.as_str()), occurrences: 1 },
                        };
                        counts.insert(key.clone(), usage);
                        j += 1;
                    }
                    assert(pv.take(j as int) =~= pv);
                    assert forall|k: Seq<char>| key_occurrences(next, k) == key_occurrences(cur, k) + count_key(pv, k) by {}
                },
            }
            i += 1;
        }
        assert(tv.take(i as int) =~= tv);
        proof {
            segs = base + tv;
        }
        t += 1;
    }
    assert(trees@.take(t as int) =~= trees@);

    // Report keys never seen before, in key order.
    let mut unknown: Vec<String> = Vec::new();
    let mut k: usize = 0;
    assert(counts.entries().take(0) =~= Seq::<(String, PropertyUsage)>::empty());
    while k < counts.len()
        invariant
            k <= counts.entries().len(),
            unknown@.map_values(|x: String| x@) == unknown_keys(counts.entries().take(k as int)),
        decreases counts.entries().len() - k,
    {
        assert(counts.entries().take(k + 1).drop_last() =~= counts.entries().take(k as int));
        if counts.value_at(k).class == PropertyClass::Unknown {
            let ghost before = unknown@;
            unknown.push(counts.key_at(k).clone());
            assert(unknown@.map_values(|x: String| x@) =~= before.map_values(|x: String| x@).push(counts.entries()[k as int].0@));
        }
        k += 1;
    }
    assert(counts.entries().take(k as int) =~= counts.entries());
    if unknown.len() > 0 {
        let mut m = decimal(unknown.len() as u64);
        m.append(" property key(s) not seen before, preserved but not interpreted: ");
        let mut q: usize = 0;
        let ghost uv = unknown@.map_values(|x: String| x@);
        let ghost prefix = m@;
        assert(uv.take(0) =~= Seq::<Seq<char>>::empty());
        while q < unknown.len()
            invariant
                q <= unknown@.len(),
                uv == unknown@.map_values(|x: String| x@),
                m@ == prefix + join_keys(uv.take(q as int)),
            decreases unknown@.len() - q,
        {
            assert(uv.take(q + 1).drop_last() =~= uv.take(q as int));
            if q > 0 {
                m.append(", ");
            }
            m.append(unknown[q].as_str());
            proof {
                if q == 0 {
                    assert(uv.take(1) =~= seq![uv[0]]);
                }
            }
            assert(m@ =~= prefix + join_keys(uv.take(q + 1)));
            q += 1;
        }
        assert(uv.take(q as int) =~= uv);
        let ghost wb = warnings@;
        warnings.push(Warning::new("unknown_properties", m));
        assert(warnings@.take(wb.len() as int) =~= wb);
    }
    counts
}

proof fn lemma_key_occurrences_nonneg(segs: Seq<SegmentView>, key: Seq<char>)
    ensures
        key_occurrences(segs, key) >= 0,
    decreases segs.len(),
{
    if segs.len() > 0 {
        lemma_key_occurrences_nonneg(segs.drop_last(), key);
        if let Some(p) = props_of(segs.last()) {
            lemma_count_key_nonneg(p, key);
        }
    }
}

proof fn lemma_count_key_nonneg(p: Seq<(Seq<char>, JsonValue)>, key: Seq<char>)
    ensures
        count_key(p, key) >= 0,
    decreases p.len(),
{
    if p.len() > 0 {
        lemma_count_key_nonneg(p.drop_last(), key);
    }
}


/// The distinct delta strings of envelopes, first copy kept, in order.
pub open spec fn distinct_deltas(envelopes: Seq<EnvelopeIndex>) -> Seq<Seq<char>>
    decreases envelopes.len(),
{
    if envelopes.len() == 0 {
        Seq::empty()
    } else {
        add_new(distinct_deltas(envelopes.drop_last()), envelopes.last().deltas@.map_values(|d: String| d@))
    }
}

/// `seen` extended by each of `more` not already in it.
pub open spec fn add_new(seen: Seq<Seq<char>>, more: Seq<Seq<char>>) -> Seq<Seq<char>>
    decreases more.len(),
{
    if more.len() == 0 {
        seen
    } else {
        let s = add_new(seen, more.drop_last());
        if s.contains(more.last()) { s } else { s.push(more.last()) }
    }
}

/// Whether every envelope's operation log starts where its snapshot ends.
pub open spec fn all_follow(envelopes: Seq<EnvelopeIndex>) -> bool {
    forall|i: int| 0 <= i < envelopes.len() ==> match (#[trigger] envelopes[i]).snapshot_sequence_number {
        Some(snapshot) => envelopes[i].first_delta_sequence_number == Some((snapshot + 1) as i64) && snapshot < i64::MAX,
        None => false,
    }
}

/// What reading a member's framing gave.
pub type FramingRead = Result<EnvelopeIndex, envelope::EnvelopeError>;

/// The indexes among framing reads, in order: one per member whose framing
/// decoded.
pub open spec fn read_envelopes(reads: Seq<FramingRead>) -> Seq<EnvelopeIndex>
    decreases reads.len(),
{
    if reads.len() == 0 {
        Seq::empty()
    } else {
        let rest = read_envelopes(reads.drop_last());
        match reads.last() {
            Ok(index) => rest.push(index),
            Err(_) => rest,
        }
    }
}

/// Where a member's framing places the payload starting at `start`: nowhere
/// when the framing did not decode.
pub open spec fn located(read: FramingRead, member_index: usize, start: usize) -> Option<LocationView> {
    match read {
        Ok(index) => location_of(index, member_index, start as int),
        Err(_) => None,
    }
}

/// The merge-tree chunks among a member's payloads, in payload order, each
/// placed where the member's framing says it lives.
pub open spec fn payload_chunks(ps: Seq<PayloadCandidate>, m: MemberView, read: FramingRead) -> Seq<ChunkView>
    decreases ps.len(),
{
    if ps.len() == 0 {
        Seq::empty()
    } else {
        let rest = payload_chunks(ps.drop_last(), m, read);
        let p = ps.last();
        match merge_tree::chunk_of(
            p.value@,
            p.member_index,
            m.file_offset,
            p.start,
            m.data.subrange(p.start as int, p.end as int),
        ) {
            Some(c) => rest.push(ChunkView { location: located(read, m.index, p.start), ..c }),
            None => rest,
        }
    }
}

/// The merge-tree chunks of all members, member by member.
pub open spec fn member_chunks(members: Seq<MemberView>, reads: Seq<FramingRead>, anchors: Seq<&'static str>) -> Seq<
    ChunkView,
>
    decreases members.len(),
{
    if members.len() == 0 {
        Seq::empty()
    } else {
        let m = members.last();
        member_chunks(members.drop_last(), reads.drop_last(), anchors) + payload_chunks(
            scan_result(m.data, anchors, ScannerLimits::default_limits(), m.index),
            m,
            reads.last(),
        )
    }
}

/// The chunk counts the member summaries report, added up.
pub open spec fn reported_chunks(infos: Seq<MemberInfo>) -> int
    decreases infos.len(),
{
    if infos.len() == 0 {
        0
    } else {
        reported_chunks(infos.drop_last()) + infos.last().merge_tree_chunks
    }
}

/// The warning for a gzip signature that did not inflate.
pub open spec fn rejection_warning(f: (int, Seq<char>)) -> WarningView {
    WarningView {
        code: "gzip_candidate_rejected"@,
        message: "gzip signature did not inflate: "@ + f.1,
        member_index: Some(usize::MAX),
        file_offset: Some(f.0 as usize),
    }
}

/// The bytes `treeNodes`: a member holding them holds document content.
pub open spec fn tree_nodes_bytes() -> Seq<u8> {
    seq![0x74u8, 0x72u8, 0x65u8, 0x65u8, 0x4eu8, 0x6fu8, 0x64u8, 0x65u8, 0x73u8]
}

/// The warning for a member whose framing did not decode, when the member
/// holds document content; none otherwise.
pub open spec fn unreadable_warning(m: MemberView, read: FramingRead) -> Seq<WarningView> {
    match read {
        Err(e) => if find_from(m.data, tree_nodes_bytes(), 0) is Some {
            seq![
                WarningView {
                    code: "envelope_unreadable"@,
                    message: "the container framing in this member did not decode ("@ + e.describe()
                        + "); falling back to content heuristics for tree classification"@,
                    member_index: Some(m.index),
                    file_offset: Some(m.file_offset),
                },
            ]
        } else {
            Seq::empty()
        },
        Ok(_) => Seq::empty(),
    }
}

/// The framing warnings of all members, member by member.
pub open spec fn framing_warnings(members: Seq<MemberView>, reads: Seq<FramingRead>) -> Seq<WarningView>
    decreases members.len(),
{
    if members.len() == 0 {
        Seq::empty()
    } else {
        framing_warnings(members.drop_last(), reads.drop_last()) + unreadable_warning(members.last(), reads.last())
    }
}

/// The warning given when no known Loop component was identified.
pub open spec fn identity_warning(known: bool) -> Seq<WarningView> {
    if known {
        Seq::empty()
    } else {
        seq![
            WarningView {
                code: "component_identity_missing"@,
                message: "no recognised Loop component identifier found (expected one of: @fluidx/loop-page-container, @ms/office-fluid-container)"@,
                member_index: None,
                file_offset: None,
            },
        ]
    }
}

/// The warning for property keys never seen before, when there are any.
pub open spec fn property_warning(properties: StrMap<PropertyUsage>) -> Seq<WarningView> {
    let u = unknown_keys(properties.entries());
    if u.len() == 0 {
        Seq::empty()
    } else {
        seq![
            WarningView {
                code: "unknown_properties"@,
                message: crate::text::decimal_digits(u.len()) + " property key(s) not seen before, preserved but not interpreted: "@
                    + join_keys(u),
                member_index: None,
                file_offset: None,
            },
        ]
    }
}

/// Whether an analysis holds what the pipeline makes of the scanned members,
/// given the scanner's anchors and what reading each member's framing gave:
/// the payloads and per-member counts, the envelopes that decoded, the trees
/// assembled from exactly the members' chunks, the component identities, and
/// every warning in the order the stages give them.
pub open spec fn pipeline_holds(r: Analysis, model: ScanView, anchors: Seq<&'static str>, reads: Seq<FramingRead>) -> bool {
    let chunks = member_chunks(model.members, reads, anchors);
    &&& reads.len() == model.members.len()
    &&& forall|k: int| 0 <= k < reads.len() ==> read_result(model.members[k].data, #[trigger] reads[k])
    &&& r.envelopes@ == read_envelopes(reads)
    &&& r.payloads@ == member_payloads(model.members, anchors)
    &&& forall|k: int| 0 <= k < r.member_info@.len() ==> (#[trigger] r.member_info@[k]).merge_tree_chunks == chunk_count(
        scan_result(r.members@[k].data@, anchors, ScannerLimits::default_limits(), r.members@[k].index),
        r.members@[k].file_offset,
        r.members@[k].data@,
    )
    &&& forall|k: int| 0 <= k < r.member_info@.len() ==> (#[trigger] r.member_info@[k]).json_payloads == scan_result(
        r.members@[k].data@,
        anchors,
        ScannerLimits::default_limits(),
        r.members@[k].index,
    ).len()
    &&& r.chunk_candidates == chunks.len()
    &&& tree_views(r.trees@) == assembly(chunks).0
    &&& identity_views(r.assessment.components@) == stable_sort_by(
        identities_seen(payload_values(r.payloads@)),
        identity_order(),
    )
    &&& warning_list(r.warnings@) == model.warnings + model.failed.map_values(|f: (int, Seq<char>)| rejection_warning(f))
        + framing_warnings(model.members, reads) + assembly(chunks).1 + identity_warning(
        container::any_known(identity_views(r.assessment.components@)),
    ) + property_warning(r.properties)
}

impl Analysis {
    /// Runs the pipeline on a loaded file.
    ///
    /// Every gzip signature is tried; each inflated member's framing is read
    /// (when it decodes, it places payloads in the summary tree) and its JSON
    /// payloads found by the default fragment scanner; merge-tree chunks among
    /// them are assembled into trees; the operation log of every decoded
    /// framing is parsed, each distinct delta once; and the format is assessed.
    ///
    /// The warnings come stage by stage, each with its stable code: the scan's
    /// own, one per signature that did not inflate, one per member holding
    /// document content whose framing did not decode, those of assembling the
    /// trees, one when no known Loop component was identified, and one for
    /// property keys never seen before.
    pub fn run(source: &SourceFile, limits: gzip::Limits) -> (r: Analysis)
        ensures
            r.path@ == source.path@,
            r.extension@ == match crate::input::extension_of(source.path@) {
                Some(e) => crate::input::lowercase_of(e),
                None => Seq::empty(),
            },
            r.file_size == source.bytes@.len(),
            r.members@.map_values(|g: GzipMember| g@) == scan_model(source.bytes@, limits).members,
            r.failed_candidates@.map_values(|f: FailedCandidate| (f.file_offset as int, f.error@)) == scan_model(
                source.bytes@,
                limits,
            ).failed,
            r.gzip_candidates == scan_model(source.bytes@, limits).candidates.len(),
            r.payloads_by_anchor.as_map() == anchor_counts(r.payloads@),
            r.member_info@.len() == r.members@.len(),
            forall|k: int| 0 <= k < r.member_info@.len() ==> summarises(#[trigger] r.member_info@[k], r.members@[k]),
            forall|k: int|
                0 <= k < r.member_info@.len() ==> envelope_reported(#[trigger] r.member_info@[k], r.members@[k].data@),
            r.chunk_candidates == reported_chunks(r.member_info@),
            exists|anchors: Seq<&'static str>, reads: Seq<FramingRead>|
                #![trigger pipeline_holds(r, scan_model(source.bytes@, limits), anchors, reads)]
                anchors.map_values(|a: &'static str| a@) == default_anchor_texts() && pipeline_holds(
                    r,
                    scan_model(source.bytes@, limits),
                    anchors,
                    reads,
                ),
            r.wf(),
            forall|k: Seq<char>| #[trigger] r.properties.as_map().contains_key(k) <==> key_occurrences(
                all_segments(r.trees@),
                k,
            ) > 0,
            forall|k: Seq<char>| #[trigger] r.properties.as_map().contains_key(k) ==> r.properties.as_map()[k].class
                == class_of(k) && r.properties.as_map()[k].occurrences == capped(
                key_occurrences(all_segments(r.trees@), k),
            ),
            r.operations.follows_snapshot == (r.envelopes@.len() > 0 && all_follow(r.envelopes@)),
            crate::operations::log::op_views(r.operations.ops@) == crate::operations::log::parse_deltas(
                distinct_deltas(r.envelopes@),
            ),
            (r.assessment.format@, r.assessment.confidence) == container::assessment_of(
                r.members@.len() as usize,
                r.payloads@.len() as usize,
                r.chunk_candidates,
                container::any_known(identity_views(r.assessment.components@)),
            ),
    {
        let scan = gzip::scan(source.bytes.as_slice(), limits);
        let ghost model = scan_model(source.bytes@, limits);
        let gzip::ScanResult { members, failed, candidate_offsets, warnings: scan_warnings } = scan;
        let mut warnings: Vec<Warning> = scan_warnings;
        assert(warning_list(warnings@) =~= model.warnings);
        let ghost fv = failed@.map_values(|f: FailedCandidate| (f.file_offset as int, f.error@));
        let ghost rejections = fv.map_values(|f: (int, Seq<char>)| rejection_warning(f));
        assert(fv =~= model.failed);
        assert(model.warnings + rejections.take(0) =~= model.warnings);
        let mut f: usize = 0;
        while f < failed.len()
            invariant
                f <= failed@.len(),
                fv == failed@.map_values(|f: FailedCandidate| (f.file_offset as int, f.error@)),
                rejections == fv.map_values(|f: (int, Seq<char>)| rejection_warning(f)),
                warning_list(warnings@) == model.warnings + rejections.take(f as int),
            decreases failed@.len() - f,
        {
            let mut m = String::from_str("gzip signature did not inflate: ");
            m.append(failed[f].error.as_str());
            let w = Warning::new("gzip_candidate_rejected", m).at_member(usize::MAX, failed[f].file_offset);
            let ghost before = warnings@;
            warnings.push(w);
            assert(w@ == rejections[f as int]);
            assert(rejections.take(f + 1) =~= rejections.take(f as int).push(rejections[f as int]));
            assert(warning_list(warnings@) =~= warning_list(before).push(w@));
            f += 1;
        }
        assert(rejections.take(f as int) =~= rejections);

        let scanner = FragmentScanner::default();
        let ghost anchors = scanner.anchors()@;
        let mut payloads: Vec<PayloadCandidate> = Vec::new();
        let mut chunks: Vec<Chunk> = Vec::new();
        let mut member_info: Vec<MemberInfo> = Vec::new();
        let mut envelopes: Vec<EnvelopeIndex> = Vec::new();
        let ghost mv = members@.map_values(|g: GzipMember| g@);
        let ghost base_warnings = warning_list(warnings@);
        let ghost mut reads: Seq<FramingRead> = Seq::empty();
        let mut i: usize = 0;
        assert(mv.take(0) =~= Seq::<MemberView>::empty());
        assert(base_warnings + framing_warnings(mv.take(0), reads) =~= base_warnings);
        assert(chunk_views(chunks@) =~= member_chunks(mv.take(0), reads, anchors));
        while i < members.len()
            invariant
                i <= members@.len(),
                mv == members@.map_values(|g: GzipMember| g@),
                anchors == scanner.anchors()@,
                scanner.limits() == ScannerLimits::default_limits(),
                payloads@ == member_payloads(mv.take(i as int), anchors),
                forall|k: int| 0 <= k < envelopes@.len() ==> (#[trigger] envelopes@[k]).wf(),
                member_info@.len() == i,
                forall|k: int| 0 <= k < i ==> summarises(#[trigger] member_info@[k], members@[k]),
                forall|k: int| 0 <= k < i ==> envelope_reported(#[trigger] member_info@[k], members@[k].data@),
                forall|k: int| 0 <= k < i ==> (#[trigger] member_info@[k]).merge_tree_chunks == chunk_count(
                    scan_result(members@[k].data@, anchors, ScannerLimits::default_limits(), members@[k].index),
                    members@[k].file_offset,
                    members@[k].data@,
                ),
                forall|k: int| 0 <= k < i ==> (#[trigger] member_info@[k]).json_payloads == scan_result(
                    members@[k].data@,
                    anchors,
                    ScannerLimits::default_limits(),
                    members@[k].index,
                ).len(),
                reads.len() == i,
                forall|k: int| 0 <= k < i ==> read_result(members@[k].data@, #[trigger] reads[k]),
                envelopes@ == read_envelopes(reads),
                chunk_views(chunks@) == member_chunks(mv.take(i as int), reads, anchors),
                chunks@.len() == reported_chunks(member_info@),
                warning_list(warnings@) == base_warnings + framing_warnings(mv.take(i as int), reads),
            decreases members@.len() - i,
        {
            let member = &members[i];
            assert(mv.take(i + 1).drop_last() =~= mv.take(i as int));
            assert(mv.take(i + 1).last() == member@);
            // The framing is read first: it is what tells a page title from a
            // table cell. A member that does not decode costs nothing, because
            // the fragment scanner does not depend on it.
            let read = envelope::read(member.data.as_slice());
            let ghost this_read = read;
            let (index, status) = match read {
                Ok(index) => {
                    let status = EnvelopeStatus::Decoded {
                        blob_paths: index.blob_paths.len(),
                        channels: index.channel_packages.len(),
                    };
                    (Some(index), status)
                },
                Err(error) => (None, EnvelopeStatus::Unreadable { reason: error.message() }),
            };
            let ghost warnings_before = warning_list(warnings@);
            match &status {
                EnvelopeStatus::Unreadable { reason } => {
                    // Only worth reporting for members that hold document content.
                    let probe: [u8; 9] = [0x74u8, 0x72, 0x65, 0x65, 0x4e, 0x6f, 0x64, 0x65, 0x73];
                    assert(probe@ =~= tree_nodes_bytes());
                    if find_bytes(member.data.as_slice(), &probe, 0).is_some() {
                        let mut m = String::from_str("the container framing in this member did not decode (");
                        m.append(reason.as_str());
                        m.append("); falling back to content heuristics for tree classification");
                        let w = Warning::new("envelope_unreadable", m).at_member(member.index, member.file_offset);
                        let ghost wb = warnings@;
                        warnings.push(w);
                        assert(warning_list(warnings@) =~= warning_list(wb).push(w@));
                    }
                },
                EnvelopeStatus::Decoded { .. } => {},
            }
            assert(warning_list(warnings@) =~= warnings_before + unreadable_warning(member@, this_read));
            let discovered = match scanner.discover(member.index, member.data.as_slice()) {
                Ok(found) => found,
                Err(error) => {
                    warnings.push(
                        Warning::new("payload_discovery_failed", error.message()).at_member(member.index, member.file_offset),
                    );
                    Vec::new()
                },
            };
            let ghost chunks_before = chunk_views(chunks@);
            let ghost count_before = chunks@.len();
            let mut member_chunks: usize = 0;
            let mut p: usize = 0;
            assert(discovered@.take(0) =~= Seq::<PayloadCandidate>::empty());
            assert(chunks_before + payload_chunks(discovered@.take(0), member@, this_read) =~= chunks_before);
            while p < discovered.len()
                invariant
                    p <= discovered@.len(),
                    member_chunks <= p,
                    member_chunks == chunk_count(discovered@.take(p as int), member.file_offset, member.data@),
                    forall|q: int| 0 <= q < discovered@.len() ==> crate::discovery::parsed_from(
                        #[trigger] discovered@[q],
                        member.index,
                        member.data@,
                    ),
                    index matches Some(ix) ==> ix.wf(),
                    match this_read {
                        Ok(ix) => index == Some(ix),
                        Err(_) => index is None,
                    },
                    chunk_views(chunks@) == chunks_before + payload_chunks(discovered@.take(p as int), member@, this_read),
                    chunks@.len() == count_before + member_chunks,
                decreases discovered@.len() - p,
            {
                let payload = &discovered[p];
                assert(discovered@.take(p + 1).drop_last() =~= discovered@.take(p as int));
                let raw = &member.data.as_slice()[payload.start..payload.end];
                match Chunk::from_payload(payload, member.file_offset, raw) {
                    Some(mut chunk) => {
                        let ghost found = chunk@;
                        chunk.location = match &index {
                            Some(ix) => ix.locate(member.index, payload.start),
                            None => None,
                        };
                        assert(chunk@ == ChunkView { location: located(this_read, member.index, payload.start), ..found });
                        member_chunks += 1;
                        let ghost cb = chunks@;
                        chunks.push(chunk);
                        assert(chunk_views(chunks@) =~= chunk_views(cb).push(chunk@));
                    },
                    None => {},
                }
                p += 1;
            }
            assert(discovered@.take(p as int) =~= discovered@);
            let ghost infos_before = member_info@;
            member_info.push(MemberInfo {
                index: member.index,
                file_offset: member.file_offset,
                compressed_len: member.compressed_len,
                decompressed_len: member.data.len(),
                is_utf8: member.is_utf8(),
                truncated: member.truncated,
                partial: member.partial,
                sha256: hex(&member.sha256),
                json_payloads: discovered.len(),
                merge_tree_chunks: member_chunks,
                envelope: status,
            });
            assert(member_info@.drop_last() =~= infos_before);
            match index {
                Some(ix) => envelopes.push(ix),
                None => {},
            }
            let mut found = discovered;
            payloads.append(&mut found);
            proof {
                let next = reads.push(this_read);
                assert(next.drop_last() =~= reads);
                reads = next;
            }
            i += 1;
        }
        assert(mv.take(i as int) =~= mv);
        assert(mv =~= model.members);

        let mut payloads_by_anchor: StrMap<usize> = StrMap::new();
        let mut a: usize = 0;
        assert(payloads@.take(0) =~= Seq::<PayloadCandidate>::empty());
        while a < payloads.len()
            invariant
                a <= payloads@.len(),
                payloads_by_anchor.wf(),
                payloads_by_anchor.as_map() == anchor_counts(payloads@.take(a as int)),
            decreases payloads@.len() - a,
        {
            assert(payloads@.take(a + 1).drop_last() =~= payloads@.take(a as int));
            let anchor = payloads[a].anchor;
            let n = match payloads_by_anchor.get(anchor) {
                Some(c) => c.saturating_add(1),
                None => 1,
            };
            payloads_by_anchor.insert(String::from_str(anchor), n);
            a += 1;
        }
        assert(payloads@.take(a as int) =~= payloads@);

        let chunk_candidates = chunks.len();
        let ghost cv = chunk_views(chunks@);
        let mut tree_warnings: Vec<Warning> = Vec::new();
        let trees = merge_tree::assemble(chunks, &mut tree_warnings);
        let ghost before_trees = warnings@;
        warnings.append(&mut tree_warnings);
        assert(warning_list(warnings@) =~= warning_list(before_trees) + assembly(cv).1);

        // Deltas can repeat across duplicated members; keep the first copy of
        // each so a replay never applies an operation twice.
        let mut deltas: Vec<String> = Vec::new();
        let mut e: usize = 0;
        assert(envelopes@.take(0) =~= Seq::<EnvelopeIndex>::empty());
        assert(deltas@.map_values(|d: String| d@) =~= Seq::<Seq<char>>::empty());
        while e < envelopes.len()
            invariant
                e <= envelopes@.len(),
                deltas@.map_values(|d: String| d@) == distinct_deltas(envelopes@.take(e as int)),
            decreases envelopes@.len() - e,
        {
            assert(envelopes@.take(e + 1).drop_last() =~= envelopes@.take(e as int));
            let env = &envelopes[e];
            let ghost more = env.deltas@.map_values(|d: String| d@);
            let ghost base = deltas@.map_values(|d: String| d@);
            let mut d: usize = 0;
            assert(more.take(0) =~= Seq::<Seq<char>>::empty());
            while d < env.deltas.len()
                invariant
                    d <= env.deltas@.len(),
                    more == env.deltas@.map_values(|d: String| d@),
                    deltas@.map_values(|d: String| d@) == add_new(base, more.take(d as int)),
                decreases env.deltas@.len() - d,
            {
                assert(more.take(d + 1).drop_last() =~= more.take(d as int));
                assert(more.take(d + 1).last() == env.deltas@[d as int]@);
                let ghost dv = deltas@.map_values(|x: String| x@);
                let mut k: usize = 0;
                let mut seen = false;
                while k < deltas.len()
                    invariant
                        k <= deltas@.len(),
                        d < env.deltas@.len(),
                        dv == deltas@.map_values(|x: String| x@),
                        seen ==> dv.contains(env.deltas@[d as int]@),
                        !seen ==> forall|j: int| 0 <= j < k ==> dv[j] != env.deltas@[d as int]@,
                    decreases deltas@.len() - k,
                {
                    assert(dv[k as int] == deltas@[k as int]@);
                    if same_text(deltas[k].as_str(), env.deltas[d].as_str()) {
                        seen = true;
                    }
                    k += 1;
                }
                if !seen {
                    deltas.push(env.deltas[d].clone());
                    assert(deltas@.map_values(|x: String| x@) =~= dv.push(env.deltas@[d as int]@));
                }
                d += 1;
            }
            assert(more.take(d as int) =~= more);
            e += 1;
        }
        assert(envelopes@.take(e as int) =~= envelopes@);

        let mut operations = OperationLog::parse(deltas.as_slice());
        let mut all = envelopes.len() > 0;
        let mut q: usize = 0;
        while q < envelopes.len()
            invariant
                q <= envelopes@.len(),
                all == (envelopes@.len() > 0 && forall|j: int| 0 <= j < q ==> match (#[trigger] envelopes@[j]).snapshot_sequence_number {
                    Some(snapshot) => envelopes@[j].first_delta_sequence_number == Some((snapshot + 1) as i64) && snapshot < i64::MAX,
                    None => false,
                }),
            decreases envelopes@.len() - q,
        {
            if !envelopes[q].operations_follow_snapshot() {
                all = false;
            }
            q += 1;
        }
        operations.follows_snapshot = all;

        let components = container::components(payloads.as_slice());
        let assessment = container::assess(members.len(), payloads.len(), chunk_candidates, components);
        let ghost before_identity = warnings@;
        let known = assessment.is_known_loop_component();
        if !known {
            warnings.push(Warning::new(
                "component_identity_missing",
                String::from_str("no recognised Loop component identifier found (expected one of: @fluidx/loop-page-container, @ms/office-fluid-container)"),
            ));
        }
        assert(warning_list(warnings@) =~= warning_list(before_identity) + identity_warning(known));
        let ghost before_properties = warnings@;
        let properties = collect_properties(&trees, &mut warnings);
        proof {
            if unknown_keys(properties.entries()).len() > 0 {
                assert(warnings@ =~= before_properties.push(warnings@.last()));
                assert(warning_list(warnings@) =~= warning_list(before_properties).push(warnings@.last()@));
            }
            assert(warning_list(warnings@) =~= warning_list(before_properties) + property_warning(properties));
        }

        let r = Analysis {
            path: source.path.clone(),
            extension: source.extension(),
            file_size: source.size(),
            members,
            member_info,
            failed_candidates: failed,
            gzip_candidates: candidate_offsets.len(),
            payloads,
            payloads_by_anchor,
            chunk_candidates,
            trees,
            envelopes,
            operations,
            assessment,
            properties,
            warnings,
        };
        assert(pipeline_holds(r, model, anchors, reads));
        r
    }
}

} // verus!
