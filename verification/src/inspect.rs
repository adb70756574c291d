//! `loop-extract inspect` - the diagnostic view of a container.
//!
//! Inspect exists to make format changes visible. When a future Loop version
//! stops extracting cleanly, this report should show where it diverged: which
//! members inflated, which payloads parsed, how many trees were found and what
//! properties were unrecognised.

use vstd::prelude::*;
use crate::analysis::{Analysis, MemberInfo, PropertyUsage, hex, sum_duplicates};
use crate::container::{FormatAssessment, identity_views};
use crate::digest::hex_of;
use crate::discovery::envelope::PayloadLocation;
use crate::document::model::ContentSource;
use crate::document::reconstruct::{reconstruct, body_source, snapshot_body};
use crate::fluid::merge_tree::{MergeTree, RoleEvidence, SourceLocation, TreeEvidence, TreeKey, TreeRole,
    segment_views, location_view, copy_location};
use crate::gzip::{FailedCandidate, GzipMember};
use crate::operations::log::OperationCounts;
use crate::operations::{plain_text, segments_text, tally_views, first_seen_tally, rank_order};
use crate::operations::log::op_views;
use crate::order::stable_sort_by;
use crate::strmap::StrMap;
use crate::warning::{Warning, warning_views};
use crate::text::{push_char, decimal, decimal_digits, debug_option, debug_option_i64, debug_option_usize, joined, texts_of, join, repeated, repeat};
use crate::discovery::envelope::LocationView;
use crate::document::reconstruct::{debug_quoted, debug_text};
use crate::fluid::merge_tree::role_debug_name;
use crate::fluid::properties::PropertyClass;
use crate::container::Confidence;

verus! {

/// What the report says about one merge tree.
#[derive(Debug)]
pub struct TreeReport {
    pub key: TreeKey,
    pub role: TreeRole,
    pub role_evidence: RoleEvidence,
    pub location: Option<PayloadLocation>,
    pub content_hash: String,
    pub assembled_segments: usize,
    pub chunks: usize,
    pub complete: bool,
    pub copies_found: usize,
    pub duplicate_copies_collapsed: usize,
    pub sources: Vec<SourceLocation>,
    pub evidence: TreeEvidence,
}

/// What the report says about the operation log.
#[derive(Debug)]
pub struct OperationsReport {
    pub counts: OperationCounts,
    /// True when the log provably begins where the snapshot ends.
    pub follows_snapshot: bool,
    /// Insert counts per address, most first.
    pub inserts_by_address: Vec<(String, usize)>,
    pub snapshot_body_segments: usize,
    pub replayed_body_segments: usize,
    pub selected_content_source: ContentSource,
}

/// The diagnostic view of a container.
#[derive(Debug)]
pub struct InspectReport {
    pub path: String,
    pub extension: String,
    pub file_size: usize,
    pub format: FormatAssessment,
    pub gzip_candidates: usize,
    pub gzip_members_inflated: usize,
    pub gzip_candidates_rejected: usize,
    pub decompressed_bytes: usize,
    pub members: Vec<MemberInfo>,
    pub rejected_candidates: Vec<FailedCandidate>,
    pub json_payloads: usize,
    /// Payload counts per anchor, quotes stripped from the anchor.
    pub payloads_by_anchor: StrMap<usize>,
    pub merge_tree_chunk_candidates: usize,
    pub merge_trees: usize,
    pub title_trees: usize,
    pub body_trees: usize,
    pub embedded_component_trees: usize,
    pub title_candidates: usize,
    pub body_candidates: usize,
    pub auxiliary_trees: usize,
    /// True when the container framing placed the trees, rather than heuristics.
    pub structurally_classified: bool,
    pub duplicate_copies_collapsed: usize,
    pub trees: Vec<TreeReport>,
    pub properties: StrMap<PropertyUsage>,
    pub operations: OperationsReport,
    pub warnings: Vec<Warning>,
}

/// Whether a tree report describes a tree.
pub open spec fn reports_tree(r: TreeReport, t: MergeTree) -> bool {
    &&& r.key == t.key
    &&& r.role == t.role
    &&& r.role_evidence@ == t.role_evidence@
    &&& location_view(r.location) == location_view(t.location)
    &&& r.content_hash@ == hex_of(t.content_hash@)
    &&& r.assembled_segments == t.segments@.len()
    &&& r.chunks == t.chunks@.len()
    &&& r.complete == t.complete
    &&& r.copies_found == t.sources@.len()
    &&& r.duplicate_copies_collapsed == t.duplicate_copies
    &&& r.sources@ == t.sources@
    &&& r.evidence@ == t.evidence@
}

/// How many trees have a role.
pub open spec fn role_count(trees: Seq<MergeTree>, role: TreeRole) -> int
    decreases trees.len(),
{
    if trees.len() == 0 {
        0
    } else {
        role_count(trees.drop_last(), role) + if trees.last().role == role { 1int } else { 0int }
    }
}

/// Decompressed bytes over all members, saturating at `usize::MAX`.
pub open spec fn total_bytes(members: Seq<GzipMember>) -> int
    decreases members.len(),
{
    if members.len() == 0 {
        0
    } else {
        let t = total_bytes(members.drop_last()) + members.last().data@.len();
        if t < usize::MAX { t } else { usize::MAX as int }
    }
}

/// Text without leading `"` characters.
pub open spec fn trim_quotes_start(s: Seq<char>) -> Seq<char>
    decreases s.len(),
{
    if s.len() > 0 && s[0] == '"' { trim_quotes_start(s.drop_first()) } else { s }
}

/// Text without trailing `"` characters.
pub open spec fn trim_quotes_end(s: Seq<char>) -> Seq<char>
    decreases s.len(),
{
    if s.len() > 0 && s.last() == '"' { trim_quotes_end(s.drop_last()) } else { s }
}

/// Text without surrounding `"` characters.
pub open spec fn trim_quotes(s: Seq<char>) -> Seq<char> {
    trim_quotes_end(trim_quotes_start(s))
}

/// Anchor counts keyed by the anchor with its quotes stripped; a later anchor
/// that strips to the same text replaces an earlier one.
pub open spec fn unquoted_counts(e: Seq<(String, usize)>) -> Map<Seq<char>, usize>
    decreases e.len(),
{
    if e.len() == 0 {
        Map::empty()
    } else {
        unquoted_counts(e.drop_last()).insert(trim_quotes(e.last().0@), e.last().1)
    }
}

/// The segments the snapshot's body tree holds, when it holds text.
pub open spec fn snapshot_body_len(a: Analysis) -> int {
    match snapshot_body(a) {
        Some(i) => a.trees@[i].segments@.len() as int,
        None => 0,
    }
}

/// Text without surrounding `"` characters.
fn strip_quotes(s: &str) -> (r: String)
    ensures
        r@ == trim_quotes(s@),
{
    let cs = crate::text::chars_of(s);
    let mut lo: usize = 0;
    assert(cs@.skip(0) =~= cs@);
    while lo < cs.len() && cs[lo] == '"'
        invariant
            lo <= cs@.len(),
            cs@ == s@,
            trim_quotes_start(s@) == trim_quotes_start(cs@.skip(lo as int)),
        decreases cs@.len() - lo,
    {
        assert(cs@.skip(lo as int)[0] == cs@[lo as int]);
        assert(cs@.skip(lo as int).drop_first() =~= cs@.skip(lo + 1));
        lo += 1;
    }
    proof {
        if lo < cs@.len() {
            assert(cs@.skip(lo as int)[0] == cs@[lo as int]);
        }
    }
    let ghost t = cs@.skip(lo as int);
    let mut hi: usize = cs.len();
    assert(t.take(t.len() as int) =~= t);
    while hi > lo && cs[hi - 1] == '"'
        invariant
            lo <= hi <= cs@.len(),
            t == cs@.skip(lo as int),
            trim_quotes_end(t) == trim_quotes_end(t.take(hi - lo)),
        decreases hi,
    {
        assert(t.take(hi - lo).last() == cs@[hi - 1]);
        assert(t.take(hi - lo).drop_last() =~= t.take(hi - lo - 1));
        hi -= 1;
    }
    proof {
        if hi > lo {
            assert(t.take(hi - lo).last() == cs@[hi - 1]);
        } else {
            assert(t.take(0) =~= Seq::<char>::empty());
        }
    }
    let mut out = String::new();
    let mut k = lo;
    while k < hi
        invariant
            lo <= k <= hi <= cs@.len(),
            out@ == cs@.subrange(lo as int, k as int),
        decreases hi - k,
    {
        push_char(&mut out, cs[k]);
        assert(out@ =~= cs@.subrange(lo as int, k + 1));
        k += 1;
    }
    assert(t.take(hi - lo) =~= cs@.subrange(lo as int, hi as int));
    out
}

/// How many trees have a role.
fn count_role(trees: &Vec<MergeTree>, role: TreeRole) -> (n: usize)
    ensures
        n == role_count(trees@, role),
{
    let mut n: usize = 0;
    let mut i: usize = 0;
    assert(trees@.take(0) =~= Seq::<MergeTree>::empty());
    while i < trees.len()
        invariant
            i <= trees@.len(),
            n == role_count(trees@.take(i as int), role),
            n <= i,
        decreases trees@.len() - i,
    {
        assert(trees@.take(i + 1).drop_last() =~= trees@.take(i as int));
        if trees[i].role == role {
            n += 1;
        }
        i += 1;
    }
    assert(trees@.take(i as int) =~= trees@);
    n
}

/// What the report says about one tree.
fn tree_report(tree: &MergeTree) -> (r: TreeReport)
    ensures
        reports_tree(r, *tree),
{
    let mut sources: Vec<SourceLocation> = Vec::new();
    let mut i: usize = 0;
    while i < tree.sources.len()
        invariant
            i <= tree.sources@.len(),
            sources@ == tree.sources@.take(i as int),
        decreases tree.sources@.len() - i,
    {
        sources.push(tree.sources[i]);
        assert(sources@ =~= tree.sources@.take(i + 1));
        i += 1;
    }
    assert(tree.sources@.take(i as int) =~= tree.sources@);
    TreeReport {
        key: tree.key,
        role: tree.role,
        role_evidence: tree.role_evidence.copy(),
        location: copy_location(&tree.location),
        content_hash: hex(&tree.content_hash),
        assembled_segments: tree.segments.len(),
        chunks: tree.chunks.len(),
        complete: tree.complete,
        copies_found: tree.sources.len(),
        duplicate_copies_collapsed: tree.duplicate_copies,
        sources,
        evidence: tree.evidence.copy(),
    }
}

/// A tree's assembled plain text.
pub fn tree_plain_text(tree: &MergeTree) -> (r: String)
    ensures
        r@ == plain_text(segment_views(tree.segments@)),
{
    segments_text(tree.segments.as_slice())
}

/// Summarises the operation log and which source the document would use.
fn operations_report(analysis: &Analysis) -> (r: OperationsReport)
    requires
        analysis.wf(),
    ensures
        r.counts == analysis.operations.counts,
        r.follows_snapshot == analysis.operations.follows_snapshot,
        tally_views(r.inserts_by_address@) == stable_sort_by(
            first_seen_tally(op_views(analysis.operations.ops@)),
            rank_order(),
        ),
        r.snapshot_body_segments == snapshot_body_len(*analysis),
        r.replayed_body_segments == match body_source(*analysis).2 {
            Some(s) => s.segments,
            None => 0,
        },
        r.selected_content_source == body_source(*analysis).1,
{
    let (document, _) = reconstruct(analysis);
    let replayed = match &document.metadata.replay {
        Some(replay) => replay.segments,
        None => 0,
    };
    OperationsReport {
        counts: analysis.operations.counts,
        follows_snapshot: analysis.operations.follows_snapshot,
        inserts_by_address: analysis.operations.addresses_by_inserts(),
        snapshot_body_segments: InspectReport::body_tree_segments(analysis),
        replayed_body_segments: replayed,
        selected_content_source: document.metadata.content_source,
    }
}

/// Payload counts per anchor, quotes stripped from each anchor.
fn unquoted_anchors(counts: &StrMap<usize>) -> (r: StrMap<usize>)
    ensures
        r.wf(),
        r.as_map() == unquoted_counts(counts.entries()),
{
    let mut out: StrMap<usize> = StrMap::new();
    let mut i: usize = 0;
    assert(counts.entries().take(0) =~= Seq::<(String, usize)>::empty());
    while i < counts.len()
        invariant
            i <= counts.entries().len(),
            out.wf(),
            out.as_map() == unquoted_counts(counts.entries().take(i as int)),
        decreases counts.entries().len() - i,
    {
        assert(counts.entries().take(i + 1).drop_last() =~= counts.entries().take(i as int));
        let key = strip_quotes(counts.key_at(i).as_str());
        let value = *counts.value_at(i);
        out.insert(key, value);
        i += 1;
    }
    assert(counts.entries().take(i as int) =~= counts.entries());
    out
}

impl InspectReport {
    /// The segment count of the snapshot's body tree, when it holds text.
    pub fn body_tree_segments(analysis: &Analysis) -> (n: usize)
        ensures
            n == snapshot_body_len(*analysis),
    {
        match analysis.body_candidate() {
            Some(tree) => if tree.evidence.text_segments > 0 { tree.segments.len() } else { 0 },
            None => 0,
        }
    }

    /// Builds the report from an analysis.
    pub fn build(analysis: &Analysis) -> (r: Self)
        requires
            analysis.wf(),
        ensures
            r.path@ == analysis.path@,
            r.extension@ == analysis.extension@,
            r.file_size == analysis.file_size,
            r.format.format@ == analysis.assessment.format@,
            identity_views(r.format.components@) == identity_views(analysis.assessment.components@),
            r.format.confidence == analysis.assessment.confidence,
            r.gzip_candidates == analysis.gzip_candidates,
            r.gzip_members_inflated == analysis.members@.len(),
            r.gzip_candidates_rejected == analysis.failed_candidates@.len(),
            r.decompressed_bytes == total_bytes(analysis.members@),
            r.members@.len() == analysis.member_info@.len(),
            forall|i: int| 0 <= i < r.members@.len() ==> (#[trigger] r.members@[i]).same(analysis.member_info@[i]),
            r.rejected_candidates@.len() == analysis.failed_candidates@.len(),
            forall|i: int| 0 <= i < r.rejected_candidates@.len() ==> (#[trigger] r.rejected_candidates@[i]).file_offset
                == analysis.failed_candidates@[i].file_offset && r.rejected_candidates@[i].error@
                == analysis.failed_candidates@[i].error@,
            r.json_payloads == analysis.payloads@.len(),
            r.payloads_by_anchor.wf(),
            r.payloads_by_anchor.as_map() == unquoted_counts(analysis.payloads_by_anchor.entries()),
            r.merge_tree_chunk_candidates == analysis.chunk_candidates,
            r.merge_trees == analysis.trees@.len(),
            r.title_trees == role_count(analysis.trees@, TreeRole::Title),
            r.body_trees == role_count(analysis.trees@, TreeRole::Body),
            r.embedded_component_trees == role_count(analysis.trees@, TreeRole::EmbeddedComponent),
            r.title_candidates == role_count(analysis.trees@, TreeRole::TitleCandidate),
            r.body_candidates == role_count(analysis.trees@, TreeRole::BodyCandidate),
            r.auxiliary_trees == role_count(analysis.trees@, TreeRole::Auxiliary),
            r.structurally_classified == exists|i: int|
                0 <= i < analysis.trees@.len() && (#[trigger] analysis.trees@[i]).role.structural(),
            r.duplicate_copies_collapsed == sum_duplicates(analysis.trees@),
            r.trees@.len() == analysis.trees@.len(),
            forall|i: int| 0 <= i < r.trees@.len() ==> reports_tree(#[trigger] r.trees@[i], analysis.trees@[i]),
            r.properties.entries() == analysis.properties.entries(),
            r.properties.wf(),
            r.operations.counts == analysis.operations.counts,
            r.operations.follows_snapshot == analysis.operations.follows_snapshot,
            tally_views(r.operations.inserts_by_address@) == stable_sort_by(
                first_seen_tally(op_views(analysis.operations.ops@)),
                rank_order(),
            ),
            r.operations.snapshot_body_segments == snapshot_body_len(*analysis),
            r.operations.replayed_body_segments == match body_source(*analysis).2 {
                Some(s) => s.segments,
                None => 0,
            },
            r.operations.selected_content_source == body_source(*analysis).1,
            warning_views(r.warnings@) == warning_views(analysis.warnings@),
    {
        let mut trees: Vec<TreeReport> = Vec::new();
        let mut i: usize = 0;
        while i < analysis.trees.len()
            invariant
                i <= analysis.trees@.len(),
                trees@.len() == i,
                forall|k: int| 0 <= k < i ==> reports_tree(#[trigger] trees@[k], analysis.trees@[k]),
            decreases analysis.trees@.len() - i,
        {
            trees.push(tree_report(&analysis.trees[i]));
            i += 1;
        }

        let mut members: Vec<MemberInfo> = Vec::new();
        let mut m: usize = 0;
        while m < analysis.member_info.len()
            invariant
                m <= analysis.member_info@.len(),
                members@.len() == m,
                forall|k: int| 0 <= k < m ==> (#[trigger] members@[k]).same(analysis.member_info@[k]),
            decreases analysis.member_info@.len() - m,
        {
            members.push(analysis.member_info[m].copy());
            m += 1;
        }

        let mut rejected: Vec<FailedCandidate> = Vec::new();
        let mut f: usize = 0;
        while f < analysis.failed_candidates.len()
            invariant
                f <= analysis.failed_candidates@.len(),
                rejected@.len() == f,
                forall|k: int| 0 <= k < f ==> (#[trigger] rejected@[k]).file_offset
                    == analysis.failed_candidates@[k].file_offset && rejected@[k].error@
                    == analysis.failed_candidates@[k].error@,
            decreases analysis.failed_candidates@.len() - f,
        {
            rejected.push(analysis.failed_candidates[f].clone());
            f += 1;
        }

        let mut bytes: usize = 0;
        let mut g: usize = 0;
        assert(analysis.members@.take(0) =~= Seq::<GzipMember>::empty());
        while g < analysis.members.len()
            invariant
                g <= analysis.members@.len(),
                bytes == total_bytes(analysis.members@.take(g as int)),
            decreases analysis.members@.len() - g,
        {
            assert(analysis.members@.take(g + 1).drop_last() =~= analysis.members@.take(g as int));
            bytes = bytes.saturating_add(analysis.members[g].data.len());
            g += 1;
        }
        assert(analysis.members@.take(g as int) =~= analysis.members@);

        let mut warnings: Vec<Warning> = Vec::new();
        let mut w: usize = 0;
        while w < analysis.warnings.len()
            invariant
                w <= analysis.warnings@.len(),
                warning_views(warnings@) == warning_views(analysis.warnings@.take(w as int)),
            decreases analysis.warnings@.len() - w,
        {
            let ghost before = warnings@;
            warnings.push(analysis.warnings[w].clone());
            assert(warning_views(warnings@) =~= warning_views(before).push(analysis.warnings@[w as int]@));
            assert(analysis.warnings@.take(w + 1) =~= analysis.warnings@.take(w as int).push(analysis.warnings@[w as int]));
            assert(warning_views(warnings@) =~= warning_views(analysis.warnings@.take(w + 1)));
            w += 1;
        }
        assert(analysis.warnings@.take(w as int) =~= analysis.warnings@);

        InspectReport {
            path: analysis.path.clone(),
            extension: analysis.extension.clone(),
            file_size: analysis.file_size,
            format: analysis.assessment.copy(),
            gzip_candidates: analysis.gzip_candidates,
            gzip_members_inflated: analysis.members.len(),
            gzip_candidates_rejected: analysis.failed_candidates.len(),
            decompressed_bytes: bytes,
            members,
            rejected_candidates: rejected,
            json_payloads: analysis.payloads.len(),
            payloads_by_anchor: unquoted_anchors(&analysis.payloads_by_anchor),
            merge_tree_chunk_candidates: analysis.chunk_candidates,
            merge_trees: analysis.trees.len(),
            title_trees: count_role(&analysis.trees, TreeRole::Title),
            body_trees: count_role(&analysis.trees, TreeRole::Body),
            embedded_component_trees: count_role(&analysis.trees, TreeRole::EmbeddedComponent),
            title_candidates: count_role(&analysis.trees, TreeRole::TitleCandidate),
            body_candidates: count_role(&analysis.trees, TreeRole::BodyCandidate),
            auxiliary_trees: count_role(&analysis.trees, TreeRole::Auxiliary),
            structurally_classified: analysis.has_structural_classification(),
            duplicate_copies_collapsed: analysis.collapsed_duplicates(),
            trees,
            properties: analysis.properties.copy(),
            operations: operations_report(analysis),
            warnings,
        }
    }
}


/// A line break.
pub open spec fn nl() -> Seq<char> {
    seq!['\n']
}

/// A count in decimal.
#[verifier::opaque]
pub open spec fn dec(n: int) -> Seq<char> {
    decimal_digits(n as nat)
}

/// `true` or `false`.
#[verifier::opaque]
pub open spec fn bool_text(b: bool) -> Seq<char> {
    if b { "true"@ } else { "false"@ }
}

/// Text padded with spaces on the right to at least `w` characters.
#[verifier::opaque]
pub open spec fn pad_right(s: Seq<char>, w: nat) -> Seq<char> {
    if s.len() < w { s + repeated(" "@, (w - s.len()) as nat) } else { s }
}

/// Text padded with spaces on the left to at least `w` characters.
#[verifier::opaque]
pub open spec fn pad_left(s: Seq<char>, w: nat) -> Seq<char> {
    if s.len() < w { repeated(" "@, (w - s.len()) as nat) + s } else { s }
}

/// `{:?}` of an optional count.
#[verifier::opaque]
pub open spec fn debug_count(n: Option<usize>) -> Seq<char> {
    match n {
        Some(v) => "Some("@ + dec(v as int) + ")"@,
        None => "None"@,
    }
}

pub open spec fn confidence_name(c: Confidence) -> Seq<char> {
    match c {
        Confidence::High => "High"@,
        Confidence::Moderate => "Moderate"@,
        Confidence::Low => "Low"@,
        Confidence::NoneFound => "None"@,
    }
}

pub open spec fn class_debug_name(c: PropertyClass) -> Seq<char> {
    match c {
        PropertyClass::Rendered => "Rendered"@,
        PropertyClass::Recognised => "Recognised"@,
        PropertyClass::Unknown => "Unknown"@,
    }
}

pub open spec fn source_name(c: ContentSource) -> Seq<char> {
    match c {
        ContentSource::Snapshot => "Snapshot"@,
        ContentSource::Operations => "Operations"@,
        ContentSource::SnapshotPlusOperations => "SnapshotPlusOperations"@,
    }
}

/// The component lines of the header.
pub open spec fn component_lines(cs: Seq<(Seq<char>, Option<Seq<char>>)>) -> Seq<char>
    decreases cs.len(),
{
    if cs.len() == 0 {
        Seq::empty()
    } else {
        component_lines(cs.drop_last()) + "Component:       "@ + cs.last().0 + " (version "@ + match cs.last().1 {
            Some(v) => v,
            None => "unknown"@,
        } + ")"@ + nl()
    }
}

/// File, size, format, components and confidence.
#[verifier::opaque]
pub open spec fn header_text(r: InspectReport) -> Seq<char> {
    "File:            "@ + r.path@ + nl() + "Size:            "@ + dec(r.file_size as int) + " bytes"@ + nl()
        + "Format:          "@ + r.format.format@ + nl() + if r.format.components@.len() == 0 {
        "Component:       unknown"@ + nl()
    } else {
        component_lines(identity_views(r.format.components@))
    } + "Confidence:      "@ + confidence_name(r.format.confidence) + nl() + nl()
}

/// The gzip section.
#[verifier::opaque]
pub open spec fn gzip_text(r: InspectReport) -> Seq<char> {
    "Gzip members"@ + nl() + "  signatures found:      "@ + dec(r.gzip_candidates as int) + nl()
        + "  inflated:              "@ + dec(r.gzip_members_inflated as int) + nl() + "  rejected:              "@
        + dec(r.gzip_candidates_rejected as int) + nl() + "  decompressed bytes:    "@ + dec(
        r.decompressed_bytes as int,
    ) + nl() + nl()
}

/// One line per anchor.
pub open spec fn anchor_lines(e: Seq<(String, usize)>) -> Seq<char>
    decreases e.len(),
{
    if e.len() == 0 {
        Seq::empty()
    } else {
        anchor_lines(e.drop_last()) + "    via "@ + pad_right(e.last().0@, 24) + " "@ + dec(e.last().1 as int) + nl()
    }
}

/// The first lines of the payload section.
#[verifier::opaque]
pub open spec fn payload_head(r: InspectReport) -> Seq<char> {
    "Embedded payloads"@ + nl() + "  JSON payloads:         "@ + dec(r.json_payloads as int) + nl()
}

/// Chunk and tree counts, and how the trees were classified.
#[verifier::opaque]
pub open spec fn payload_mid(r: InspectReport) -> Seq<char> {
    "  merge-tree chunks:     "@ + dec(r.merge_tree_chunk_candidates as int) + nl() + "  merge trees assembled: "@
        + dec(r.merge_trees as int) + nl() + "  classified by:         "@ + if r.structurally_classified {
        "container framing"@
    } else {
        "content heuristics"@
    } + nl()
}

/// Role counts, when the framing classified the trees.
#[verifier::opaque]
pub open spec fn structural_lines(r: InspectReport) -> Seq<char> {
    if r.structurally_classified {
        "    title:               "@ + dec(r.title_trees as int) + nl() + "    body:                "@ + dec(
            r.body_trees as int,
        ) + nl() + "    embedded components: "@ + dec(r.embedded_component_trees as int) + nl()
    } else {
        Seq::empty()
    }
}

/// Candidate counts, when there are any.
#[verifier::opaque]
pub open spec fn candidate_lines(r: InspectReport) -> Seq<char> {
    if r.body_candidates + r.title_candidates > 0 {
        "    body candidates:     "@ + dec(r.body_candidates as int) + nl() + "    title candidates:    "@ + dec(
            r.title_candidates as int,
        ) + nl()
    } else {
        Seq::empty()
    }
}

/// The last lines of the payload section.
#[verifier::opaque]
pub open spec fn payload_tail(r: InspectReport) -> Seq<char> {
    "    auxiliary:           "@ + dec(r.auxiliary_trees as int) + nl() + "  duplicate copies collapsed: "@ + dec(
        r.duplicate_copies_collapsed as int,
    ) + nl() + nl()
}

/// The payload and classification section.
pub open spec fn payload_text(r: InspectReport) -> Seq<char> {
    payload_head(r) + anchor_lines(r.payloads_by_anchor.entries()) + payload_mid(r) + structural_lines(r)
        + candidate_lines(r) + payload_tail(r)
}

/// Where a tree sits, when the framing says.
#[verifier::opaque]
pub open spec fn location_text(l: Option<LocationView>) -> Seq<char> {
    match l {
        Some(loc) => (match loc.channel_id {
            Some(c) => "      channel: "@ + c + (match loc.component_package {
                Some(p) => "  component: "@ + p,
                None => Seq::empty(),
            }) + (match loc.handle_name {
                Some(h) => "  handle: "@ + h,
                None => Seq::empty(),
            }) + nl(),
            None => Seq::empty(),
        }) + (match loc.blob_path {
            Some(p) => "      blob path: "@ + p + nl(),
            None => Seq::empty(),
        }),
        None => Seq::empty(),
    }
}

/// One line per source, in verbose mode.
pub open spec fn source_lines(s: Seq<SourceLocation>) -> Seq<char>
    decreases s.len(),
{
    if s.len() == 0 {
        Seq::empty()
    } else {
        source_lines(s.drop_last()) + "      source: member "@ + dec(s.last().member_index as int)
            + " at file offset "@ + dec(s.last().member_file_offset as int) + ", payload offset "@ + dec(
            s.last().payload_offset as int,
        ) + nl()
    }
}

/// The first line about a tree.
#[verifier::opaque]
pub open spec fn tree_head(t: TreeReport) -> Seq<char> {
    "  ["@ + role_debug_name(t.role) + "] seq "@ + debug_option(t.key.sequence_number) + "  segments "@ + dec(
        t.assembled_segments as int,
    ) + "/"@ + debug_count(t.key.total_segment_count) + "  chars "@ + debug_count(t.key.total_length_chars)
        + "  chunks "@ + dec(t.chunks as int) + "  copies "@ + dec(t.copies_found as int) + if t.complete {
        Seq::empty()
    } else {
        "  INCOMPLETE"@
    } + nl()
}

/// The formatting flags of a tree.
#[verifier::opaque]
pub open spec fn flags_text(bold: bool, italic: bool, lists: bool, links: bool) -> Seq<char> {
    "  bold "@ + bool_text(bold) + "  italic "@ + bool_text(italic) + "  lists "@ + bool_text(lists) + "  links "@
        + bool_text(links)
}

/// The line of segment counts and formatting flags.
#[verifier::opaque]
pub open spec fn evidence_line(e: TreeEvidence) -> Seq<char> {
    "      text "@ + dec(e.text_segments as int) + "  markers "@ + dec(e.marker_segments as int) + "  unknown "@
        + dec(e.unknown_segments as int) + flags_text(e.has_bold, e.has_italic, e.has_list_reference, e.has_hyperlink)
        + nl()
}

/// A labelled list of names, when there are any.
#[verifier::opaque]
pub open spec fn names_line(label: Seq<char>, names: Seq<String>) -> Seq<char> {
    if names.len() > 0 {
        label + joined(texts_of(names), ", "@) + nl()
    } else {
        Seq::empty()
    }
}

/// The text preview, when there is one.
#[verifier::opaque]
pub open spec fn preview_line(p: Seq<char>) -> Seq<char> {
    if p.len() > 0 {
        "      preview: "@ + debug_quoted(p) + nl()
    } else {
        Seq::empty()
    }
}

/// What the report says of one tree.
pub open spec fn tree_text(t: TreeReport, verbose: bool) -> Seq<char> {
    tree_head(t) + evidence_line(t.evidence) + names_line("      styles: "@, t.evidence.style_references@)
        + names_line("      node types: "@, t.evidence.node_types@) + location_text(location_view(t.location))
        + preview_line(t.evidence.text_preview@) + if verbose { source_lines(t.sources@) } else { Seq::empty() }
}

/// The merge tree section.
pub open spec fn trees_text(ts: Seq<TreeReport>, verbose: bool) -> Seq<char>
    decreases ts.len(),
{
    if ts.len() == 0 {
        Seq::empty()
    } else {
        trees_text(ts.drop_last(), verbose) + tree_text(ts.last(), verbose)
    }
}

/// One line per property key.
pub open spec fn property_lines(e: Seq<(String, PropertyUsage)>) -> Seq<char>
    decreases e.len(),
{
    if e.len() == 0 {
        Seq::empty()
    } else {
        property_lines(e.drop_last()) + "  "@ + pad_right(e.last().0@, 40) + " "@ + class_debug_name(
            e.last().1.class,
        ) + " x"@ + dec(e.last().1.occurrences as int) + nl()
    }
}

/// One line per member, in verbose mode.
pub open spec fn member_lines(ms: Seq<MemberInfo>) -> Seq<char>
    decreases ms.len(),
{
    if ms.len() == 0 {
        Seq::empty()
    } else {
        let m = ms.last();
        member_lines(ms.drop_last()) + "  "@ + pad_left(dec(m.index as int), 3) + "  offset "@ + pad_left(
            dec(m.file_offset as int),
            9,
        ) + "  compressed "@ + pad_left(
            match m.compressed_len {
                Some(c) => dec(c as int),
                None => "?"@,
            },
            9,
        ) + "  decompressed "@ + pad_left(dec(m.decompressed_len as int), 9) + "  utf8 "@ + pad_right(
            bool_text(m.is_utf8),
            5,
        ) + "  json "@ + pad_left(dec(m.json_payloads as int), 3) + "  chunks "@ + pad_left(
            dec(m.merge_tree_chunks as int),
            3,
        ) + nl()
    }
}

/// One line per address.
pub open spec fn address_lines(e: Seq<(String, usize)>) -> Seq<char>
    decreases e.len(),
{
    if e.len() == 0 {
        Seq::empty()
    } else {
        address_lines(e.drop_last()) + "    "@ + e.last().0@ + ": "@ + dec(e.last().1 as int) + " insert(s)"@ + nl()
    }
}

/// The operations section.
#[verifier::opaque]
pub open spec fn operations_text(o: OperationsReport) -> Seq<char> {
    "Operations"@ + nl() + "  records:               "@ + dec(o.counts.records as int) + nl()
        + "    inserts:             "@ + dec(o.counts.inserts as int) + nl() + "    removes:             "@ + dec(
        o.counts.removes as int,
    ) + nl() + "    annotates:           "@ + dec(o.counts.annotates as int) + nl() + "  begin after snapshot:  "@
        + if o.follows_snapshot { "yes"@ } else { "not established"@ } + nl() + address_lines(
        o.inserts_by_address@,
    ) + "  snapshot body segments: "@ + dec(o.snapshot_body_segments as int) + nl()
        + "  replayed body segments: "@ + dec(o.replayed_body_segments as int) + nl()
        + "  selected content source: "@ + source_name(o.selected_content_source) + nl() + nl()
}

/// One line per warning.
pub open spec fn warning_lines(ws: Seq<Warning>) -> Seq<char>
    decreases ws.len(),
{
    if ws.len() == 0 {
        Seq::empty()
    } else {
        let w = ws.last();
        warning_lines(ws.drop_last()) + match w.file_offset {
            Some(offset) => "  ["@ + w.code@ + "] at file offset "@ + dec(offset as int) + ": "@ + w.message@ + nl(),
            None => "  ["@ + w.code@ + "] "@ + w.message@ + nl(),
        }
    }
}

/// The report as text.
pub open spec fn report_text(r: InspectReport, verbose: bool) -> Seq<char> {
    header_text(r) + gzip_text(r) + payload_text(r) + "Merge trees"@ + nl() + trees_text(r.trees@, verbose) + nl()
        + "Properties encountered"@ + nl() + property_lines(r.properties.entries()) + nl() + if verbose {
        "Members"@ + nl() + member_lines(r.members@) + nl()
    } else {
        Seq::empty()
    } + operations_text(r.operations) + "Warnings ("@ + dec(r.warnings@.len() as int) + ")"@ + nl() + warning_lines(
        r.warnings@,
    )
}

/// The report up to the merge tree section's heading, inclusive.
pub open spec fn report_head(r: InspectReport) -> Seq<char> {
    header_text(r) + gzip_text(r) + payload_text(r) + "Merge trees"@ + nl()
}

/// The report between the merge trees and the members section: the property
/// section.
pub open spec fn report_middle(r: InspectReport) -> Seq<char> {
    nl() + "Properties encountered"@ + nl() + property_lines(r.properties.entries()) + nl()
}

/// The members section that verbose mode adds: a heading, one line per
/// member, and an empty line.
pub open spec fn members_section(r: InspectReport) -> Seq<char> {
    "Members"@ + nl() + member_lines(r.members@) + nl()
}

/// The report from the operations section on.
pub open spec fn report_tail(r: InspectReport) -> Seq<char> {
    operations_text(r.operations) + "Warnings ("@ + dec(r.warnings@.len() as int) + ")"@ + nl() + warning_lines(
        r.warnings@,
    )
}

/// In verbose mode a tree's text is its plain text followed by one line per
/// source the tree was assembled from.
pub proof fn lemma_verbose_tree_adds_sources(t: TreeReport)
    ensures
        tree_text(t, true) == tree_text(t, false) + source_lines(t.sources@),
{
    assert(tree_text(t, false) =~= tree_text(t, false) + Seq::<char>::empty());
}

/// The verbose report is the plain report with two additions and nothing
/// else: each tree's source lines (see `lemma_verbose_tree_adds_sources`),
/// and the members section, placed between the property section and the
/// operations section.
pub proof fn lemma_verbose_report_adds_members(r: InspectReport)
    ensures
        report_text(r, false) == report_head(r) + trees_text(r.trees@, false) + report_middle(r) + report_tail(r),
        report_text(r, true) == report_head(r) + trees_text(r.trees@, true) + report_middle(r) + members_section(r)
            + report_tail(r),
{
    assert(report_text(r, false) =~= report_head(r) + trees_text(r.trees@, false) + report_middle(r) + report_tail(r));
    assert(report_text(r, true) =~= report_head(r) + trees_text(r.trees@, true) + report_middle(r) + members_section(r)
        + report_tail(r));
}

/// Appends text and a line break.
fn put_line(out: &mut String, s: &str)
    ensures
        final(out)@ == old(out)@ + s@ + nl(),
{
    out.append(s);
    push_char(out, '\n');
}

/// Appends text.
fn put(out: &mut String, s: &str)
    ensures
        final(out)@ == old(out)@ + s@,
{
    out.append(s);
}

/// Text padded with spaces on the right.
fn padded_right(s: &str, w: usize) -> (r: String)
    ensures
        r@ == pad_right(s@, w as nat),
{
    reveal(pad_right);
    let n = crate::text::chars_of(s).len();
    let mut out = String::from_str(s);
    if n < w {
        out.append(repeat(" ", w - n).as_str());
    }
    out
}

/// Text padded with spaces on the left.
fn padded_left(s: &str, w: usize) -> (r: String)
    ensures
        r@ == pad_left(s@, w as nat),
{
    reveal(pad_left);
    let n = crate::text::chars_of(s).len();
    if n < w {
        let mut out = repeat(" ", w - n);
        out.append(s);
        out
    } else {
        String::from_str(s)
    }
}

fn count_debug(n: Option<usize>) -> (r: String)
    ensures
        r@ == debug_count(n),
{
    reveal(debug_count);
    reveal(dec);
    debug_option_usize(n)
}

fn count_text(n: usize) -> (r: String)
    ensures
        r@ == dec(n as int),
{
    reveal(dec);
    decimal(n as u64)
}

fn bool_str(b: bool) -> (r: &'static str)
    ensures
        r@ == bool_text(b),
{
    reveal(bool_text);
    if b { "true" } else { "false" }
}

impl InspectReport {
    fn put_header(&self, out: &mut String)
        ensures
            final(out)@ == old(out)@ + header_text(*self),
    {
        reveal(header_text);
        let ghost o = out@;
        put(out, "File:            ");
        put_line(out, self.path.as_str());
        put(out, "Size:            ");
        put(out, count_text(self.file_size).as_str());
        put_line(out, " bytes");
        put(out, "Format:          ");
        put_line(out, self.format.format.as_str());
        let ghost o2 = out@;
        assert(o2 =~= o + "File:            "@ + self.path@ + nl() + "Size:            "@ + dec(self.file_size as int)
            + " bytes"@ + nl() + "Format:          "@ + self.format.format@ + nl());
        if self.format.components.len() == 0 {
            put_line(out, "Component:       unknown");
        } else {
            let ghost cv = identity_views(self.format.components@);
            let mut i: usize = 0;
            assert(cv.take(0) =~= Seq::<(Seq<char>, Option<Seq<char>>)>::empty());
            while i < self.format.components.len()
                invariant
                    i <= self.format.components@.len(),
                    cv == identity_views(self.format.components@),
                    out@ == o2 + component_lines(cv.take(i as int)),
                decreases self.format.components@.len() - i,
            {
                assert(cv.take(i + 1).drop_last() =~= cv.take(i as int));
                let c = &self.format.components[i];
                let ghost before = out@;
                put(out, "Component:       ");
                put(out, c.name.as_str());
                put(out, " (version ");
                match &c.version {
                    Some(v) => put(out, v.as_str()),
                    None => put(out, "unknown"),
                }
                put_line(out, ")");
                assert(out@ =~= before + component_lines(cv.take(i + 1)).subrange(
                    component_lines(cv.take(i as int)).len() as int,
                    component_lines(cv.take(i + 1)).len() as int,
                ));
                assert(out@ =~= o2 + component_lines(cv.take(i + 1)));
                i += 1;
            }
            assert(cv.take(i as int) =~= cv);
        }
        let ghost o3 = out@;
        put(out, "Confidence:      ");
        put_line(out, self.format.confidence.name());
        push_char(out, '\n');
        assert(out@ =~= o3 + "Confidence:      "@ + confidence_name(self.format.confidence) + nl() + nl());
        assert(out@ =~= o + header_text(*self));
    }

    fn put_gzip(&self, out: &mut String)
        ensures
            final(out)@ == old(out)@ + gzip_text(*self),
    {
        reveal(gzip_text);
        let ghost o = out@;
        put_line(out, "Gzip members");
        put(out, "  signatures found:      ");
        put_line(out, count_text(self.gzip_candidates).as_str());
        put(out, "  inflated:              ");
        put_line(out, count_text(self.gzip_members_inflated).as_str());
        put(out, "  rejected:              ");
        put_line(out, count_text(self.gzip_candidates_rejected).as_str());
        put(out, "  decompressed bytes:    ");
        put_line(out, count_text(self.decompressed_bytes).as_str());
        push_char(out, '\n');
        assert(out@ =~= o + gzip_text(*self));
    }

    fn put_payloads(&self, out: &mut String)
        ensures
            final(out)@ == old(out)@ + payload_text(*self),
    {
        let ghost o = out@;
        self.put_payload_head(out);
        let ghost o1 = out@;
        let ghost e = self.payloads_by_anchor.entries();
        let mut i: usize = 0;
        assert(e.take(0) =~= Seq::<(String, usize)>::empty());
        while i < self.payloads_by_anchor.len()
            invariant
                i <= e.len(),
                e == self.payloads_by_anchor.entries(),
                out@ == o1 + anchor_lines(e.take(i as int)),
            decreases e.len() - i,
        {
            assert(e.take(i + 1).drop_last() =~= e.take(i as int));
            put(out, "    via ");
            put(out, padded_right(self.payloads_by_anchor.key_at(i).as_str(), 24).as_str());
            put(out, " ");
            put_line(out, count_text(*self.payloads_by_anchor.value_at(i)).as_str());
            assert(out@ =~= o1 + anchor_lines(e.take(i + 1)));
            i += 1;
        }
        assert(e.take(i as int) =~= e);
        let ghost o2 = out@;
        self.put_payload_mid(out);
        let ghost o3 = out@;
        self.put_structural(out);
        let ghost o4 = out@;
        self.put_candidates(out);
        let ghost o5 = out@;
        self.put_payload_tail(out);
        assert(out@ =~= o + payload_text(*self));
    }

    fn put_payload_head(&self, out: &mut String)
        ensures
            final(out)@ == old(out)@ + payload_head(*self),
    {
        reveal(payload_head);
        let ghost o = out@;
        put_line(out, "Embedded payloads");
        put(out, "  JSON payloads:         ");
        put_line(out, count_text(self.json_payloads).as_str());
        assert(out@ =~= o + payload_head(*self));
    }

    fn put_payload_mid(&self, out: &mut String)
        ensures
            final(out)@ == old(out)@ + payload_mid(*self),
    {
        reveal(payload_mid);
        let ghost o = out@;
        put(out, "  merge-tree chunks:     ");
        put_line(out, count_text(self.merge_tree_chunk_candidates).as_str());
        put(out, "  merge trees assembled: ");
        put_line(out, count_text(self.merge_trees).as_str());
        put(out, "  classified by:         ");
        if self.structurally_classified {
            put_line(out, "container framing");
        } else {
            put_line(out, "content heuristics");
        }
        assert(out@ =~= o + payload_mid(*self));
    }

    fn put_structural(&self, out: &mut String)
        ensures
            final(out)@ == old(out)@ + structural_lines(*self),
    {
        reveal(structural_lines);
        let ghost o = out@;
        if self.structurally_classified {
            put(out, "    title:               ");
            put_line(out, count_text(self.title_trees).as_str());
            put(out, "    body:                ");
            put_line(out, count_text(self.body_trees).as_str());
            put(out, "    embedded components: ");
            put_line(out, count_text(self.embedded_component_trees).as_str());
        }
        assert(out@ =~= o + structural_lines(*self));
    }

    fn put_candidates(&self, out: &mut String)
        ensures
            final(out)@ == old(out)@ + candidate_lines(*self),
    {
        reveal(candidate_lines);
        let ghost o = out@;
        if self.body_candidates > 0 || self.title_candidates > 0 {
            put(out, "    body candidates:     ");
            put_line(out, count_text(self.body_candidates).as_str());
            put(out, "    title candidates:    ");
            put_line(out, count_text(self.title_candidates).as_str());
        }
        assert(out@ =~= o + candidate_lines(*self));
    }

    fn put_payload_tail(&self, out: &mut String)
        ensures
            final(out)@ == old(out)@ + payload_tail(*self),
    {
        reveal(payload_tail);
        let ghost o = out@;
        put(out, "    auxiliary:           ");
        put_line(out, count_text(self.auxiliary_trees).as_str());
        put(out, "  duplicate copies collapsed: ");
        put_line(out, count_text(self.duplicate_copies_collapsed).as_str());
        push_char(out, '\n');
        assert(out@ =~= o + payload_tail(*self));
    }
}

fn put_location(out: &mut String, location: &Option<PayloadLocation>)
    ensures
        final(out)@ == old(out)@ + location_text(location_view(*location)),
{
    reveal(location_text);
    let ghost o = out@;
    match location {
        Some(l) => {
            match &l.channel_id {
                Some(channel) => {
                    put(out, "      channel: ");
                    put(out, channel.as_str());
                    match &l.component_package {
                        Some(p) => {
                            put(out, "  component: ");
                            put(out, p.as_str());
                        },
                        None => {},
                    }
                    match &l.handle_name {
                        Some(h) => {
                            put(out, "  handle: ");
                            put(out, h.as_str());
                        },
                        None => {},
                    }
                    push_char(out, '\n');
                },
                None => {},
            }
            let ghost o1 = out@;
            match &l.blob_path {
                Some(p) => {
                    put(out, "      blob path: ");
                    put_line(out, p.as_str());
                },
                None => {},
            }
            assert(out@ =~= o + location_text(location_view(*location)));
        },
        None => {
            assert(out@ =~= o + Seq::<char>::empty());
        },
    }
}

fn put_tree_head(out: &mut String, tree: &TreeReport)
    ensures
        final(out)@ == old(out)@ + tree_head(*tree),
{
    reveal(tree_head);
    let ghost o = out@;
    put(out, "  [");
    put(out, tree.role.debug_name());
    put(out, "] seq ");
    put(out, debug_option_i64(tree.key.sequence_number).as_str());
    put(out, "  segments ");
    put(out, count_text(tree.assembled_segments).as_str());
    put(out, "/");
    put(out, count_debug(tree.key.total_segment_count).as_str());
    let ghost o1 = out@;
    assert(o1 =~= o + "  ["@ + role_debug_name(tree.role) + "] seq "@ + debug_option(tree.key.sequence_number)
        + "  segments "@ + dec(tree.assembled_segments as int) + "/"@ + debug_count(tree.key.total_segment_count));
    put(out, "  chars ");
    put(out, count_debug(tree.key.total_length_chars).as_str());
    put(out, "  chunks ");
    put(out, count_text(tree.chunks).as_str());
    put(out, "  copies ");
    put(out, count_text(tree.copies_found).as_str());
    if !tree.complete {
        put(out, "  INCOMPLETE");
    }
    push_char(out, '\n');
    assert(out@ =~= o + tree_head(*tree));
}

fn flags(bold: bool, italic: bool, lists: bool, links: bool) -> (r: String)
    ensures
        r@ == flags_text(bold, italic, lists, links),
{
    reveal(flags_text);
    let mut out = String::from_str("  bold ");
    out.append(bool_str(bold));
    out.append("  italic ");
    out.append(bool_str(italic));
    out.append("  lists ");
    out.append(bool_str(lists));
    out.append("  links ");
    out.append(bool_str(links));
    out
}

fn put_evidence(out: &mut String, e: &TreeEvidence)
    ensures
        final(out)@ == old(out)@ + evidence_line(*e),
{
    reveal(evidence_line);
    let ghost o = out@;
    put(out, "      text ");
    put(out, count_text(e.text_segments).as_str());
    put(out, "  markers ");
    put(out, count_text(e.marker_segments).as_str());
    put(out, "  unknown ");
    put(out, count_text(e.unknown_segments).as_str());
    put_line(out, flags(e.has_bold, e.has_italic, e.has_list_reference, e.has_hyperlink).as_str());
    assert(out@ =~= o + evidence_line(*e));
}

fn put_names(out: &mut String, label: &str, names: &Vec<String>)
    ensures
        final(out)@ == old(out)@ + names_line(label@, names@),
{
    reveal(names_line);
    let ghost o = out@;
    if names.len() > 0 {
        put(out, label);
        put_line(out, join(names, ", ").as_str());
    }
    assert(out@ =~= o + names_line(label@, names@));
}

fn put_preview(out: &mut String, preview: &String)
    ensures
        final(out)@ == old(out)@ + preview_line(preview@),
{
    reveal(preview_line);
    let ghost o = out@;
    if !preview.as_str().is_empty() {
        put(out, "      preview: ");
        put_line(out, debug_text(preview.as_str()).as_str());
    }
    assert(out@ =~= o + preview_line(preview@));
}

fn put_tree(out: &mut String, tree: &TreeReport, verbose: bool)
    ensures
        final(out)@ == old(out)@ + tree_text(*tree, verbose),
{
    let ghost o = out@;
    put_tree_head(out, tree);
    put_evidence(out, &tree.evidence);
    put_names(out, "      styles: ", &tree.evidence.style_references);
    put_names(out, "      node types: ", &tree.evidence.node_types);
    put_location(out, &tree.location);
    put_preview(out, &tree.evidence.text_preview);
    let ghost o6 = out@;
    if verbose {
        let mut i: usize = 0;
        assert(tree.sources@.take(0) =~= Seq::<SourceLocation>::empty());
        while i < tree.sources.len()
            invariant
                i <= tree.sources@.len(),
                out@ == o6 + source_lines(tree.sources@.take(i as int)),
            decreases tree.sources@.len() - i,
        {
            assert(tree.sources@.take(i + 1).drop_last() =~= tree.sources@.take(i as int));
            let source = tree.sources[i];
            put(out, "      source: member ");
            put(out, count_text(source.member_index).as_str());
            put(out, " at file offset ");
            put(out, count_text(source.member_file_offset).as_str());
            put(out, ", payload offset ");
            put_line(out, count_text(source.payload_offset).as_str());
            assert(out@ =~= o6 + source_lines(tree.sources@.take(i + 1)));
            i += 1;
        }
        assert(tree.sources@.take(i as int) =~= tree.sources@);
    }
    assert(out@ =~= o + tree_text(*tree, verbose));
}

impl InspectReport {
    fn put_trees(&self, out: &mut String, verbose: bool)
        ensures
            final(out)@ == old(out)@ + trees_text(self.trees@, verbose),
    {
        let ghost o = out@;
        let mut i: usize = 0;
        assert(self.trees@.take(0) =~= Seq::<TreeReport>::empty());
        while i < self.trees.len()
            invariant
                i <= self.trees@.len(),
                out@ == o + trees_text(self.trees@.take(i as int), verbose),
            decreases self.trees@.len() - i,
        {
            assert(self.trees@.take(i + 1).drop_last() =~= self.trees@.take(i as int));
            put_tree(out, &self.trees[i], verbose);
            assert(out@ =~= o + trees_text(self.trees@.take(i + 1), verbose));
            i += 1;
        }
        assert(self.trees@.take(i as int) =~= self.trees@);
    }

    fn put_properties(&self, out: &mut String)
        ensures
            final(out)@ == old(out)@ + property_lines(self.properties.entries()),
    {
        let ghost o = out@;
        let ghost e = self.properties.entries();
        let mut i: usize = 0;
        assert(e.take(0) =~= Seq::<(String, PropertyUsage)>::empty());
        while i < self.properties.len()
            invariant
                i <= e.len(),
                e == self.properties.entries(),
                out@ == o + property_lines(e.take(i as int)),
            decreases e.len() - i,
        {
            assert(e.take(i + 1).drop_last() =~= e.take(i as int));
            let usage = *self.properties.value_at(i);
            put(out, "  ");
            put(out, padded_right(self.properties.key_at(i).as_str(), 40).as_str());
            put(out, " ");
            put(out, usage.class.debug_name());
            put(out, " x");
            put_line(out, count_text(usage.occurrences).as_str());
            assert(out@ =~= o + property_lines(e.take(i + 1)));
            i += 1;
        }
        assert(e.take(i as int) =~= e);
    }

    #[verifier::rlimit(60)]
    fn put_members(&self, out: &mut String)
        ensures
            final(out)@ == old(out)@ + member_lines(self.members@),
    {
        let ghost o = out@;
        let mut i: usize = 0;
        assert(self.members@.take(0) =~= Seq::<MemberInfo>::empty());
        while i < self.members.len()
            invariant
                i <= self.members@.len(),
                out@ == o + member_lines(self.members@.take(i as int)),
            decreases self.members@.len() - i,
        {
            assert(self.members@.take(i + 1).drop_last() =~= self.members@.take(i as int));
            let m = &self.members[i];
            let compressed = match m.compressed_len {
                Some(c) => count_text(c),
                None => String::from_str("?"),
            };
            put(out, "  ");
            put(out, padded_left(count_text(m.index).as_str(), 3).as_str());
            put(out, "  offset ");
            put(out, padded_left(count_text(m.file_offset).as_str(), 9).as_str());
            put(out, "  compressed ");
            put(out, padded_left(compressed.as_str(), 9).as_str());
            put(out, "  decompressed ");
            put(out, padded_left(count_text(m.decompressed_len).as_str(), 9).as_str());
            put(out, "  utf8 ");
            put(out, padded_right(bool_str(m.is_utf8), 5).as_str());
            put(out, "  json ");
            put(out, padded_left(count_text(m.json_payloads).as_str(), 3).as_str());
            put(out, "  chunks ");
            put_line(out, padded_left(count_text(m.merge_tree_chunks).as_str(), 3).as_str());
            assert(out@ =~= o + member_lines(self.members@.take(i + 1)));
            i += 1;
        }
        assert(self.members@.take(i as int) =~= self.members@);
    }

    #[verifier::rlimit(60)]
    fn put_operations(&self, out: &mut String)
        ensures
            final(out)@ == old(out)@ + operations_text(self.operations),
    {
        reveal(operations_text);
        let ghost o = out@;
        let ops = &self.operations;
        put_line(out, "Operations");
        put(out, "  records:               ");
        put_line(out, count_text(ops.counts.records).as_str());
        put(out, "    inserts:             ");
        put_line(out, count_text(ops.counts.inserts).as_str());
        put(out, "    removes:             ");
        put_line(out, count_text(ops.counts.removes).as_str());
        put(out, "    annotates:           ");
        put_line(out, count_text(ops.counts.annotates).as_str());
        put(out, "  begin after snapshot:  ");
        if ops.follows_snapshot {
            put_line(out, "yes");
        } else {
            put_line(out, "not established");
        }
        let ghost o1 = out@;
        let mut i: usize = 0;
        assert(ops.inserts_by_address@.take(0) =~= Seq::<(String, usize)>::empty());
        while i < ops.inserts_by_address.len()
            invariant
                i <= ops.inserts_by_address@.len(),
                out@ == o1 + address_lines(ops.inserts_by_address@.take(i as int)),
            decreases ops.inserts_by_address@.len() - i,
        {
            assert(ops.inserts_by_address@.take(i + 1).drop_last() =~= ops.inserts_by_address@.take(i as int));
            put(out, "    ");
            put(out, ops.inserts_by_address[i].0.as_str());
            put(out, ": ");
            put(out, count_text(ops.inserts_by_address[i].1).as_str());
            put_line(out, " insert(s)");
            assert(out@ =~= o1 + address_lines(ops.inserts_by_address@.take(i + 1)));
            i += 1;
        }
        assert(ops.inserts_by_address@.take(i as int) =~= ops.inserts_by_address@);
        let ghost o2 = out@;
        put(out, "  snapshot body segments: ");
        put_line(out, count_text(ops.snapshot_body_segments).as_str());
        put(out, "  replayed body segments: ");
        put_line(out, count_text(ops.replayed_body_segments).as_str());
        put(out, "  selected content source: ");
        put_line(out, ops.selected_content_source.name());
        push_char(out, '\n');
        assert(out@ =~= o + operations_text(self.operations));
    }

    fn put_warnings(&self, out: &mut String)
        ensures
            final(out)@ == old(out)@ + warning_lines(self.warnings@),
    {
        let ghost o = out@;
        let mut i: usize = 0;
        assert(self.warnings@.take(0) =~= Seq::<Warning>::empty());
        while i < self.warnings.len()
            invariant
                i <= self.warnings@.len(),
                out@ == o + warning_lines(self.warnings@.take(i as int)),
            decreases self.warnings@.len() - i,
        {
            assert(self.warnings@.take(i + 1).drop_last() =~= self.warnings@.take(i as int));
            let w = &self.warnings[i];
            put(out, "  [");
            put(out, w.code.as_str());
            match w.file_offset {
                Some(offset) => {
                    put(out, "] at file offset ");
                    put(out, count_text(offset).as_str());
                    put(out, ": ");
                },
                None => put(out, "] "),
            }
            put_line(out, w.message.as_str());
            assert(out@ =~= o + warning_lines(self.warnings@.take(i + 1)));
            i += 1;
        }
        assert(self.warnings@.take(i as int) =~= self.warnings@);
    }

    /// The report as text, as `inspect` prints it; `verbose` adds each tree's
    /// sources and a line per gzip member.
    pub fn write_text(&self, verbose: bool) -> (r: String)
        ensures
            r@ == report_text(*self, verbose),
    {
        let mut out = String::new();
        self.put_header(&mut out);
        self.put_gzip(&mut out);
        self.put_payloads(&mut out);
        let ghost o1 = out@;
        put_line(&mut out, "Merge trees");
        self.put_trees(&mut out, verbose);
        push_char(&mut out, '\n');
        put_line(&mut out, "Properties encountered");
        self.put_properties(&mut out);
        push_char(&mut out, '\n');
        let ghost o2 = out@;
        if verbose {
            put_line(&mut out, "Members");
            self.put_members(&mut out);
            push_char(&mut out, '\n');
        }
        let ghost o3 = out@;
        self.put_operations(&mut out);
        put(&mut out, "Warnings (");
        put(&mut out, count_text(self.warnings.len()).as_str());
        put_line(&mut out, ")");
        self.put_warnings(&mut out);
        assert(out@ =~= report_text(*self, verbose));
        out
    }
}

} // verus!
