//! Fluid merge-tree chunk parsing and tree assembly.
//!
//! Document content lives in merge-tree *chunk summaries*. A chunk carries an
//! ordered `segmentTexts` array plus counters describing its place in the whole
//! tree:
//!
//! ```json
//! {"chunkStartSegmentIndex":80,"chunkSegmentCount":54,"chunkLengthChars":4637,
//!  "totalLengthChars":14654,"totalSegmentCount":134,"chunkSequenceNumber":304,
//!  "segmentTexts":[ ... ]}
//! ```
//!
//! A tree may be split across chunks: one fixture stores its 134-segment body as
//! segments 0..79 and 80..133. Chunks must therefore be grouped and
//! reassembled in order, not treated as independent documents.
//!
//! The same chunk also appears more than once in a file - once inside a large
//! aggregate member and once as a standalone member - byte for byte identical.
//! Those duplicates are collapsed by content hash.
//!
//! This is reverse-engineered behaviour and is not based on a published
//! Microsoft Prague/Fluid file-format specification.

use vstd::prelude::*;
use super::properties::{Properties, is_attribution_key};
use crate::digest::{sha256, sha256_of};
use crate::discovery::envelope::{PayloadLocation, LocationView, opt_text};
use crate::discovery::PayloadCandidate;
use crate::json::{Json, JsonValue, member_value, view_members, view_items, copy_members, lemma_field_of_view,
    lemma_view_items_index};
use crate::order::{total_preorder, lemma_stable_sort_ignores_arrangement, SortKey, stable_sort, stable_sort_by, sort_stable, sort_texts, text_le, reversed, key_order,
    lemma_stable_sort_map};
use crate::text::{chars_less, text_less, same_text, debug_option, debug_option_i64, debug_option_usize,
    decimal, decimal_digits, push_str, chars_of, string_of};
use crate::warning::{Warning, WarningView};

verus! {

/// One entry of `segmentTexts`.
#[derive(Debug)]
pub enum Segment {
    Text { text: String, props: Properties },
    Marker { ref_type: Option<i64>, props: Properties },
    /// An entry matching no known shape. Preserved so it reaches diagnostics.
    Unknown { raw: Json },
}

/// The content of a [`Segment`].
pub enum SegmentView {
    Text { text: Seq<char>, props: Seq<(Seq<char>, JsonValue)> },
    Marker { ref_type: Option<i64>, props: Seq<(Seq<char>, JsonValue)> },
    Unknown { raw: JsonValue },
}

impl View for Segment {
    type V = SegmentView;

    open spec fn view(&self) -> SegmentView {
        match self {
            Segment::Text { text, props } => SegmentView::Text { text: text@, props: props.view_props() },
            Segment::Marker { ref_type, props } => SegmentView::Marker { ref_type: *ref_type, props: props.view_props() },
            Segment::Unknown { raw } => SegmentView::Unknown { raw: raw@ },
        }
    }
}

impl Clone for Segment {
    fn clone(&self) -> (r: Self)
        ensures
            r@ == self@,
    {
        match self {
            Segment::Text { text, props } => Segment::Text { text: text.clone(), props: props.clone() },
            Segment::Marker { ref_type, props } => Segment::Marker { ref_type: *ref_type, props: props.clone() },
            Segment::Unknown { raw } => Segment::Unknown { raw: raw.deep_copy() },
        }
    }
}

/// The contents of segments, in order.
pub open spec fn segment_views(s: Seq<Segment>) -> Seq<SegmentView> {
    s.map_values(|x: Segment| x@)
}

/// What one `segmentTexts` entry is: a bare string is text with no properties;
/// an object with a string `text` is text, else one with a `marker` is a
/// marker; anything else is kept as it is.
pub open spec fn segment_of(v: JsonValue) -> SegmentView {
    match v {
        JsonValue::String(s) => SegmentView::Text { text: s, props: Seq::empty() },
        JsonValue::Object(members) => {
            let props = match member_value(members, "props"@) {
                Some(JsonValue::Object(m)) => m,
                _ => Seq::empty(),
            };
            match member_value(members, "text"@) {
                Some(JsonValue::String(t)) => SegmentView::Text { text: t, props },
                _ => match member_value(members, "marker"@) {
                    Some(m) => SegmentView::Marker {
                        ref_type: match m.field("refType"@) {
                            Some(JsonValue::Number { int: n, .. }) => n,
                            _ => None,
                        },
                        props,
                    },
                    None => SegmentView::Unknown { raw: v },
                },
            }
        },
        _ => SegmentView::Unknown { raw: v },
    }
}

/// The properties of a segment, when it has any.
pub open spec fn props_of(s: SegmentView) -> Option<Seq<(Seq<char>, JsonValue)>> {
    match s {
        SegmentView::Text { props, .. } => Some(props),
        SegmentView::Marker { props, .. } => Some(props),
        SegmentView::Unknown { .. } => None,
    }
}

impl Segment {
    pub fn props(&self) -> (r: Option<&Properties>)
        ensures
            r matches Some(p) ==> props_of(self@) == Some(p.view_props()),
            r is None ==> props_of(self@) is None,
    {
        match self {
            Segment::Text { props, .. } => Some(props),
            Segment::Marker { props, .. } => Some(props),
            Segment::Unknown { .. } => None,
        }
    }

    pub fn text(&self) -> (r: Option<&str>)
        ensures
            r matches Some(t) ==> self@ matches SegmentView::Text { text, .. } && text == t@,
            r is None ==> !(self is Text),
    {
        match self {
            Segment::Text { text, .. } => Some(text.as_str()),
            _ => None,
        }
    }

    /// Parses one `segmentTexts` entry.
    pub fn from_value(value: &Json) -> (r: Segment)
        ensures
            r@ == segment_of(value@),
    {
        if let Some(text) = value.as_str() {
            let r = Segment::Text { text: text.clone(), props: Properties::new() };
            assert(view_members(Seq::<(String, Json)>::empty()) =~= Seq::empty());
            return r;
        }
        let entries = match value.as_object() {
            Some(e) => e,
            None => return Segment::Unknown { raw: value.deep_copy() },
        };
        let props = match value.get("props") {
            Some(p) => match p.as_object() {
                Some(m) => Properties(copy_members(m)),
                None => Properties::new(),
            },
            None => Properties::new(),
        };
        assert(view_members(Seq::<(String, Json)>::empty()) =~= Seq::empty());
        let text = match value.get("text") {
            Some(t) => t.as_str(),
            None => None,
        };
        match text {
            Some(t) => Segment::Text { text: t.clone(), props },
            None => match value.get("marker") {
                Some(marker) => {
                    let ref_type = match marker.get("refType") {
                        Some(r) => r.as_i64(),
                        None => None,
                    };
                    Segment::Marker { ref_type, props }
                },
                None => Segment::Unknown { raw: value.deep_copy() },
            },
        }
    }
}

/// Where a chunk was found.
#[derive(Debug, Clone, Copy, PartialEq, Eq, Structural, PartialOrd, Ord)]
pub struct SourceLocation {
    pub member_index: usize,
    /// Offset of the gzip signature within the source file.
    pub member_file_offset: usize,
    /// Offset of the JSON payload within the decompressed member.
    pub payload_offset: usize,
}

/// Whether `a` sorts no later than `b`, field by field.
pub open spec fn source_le(a: SourceLocation, b: SourceLocation) -> bool {
    a.member_index < b.member_index || (a.member_index == b.member_index && (a.member_file_offset
        < b.member_file_offset || (a.member_file_offset == b.member_file_offset && a.payload_offset
        <= b.payload_offset)))
}

fn source_before(a: &SourceLocation, b: &SourceLocation) -> (r: bool)
    ensures
        r == source_le(*a, *b),
{
    a.member_index < b.member_index || (a.member_index == b.member_index && (a.member_file_offset
        < b.member_file_offset || (a.member_file_offset == b.member_file_offset && a.payload_offset
        <= b.payload_offset)))
}

/// The counters a chunk carries about itself and its tree.
pub struct ChunkSummary {
    pub chunk_start_segment_index: usize,
    pub chunk_segment_count: Option<usize>,
    pub chunk_length_chars: Option<usize>,
    pub total_length_chars: Option<usize>,
    pub total_segment_count: Option<usize>,
    pub chunk_sequence_number: Option<i64>,
    pub segment_texts: Option<Vec<Json>>,
}

/// An optional count read from a member: absent or `null` gives `Some(None)`,
/// a non-negative integer that fits gives its value, anything else is a type
/// error (`None`).
pub open spec fn count_field(members: Seq<(Seq<char>, JsonValue)>, key: Seq<char>) -> Option<Option<usize>> {
    match member_value(members, key) {
        None => Some(None),
        Some(JsonValue::Null) => Some(None),
        Some(JsonValue::Number { unsigned, .. }) => match unsigned {
            Some(u) => if u <= usize::MAX { Some(Some(u as usize)) } else { None },
            None => None,
        },
        Some(_) => None,
    }
}

/// An optional signed integer read from a member.
pub open spec fn signed_field(members: Seq<(Seq<char>, JsonValue)>, key: Seq<char>) -> Option<Option<i64>> {
    match member_value(members, key) {
        None => Some(None),
        Some(JsonValue::Null) => Some(None),
        Some(JsonValue::Number { int: n, .. }) => match n {
            Some(i) => Some(Some(i)),
            None => None,
        },
        Some(_) => None,
    }
}

/// What the counters of a chunk object read as, field by field; `None` when a
/// field has the wrong type. An absent `chunkStartSegmentIndex` reads as 0.
pub open spec fn summary_fields(members: Seq<(Seq<char>, JsonValue)>) -> Option<(usize, Option<usize>, Option<usize>, Option<usize>, Option<usize>, Option<i64>, Option<Seq<JsonValue>>)> {
    let start = match member_value(members, "chunkStartSegmentIndex"@) {
        None => Some(0usize),
        Some(JsonValue::Number { unsigned, .. }) => match unsigned {
            Some(u) => if u <= usize::MAX { Some(u as usize) } else { None },
            None => None,
        },
        Some(_) => None,
    };
    let texts = match member_value(members, "segmentTexts"@) {
        None => Some(None),
        Some(JsonValue::Null) => Some(None),
        Some(JsonValue::Array(items)) => Some(Some(items)),
        Some(_) => None,
    };
    match (start, count_field(members, "chunkSegmentCount"@), count_field(members, "chunkLengthChars"@),
        count_field(members, "totalLengthChars"@), count_field(members, "totalSegmentCount"@),
        signed_field(members, "chunkSequenceNumber"@), texts) {
        (Some(a), Some(b), Some(c), Some(d), Some(e), Some(f), Some(g)) => Some((a, b, c, d, e, f, g)),
        _ => None,
    }
}

/// Reads an optional count.
fn read_count(value: &Json, key: &str) -> (r: Result<Option<usize>, ()>)
    ensures
        value@ matches JsonValue::Object(m) ==> (match count_field(m, key@) {
            Some(x) => r == Ok::<Option<usize>, ()>(x),
            None => r is Err,
        }),
{
    proof {
        if let Json::Object(e) = value {
            lemma_field_of_view(e@, key@);
        }
    }
    match value.get(key) {
        None => Ok(None),
        Some(Json::Null) => Ok(None),
        Some(Json::Number(n)) => match n.unsigned {
            Some(u) => if u <= usize::MAX as u64 { Ok(Some(u as usize)) } else { Err(()) },
            None => Err(()),
        },
        Some(_) => Err(()),
    }
}

impl ChunkSummary {
    /// Reads the counters from a chunk object. Fails when a field has the
    /// wrong type; values other than objects are not read.
    pub fn read(value: &Json) -> (r: Option<ChunkSummary>)
        ensures
            match value@ {
                JsonValue::Object(m) => match summary_fields(m) {
                    Some(f) => r matches Some(s) && s.chunk_start_segment_index == f.0
                        && s.chunk_segment_count == f.1 && s.chunk_length_chars == f.2
                        && s.total_length_chars == f.3 && s.total_segment_count == f.4
                        && s.chunk_sequence_number == f.5 && (match (s.segment_texts, f.6) {
                            (Some(v), Some(items)) => view_items(v@) == items,
                            (None, None) => true,
                            _ => false,
                        }),
                    None => r is None,
                },
                _ => r is None,
            },
    {
        let entries = match value.as_object() {
            Some(e) => e,
            None => return None,
        };
        proof {
            lemma_field_of_view(entries@, "chunkStartSegmentIndex"@);
            lemma_field_of_view(entries@, "segmentTexts"@);
            lemma_field_of_view(entries@, "chunkSequenceNumber"@);
        }
        let start: usize = match value.get("chunkStartSegmentIndex") {
            None => 0,
            Some(Json::Number(n)) => match n.unsigned {
                Some(u) => if u <= usize::MAX as u64 { u as usize } else { return None },
                None => return None,
            },
            Some(_) => return None,
        };
        let count = match read_count(value, "chunkSegmentCount") {
            Ok(x) => x,
            Err(_) => return None,
        };
        let length = match read_count(value, "chunkLengthChars") {
            Ok(x) => x,
            Err(_) => return None,
        };
        let total_length = match read_count(value, "totalLengthChars") {
            Ok(x) => x,
            Err(_) => return None,
        };
        let total_count = match read_count(value, "totalSegmentCount") {
            Ok(x) => x,
            Err(_) => return None,
        };
        let sequence: Option<i64> = match value.get("chunkSequenceNumber") {
            None => None,
            Some(Json::Null) => None,
            Some(Json::Number(n)) => match n.int {
                Some(i) => Some(i),
                None => return None,
            },
            Some(_) => return None,
        };
        let texts: Option<Vec<Json>> = match value.get("segmentTexts") {
            None => None,
            Some(Json::Null) => None,
            Some(Json::Array(items)) => {
                let copy = Json::Array(copy_items(items));
                match copy {
                    Json::Array(v) => Some(v),
                    _ => None,
                }
            },
            Some(_) => return None,
        };
        Some(ChunkSummary {
            chunk_start_segment_index: start,
            chunk_segment_count: count,
            chunk_length_chars: length,
            total_length_chars: total_length,
            total_segment_count: total_count,
            chunk_sequence_number: sequence,
            segment_texts: texts,
        })
    }
}

/// A copy of a sequence of values, value for value.
fn copy_items(items: &Vec<Json>) -> (r: Vec<Json>)
    ensures
        view_items(r@) == view_items(items@),
{
    let mut out: Vec<Json> = Vec::new();
    let mut i: usize = 0;
    while i < items.len()
        invariant
            i <= items@.len(),
            view_items(out@) == view_items(items@.take(i as int)),
        decreases items@.len() - i,
    {
        let item = items[i].deep_copy();
        proof {
            crate::json::lemma_view_items_push(out@, item);
            crate::json::lemma_view_items_take(items@, i as int);
        }
        out.push(item);
        i += 1;
    }
    assert(items@.take(items@.len() as int) =~= items@);
    out
}


/// A merge-tree chunk: a run of segments and the counters that place it.
#[derive(Debug)]
pub struct Chunk {
    pub start_segment_index: usize,
    pub segment_count: Option<usize>,
    pub length_chars: Option<usize>,
    pub total_length_chars: Option<usize>,
    pub total_segment_count: Option<usize>,
    pub sequence_number: Option<i64>,
    pub segments: Vec<Segment>,
    pub source: SourceLocation,
    /// SHA-256 of the raw JSON bytes this chunk was parsed from.
    pub sha256: [u8; 32],
    /// Where the container framing says this chunk lives, when the framing
    /// decoded. Set by the analysis pipeline after parsing.
    pub location: Option<PayloadLocation>,
}

/// The content of a [`Chunk`].
pub struct ChunkView {
    pub start: usize,
    pub segment_count: Option<usize>,
    pub length_chars: Option<usize>,
    pub total_length_chars: Option<usize>,
    pub total_segment_count: Option<usize>,
    pub sequence_number: Option<i64>,
    pub segments: Seq<SegmentView>,
    pub source: SourceLocation,
    pub sha256: Seq<u8>,
    pub location: Option<LocationView>,
}

/// The content of an optional location.
pub open spec fn location_view(l: Option<PayloadLocation>) -> Option<LocationView> {
    match l {
        Some(x) => Some(x@),
        None => None,
    }
}

impl View for Chunk {
    type V = ChunkView;

    open spec fn view(&self) -> ChunkView {
        ChunkView {
            start: self.start_segment_index,
            segment_count: self.segment_count,
            length_chars: self.length_chars,
            total_length_chars: self.total_length_chars,
            total_segment_count: self.total_segment_count,
            sequence_number: self.sequence_number,
            segments: segment_views(self.segments@),
            source: self.source,
            sha256: self.sha256@,
            location: location_view(self.location),
        }
    }
}

/// A copy of an optional location.
pub fn copy_location(l: &Option<PayloadLocation>) -> (r: Option<PayloadLocation>)
    ensures
        location_view(r) == location_view(*l),
{
    match l {
        Some(x) => Some(x.clone()),
        None => None,
    }
}

/// Copies of segments, in order.
pub fn copy_segments(segments: &Vec<Segment>) -> (r: Vec<Segment>)
    ensures
        segment_views(r@) == segment_views(segments@),
{
    let mut out: Vec<Segment> = Vec::new();
    let mut i: usize = 0;
    while i < segments.len()
        invariant
            i <= segments@.len(),
            out@.len() == i,
            segment_views(out@) == segment_views(segments@.take(i as int)),
        decreases segments@.len() - i,
    {
        let ghost before = out@;
        let x = segments[i].clone();
        out.push(x);
        assert(out@ =~= before.push(x));
        assert(segments@.take(i + 1) =~= segments@.take(i as int).push(segments@[i as int]));
        assert forall|k: int| 0 <= k < i + 1 implies #[trigger] segment_views(out@)[k] == segment_views(
            segments@.take(i + 1),
        )[k] by {
            if k < i {
                assert(segment_views(before)[k] == segment_views(segments@.take(i as int))[k]);
            }
        }
        assert(segment_views(out@) =~= segment_views(segments@.take(i + 1)));
        i += 1;
    }
    assert(segments@.take(segments@.len() as int) =~= segments@);
    out
}

impl Clone for Chunk {
    fn clone(&self) -> (r: Self)
        ensures
            r@ == self@,
    {
        Chunk {
            start_segment_index: self.start_segment_index,
            segment_count: self.segment_count,
            length_chars: self.length_chars,
            total_length_chars: self.total_length_chars,
            total_segment_count: self.total_segment_count,
            sequence_number: self.sequence_number,
            segments: copy_segments(&self.segments),
            source: self.source,
            sha256: self.sha256,
            location: copy_location(&self.location),
        }
    }
}

/// What a payload reads as when it is a merge-tree chunk: `None` when it is not
/// an object, when a counter has the wrong type, or when it has no
/// `segmentTexts`.
pub open spec fn chunk_of(
    value: JsonValue,
    member_index: usize,
    member_file_offset: usize,
    payload_offset: usize,
    raw: Seq<u8>,
) -> Option<ChunkView> {
    match value {
        JsonValue::Object(m) => match summary_fields(m) {
            Some(f) => match f.6 {
                Some(items) => Some(
                    ChunkView {
                        start: f.0,
                        segment_count: f.1,
                        length_chars: f.2,
                        total_length_chars: f.3,
                        total_segment_count: f.4,
                        sequence_number: f.5,
                        segments: items.map_values(|v: JsonValue| segment_of(v)),
                        source: SourceLocation { member_index, member_file_offset, payload_offset },
                        sha256: sha256_of(raw),
                        location: None,
                    },
                ),
                None => None,
            },
            None => None,
        },
        _ => None,
    }
}

impl Chunk {
    /// Parses a discovered payload as a merge-tree chunk.
    ///
    /// Returns `None` when the payload has no `segmentTexts`, which is the
    /// normal outcome for payloads found by non-merge-tree anchors.
    pub fn from_payload(payload: &PayloadCandidate, member_file_offset: usize, raw: &[u8]) -> (r: Option<Chunk>)
        ensures
            match chunk_of(payload.value@, payload.member_index, member_file_offset, payload.start, raw@) {
                Some(c) => r matches Some(x) && x@ == c,
                None => r is None,
            },
    {
        let summary = match ChunkSummary::read(&payload.value) {
            Some(s) => s,
            None => return None,
        };
        let values = match summary.segment_texts {
            Some(v) => v,
            None => return None,
        };
        let mut segments: Vec<Segment> = Vec::new();
        let mut i: usize = 0;
        proof { lemma_view_items_index(values@); }
        while i < values.len()
            invariant
                i <= values@.len(),
                view_items(values@).len() == values@.len(),
                forall|k: int| 0 <= k < values@.len() ==> #[trigger] view_items(values@)[k] == values@[k]@,
                segments@.len() == i,
                segment_views(segments@) == view_items(values@).take(i as int).map_values(|v: JsonValue| segment_of(v)),
            decreases values@.len() - i,
        {
            let seg = Segment::from_value(&values[i]);
            let ghost before = segments@;
            segments.push(seg);
            assert(segments@ =~= before.push(seg));
            assert(view_items(values@).take(i + 1) =~= view_items(values@).take(i as int).push(view_items(values@)[i as int]));
            assert forall|k: int| 0 <= k < i + 1 implies #[trigger] segment_views(segments@)[k] == view_items(
                values@,
            ).take(i + 1).map_values(|v: JsonValue| segment_of(v))[k] by {
                if k < i {
                    assert(segment_views(before)[k] == view_items(values@).take(i as int).map_values(
                        |v: JsonValue| segment_of(v),
                    )[k]);
                }
            }
            assert(segment_views(segments@) =~= view_items(values@).take(i + 1).map_values(|v: JsonValue| segment_of(v)));
            i += 1;
        }
        assert(view_items(values@).take(i as int) =~= view_items(values@));
        Some(Chunk {
            start_segment_index: summary.chunk_start_segment_index,
            segment_count: summary.chunk_segment_count,
            length_chars: summary.chunk_length_chars,
            total_length_chars: summary.total_length_chars,
            total_segment_count: summary.total_segment_count,
            sequence_number: summary.chunk_sequence_number,
            segments,
            source: SourceLocation {
                member_index: payload.member_index,
                member_file_offset,
                payload_offset: payload.start,
            },
            sha256: sha256(raw),
            location: None,
        })
    }

    /// Identifies the tree this chunk belongs to.
    pub fn tree_key(&self) -> (k: TreeKey)
        ensures
            k == key_of(self@),
    {
        TreeKey {
            total_segment_count: self.total_segment_count,
            total_length_chars: self.total_length_chars,
            sequence_number: self.sequence_number,
        }
    }

    /// True when this chunk is the entire tree, needing no assembly.
    pub fn is_self_contained(&self) -> (r: bool)
        ensures
            r == self_contained(self@),
    {
        if self.start_segment_index != 0 {
            return false;
        }
        match (self.segment_count, self.total_segment_count) {
            (Some(count), Some(total)) => count == total,
            (None, Some(total)) => self.segments.len() == total,
            _ => true,
        }
    }
}

/// Groups chunks into trees.
///
/// ASSUMPTION, corpus-supported but not proven: chunks sharing
/// `totalSegmentCount`, `totalLengthChars` and `chunkSequenceNumber` belong to
/// the same merge tree. A collision shows up as a `chunk_conflict` warning
/// rather than as silently merged text.
#[derive(Debug, Clone, Copy, PartialEq, Eq, Structural, Hash, PartialOrd, Ord)]
pub struct TreeKey {
    pub total_segment_count: Option<usize>,
    pub total_length_chars: Option<usize>,
    pub sequence_number: Option<i64>,
}

/// The tree key of a chunk.
pub open spec fn key_of(c: ChunkView) -> TreeKey {
    TreeKey {
        total_segment_count: c.total_segment_count,
        total_length_chars: c.total_length_chars,
        sequence_number: c.sequence_number,
    }
}

/// Whether a chunk holds its whole tree.
pub open spec fn self_contained(c: ChunkView) -> bool {
    if c.start != 0 {
        false
    } else {
        match (c.segment_count, c.total_segment_count) {
            (Some(count), Some(total)) => count == total,
            (None, Some(total)) => c.segments.len() == total,
            _ => true,
        }
    }
}

/// How chunks are grouped into trees.
///
/// The counters a chunk carries do *not* identify a tree on their own: dozens
/// of one-segment cell trees can share identical counters. So a chunk that
/// already holds its whole tree is identified by its own content hash, and only
/// genuinely split trees are grouped by counters.
///
/// Known limitation: two distinct components whose trees are byte-identical
/// collapse into one tree. `duplicate_copies` makes the collapse visible.
pub enum GroupKey {
    SelfContained(Seq<u8>),
    Split(TreeKey),
}

/// The group a chunk falls in.
pub open spec fn group_of(c: ChunkView) -> GroupKey {
    if self_contained(c) { GroupKey::SelfContained(c.sha256) } else { GroupKey::Split(key_of(c)) }
}

/// `a < b` for optional counts, `None` first.
pub open spec fn opt_less(a: Option<int>, b: Option<int>) -> bool {
    match (a, b) {
        (None, Some(_)) => true,
        (Some(x), Some(y)) => x < y,
        _ => false,
    }
}

/// An optional unsigned count as an integer.
pub open spec fn opt_int(a: Option<usize>) -> Option<int> {
    match a {
        Some(x) => Some(x as int),
        None => None,
    }
}

/// An optional signed number as an integer.
pub open spec fn opt_signed(a: Option<i64>) -> Option<int> {
    match a {
        Some(x) => Some(x as int),
        None => None,
    }
}

/// Tree keys in field order.
pub open spec fn key_less(a: TreeKey, b: TreeKey) -> bool {
    opt_less(opt_int(a.total_segment_count), opt_int(b.total_segment_count)) || (a.total_segment_count
        == b.total_segment_count && (opt_less(opt_int(a.total_length_chars), opt_int(b.total_length_chars)) || (
    a.total_length_chars == b.total_length_chars && opt_less(opt_signed(a.sequence_number), opt_signed(b.sequence_number)))))
}

/// Byte strings in lexicographic order.
pub open spec fn bytes_less(a: Seq<u8>, b: Seq<u8>) -> bool
    decreases a.len(),
{
    if a.len() == 0 {
        b.len() > 0
    } else if b.len() == 0 {
        false
    } else if a[0] != b[0] {
        a[0] < b[0]
    } else {
        bytes_less(a.drop_first(), b.drop_first())
    }
}

/// Group keys in order: whole trees by hash first, then split trees by key.
pub open spec fn group_less(a: GroupKey, b: GroupKey) -> bool {
    match (a, b) {
        (GroupKey::SelfContained(x), GroupKey::SelfContained(y)) => bytes_less(x, y),
        (GroupKey::SelfContained(_), GroupKey::Split(_)) => true,
        (GroupKey::Split(_), GroupKey::SelfContained(_)) => false,
        (GroupKey::Split(k), GroupKey::Split(l)) => key_less(k, l),
    }
}

/// The order chunks are handled in: by group, then by start index, then by
/// where they were found.
pub open spec fn chunk_le(a: ChunkView, b: ChunkView) -> bool {
    group_less(group_of(a), group_of(b)) || (group_of(a) == group_of(b) && (a.start < b.start || (a.start
        == b.start && source_le(a.source, b.source))))
}

fn opt_usize_less(a: Option<usize>, b: Option<usize>) -> (r: bool)
    ensures
        r == opt_less(opt_int(a), opt_int(b)),
{
    match (a, b) {
        (None, Some(_)) => true,
        (Some(x), Some(y)) => x < y,
        _ => false,
    }
}

fn opt_i64_less(a: Option<i64>, b: Option<i64>) -> (r: bool)
    ensures
        r == opt_less(opt_signed(a), opt_signed(b)),
{
    match (a, b) {
        (None, Some(_)) => true,
        (Some(x), Some(y)) => x < y,
        _ => false,
    }
}

fn key_before(a: &TreeKey, b: &TreeKey) -> (r: bool)
    ensures
        r == key_less(*a, *b),
{
    opt_usize_less(a.total_segment_count, b.total_segment_count) || (a.total_segment_count == b.total_segment_count
        && (opt_usize_less(a.total_length_chars, b.total_length_chars) || (a.total_length_chars == b.total_length_chars
        && opt_i64_less(a.sequence_number, b.sequence_number))))
}

/// Compares two digests: `-1`, `0` or `1`.
pub fn compare_digests(a: &[u8; 32], b: &[u8; 32]) -> (r: i8)
    ensures
        r == 0 <==> a@ == b@,
        r < 0 <==> bytes_less(a@, b@),
{
    let mut i: usize = 0;
    assert(a@.skip(0) =~= a@ && b@.skip(0) =~= b@);
    while i < 32
        invariant
            i <= 32,
            a@.len() == 32 && b@.len() == 32,
            a@.take(i as int) == b@.take(i as int),
            bytes_less(a@, b@) == bytes_less(a@.skip(i as int), b@.skip(i as int)),
        decreases 32 - i,
    {
        assert(a@.skip(i as int)[0] == a@[i as int] && b@.skip(i as int)[0] == b@[i as int]);
        if a[i] != b[i] {
            assert(a@[i as int] != b@[i as int]);
            return if a[i] < b[i] { -1 } else { 1 };
        }
        assert(a@.skip(i as int).drop_first() =~= a@.skip(i + 1));
        assert(b@.skip(i as int).drop_first() =~= b@.skip(i + 1));
        assert(a@.take(i + 1) =~= a@.take(i as int).push(a@[i as int]));
        assert(b@.take(i + 1) =~= b@.take(i as int).push(b@[i as int]));
        i += 1;
    }
    assert(a@ =~= a@.take(32) && b@ =~= b@.take(32));
    assert(a@.skip(32).len() == 0);
    0
}

impl SortKey for Chunk {
    open spec fn key_le(&self, other: &Self) -> bool {
        chunk_le(self@, other@)
    }

    fn sorts_before(&self, other: &Self) -> (r: bool) {
        let sa = self.is_self_contained();
        let sb = other.is_self_contained();
        let same_group = if sa && sb {
            let c = compare_digests(&self.sha256, &other.sha256);
            if c < 0 {
                return true;
            }
            if c > 0 {
                return false;
            }
            true
        } else if sa && !sb {
            return true;
        } else if !sa && sb {
            return false;
        } else {
            let ka = self.tree_key();
            let kb = other.tree_key();
            if key_before(&ka, &kb) {
                return true;
            }
            ka == kb
        };
        if !same_group {
            return false;
        }
        self.start_segment_index < other.start_segment_index || (self.start_segment_index
            == other.start_segment_index && source_before(&self.source, &other.source))
    }
}


/// What the segments of a tree reveal about its role and formatting.
#[derive(Debug)]
pub struct TreeEvidence {
    pub text_segments: usize,
    pub marker_segments: usize,
    pub unknown_segments: usize,
    pub has_add_title_marker: bool,
    pub has_bold: bool,
    pub has_italic: bool,
    pub has_list_reference: bool,
    pub has_hyperlink: bool,
    pub has_attribution: bool,
    pub style_references: Vec<String>,
    pub node_types: Vec<String>,
    /// First 80 characters of concatenated text. Diagnostic only.
    pub text_preview: String,
}

/// The content of a [`TreeEvidence`].
pub struct EvidenceView {
    pub text_segments: int,
    pub marker_segments: int,
    pub unknown_segments: int,
    pub has_add_title_marker: bool,
    pub has_bold: bool,
    pub has_italic: bool,
    pub has_list_reference: bool,
    pub has_hyperlink: bool,
    pub has_attribution: bool,
    pub style_references: Seq<Seq<char>>,
    pub node_types: Seq<Seq<char>>,
    pub text_preview: Seq<char>,
}

/// A copy of a list of strings.
pub fn copy_strings(v: &Vec<String>) -> (r: Vec<String>)
    ensures
        r@ == v@,
{
    let mut out: Vec<String> = Vec::new();
    let mut i: usize = 0;
    while i < v.len()
        invariant
            i <= v@.len(),
            out@ == v@.take(i as int),
        decreases v@.len() - i,
    {
        out.push(v[i].clone());
        assert(out@ =~= v@.take(i + 1));
        i += 1;
    }
    assert(v@.take(i as int) =~= v@);
    out
}

impl TreeEvidence {
    /// A copy of this evidence.
    pub fn copy(&self) -> (r: TreeEvidence)
        ensures
            r@ == self@,
    {
        TreeEvidence {
            text_segments: self.text_segments,
            marker_segments: self.marker_segments,
            unknown_segments: self.unknown_segments,
            has_add_title_marker: self.has_add_title_marker,
            has_bold: self.has_bold,
            has_italic: self.has_italic,
            has_list_reference: self.has_list_reference,
            has_hyperlink: self.has_hyperlink,
            has_attribution: self.has_attribution,
            style_references: copy_strings(&self.style_references),
            node_types: copy_strings(&self.node_types),
            text_preview: self.text_preview.clone(),
        }
    }
}

impl View for TreeEvidence {
    type V = EvidenceView;

    open spec fn view(&self) -> EvidenceView {
        EvidenceView {
            text_segments: self.text_segments as int,
            marker_segments: self.marker_segments as int,
            unknown_segments: self.unknown_segments as int,
            has_add_title_marker: self.has_add_title_marker,
            has_bold: self.has_bold,
            has_italic: self.has_italic,
            has_list_reference: self.has_list_reference,
            has_hyperlink: self.has_hyperlink,
            has_attribution: self.has_attribution,
            style_references: self.style_references@.map_values(|t: String| t@),
            node_types: self.node_types@.map_values(|t: String| t@),
            text_preview: self.text_preview@,
        }
    }
}

/// The string under `key`, when there is one.
pub open spec fn prop_text(props: Seq<(Seq<char>, JsonValue)>, key: Seq<char>) -> Option<Seq<char>> {
    match member_value(props, key) {
        Some(JsonValue::String(t)) => Some(t),
        _ => None,
    }
}

/// Whether the value under `key` is `true`.
pub open spec fn prop_true(props: Seq<(Seq<char>, JsonValue)>, key: Seq<char>) -> bool {
    member_value(props, key) == Some(JsonValue::Bool(true))
}

/// Whether a segment's properties carry a non-empty list reference.
pub open spec fn has_list_ref(props: Seq<(Seq<char>, JsonValue)>) -> bool {
    prop_text(props, "list!reference"@) matches Some(t) && t.len() > 0
}

/// `list` with `x` added at the end unless it is already there.
pub open spec fn add_distinct(list: Seq<Seq<char>>, x: Option<Seq<char>>) -> Seq<Seq<char>> {
    match x {
        Some(t) => if list.contains(t) { list } else { list.push(t) },
        None => list,
    }
}

/// The evidence gathered from segments, before the lists are sorted and the
/// preview is cut: counts by kind, flags, distinct styles and node types in
/// first-seen order, and the concatenated text of text segments taken while it
/// is shorter than 80 characters.
pub open spec fn evidence_scan(segs: Seq<SegmentView>) -> EvidenceView
    decreases segs.len(),
{
    if segs.len() == 0 {
        EvidenceView {
            text_segments: 0,
            marker_segments: 0,
            unknown_segments: 0,
            has_add_title_marker: false,
            has_bold: false,
            has_italic: false,
            has_list_reference: false,
            has_hyperlink: false,
            has_attribution: false,
            style_references: Seq::empty(),
            node_types: Seq::empty(),
            text_preview: Seq::empty(),
        }
    } else {
        let e = evidence_scan(segs.drop_last());
        let seg = segs.last();
        let counted = match seg {
            SegmentView::Text { text, .. } => EvidenceView {
                text_segments: e.text_segments + 1,
                text_preview: if e.text_preview.len() < 80 { e.text_preview + text } else { e.text_preview },
                ..e
            },
            SegmentView::Marker { .. } => EvidenceView { marker_segments: e.marker_segments + 1, ..e },
            SegmentView::Unknown { .. } => EvidenceView { unknown_segments: e.unknown_segments + 1, ..e },
        };
        match props_of(seg) {
            None => counted,
            Some(p) => EvidenceView {
                has_bold: counted.has_bold || prop_true(p, "format!bold"@),
                has_italic: counted.has_italic || prop_true(p, "format!italic"@),
                has_list_reference: counted.has_list_reference || has_list_ref(p),
                has_hyperlink: counted.has_hyperlink || prop_text(p, "hyperlink!url"@) is Some,
                has_attribution: counted.has_attribution || member_value(p, "attribution"@) is Some,
                has_add_title_marker: counted.has_add_title_marker || prop_text(p, "placeholder!attributeText"@)
                    == Some("placeholder!addTitle"@),
                style_references: add_distinct(counted.style_references, prop_text(p, "style!reference"@)),
                node_types: add_distinct(counted.node_types, prop_text(p, "nodeType"@)),
                ..counted
            },
        }
    }
}

/// The first 80 characters, with line breaks shown as spaces.
pub open spec fn preview_text(p: Seq<char>) -> Seq<char> {
    let n = if p.len() < 80 { p.len() as int } else { 80 };
    Seq::new(n as nat, |i: int| if p[i] == '\n' { ' ' } else { p[i] })
}

/// The evidence of a tree's segments: lists sorted, preview cut to 80
/// characters.
pub open spec fn evidence_of(segs: Seq<SegmentView>) -> EvidenceView {
    let e = evidence_scan(segs);
    EvidenceView {
        style_references: stable_sort_by(e.style_references, text_le()),
        node_types: stable_sort_by(e.node_types, text_le()),
        text_preview: preview_text(e.text_preview),
        ..e
    }
}

/// Adds `x` to `list` unless an equal string is already there.
fn push_distinct(list: &mut Vec<String>, x: &str)
    ensures
        final(list)@.map_values(|t: String| t@) == add_distinct(old(list)@.map_values(|t: String| t@), Some(x@)),
{
    let ghost views = list@.map_values(|t: String| t@);
    let mut i: usize = 0;
    while i < list.len()
        invariant
            i <= list@.len(),
            views == list@.map_values(|t: String| t@),
            forall|j: int| 0 <= j < i ==> views[j] != x@,
        decreases list@.len() - i,
    {
        if same_text(list[i].as_str(), x) {
            assert(views[i as int] == x@);
            return;
        }
        i += 1;
    }
    let ghost before = list@;
    list.push(x.to_string());
    assert(list@.map_values(|t: String| t@) =~= views.push(x@));
}

/// Gathers evidence from segments.
pub fn collect_evidence(segments: &[Segment]) -> (e: TreeEvidence)
    ensures
        e@ == evidence_of(segment_views(segments@)),
{
    let mut e = TreeEvidence {
        text_segments: 0,
        marker_segments: 0,
        unknown_segments: 0,
        has_add_title_marker: false,
        has_bold: false,
        has_italic: false,
        has_list_reference: false,
        has_hyperlink: false,
        has_attribution: false,
        style_references: Vec::new(),
        node_types: Vec::new(),
        text_preview: String::new(),
    };
    let mut preview = String::new();
    let mut preview_chars: usize = 0;
    let ghost segs = segment_views(segments@);
    let mut i: usize = 0;
    assert(segs.take(0) =~= Seq::<SegmentView>::empty());
    assert(e.style_references@.map_values(|t: String| t@) =~= Seq::<Seq<char>>::empty());
    assert(e.node_types@.map_values(|t: String| t@) =~= Seq::<Seq<char>>::empty());
    while i < segments.len()
        invariant
            i <= segments@.len(),
            segs == segment_views(segments@),
            preview_chars as int == (if preview@.len() < usize::MAX { preview@.len() as int } else { usize::MAX as int }),
            ({
                let m = evidence_scan(segs.take(i as int));
                &&& e.text_segments as int == m.text_segments
                &&& e.marker_segments as int == m.marker_segments
                &&& e.unknown_segments as int == m.unknown_segments
                &&& e.text_segments + e.marker_segments + e.unknown_segments == i
                &&& e.has_add_title_marker == m.has_add_title_marker
                &&& e.has_bold == m.has_bold
                &&& e.has_italic == m.has_italic
                &&& e.has_list_reference == m.has_list_reference
                &&& e.has_hyperlink == m.has_hyperlink
                &&& e.has_attribution == m.has_attribution
                &&& e.style_references@.map_values(|t: String| t@) == m.style_references
                &&& e.node_types@.map_values(|t: String| t@) == m.node_types
                &&& preview@ == m.text_preview
            }),
        decreases segments@.len() - i,
    {
        let seg = &segments[i];
        assert(segs.take(i + 1).drop_last() =~= segs.take(i as int));
        assert(segs.take(i + 1).last() == seg@);
        match seg {
            Segment::Text { text, .. } => {
                e.text_segments += 1;
                if preview_chars < 80 {
                    let n = chars_of(text.as_str()).len();
                    preview.append(text.as_str());
                    preview_chars = preview_chars.saturating_add(n);
                }
            },
            Segment::Marker { .. } => {
                e.marker_segments += 1;
            },
            Segment::Unknown { .. } => {
                e.unknown_segments += 1;
            },
        }
        match seg.props() {
            None => {},
            Some(props) => {
                proof {
                    lemma_field_of_view(props.0@, "format!bold"@);
                    lemma_field_of_view(props.0@, "format!italic"@);
                    lemma_field_of_view(props.0@, "list!reference"@);
                    lemma_field_of_view(props.0@, "hyperlink!url"@);
                    lemma_field_of_view(props.0@, "attribution"@);
                    lemma_field_of_view(props.0@, "placeholder!attributeText"@);
                    lemma_field_of_view(props.0@, "style!reference"@);
                    lemma_field_of_view(props.0@, "nodeType"@);
                }
                e.has_bold = e.has_bold || props.bold() == Some(true);
                e.has_italic = e.has_italic || props.italic() == Some(true);
                e.has_list_reference = e.has_list_reference || props.list_reference().is_some();
                e.has_hyperlink = e.has_hyperlink || props.hyperlink_url().is_some();
                e.has_attribution = e.has_attribution || props.attribution().is_some();
                e.has_add_title_marker = e.has_add_title_marker || props.is_add_title_placeholder();
                match props.style_reference() {
                    Some(style) => push_distinct(&mut e.style_references, style),
                    None => {},
                }
                match props.node_type() {
                    Some(node) => push_distinct(&mut e.node_types, node),
                    None => {},
                }
            },
        }
        i += 1;
    }
    assert(segs.take(i as int) =~= segs);
    let ghost m = evidence_scan(segs);
    let styles = sort_texts(e.style_references);
    let nodes = sort_texts(e.node_types);
    // The preview: at most 80 characters, line breaks shown as spaces.
    let cs = chars_of(preview.as_str());
    let mut cut = String::new();
    let mut k: usize = 0;
    while k < cs.len() && k < 80
        invariant
            cs@ == m.text_preview,
            k <= cs@.len(),
            k <= 80,
            cut@ == preview_text(m.text_preview).take(k as int),
        decreases cs@.len() - k,
    {
        let c = if cs[k] == '\n' { ' ' } else { cs[k] };
        crate::text::push_char(&mut cut, c);
        assert(cut@ =~= preview_text(m.text_preview).take(k + 1));
        k += 1;
    }
    assert(cut@ =~= preview_text(m.text_preview));
    TreeEvidence { style_references: styles, node_types: nodes, text_preview: cut, ..e }
}


/// What a tree is.
///
/// The first three are decided from the container framing and are reliable. The
/// `*Candidate` variants are the content heuristic, used only when the framing
/// did not decode; they are reported as candidates because a page title and a
/// table cell are structurally identical when the framing is ignored.
#[derive(Debug, Clone, Copy, PartialEq, Eq, Structural)]
pub enum TreeRole {
    /// The page title, per the container framing.
    Title,
    /// The page body, per the container framing.
    Body,
    /// Content of a component embedded in the page: a table cell, a callout.
    EmbeddedComponent,
    /// Heuristic: the longest tree in the file.
    BodyCandidate,
    /// Heuristic: short, has text, carries no list structure.
    TitleCandidate,
    /// Everything else: empty placeholders, unclassifiable trees.
    Auxiliary,
}

impl TreeRole {
    /// True when the container framing decided this, not a heuristic.
    pub open spec fn structural(self) -> bool {
        self is Title || self is Body || self is EmbeddedComponent
    }

    /// True when the framing named the component, so the role is certain.
    pub open spec fn confirmed(self) -> bool {
        self is Title || self is Body
    }

    pub fn is_structural(self) -> (r: bool)
        ensures
            r == self.structural(),
    {
        match self {
            TreeRole::Title | TreeRole::Body | TreeRole::EmbeddedComponent => true,
            _ => false,
        }
    }

    /// True when the framing named the component, so the role is certain.
    ///
    /// `EmbeddedComponent` is deliberately excluded: it means only that the
    /// framing placed the tree somewhere this tool does not recognise, which is
    /// also what an older Loop version looks like. Such a tree stays eligible
    /// for the content heuristic when no body was found.
    pub fn is_confirmed(self) -> (r: bool)
        ensures
            r == self.confirmed(),
    {
        match self {
            TreeRole::Title | TreeRole::Body => true,
            _ => false,
        }
    }

    /// True when this tree holds the document body, however it was decided.
    pub fn is_body(self) -> (r: bool)
        ensures
            r == (self is Body || self is BodyCandidate),
    {
        match self {
            TreeRole::Body | TreeRole::BodyCandidate => true,
            _ => false,
        }
    }

    /// True when this tree may hold the document title, however it was decided.
    pub fn is_title(self) -> (r: bool)
        ensures
            r == (self is Title || self is TitleCandidate),
    {
        match self {
            TreeRole::Title | TreeRole::TitleCandidate => true,
            _ => false,
        }
    }

    /// The name used in reports.
    pub fn name(self) -> (r: &'static str)
        ensures
            r@ == role_name(self),
    {
        match self {
            TreeRole::Title => "title",
            TreeRole::Body => "body",
            TreeRole::EmbeddedComponent => "embedded-component",
            TreeRole::BodyCandidate => "body-candidate",
            TreeRole::TitleCandidate => "title-candidate",
            TreeRole::Auxiliary => "auxiliary",
        }
    }
}

/// The name of a role in reports.
pub open spec fn role_name(r: TreeRole) -> Seq<char> {
    match r {
        TreeRole::Title => "title"@,
        TreeRole::Body => "body"@,
        TreeRole::EmbeddedComponent => "embedded-component"@,
        TreeRole::BodyCandidate => "body-candidate"@,
        TreeRole::TitleCandidate => "title-candidate"@,
        TreeRole::Auxiliary => "auxiliary"@,
    }
}

/// A role's variant name, as `{:?}` writes it.
pub open spec fn role_debug_name(r: TreeRole) -> Seq<char> {
    match r {
        TreeRole::Title => "Title"@,
        TreeRole::Body => "Body"@,
        TreeRole::EmbeddedComponent => "EmbeddedComponent"@,
        TreeRole::BodyCandidate => "BodyCandidate"@,
        TreeRole::TitleCandidate => "TitleCandidate"@,
        TreeRole::Auxiliary => "Auxiliary"@,
    }
}

impl TreeRole {
    /// The variant's own name, as `{:?}` writes it.
    pub fn debug_name(self) -> (r: &'static str)
        ensures
            r@ == role_debug_name(self),
    {
        match self {
            TreeRole::Title => "Title",
            TreeRole::Body => "Body",
            TreeRole::EmbeddedComponent => "EmbeddedComponent",
            TreeRole::BodyCandidate => "BodyCandidate",
            TreeRole::TitleCandidate => "TitleCandidate",
            TreeRole::Auxiliary => "Auxiliary",
        }
    }
}

/// Why a tree was given its role.
#[derive(Debug)]
pub enum RoleEvidence {
    /// The component package that owns the channel, for example
    /// `LoopCanvasComponentSingleton`.
    ComponentPackage { package: String },
    /// A Fluid handle points at the channel, for example `CanvasComponentHandle`.
    FluidHandle { handle: String },
    /// The framing placed the tree, but under a component with no special
    /// meaning to this tool.
    ChannelPath { path: String },
    /// No framing was available; decided from the tree's own content.
    Heuristic { rule: &'static str },
}

/// The content of a [`RoleEvidence`].
pub enum RoleEvidenceView {
    ComponentPackage(Seq<char>),
    FluidHandle(Seq<char>),
    ChannelPath(Seq<char>),
    Heuristic(Seq<char>),
}

impl RoleEvidence {
    /// A copy of this evidence.
    pub fn copy(&self) -> (r: RoleEvidence)
        ensures
            r@ == self@,
    {
        match self {
            RoleEvidence::ComponentPackage { package } => RoleEvidence::ComponentPackage { package: package.clone() },
            RoleEvidence::FluidHandle { handle } => RoleEvidence::FluidHandle { handle: handle.clone() },
            RoleEvidence::ChannelPath { path } => RoleEvidence::ChannelPath { path: path.clone() },
            RoleEvidence::Heuristic { rule } => RoleEvidence::Heuristic { rule },
        }
    }
}

impl View for RoleEvidence {
    type V = RoleEvidenceView;

    open spec fn view(&self) -> RoleEvidenceView {
        match self {
            RoleEvidence::ComponentPackage { package } => RoleEvidenceView::ComponentPackage(package@),
            RoleEvidence::FluidHandle { handle } => RoleEvidenceView::FluidHandle(handle@),
            RoleEvidence::ChannelPath { path } => RoleEvidenceView::ChannelPath(path@),
            RoleEvidence::Heuristic { rule } => RoleEvidenceView::Heuristic(rule@),
        }
    }
}

/// One assembled merge tree.
#[derive(Debug)]
pub struct MergeTree {
    pub key: TreeKey,
    pub role: TreeRole,
    pub segments: Vec<Segment>,
    /// Every distinct chunk that contributed, in segment order.
    pub chunks: Vec<Chunk>,
    /// Locations of all copies found, including exact duplicates.
    pub sources: Vec<SourceLocation>,
    /// Copies collapsed as byte-identical.
    pub duplicate_copies: usize,
    /// True when the assembled segment count matches `totalSegmentCount`.
    pub complete: bool,
    /// SHA-256 over the ordered chunk hashes. Stable identity for the tree.
    pub content_hash: [u8; 32],
    pub evidence: TreeEvidence,
    /// Where the container framing places this tree, when it decoded.
    pub location: Option<PayloadLocation>,
    pub role_evidence: RoleEvidence,
}

/// The content of a [`MergeTree`].
pub struct TreeView {
    pub key: TreeKey,
    pub role: TreeRole,
    pub segments: Seq<SegmentView>,
    pub chunks: Seq<ChunkView>,
    pub sources: Seq<SourceLocation>,
    pub duplicate_copies: int,
    pub complete: bool,
    pub content_hash: Seq<u8>,
    pub evidence: EvidenceView,
    pub location: Option<LocationView>,
    pub role_evidence: RoleEvidenceView,
}

/// The contents of chunks, in order.
pub open spec fn chunk_views(s: Seq<Chunk>) -> Seq<ChunkView> {
    s.map_values(|c: Chunk| c@)
}

impl View for MergeTree {
    type V = TreeView;

    open spec fn view(&self) -> TreeView {
        TreeView {
            key: self.key,
            role: self.role,
            segments: segment_views(self.segments@),
            chunks: chunk_views(self.chunks@),
            sources: self.sources@,
            duplicate_copies: self.duplicate_copies as int,
            complete: self.complete,
            content_hash: self.content_hash@,
            evidence: self.evidence@,
            location: location_view(self.location),
            role_evidence: self.role_evidence@,
        }
    }
}

/// The length of a tree's text, as its counters declare it.
pub open spec fn text_len_of(key: TreeKey) -> int {
    match key.total_length_chars {
        Some(n) => n as int,
        None => 0,
    }
}

impl MergeTree {
    pub fn text_len(&self) -> (n: usize)
        ensures
            n == text_len_of(self.key),
    {
        match self.key.total_length_chars {
            Some(n) => n,
            None => 0,
        }
    }
}

/// The contents of trees, in order.
pub open spec fn tree_views(s: Seq<MergeTree>) -> Seq<TreeView> {
    s.map_values(|t: MergeTree| t@)
}

/// A warning with no position.
pub open spec fn plain_warning(code: Seq<char>, message: Seq<char>) -> WarningView {
    WarningView { code, message, member_index: None, file_offset: None }
}

/// The message of a `chunk_conflict` warning.
pub open spec fn conflict_message(key: TreeKey, chunk: ChunkView, existing: ChunkView) -> Seq<char> {
    "two different chunks both claim segment index "@ + decimal_digits(chunk.start as nat)
        + " of the tree with sequence number "@ + debug_option(key.sequence_number)
        + "; kept the copy from member "@ + decimal_digits(existing.source.member_index as nat)
        + " at file offset "@ + decimal_digits(existing.source.member_file_offset as nat)
        + " and ignored the copy from member "@ + decimal_digits(chunk.source.member_index as nat)
        + " at file offset "@ + decimal_digits(chunk.source.member_file_offset as nat)
}

/// The message of a `chunk_gap` warning.
pub open spec fn gap_message(key: TreeKey, expected: int, start: int) -> Seq<char> {
    "tree with sequence number "@ + debug_option(key.sequence_number) + " jumps from segment "@
        + decimal_digits(expected as nat) + " to "@ + decimal_digits(start as nat)
        + "; the assembled text may be missing a run of segments"@
}

/// The message of a `tree_incomplete` warning.
pub open spec fn incomplete_message(key: TreeKey, assembled: int) -> Seq<char> {
    "tree with sequence number "@ + debug_option(key.sequence_number) + " assembled "@
        + decimal_digits(assembled as nat) + " of "@ + match key.total_segment_count {
        Some(v) => "Some("@ + decimal_digits(v as nat) + ")"@,
        None => "None"@,
    } + " segments"@
}

/// The first kept chunk starting at `start`.
pub open spec fn start_position(kept: Seq<ChunkView>, start: usize) -> Option<int>
    decreases kept.len(),
{
    if kept.len() == 0 {
        None
    } else if kept[0].start == start {
        Some(0)
    } else {
        match start_position(kept.drop_first(), start) {
            Some(p) => Some(p + 1),
            None => None,
        }
    }
}

/// The outcome of deduplicating a group.
pub struct DedupView {
    pub kept: Seq<ChunkView>,
    pub sources: Seq<SourceLocation>,
    pub duplicates: int,
    pub warnings: Seq<WarningView>,
}

/// Deduplicates a group in order. A chunk whose start index is already kept is
/// a copy: byte-identical copies are collapsed (the kept copy takes the other's
/// placement if it has none); different chunks at one position are never
/// merged: the first is kept and a `chunk_conflict` warning given. Every copy's
/// source is recorded.
pub open spec fn dedupe(run: Seq<ChunkView>, key: TreeKey) -> DedupView
    decreases run.len(),
{
    if run.len() == 0 {
        DedupView { kept: Seq::empty(), sources: Seq::empty(), duplicates: 0, warnings: Seq::empty() }
    } else {
        let d = dedupe(run.drop_last(), key);
        let c = run.last();
        let sources = d.sources.push(c.source);
        match start_position(d.kept, c.start) {
            Some(p) => if d.kept[p].sha256 == c.sha256 {
                DedupView {
                    kept: if d.kept[p].location is None {
                        d.kept.update(p, ChunkView { location: c.location, ..d.kept[p] })
                    } else {
                        d.kept
                    },
                    sources,
                    duplicates: d.duplicates + 1,
                    warnings: d.warnings,
                }
            } else {
                DedupView {
                    kept: d.kept,
                    sources,
                    duplicates: d.duplicates + 1,
                    warnings: d.warnings.push(
                        plain_warning("chunk_conflict"@, conflict_message(key, c, d.kept[p])),
                    ),
                }
            },
            None => DedupView { kept: d.kept.push(c), sources, duplicates: d.duplicates, warnings: d.warnings },
        }
    }
}

/// The outcome of joining kept chunks.
pub struct JoinView {
    pub segments: Seq<SegmentView>,
    pub expected_next: int,
    pub contiguous: bool,
    pub warnings: Seq<WarningView>,
}

/// `a + b`, saturating at `usize::MAX`.
pub open spec fn saturating_usize(a: int, b: int) -> int {
    if a + b > usize::MAX { usize::MAX as int } else { a + b }
}

/// Joins chunks in order. A chunk that does not start where the previous one
/// ended is a gap, reported as `chunk_gap`.
pub open spec fn join_chunks(kept: Seq<ChunkView>, key: TreeKey) -> JoinView
    decreases kept.len(),
{
    if kept.len() == 0 {
        JoinView { segments: Seq::empty(), expected_next: 0, contiguous: true, warnings: Seq::empty() }
    } else {
        let j = join_chunks(kept.drop_last(), key);
        let c = kept.last();
        let gap = c.start != j.expected_next;
        JoinView {
            segments: j.segments + c.segments,
            expected_next: saturating_usize(c.start as int, c.segments.len() as int),
            contiguous: j.contiguous && !gap,
            warnings: if gap {
                j.warnings.push(plain_warning("chunk_gap"@, gap_message(key, j.expected_next, c.start as int)))
            } else {
                j.warnings
            },
        }
    }
}

/// The chunk hashes, one after another.
pub open spec fn hash_chain(kept: Seq<ChunkView>) -> Seq<u8>
    decreases kept.len(),
{
    if kept.len() == 0 {
        Seq::empty()
    } else {
        hash_chain(kept.drop_last()) + kept.last().sha256
    }
}

/// The placement of the first kept chunk that has one.
pub open spec fn first_location(kept: Seq<ChunkView>) -> Option<LocationView>
    decreases kept.len(),
{
    if kept.len() == 0 {
        None
    } else if kept[0].location is Some {
        kept[0].location
    } else {
        first_location(kept.drop_first())
    }
}

/// Whether the assembled tree is whole: no gaps and, when the counters say how
/// many segments the tree has, exactly that many.
pub open spec fn is_complete(j: JoinView, key: TreeKey) -> bool {
    j.contiguous && match key.total_segment_count {
        Some(t) => t == j.segments.len(),
        None => true,
    }
}

/// The tree assembled from one group, before roles are assigned, and the
/// warnings it gives.
pub open spec fn tree_of_group(run: Seq<ChunkView>) -> (TreeView, Seq<WarningView>) {
    let key = key_of(run[0]);
    let d = dedupe(run, key);
    let j = join_chunks(d.kept, key);
    let complete = is_complete(j, key);
    let warnings = d.warnings + j.warnings + if complete {
        Seq::<WarningView>::empty()
    } else {
        seq![plain_warning("tree_incomplete"@, incomplete_message(key, j.segments.len() as int))]
    };
    (
        TreeView {
            key,
            role: TreeRole::Auxiliary,
            segments: j.segments,
            chunks: d.kept,
            sources: d.sources,
            duplicate_copies: d.duplicates,
            complete,
            content_hash: sha256_of(hash_chain(d.kept)),
            evidence: evidence_of(j.segments),
            location: first_location(d.kept),
            role_evidence: RoleEvidenceView::Heuristic("not yet classified"@),
        },
        warnings,
    )
}


/// The first position in `kept` of a chunk starting at `start`.
fn find_start(kept: &Vec<Chunk>, start: usize) -> (r: Option<usize>)
    ensures
        r matches Some(p) ==> start_position(chunk_views(kept@), start) == Some(p as int) && p < kept@.len(),
        r is None ==> start_position(chunk_views(kept@), start) is None,
{
    let ghost v = chunk_views(kept@);
    let mut i: usize = 0;
    assert(v.skip(0) =~= v);
    while i < kept.len()
        invariant
            i <= kept@.len(),
            v == chunk_views(kept@),
            v.len() == kept@.len(),
            start_position(v, start) == match start_position(v.skip(i as int), start) {
                Some(p) => Some(p + i),
                None => None,
            },
        decreases kept@.len() - i,
    {
        assert(v.skip(i as int)[0] == v[i as int]);
        assert(v.skip(i as int).drop_first() =~= v.skip(i + 1));
        if kept[i].start_segment_index == start {
            return Some(i);
        }
        i += 1;
    }
    None
}

/// Builds the warning for two different chunks at one position.
fn conflict_warning(key: &TreeKey, chunk: &Chunk, existing: &Chunk) -> (w: Warning)
    ensures
        w@ == plain_warning("chunk_conflict"@, conflict_message(*key, chunk@, existing@)),
{
    let mut m = String::from_str("two different chunks both claim segment index ");
    m.append(decimal(chunk.start_segment_index as u64).as_str());
    m.append(" of the tree with sequence number ");
    m.append(debug_option_i64(key.sequence_number).as_str());
    m.append("; kept the copy from member ");
    m.append(decimal(existing.source.member_index as u64).as_str());
    m.append(" at file offset ");
    m.append(decimal(existing.source.member_file_offset as u64).as_str());
    m.append(" and ignored the copy from member ");
    m.append(decimal(chunk.source.member_index as u64).as_str());
    m.append(" at file offset ");
    m.append(decimal(chunk.source.member_file_offset as u64).as_str());
    Warning::new("chunk_conflict", m)
}

/// Builds the warning for a jump in segment indices.
fn gap_warning(key: &TreeKey, expected: usize, start: usize) -> (w: Warning)
    ensures
        w@ == plain_warning("chunk_gap"@, gap_message(*key, expected as int, start as int)),
{
    let mut m = String::from_str("tree with sequence number ");
    m.append(debug_option_i64(key.sequence_number).as_str());
    m.append(" jumps from segment ");
    m.append(decimal(expected as u64).as_str());
    m.append(" to ");
    m.append(decimal(start as u64).as_str());
    m.append("; the assembled text may be missing a run of segments");
    Warning::new("chunk_gap", m)
}

/// Builds the warning for a tree that is not whole.
fn incomplete_warning(key: &TreeKey, assembled: usize) -> (w: Warning)
    ensures
        w@ == plain_warning("tree_incomplete"@, incomplete_message(*key, assembled as int)),
{
    let mut m = String::from_str("tree with sequence number ");
    m.append(debug_option_i64(key.sequence_number).as_str());
    m.append(" assembled ");
    m.append(decimal(assembled as u64).as_str());
    m.append(" of ");
    m.append(debug_option_usize(key.total_segment_count).as_str());
    m.append(" segments");
    Warning::new("tree_incomplete", m)
}

/// The contents of warnings, in order.
pub open spec fn warning_list(s: Seq<Warning>) -> Seq<WarningView> {
    s.map_values(|w: Warning| w@)
}

/// Assembles one group of chunks, already in handling order, into a tree.
fn build_tree(run: Vec<Chunk>, warnings: &mut Vec<Warning>) -> (t: MergeTree)
    requires
        run@.len() > 0,
    ensures
        t@ == tree_of_group(chunk_views(run@)).0,
        warning_list(final(warnings)@) == warning_list(old(warnings)@) + tree_of_group(chunk_views(run@)).1,
{
    let ghost all = chunk_views(run@);
    let key = run[0].tree_key();
    let n = run.len();
    let mut rest = reversed(run);
    let mut kept: Vec<Chunk> = Vec::new();
    let mut sources: Vec<SourceLocation> = Vec::new();
    let mut duplicate_copies: usize = 0;
    let ghost w0 = warning_list(warnings@);
    let mut taken: usize = 0;
    assert(all.take(0) =~= Seq::<ChunkView>::empty());
    assert(chunk_views(kept@) =~= Seq::<ChunkView>::empty());
    assert(w0 + Seq::<WarningView>::empty() =~= w0);
    while taken < n
        invariant
            n == all.len(),
            taken <= n,
            key == key_of(all[0]),
            chunk_views(rest@) =~= all.subrange(taken as int, n as int).reverse(),
            rest@.len() == n - taken,
            ({
                let d = dedupe(all.take(taken as int), key);
                &&& chunk_views(kept@) == d.kept
                &&& sources@ == d.sources
                &&& duplicate_copies as int == d.duplicates
                &&& duplicate_copies <= taken
                &&& warning_list(warnings@) == w0 + d.warnings
            }),
        decreases n - taken,
    {
        let ghost rest_before = rest@;
        let chunk = rest.pop().unwrap();
        assert(rest_before.last() == chunk);
        assert(chunk_views(rest_before).last() == chunk@);
        assert(chunk@ == all[taken as int]);
        assert(rest@ =~= rest_before.drop_last());
        assert(chunk_views(rest@) =~= chunk_views(rest_before).drop_last());
        assert(chunk_views(rest@) =~= all.subrange(taken + 1, n as int).reverse());
        assert(all.take(taken + 1).drop_last() =~= all.take(taken as int));
        let ghost d = dedupe(all.take(taken as int), key);
        sources.push(chunk.source);
        match find_start(&kept, chunk.start_segment_index) {
            Some(p) => {
                duplicate_copies += 1;
                if compare_digests(&kept[p].sha256, &chunk.sha256) == 0 {
                    let ghost kept_before = kept@;
                    let mut k = kept.remove(p);
                    if k.location.is_none() {
                        let Chunk { location, .. } = chunk;
                        k.location = location;
                    }
                    kept.insert(p, k);
                    assert(kept@ =~= kept_before.update(p as int, k));
                    assert(chunk_views(kept@) =~= chunk_views(kept_before).update(p as int, k@));
                } else {
                    let w = conflict_warning(&key, &chunk, &kept[p]);
                    let ghost ws = warnings@;
                    warnings.push(w);
                    assert(warning_list(warnings@) =~= warning_list(ws).push(w@));
                }
            },
            None => {
                let ghost kept_before = kept@;
                kept.push(chunk);
                assert(chunk_views(kept@) =~= chunk_views(kept_before).push(chunk@));
            },
        }
        taken += 1;
    }
    assert(all.take(n as int) =~= all);
    let ghost d = dedupe(all, key);

    // Join the kept chunks in order.
    let mut segments: Vec<Segment> = Vec::new();
    let mut expected_next: usize = 0;
    let mut contiguous = true;
    let ghost w1 = warning_list(warnings@);
    let ghost kv = chunk_views(kept@);
    let mut i: usize = 0;
    assert(kv.take(0) =~= Seq::<ChunkView>::empty());
    assert(segment_views(segments@) =~= Seq::<SegmentView>::empty());
    assert(w1 + Seq::<WarningView>::empty() =~= w1);
    while i < kept.len()
        invariant
            i <= kept@.len(),
            kv == chunk_views(kept@),
            kv.len() == kept@.len(),
            ({
                let j = join_chunks(kv.take(i as int), key);
                &&& segment_views(segments@) == j.segments
                &&& expected_next as int == j.expected_next
                &&& contiguous == j.contiguous
                &&& warning_list(warnings@) == w1 + j.warnings
            }),
        decreases kept@.len() - i,
    {
        let chunk = &kept[i];
        assert(kv.take(i + 1).drop_last() =~= kv.take(i as int));
        assert(kv[i as int] == chunk@);
        if chunk.start_segment_index != expected_next {
            contiguous = false;
            let w = gap_warning(&key, expected_next, chunk.start_segment_index);
            let ghost ws = warnings@;
            warnings.push(w);
            assert(warning_list(warnings@) =~= warning_list(ws).push(w@));
        }
        expected_next = chunk.start_segment_index.saturating_add(chunk.segments.len());
        let ghost before = segments@;
        let mut copies = copy_segments(&chunk.segments);
        segments.append(&mut copies);
        assert(segment_views(segments@) =~= segment_views(before) + segment_views(chunk.segments@));
        i += 1;
    }
    assert(kv.take(i as int) =~= kv);
    let ghost j = join_chunks(kv, key);

    let complete = contiguous && match key.total_segment_count {
        Some(t) => t == segments.len(),
        None => true,
    };
    if !complete {
        let w = incomplete_warning(&key, segments.len());
        let ghost ws = warnings@;
        warnings.push(w);
        assert(warning_list(warnings@) =~= warning_list(ws).push(w@));
    }
    proof {
        let tail = if complete {
            Seq::<WarningView>::empty()
        } else {
            seq![plain_warning("tree_incomplete"@, incomplete_message(key, j.segments.len() as int))]
        };
        assert(warning_list(warnings@) =~= w0 + (d.warnings + j.warnings + tail));
    }

    // The content hash covers the chunk hashes in order.
    let mut chain: Vec<u8> = Vec::new();
    let mut c: usize = 0;
    assert(chain@ =~= hash_chain(kv.take(0)));
    while c < kept.len()
        invariant
            c <= kept@.len(),
            kv == chunk_views(kept@),
            kv.len() == kept@.len(),
            chain@ == hash_chain(kv.take(c as int)),
        decreases kept@.len() - c,
    {
        assert(kv.take(c + 1).drop_last() =~= kv.take(c as int));
        let digest = &kept[c].sha256;
        let ghost before = chain@;
        let mut b: usize = 0;
        while b < 32
            invariant
                b <= 32,
                digest@.len() == 32,
                chain@ == before + digest@.take(b as int),
            decreases 32 - b,
        {
            chain.push(digest[b]);
            assert(chain@ =~= before + digest@.take(b + 1));
            b += 1;
        }
        assert(digest@.take(32) =~= digest@);
        assert(kv[c as int].sha256 == digest@);
        c += 1;
    }
    assert(kv.take(c as int) =~= kv);
    let content_hash = sha256(chain.as_slice());

    let evidence = collect_evidence(segments.as_slice());

    // The placement of the first chunk that has one.
    let mut location: Option<PayloadLocation> = None;
    let mut l: usize = 0;
    assert(kv.skip(0) =~= kv);
    while l < kept.len()
        invariant_except_break
            location is None,
        invariant
            l <= kept@.len(),
            kv == chunk_views(kept@),
            kv.len() == kept@.len(),
            first_location(kv) == first_location(kv.skip(l as int)),
        ensures
            location_view(location) == first_location(kv),
        decreases kept@.len() - l,
    {
        assert(kv.skip(l as int)[0] == kv[l as int]);
        assert(kv.skip(l as int).drop_first() =~= kv.skip(l + 1));
        if kept[l].location.is_some() {
            location = copy_location(&kept[l].location);
            break;
        }
        l += 1;
        assert(l == kept@.len() ==> kv.skip(l as int).len() == 0);
    }

    MergeTree {
        key,
        role: TreeRole::Auxiliary,
        segments,
        chunks: kept,
        sources,
        duplicate_copies,
        complete,
        content_hash,
        evidence,
        location,
        role_evidence: RoleEvidence::Heuristic { rule: "not yet classified" },
    }
}


/// The order chunks are handled in, on their contents.
pub open spec fn chunk_order() -> spec_fn(ChunkView, ChunkView) -> bool {
    |a: ChunkView, b: ChunkView| chunk_le(a, b)
}

/// Splits chunks in handling order into runs of one group each.
pub open spec fn split_runs(s: Seq<ChunkView>) -> Seq<Seq<ChunkView>>
    decreases s.len(),
{
    if s.len() == 0 {
        Seq::empty()
    } else {
        let r = split_runs(s.drop_last());
        if r.len() > 0 && group_of(r.last().last()) == group_of(s.last()) {
            r.update(r.len() - 1, r.last().push(s.last()))
        } else {
            r.push(seq![s.last()])
        }
    }
}

proof fn lemma_runs_nonempty(s: Seq<ChunkView>)
    ensures
        forall|i: int| 0 <= i < split_runs(s).len() ==> (#[trigger] split_runs(s)[i]).len() > 0,
    decreases s.len(),
{
    if s.len() > 0 {
        lemma_runs_nonempty(s.drop_last());
        let r = split_runs(s.drop_last());
        let n = split_runs(s);
        assert forall|i: int| 0 <= i < n.len() implies (#[trigger] n[i]).len() > 0 by {
            if r.len() > 0 && group_of(r.last().last()) == group_of(s.last()) {
                if i < r.len() - 1 {
                    assert(n[i] == r[i]);
                }
            } else if i < r.len() {
                assert(n[i] == r[i]);
            }
        }
    }
}

proof fn lemma_best_body_range(ts: Seq<TreeView>)
    ensures
        best_body(ts) matches Some(k) ==> 0 <= k < ts.len(),
    decreases ts.len(),
{
    if ts.len() > 0 {
        lemma_best_body_range(ts.drop_last());
    }
}

/// The trees of runs, before they are ordered.
pub open spec fn trees_of_runs(runs: Seq<Seq<ChunkView>>) -> Seq<TreeView> {
    runs.map_values(|r: Seq<ChunkView>| tree_of_group(r).0)
}

/// The warnings of runs, run by run.
pub open spec fn warnings_of_runs(runs: Seq<Seq<ChunkView>>) -> Seq<WarningView>
    decreases runs.len(),
{
    if runs.len() == 0 {
        Seq::empty()
    } else {
        warnings_of_runs(runs.drop_last()) + tree_of_group(runs.last()).1
    }
}

/// Whether the sources `a` sort no later than `b` by their first entry, an
/// empty list first.
pub open spec fn first_source_le(a: Seq<SourceLocation>, b: Seq<SourceLocation>) -> bool {
    if a.len() == 0 {
        true
    } else if b.len() == 0 {
        false
    } else {
        source_le(a[0], b[0])
    }
}

/// Trees in report order: longest first, then by first source position.
pub open spec fn tree_le(a: TreeView, b: TreeView) -> bool {
    text_len_of(a.key) > text_len_of(b.key) || (text_len_of(a.key) == text_len_of(b.key) && first_source_le(
        a.sources,
        b.sources,
    ))
}

/// The report order of trees, on their contents.
pub open spec fn tree_order() -> spec_fn(TreeView, TreeView) -> bool {
    |a: TreeView, b: TreeView| tree_le(a, b)
}

impl SortKey for MergeTree {
    open spec fn key_le(&self, other: &Self) -> bool {
        tree_le(self@, other@)
    }

    fn sorts_before(&self, other: &Self) -> (r: bool) {
        let a = self.text_len();
        let b = other.text_len();
        if a != b {
            return a > b;
        }
        if self.sources.len() == 0 {
            return true;
        }
        if other.sources.len() == 0 {
            return false;
        }
        source_before(&self.sources[0], &other.sources[0])
    }
}

/// Component package names observed to identify the page's own content.
pub const PACKAGE_TITLE: &'static str = "LoopPageTitleSingleton";
pub const PACKAGE_BODY: &'static str = "LoopCanvasComponentSingleton";

/// Fluid handle names observed on the page root.
pub const HANDLE_HEADER: &'static str = "HeaderComponentHandle";
pub const HANDLE_CANVAS: &'static str = "CanvasComponentHandle";

/// The role the container framing gives a placement, preferring a Fluid
/// handle naming the channel, then the component package that owns it, then
/// any other placement, which means an embedded component.
pub open spec fn structural_role(l: Option<LocationView>) -> Option<(TreeRole, RoleEvidenceView)> {
    match l {
        None => None,
        Some(loc) => {
            if loc.handle_name == Some("HeaderComponentHandle"@) {
                Some((TreeRole::Title, RoleEvidenceView::FluidHandle("HeaderComponentHandle"@)))
            } else if loc.handle_name == Some("CanvasComponentHandle"@) {
                Some((TreeRole::Body, RoleEvidenceView::FluidHandle("CanvasComponentHandle"@)))
            } else if loc.component_package == Some("LoopPageTitleSingleton"@) {
                Some((TreeRole::Title, RoleEvidenceView::ComponentPackage("LoopPageTitleSingleton"@)))
            } else if loc.component_package == Some("LoopCanvasComponentSingleton"@) {
                Some((TreeRole::Body, RoleEvidenceView::ComponentPackage("LoopCanvasComponentSingleton"@)))
            } else {
                match loc.blob_path {
                    Some(path) => Some((TreeRole::EmbeddedComponent, RoleEvidenceView::ChannelPath(path))),
                    None => None,
                }
            }
        },
    }
}

/// A tree with the role its placement gives, when it gives one.
pub open spec fn with_structural_role(t: TreeView) -> TreeView {
    match structural_role(t.location) {
        Some(x) => TreeView { role: x.0, role_evidence: x.1, ..t },
        None => t,
    }
}

/// Whether the content heuristic may name a tree the body.
pub open spec fn body_eligible(t: TreeView) -> bool {
    t.evidence.text_segments > 0 && !t.role.confirmed()
}

/// The longest eligible tree, the first one among equals.
pub open spec fn best_body(ts: Seq<TreeView>) -> Option<int>
    decreases ts.len(),
{
    if ts.len() == 0 {
        None
    } else {
        let b = best_body(ts.drop_last());
        let i = ts.len() - 1;
        if body_eligible(ts[i]) && (match b {
            None => true,
            Some(k) => text_len_of(ts[i].key) > text_len_of(ts[k].key),
        }) {
            Some(i)
        } else {
            b
        }
    }
}

/// Trees at or below this many characters are short enough to be a title.
/// Chosen from the corpus, where observed titles run 12 to 46 characters and
/// the shortest body runs 273.
pub const MAX_TITLE_CHARS: usize = 200;

/// The heuristic role of tree `i`, given which tree is the body.
pub open spec fn heuristic_role(t: TreeView, i: int, body: Option<int>) -> TreeView {
    if t.role.confirmed() {
        t
    } else if body == Some(i) {
        TreeView {
            role: TreeRole::BodyCandidate,
            role_evidence: RoleEvidenceView::Heuristic("the longest tree in the file that carries text"@),
            ..t
        }
    } else if t.evidence.text_segments > 0 && text_len_of(t.key) <= 200 && !t.evidence.has_list_reference {
        TreeView {
            role: TreeRole::TitleCandidate,
            role_evidence: RoleEvidenceView::Heuristic("short, carries text, and has no list structure"@),
            ..t
        }
    } else {
        t
    }
}

/// Roles for ordered trees: the framing first; when it names no body, the
/// content heuristic for whatever it did not confirm.
pub open spec fn roles_assigned(ts: Seq<TreeView>) -> Seq<TreeView> {
    let s = ts.map_values(|t: TreeView| with_structural_role(t));
    if exists|i: int| 0 <= i < s.len() && (#[trigger] s[i]).role is Body {
        s
    } else {
        let b = best_body(s);
        Seq::new(s.len(), |i: int| heuristic_role(s[i], i, b))
    }
}

/// What assembling chunks gives: the trees in report order with their roles,
/// and the warnings, group by group.
pub open spec fn assembly(chunks: Seq<ChunkView>) -> (Seq<TreeView>, Seq<WarningView>) {
    let runs = split_runs(stable_sort_by(chunks, chunk_order()));
    (roles_assigned(stable_sort_by(trees_of_runs(runs), tree_order())), warnings_of_runs(runs))
}

/// Whether an optional string is present and equal to `t`.
fn opt_is(o: &Option<String>, t: &str) -> (r: bool)
    ensures
        r == (opt_text(*o) == Some(t@)),
{
    match o {
        Some(s) => same_text(s.as_str(), t),
        None => false,
    }
}

/// The role the framing gives a placement.
fn structural_role_of(location: &Option<PayloadLocation>) -> (r: Option<(TreeRole, RoleEvidence)>)
    ensures
        match structural_role(location_view(*location)) {
            Some(x) => r matches Some(y) && y.0 == x.0 && y.1@ == x.1,
            None => r is None,
        },
{
    let loc = match location {
        Some(l) => l,
        None => return None,
    };
    if opt_is(&loc.handle_name, HANDLE_HEADER) {
        return Some((TreeRole::Title, RoleEvidence::FluidHandle { handle: String::from_str(HANDLE_HEADER) }));
    }
    if opt_is(&loc.handle_name, HANDLE_CANVAS) {
        return Some((TreeRole::Body, RoleEvidence::FluidHandle { handle: String::from_str(HANDLE_CANVAS) }));
    }
    if opt_is(&loc.component_package, PACKAGE_TITLE) {
        return Some(
            (TreeRole::Title, RoleEvidence::ComponentPackage { package: String::from_str(PACKAGE_TITLE) }),
        );
    }
    if opt_is(&loc.component_package, PACKAGE_BODY) {
        return Some(
            (TreeRole::Body, RoleEvidence::ComponentPackage { package: String::from_str(PACKAGE_BODY) }),
        );
    }
    match &loc.blob_path {
        Some(path) => Some((TreeRole::EmbeddedComponent, RoleEvidence::ChannelPath { path: path.clone() })),
        None => None,
    }
}

/// Assigns roles, preferring the container framing over content heuristics.
///
/// Order, as observed to be reliable:
///
/// 1. a Fluid handle naming the channel;
/// 2. the component package that owns the channel;
/// 3. any other framing placement, which means an embedded component;
/// 4. failing all of those, the content heuristic, and only then are the roles
///    reported as candidates.
fn assign_roles(trees: Vec<MergeTree>) -> (r: Vec<MergeTree>)
    ensures
        tree_views(r@) == roles_assigned(tree_views(trees@)),
{
    let ghost tv = tree_views(trees@);
    let ghost s = tv.map_values(|t: TreeView| with_structural_role(t));
    let n = trees.len();
    let mut rest = reversed(trees);
    let mut placed: Vec<MergeTree> = Vec::new();
    let mut any_body = false;
    let mut taken: usize = 0;
    while taken < n
        invariant
            n == tv.len(),
            s == tv.map_values(|t: TreeView| with_structural_role(t)),
            taken <= n,
            rest@.len() == n - taken,
            forall|k: int| 0 <= k < rest@.len() ==> (#[trigger] rest@[k])@ == tv[n - 1 - k],
            placed@.len() == taken,
            forall|k: int| 0 <= k < taken ==> (#[trigger] placed@[k])@ == s[k],
            any_body == exists|k: int| 0 <= k < taken && (#[trigger] s[k]).role is Body,
        decreases n - taken,
    {
        let ghost rb = rest@;
        let mut tree = rest.pop().unwrap();
        assert(tree@ == tv[taken as int]);
        assert forall|k: int| 0 <= k < rest@.len() implies (#[trigger] rest@[k])@ == tv[n - 1 - k] by {
            assert(rest@[k] == rb[k]);
        }
        match structural_role_of(&tree.location) {
            Some((role, evidence)) => {
                tree.role = role;
                tree.role_evidence = evidence;
            },
            None => {},
        }
        assert(tree@ == s[taken as int]);
        if tree.role == TreeRole::Body {
            any_body = true;
        }
        let ghost pb = placed@;
        placed.push(tree);
        assert forall|k: int| 0 <= k < taken + 1 implies (#[trigger] placed@[k])@ == s[k] by {
            if k < taken {
                assert(placed@[k] == pb[k]);
            }
        }
        taken += 1;
    }
    if any_body {
        assert(tree_views(placed@) =~= s);
        return placed;
    }
    // The content heuristic: the longest eligible tree is the body candidate.
    let mut body: Option<usize> = None;
    let mut i: usize = 0;
    assert(s.take(0) =~= Seq::<TreeView>::empty());
    while i < placed.len()
        invariant
            i <= placed@.len(),
            placed@.len() == s.len(),
            forall|k: int| 0 <= k < s.len() ==> (#[trigger] placed@[k])@ == s[k],
            match best_body(s.take(i as int)) {
                Some(k) => 0 <= k < i && body == Some(k as usize),
                None => body is None,
            },
        decreases placed@.len() - i,
    {
        assert(s.take(i + 1).drop_last() =~= s.take(i as int));
        assert(s.take(i + 1)[i as int] == s[i as int]);
        proof { lemma_best_body_range(s.take(i as int)); }
        let t = &placed[i];
        assert(t@ == s[i as int]);
        let eligible = t.evidence.text_segments > 0 && !t.role.is_confirmed();
        if eligible {
            let better = match body {
                None => true,
                Some(k) => {
                    assert(s.take(i + 1)[k as int] == s[k as int]);
                    t.text_len() > placed[k].text_len()
                },
            };
            if better {
                body = Some(i);
            }
        }
        i += 1;
    }
    assert(s.take(i as int) =~= s);
    let ghost b = best_body(s);
    proof { lemma_best_body_range(s); }
    let ghost target = Seq::new(s.len(), |k: int| heuristic_role(s[k], k, b));
    let mut rest2 = reversed(placed);
    let mut out: Vec<MergeTree> = Vec::new();
    let mut j: usize = 0;
    while j < n
        invariant
            n == s.len(),
            j <= n,
            rest2@.len() == n - j,
            forall|k: int| 0 <= k < rest2@.len() ==> (#[trigger] rest2@[k])@ == s[n - 1 - k],
            out@.len() == j,
            forall|k: int| 0 <= k < j ==> (#[trigger] out@[k])@ == target[k],
            target == Seq::new(s.len(), |k: int| heuristic_role(s[k], k, b)),
            match b {
                Some(k) => 0 <= k < n && body == Some(k as usize),
                None => body is None,
            },
        decreases n - j,
    {
        let ghost rb = rest2@;
        let mut tree = rest2.pop().unwrap();
        assert(tree@ == s[j as int]);
        assert forall|k: int| 0 <= k < rest2@.len() implies (#[trigger] rest2@[k])@ == s[n - 1 - k] by {
            assert(rest2@[k] == rb[k]);
        }
        if !tree.role.is_confirmed() {
            if body == Some(j) {
                tree.role = TreeRole::BodyCandidate;
                tree.role_evidence = RoleEvidence::Heuristic { rule: "the longest tree in the file that carries text" };
            } else if tree.evidence.text_segments > 0 && tree.text_len() <= MAX_TITLE_CHARS
                && !tree.evidence.has_list_reference {
                tree.role = TreeRole::TitleCandidate;
                tree.role_evidence = RoleEvidence::Heuristic { rule: "short, carries text, and has no list structure" };
            }
        }
        assert(tree@ == target[j as int]);
        let ghost ob = out@;
        out.push(tree);
        assert forall|k: int| 0 <= k < j + 1 implies (#[trigger] out@[k])@ == target[k] by {
            if k < j {
                assert(out@[k] == ob[k]);
            }
        }
        j += 1;
    }
    assert(tree_views(out@) =~= target);
    out
}


/// Whether two chunks fall in the same group.
fn same_group(a: &Chunk, b: &Chunk) -> (r: bool)
    ensures
        r == (group_of(a@) == group_of(b@)),
{
    let sa = a.is_self_contained();
    let sb = b.is_self_contained();
    if sa && sb {
        compare_digests(&a.sha256, &b.sha256) == 0
    } else if !sa && !sb {
        a.tree_key() == b.tree_key()
    } else {
        false
    }
}

/// The contents of runs of chunks.
pub open spec fn run_views(r: Seq<Vec<Chunk>>) -> Seq<Seq<ChunkView>> {
    r.map_values(|v: Vec<Chunk>| chunk_views(v@))
}

/// Assembles chunks into deduplicated, ordered merge trees.
///
/// Chunks are grouped (whole trees by content hash, split trees by their
/// counters) and groups are taken in key order; within a group chunks are
/// handled by start index, then by where they were found. Each group becomes
/// one tree; trees are reported longest first, then by first source position,
/// and given roles. Every recoverable condition is appended to `warnings`.
pub fn assemble(chunks: Vec<Chunk>, warnings: &mut Vec<Warning>) -> (trees: Vec<MergeTree>)
    ensures
        tree_views(trees@) == assembly(chunk_views(chunks@)).0,
        warning_list(final(warnings)@) == warning_list(old(warnings)@) + assembly(chunk_views(chunks@)).1,
{
    let ghost cv = chunk_views(chunks@);
    proof {
        let f = |c: Chunk| c@;
        assert forall|a1: Chunk, a2: Chunk| #[trigger] key_order::<Chunk>()(a1, a2) == chunk_order()(f(a1), f(a2)) by {}
        lemma_stable_sort_map(chunks@, f, key_order::<Chunk>(), chunk_order());
        assert(chunks@.map_values(f) =~= cv);
    }
    let ghost target = stable_sort_by(cv, chunk_order());
    let sorted = sort_stable(chunks);
    assert(chunk_views(sorted@) =~= target);

    // Split into runs of one group each.
    let n = sorted.len();
    let mut rest = reversed(sorted);
    let mut runs: Vec<Vec<Chunk>> = Vec::new();
    let mut taken: usize = 0;
    assert(target.take(0) =~= Seq::<ChunkView>::empty());
    assert(run_views(runs@) =~= split_runs(target.take(0)));
    while taken < n
        invariant
            n == target.len(),
            taken <= n,
            rest@.len() == n - taken,
            forall|k: int| 0 <= k < rest@.len() ==> (#[trigger] rest@[k])@ == target[n - 1 - k],
            run_views(runs@) == split_runs(target.take(taken as int)),
            forall|k: int| 0 <= k < runs@.len() ==> (#[trigger] runs@[k])@.len() > 0,
        decreases n - taken,
    {
        let ghost rb = rest@;
        let chunk = rest.pop().unwrap();
        assert(chunk@ == target[taken as int]);
        assert forall|k: int| 0 <= k < rest@.len() implies (#[trigger] rest@[k])@ == target[n - 1 - k] by {
            assert(rest@[k] == rb[k]);
        }
        let ghost prefix = target.take(taken + 1);
        assert(prefix.drop_last() =~= target.take(taken as int));
        assert(prefix.last() == chunk@);
        let ghost before = runs@;
        let joins = if runs.len() > 0 {
            let last_run = &runs[runs.len() - 1];
            assert(last_run@.len() > 0);
            assert(run_views(before).last() == chunk_views(last_run@));
            same_group(&last_run[last_run.len() - 1], &chunk)
        } else {
            false
        };
        if joins {
            let mut last_run = runs.pop().unwrap();
            let ghost lb = last_run@;
            last_run.push(chunk);
            runs.push(last_run);
            assert(chunk_views(last_run@) =~= chunk_views(lb).push(chunk@));
            assert(run_views(runs@) =~= run_views(before).update(before.len() - 1, chunk_views(lb).push(chunk@)));
        } else {
            let mut fresh: Vec<Chunk> = Vec::new();
            fresh.push(chunk);
            runs.push(fresh);
            assert(chunk_views(fresh@) =~= seq![chunk@]);
            assert(run_views(runs@) =~= run_views(before).push(seq![chunk@]));
        }
        assert forall|k: int| 0 <= k < runs@.len() implies (#[trigger] runs@[k])@.len() > 0 by {
            if k < before.len() && !(joins && k == before.len() - 1) {
                assert(runs@[k] == before[k]);
            }
        }
        taken += 1;
    }
    assert(target.take(n as int) =~= target);
    let ghost rv = run_views(runs@);
    assert(rv == split_runs(target));

    // One tree per run, warnings run by run.
    let ghost w0 = warning_list(warnings@);
    let m = runs.len();
    let mut rest_runs = reversed(runs);
    let mut built: Vec<MergeTree> = Vec::new();
    let mut r: usize = 0;
    assert(rv.take(0) =~= Seq::<Seq<ChunkView>>::empty());
    assert(w0 + Seq::<WarningView>::empty() =~= w0);
    while r < m
        invariant
            m == rv.len(),
            r <= m,
            rest_runs@.len() == m - r,
            forall|k: int| 0 <= k < rest_runs@.len() ==> chunk_views((#[trigger] rest_runs@[k])@) == rv[m - 1 - k]
                && rest_runs@[k]@.len() > 0,
            built@.len() == r,
            forall|k: int| 0 <= k < r ==> (#[trigger] built@[k])@ == tree_of_group(rv[k]).0,
            warning_list(warnings@) == w0 + warnings_of_runs(rv.take(r as int)),
        decreases m - r,
    {
        let ghost rb = rest_runs@;
        let run = rest_runs.pop().unwrap();
        assert(chunk_views(run@) == rv[r as int]);
        assert forall|k: int| 0 <= k < rest_runs@.len() implies chunk_views((#[trigger] rest_runs@[k])@) == rv[m - 1 - k]
            && rest_runs@[k]@.len() > 0 by {
            assert(rest_runs@[k] == rb[k]);
        }
        let ghost wb = warning_list(warnings@);
        let tree = build_tree(run, warnings);
        assert(rv.take(r + 1).drop_last() =~= rv.take(r as int));
        assert(rv.take(r + 1).last() == rv[r as int]);
        assert(warning_list(warnings@) =~= w0 + warnings_of_runs(rv.take(r + 1)));
        let ghost bb = built@;
        built.push(tree);
        assert forall|k: int| 0 <= k < r + 1 implies (#[trigger] built@[k])@ == tree_of_group(rv[k]).0 by {
            if k < r {
                assert(built@[k] == bb[k]);
            }
        }
        r += 1;
    }
    assert(rv.take(m as int) =~= rv);
    assert(tree_views(built@) =~= trees_of_runs(rv));

    // Longest first, then by first source position.
    proof {
        let f = |t: MergeTree| t@;
        assert forall|a1: MergeTree, a2: MergeTree| #[trigger] key_order::<MergeTree>()(a1, a2) == tree_order()(f(a1), f(a2)) by {}
        lemma_stable_sort_map(built@, f, key_order::<MergeTree>(), tree_order());
        assert(built@.map_values(f) =~= tree_views(built@));
    }
    let ordered = sort_stable(built);
    assert(tree_views(ordered@) =~= stable_sort_by(trees_of_runs(rv), tree_order()));
    assign_roles(ordered)
}


proof fn lemma_start_position(kept: Seq<ChunkView>, start: usize)
    ensures
        start_position(kept, start) matches Some(p) ==> 0 <= p < kept.len() && kept[p].start == start,
        start_position(kept, start) is None ==> forall|i: int| 0 <= i < kept.len() ==> (#[trigger] kept[i]).start
            != start,
    decreases kept.len(),
{
    if kept.len() > 0 {
        lemma_start_position(kept.drop_first(), start);
        assert forall|i: int| 0 < i < kept.len() implies (#[trigger] kept[i]).start == kept.drop_first()[i - 1].start by {}
    }
}

/// Deduplication accounts for every copy and keeps one chunk per position.
proof fn lemma_dedupe_accounts(run: Seq<ChunkView>, key: TreeKey)
    ensures
        dedupe(run, key).kept.len() + dedupe(run, key).duplicates == run.len(),
        dedupe(run, key).sources.len() == run.len(),
        forall|i: int, j: int|
            0 <= i < j < dedupe(run, key).kept.len() ==> (#[trigger] dedupe(run, key).kept[i]).start
                != (#[trigger] dedupe(run, key).kept[j]).start,
    decreases run.len(),
{
    if run.len() > 0 {
        let d = dedupe(run.drop_last(), key);
        lemma_dedupe_accounts(run.drop_last(), key);
        lemma_start_position(d.kept, run.last().start);
        let n = dedupe(run, key);
        match start_position(d.kept, run.last().start) {
            Some(p) => {
                assert forall|i: int, j: int| 0 <= i < j < n.kept.len() implies (#[trigger] n.kept[i]).start
                    != (#[trigger] n.kept[j]).start by {
                    assert(n.kept[i].start == d.kept[i].start);
                    assert(n.kept[j].start == d.kept[j].start);
                }
            },
            None => {
                assert forall|i: int, j: int| 0 <= i < j < n.kept.len() implies (#[trigger] n.kept[i]).start
                    != (#[trigger] n.kept[j]).start by {
                    if j == d.kept.len() {
                        assert(n.kept[i] == d.kept[i]);
                    } else {
                        assert(n.kept[i] == d.kept[i]);
                        assert(n.kept[j] == d.kept[j]);
                    }
                }
            },
        }
    }
}

/// Every copy of a tree is accounted for: the chunks kept and the copies
/// collapsed add up to the copies found, one source per copy, and no two kept
/// chunks start at the same position, so conflicting chunks are never merged.
/// A tree that is not complete is reported with a `tree_incomplete` warning.
pub proof fn lemma_tree_accounts_for_every_copy(run: Seq<ChunkView>)
    requires
        run.len() > 0,
    ensures
        tree_of_group(run).0.chunks.len() + tree_of_group(run).0.duplicate_copies == run.len(),
        tree_of_group(run).0.sources.len() == run.len(),
        forall|i: int, j: int|
            0 <= i < j < tree_of_group(run).0.chunks.len() ==> (#[trigger] tree_of_group(run).0.chunks[i]).start
                != (#[trigger] tree_of_group(run).0.chunks[j]).start,
        !tree_of_group(run).0.complete ==> tree_of_group(run).1.len() > 0 && tree_of_group(run).1.last().code
            == "tree_incomplete"@,
{
    lemma_dedupe_accounts(run, key_of(run[0]));
}


proof fn lemma_bytes_less_irreflexive(a: Seq<u8>)
    ensures
        !bytes_less(a, a),
    decreases a.len(),
{
    if a.len() > 0 {
        lemma_bytes_less_irreflexive(a.drop_first());
    }
}

proof fn lemma_bytes_less_transitive(a: Seq<u8>, b: Seq<u8>, c: Seq<u8>)
    requires
        bytes_less(a, b),
        bytes_less(b, c),
    ensures
        bytes_less(a, c),
    decreases a.len(),
{
    if a.len() > 0 && b.len() > 0 && c.len() > 0 {
        if a[0] == b[0] && b[0] == c[0] {
            lemma_bytes_less_transitive(a.drop_first(), b.drop_first(), c.drop_first());
        }
    }
}

proof fn lemma_bytes_less_total(a: Seq<u8>, b: Seq<u8>)
    ensures
        a == b || bytes_less(a, b) || bytes_less(b, a),
    decreases a.len(),
{
    if a.len() > 0 && b.len() > 0 {
        if a[0] == b[0] {
            lemma_bytes_less_total(a.drop_first(), b.drop_first());
            if a.drop_first() == b.drop_first() {
                assert(a =~= seq![a[0]] + a.drop_first());
                assert(b =~= seq![b[0]] + b.drop_first());
            }
        }
    } else if a.len() == 0 && b.len() == 0 {
        assert(a =~= b);
    }
}

proof fn lemma_group_less_order(a: GroupKey, b: GroupKey, c: GroupKey)
    ensures
        !group_less(a, a),
        a == b || group_less(a, b) || group_less(b, a),
        group_less(a, b) && group_less(b, c) ==> group_less(a, c),
{
    match (a, b) {
        (GroupKey::SelfContained(x), GroupKey::SelfContained(y)) => {
            lemma_bytes_less_total(x, y);
        },
        _ => {},
    }
    match a {
        GroupKey::SelfContained(x) => {
            lemma_bytes_less_irreflexive(x);
        },
        _ => {},
    }
    match (a, b, c) {
        (GroupKey::SelfContained(x), GroupKey::SelfContained(y), GroupKey::SelfContained(z)) => {
            if bytes_less(x, y) && bytes_less(y, z) {
                lemma_bytes_less_transitive(x, y, z);
            }
        },
        _ => {},
    }
}

/// The order chunks are handled in is a total preorder.
pub proof fn lemma_chunk_order_total_preorder()
    ensures
        total_preorder(chunk_order()),
{
    assert forall|a: ChunkView, b: ChunkView| #[trigger] chunk_order()(a, b) || chunk_order()(b, a) by {
        lemma_group_less_order(group_of(a), group_of(b), group_of(a));
    }
    assert forall|a: ChunkView, b: ChunkView, c: ChunkView|
        #[trigger] chunk_order()(a, b) && #[trigger] chunk_order()(b, c) implies chunk_order()(a, c) by {
        lemma_group_less_order(group_of(a), group_of(b), group_of(c));
        lemma_group_less_order(group_of(a), group_of(c), group_of(b));
        lemma_group_less_order(group_of(b), group_of(c), group_of(a));
        lemma_group_less_order(group_of(b), group_of(a), group_of(c));
    }
}

/// Assembly does not depend on the order chunks were found in: any
/// arrangement of the same chunks gives the same trees and the same warnings,
/// provided no two different chunks share their group, start index and
/// source location (a chunk is found once at each place).
pub proof fn lemma_assembly_ignores_input_order(c1: Seq<ChunkView>, c2: Seq<ChunkView>)
    requires
        c1.to_multiset() == c2.to_multiset(),
        forall|a: ChunkView, b: ChunkView|
            c1.contains(a) && c1.contains(b) && group_of(a) == group_of(b) && a.start == b.start && a.source
                == b.source ==> a == b,
    ensures
        assembly(c1) == assembly(c2),
{
    lemma_chunk_order_total_preorder();
    assert forall|a: ChunkView, b: ChunkView|
        c1.contains(a) && c1.contains(b) && chunk_order()(a, b) && chunk_order()(b, a) implies a == b by {
        lemma_group_less_order(group_of(a), group_of(b), group_of(a));
        if group_of(a) != group_of(b) {
            assert(!(group_less(group_of(a), group_of(b)) && group_less(group_of(b), group_of(a)))) by {
                if group_less(group_of(a), group_of(b)) && group_less(group_of(b), group_of(a)) {
                    lemma_group_less_order(group_of(a), group_of(b), group_of(a));
                }
            }
        }
    }
    lemma_stable_sort_ignores_arrangement(c1, c2, chunk_order());
}

/// Assembling chunks does not depend on the order they are handed over in:
/// two vectors holding the same chunks, none of them found twice at one
/// place, assemble into the same trees with the same warnings (what
/// `assemble` returns is `assembly` of the chunks' contents).
pub proof fn lemma_assemble_ignores_input_order(c1: Seq<Chunk>, c2: Seq<Chunk>)
    requires
        chunk_views(c1).to_multiset() == chunk_views(c2).to_multiset(),
        forall|i: int, j: int| 0 <= i < j < c1.len() ==> (#[trigger] c1[i]).source != (#[trigger] c1[j]).source,
    ensures
        assembly(chunk_views(c1)) == assembly(chunk_views(c2)),
{
    let v = chunk_views(c1);
    assert forall|a: ChunkView, b: ChunkView|
        v.contains(a) && v.contains(b) && group_of(a) == group_of(b) && a.start == b.start && a.source
            == b.source implies a == b by {
        let i = choose|i: int| 0 <= i < v.len() && v[i] == a;
        let j = choose|j: int| 0 <= j < v.len() && v[j] == b;
        assert(v[i].source == c1[i].source);
        assert(v[j].source == c1[j].source);
        if i < j {
            assert(c1[i].source != c1[j].source);
        } else if j < i {
            assert(c1[j].source != c1[i].source);
        }
    }
    lemma_assembly_ignores_input_order(v, chunk_views(c2));
}

/// Whether a tree's placement carries this Fluid handle.
pub open spec fn placed_by_handle(t: TreeView, handle: Seq<char>) -> bool {
    t.location matches Some(loc) && loc.handle_name == Some(handle)
}

/// The framing's handles decide a tree's role, whatever the content heuristic
/// would make of it: the tree the canvas handle points at is the body, and
/// the tree the header handle points at is the title. Roles keep each tree's
/// place, and its placement.
pub proof fn lemma_handles_decide_roles(ts: Seq<TreeView>, i: int)
    requires
        0 <= i < ts.len(),
    ensures
        roles_assigned(ts).len() == ts.len(),
        roles_assigned(ts)[i].location == ts[i].location,
        placed_by_handle(ts[i], "CanvasComponentHandle"@) ==> roles_assigned(ts)[i].role == TreeRole::Body
            && roles_assigned(ts)[i].role_evidence == RoleEvidenceView::FluidHandle("CanvasComponentHandle"@),
        placed_by_handle(ts[i], "HeaderComponentHandle"@) ==> roles_assigned(ts)[i].role == TreeRole::Title
            && roles_assigned(ts)[i].role_evidence == RoleEvidenceView::FluidHandle("HeaderComponentHandle"@),
{
    reveal_strlit("CanvasComponentHandle");
    reveal_strlit("HeaderComponentHandle");
    assert("CanvasComponentHandle"@[0] != "HeaderComponentHandle"@[0]);
    assert("CanvasComponentHandle"@ != "HeaderComponentHandle"@);
    let s = ts.map_values(|t: TreeView| with_structural_role(t));
    assert(s[i] == with_structural_role(ts[i]));
    if !(exists|k: int| 0 <= k < s.len() && (#[trigger] s[k]).role is Body) {
        let b = best_body(s);
        assert(roles_assigned(ts)[i] == heuristic_role(s[i], i, b));
    }
}

/// Without a handle, the component that owns a tree's channel decides its
/// role: the page title singleton makes the title, the canvas singleton the
/// body.
pub proof fn lemma_packages_decide_roles(ts: Seq<TreeView>, i: int)
    requires
        0 <= i < ts.len(),
        ts[i].location matches Some(loc) && loc.handle_name is None,
    ensures
        ts[i].location->0.component_package == Some("LoopPageTitleSingleton"@) ==> roles_assigned(ts)[i].role
            == TreeRole::Title,
        ts[i].location->0.component_package == Some("LoopCanvasComponentSingleton"@) ==> roles_assigned(ts)[i].role
            == TreeRole::Body,
{
    let s = ts.map_values(|t: TreeView| with_structural_role(t));
    assert(s[i] == with_structural_role(ts[i]));
    reveal_strlit("LoopPageTitleSingleton");
    reveal_strlit("LoopCanvasComponentSingleton");
    assert("LoopPageTitleSingleton"@[4] != "LoopCanvasComponentSingleton"@[4]);
    assert("LoopPageTitleSingleton"@ != "LoopCanvasComponentSingleton"@);
    if !(exists|k: int| 0 <= k < s.len() && (#[trigger] s[k]).role is Body) {
        let b = best_body(s);
        assert(roles_assigned(ts)[i] == heuristic_role(s[i], i, b));
    }
}

/// In what assembling chunks gives, every tree the canvas handle points at is
/// the body, and every tree the header handle points at is the title.
pub proof fn lemma_assembled_handles_decide_roles(chunks: Seq<ChunkView>)
    ensures
        forall|k: int|
            0 <= k < assembly(chunks).0.len() && placed_by_handle(#[trigger] assembly(chunks).0[k], "CanvasComponentHandle"@)
                ==> assembly(chunks).0[k].role == TreeRole::Body,
        forall|k: int|
            0 <= k < assembly(chunks).0.len() && placed_by_handle(#[trigger] assembly(chunks).0[k], "HeaderComponentHandle"@)
                ==> assembly(chunks).0[k].role == TreeRole::Title,
{
    let runs = split_runs(stable_sort_by(chunks, chunk_order()));
    let ts = stable_sort_by(trees_of_runs(runs), tree_order());
    assert forall|k: int| 0 <= k < assembly(chunks).0.len() implies (placed_by_handle(
        #[trigger] assembly(chunks).0[k],
        "CanvasComponentHandle"@,
    ) ==> assembly(chunks).0[k].role == TreeRole::Body) && (placed_by_handle(
        assembly(chunks).0[k],
        "HeaderComponentHandle"@,
    ) ==> assembly(chunks).0[k].role == TreeRole::Title) by {
        lemma_handles_decide_roles(ts, k);
    }
}

} // verus!
