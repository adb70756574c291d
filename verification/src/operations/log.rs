//! Reading the operation log out of a container.
//!
//! The framing carries `deltas: {firstSequenceNumber, deltas: [...]}` where each
//! entry is a JSON *string* holding one sequenced message. Its `contents` is
//! itself a JSON-encoded string, nested several levels deep, and addressed as it
//! descends:
//!
//! ```json
//! {"contents":{"type":"component",
//!   "contents":{"address":"<channel id>",
//!     "contents":{"content":{"address":"text",
//!       "contents":{"pos1":1,"seg":{"text":"typed text","props":{...}},"type":0}},
//!     "type":"op"}}}}
//! ```
//!
//! The outer `address` is the channel; the inner `content.address` names the
//! distributed data structure within it, observed as `text`.
//!
//! Merge-tree operation types, matching the Fluid delta type numbering:
//! `0` insert, `1` remove, `2` annotate, `3` group. Group operations nest
//! ordinary operations inside themselves and are flattened here.
//!
//! This is reverse-engineered behaviour and is not based on a published
//! Microsoft Prague/Fluid file-format specification.

use vstd::prelude::*;
use vstd::utf8::encode_utf8;
use crate::fluid::merge_tree::{Segment, SegmentView, segment_of, segment_views};
use crate::fluid::properties::Properties;
use crate::json::{Json, JsonValue, field_of, view_members, copy_members, lemma_field_of_view};
use crate::text::{chars_of, push_str};

verus! {

/// Fluid merge-tree delta type numbers.
pub const TYPE_INSERT: i64 = 0;
pub const TYPE_REMOVE: i64 = 1;
pub const TYPE_ANNOTATE: i64 = 2;

/// How many levels of JSON documents encoded inside JSON strings are
/// unwrapped. Each level at least doubles the escaping of any string inside it,
/// so no input that fits in memory reaches this depth.
pub const MAX_STRING_NESTING: usize = 64;

/// One operation against a merge tree.
#[derive(Debug)]
pub enum DocumentOp {
    /// Insert segments at a position, counted in UTF-16 code units.
    Insert { position: usize, segments: Vec<Segment> },
    /// Remove the range `[start, end)`.
    Remove { start: usize, end: usize },
    /// Change properties over the range `[start, end)`.
    ///
    /// Parsed and reported, but not applied: no corpus file needs it to
    /// reconstruct its text, and applying property changes correctly needs
    /// range splitting that is not yet justified.
    Annotate { start: usize, end: usize, properties: Properties },
    /// An operation whose shape is not understood. Kept for diagnostics.
    Unknown { raw: Json },
}

/// The content of a [`DocumentOp`].
pub enum OpView {
    Insert { position: usize, segments: Seq<SegmentView> },
    Remove { start: usize, end: usize },
    Annotate { start: usize, end: usize, properties: Seq<(Seq<char>, JsonValue)> },
    Unknown { raw: JsonValue },
}

impl View for DocumentOp {
    type V = OpView;

    open spec fn view(&self) -> OpView {
        match self {
            DocumentOp::Insert { position, segments } => OpView::Insert {
                position: *position,
                segments: segment_views(segments@),
            },
            DocumentOp::Remove { start, end } => OpView::Remove { start: *start, end: *end },
            DocumentOp::Annotate { start, end, properties } => OpView::Annotate {
                start: *start,
                end: *end,
                properties: properties.view_props(),
            },
            DocumentOp::Unknown { raw } => OpView::Unknown { raw: raw@ },
        }
    }
}

/// Copies of segments, in order.
fn copy_segment_list(segments: &Vec<Segment>) -> (r: Vec<Segment>)
    ensures
        segment_views(r@) == segment_views(segments@),
{
    let mut out: Vec<Segment> = Vec::new();
    let mut i: usize = 0;
    while i < segments.len()
        invariant
            i <= segments@.len(),
            out@.len() == i,
            forall|k: int| 0 <= k < i ==> (#[trigger] out@[k])@ == segments@[k]@,
        decreases segments@.len() - i,
    {
        out.push(segments[i].clone());
        i += 1;
    }
    assert(segment_views(out@) =~= segment_views(segments@));
    out
}

impl Clone for DocumentOp {
    fn clone(&self) -> (r: Self)
        ensures
            r@ == self@,
    {
        match self {
            DocumentOp::Insert { position, segments } => DocumentOp::Insert {
                position: *position,
                segments: copy_segment_list(segments),
            },
            DocumentOp::Remove { start, end } => DocumentOp::Remove { start: *start, end: *end },
            DocumentOp::Annotate { start, end, properties } => DocumentOp::Annotate {
                start: *start,
                end: *end,
                properties: properties.clone(),
            },
            DocumentOp::Unknown { raw } => DocumentOp::Unknown { raw: raw.deep_copy() },
        }
    }
}

impl DocumentOp {
    pub fn kind(&self) -> (r: &'static str)
        ensures
            r@ == (match self {
                DocumentOp::Insert { .. } => "insert"@,
                DocumentOp::Remove { .. } => "remove"@,
                DocumentOp::Annotate { .. } => "annotate"@,
                DocumentOp::Unknown { .. } => "unknown"@,
            }),
    {
        match self {
            DocumentOp::Insert { .. } => "insert",
            DocumentOp::Remove { .. } => "remove",
            DocumentOp::Annotate { .. } => "annotate",
            DocumentOp::Unknown { .. } => "unknown",
        }
    }
}

/// An operation together with what it targets.
#[derive(Debug)]
pub struct AddressedOp {
    /// Channel the operation applies to, for example a data store guid.
    pub channel: Option<String>,
    /// Data structure within that channel, observed as `text`.
    pub data_structure: Option<String>,
    pub op: DocumentOp,
}

/// The content of an [`AddressedOp`].
pub struct AddressedView {
    pub channel: Option<Seq<char>>,
    pub data_structure: Option<Seq<char>>,
    pub op: OpView,
}

/// The content of an optional string.
pub open spec fn opt_chars(o: Option<String>) -> Option<Seq<char>> {
    match o {
        Some(s) => Some(s@),
        None => None,
    }
}

impl View for AddressedOp {
    type V = AddressedView;

    open spec fn view(&self) -> AddressedView {
        AddressedView { channel: opt_chars(self.channel), data_structure: opt_chars(self.data_structure), op: self.op@ }
    }
}

/// `channel/data_structure`, the key operations are grouped by; just the
/// channel when there is no data structure; empty without a channel.
pub open spec fn address_of(channel: Option<Seq<char>>, data_structure: Option<Seq<char>>) -> Seq<char> {
    match (channel, data_structure) {
        (Some(c), Some(d)) => c + "/"@ + d,
        (Some(c), None) => c,
        _ => Seq::empty(),
    }
}

impl AddressedOp {
    /// `channel/data_structure`, the key operations are grouped by.
    pub fn address(&self) -> (r: String)
        ensures
            r@ == address_of(opt_chars(self.channel), opt_chars(self.data_structure)),
    {
        match (&self.channel, &self.data_structure) {
            (Some(channel), Some(ds)) => {
                let mut r = channel.clone();
                r.append("/");
                r.append(ds.as_str());
                r
            },
            (Some(channel), None) => channel.clone(),
            _ => String::new(),
        }
    }
}

/// The contents of addressed operations, in order.
pub open spec fn op_views(ops: Seq<AddressedOp>) -> Seq<AddressedView> {
    ops.map_values(|o: AddressedOp| o@)
}

/// Counts of what an operation log holds, for reporting.
#[derive(Debug, Clone, Copy, PartialEq, Eq, Structural, Default)]
pub struct OperationCounts {
    pub records: usize,
    pub inserts: usize,
    pub removes: usize,
    pub annotates: usize,
    pub unknown: usize,
}

/// An optional position read from a member.
pub open spec fn position_field(e: Seq<(String, Json)>, key: Seq<char>) -> Option<usize> {
    match field_of(e, key) {
        Some(p) => match p.unsigned_value() {
            Some(u) => Some(u as usize),
            None => None,
        },
        None => None,
    }
}

/// Recognises a merge-tree operation by its numeric `type`: an insert needs
/// `seg` (one entry or an array of them) and defaults its position to 0; a
/// remove or annotate needs both `pos1` and `pos2`. Other types, including
/// groups, are not operations themselves.
pub open spec fn merge_tree_op(e: Seq<(String, Json)>) -> Option<OpView> {
    match field_of(e, "type"@) {
        None => None,
        Some(t) => match t.int_value() {
            None => None,
            Some(ty) => {
                let pos1 = position_field(e, "pos1"@);
                let pos2 = position_field(e, "pos2"@);
                if ty == 0 {
                    match field_of(e, "seg"@) {
                        None => None,
                        Some(seg) => Some(
                            OpView::Insert {
                                position: match pos1 {
                                    Some(p) => p,
                                    None => 0,
                                },
                                segments: match seg {
                                    Json::Array(items) => items@.map_values(|j: Json| segment_of(j@)),
                                    other => seq![segment_of(other@)],
                                },
                            },
                        ),
                    }
                } else if ty == 1 {
                    match (pos1, pos2) {
                        (Some(s), Some(x)) => Some(OpView::Remove { start: s, end: x }),
                        _ => None,
                    }
                } else if ty == 2 {
                    match (pos1, pos2) {
                        (Some(s), Some(x)) => Some(
                            OpView::Annotate {
                                start: s,
                                end: x,
                                properties: match field_of(e, "props"@) {
                                    Some(Json::Object(m)) => view_members(m@),
                                    _ => Seq::empty(),
                                },
                            },
                        ),
                        _ => None,
                    }
                } else {
                    None
                }
            },
        },
    }
}

/// `char::is_whitespace`: the Unicode `White_Space` characters.
pub open spec fn is_white(c: char) -> bool {
    ('\u{9}' <= c && c <= '\u{d}') || c == ' ' || c == '\u{85}' || c == '\u{a0}' || c == '\u{1680}' || ('\u{2000}'
        <= c && c <= '\u{200a}') || c == '\u{2028}' || c == '\u{2029}' || c == '\u{202f}' || c == '\u{205f}' || c
        == '\u{3000}'
}

/// Whether a string, after leading whitespace, starts with `{` or `[`.
pub open spec fn looks_like_json(s: Seq<char>) -> bool
    decreases s.len(),
{
    if s.len() == 0 {
        false
    } else if is_white(s[0]) {
        looks_like_json(s.drop_first())
    } else {
        s[0] == '{' || s[0] == '['
    }
}

/// The address carried down into an object: an `address` names the channel
/// when none is known yet, else the data structure inside it.
pub open spec fn address_step(e: Seq<(String, Json)>, ch: Option<Seq<char>>, ds: Option<Seq<char>>) -> (Option<Seq<char>>, Option<Seq<char>>) {
    match field_of(e, "address"@) {
        Some(Json::String(a)) => if ch is None { (Some(a@), ds) } else { (ch, Some(a@)) },
        _ => (ch, ds),
    }
}

/// The operations found walking a message: arrays and objects are walked in
/// order, an object that is an operation is taken whole, and strings holding
/// JSON documents are parsed and walked in turn.
pub open spec fn walk(node: Json, ch: Option<Seq<char>>, ds: Option<Seq<char>>, fuel: nat) -> Seq<AddressedView>
    decreases fuel, node, 0nat,
{
    match node {
        Json::Array(items) => walk_items(items@, ch, ds, fuel),
        Json::Object(entries) => {
            let a = address_step(entries@, ch, ds);
            match merge_tree_op(entries@) {
                Some(op) => seq![AddressedView { channel: a.0, data_structure: a.1, op }],
                None => walk_members(entries@, a.0, a.1, fuel),
            }
        },
        _ => Seq::empty(),
    }
}

/// The operations found in each item, in order.
pub open spec fn walk_items(items: Seq<Json>, ch: Option<Seq<char>>, ds: Option<Seq<char>>, fuel: nat) -> Seq<AddressedView>
    decreases fuel, items, 0nat,
{
    if items.len() == 0 {
        Seq::empty()
    } else {
        walk(items[0], ch, ds, fuel) + walk_items(items.subrange(1, items.len() as int), ch, ds, fuel)
    }
}

/// The operations found in each member's value, in order.
pub open spec fn walk_members(entries: Seq<(String, Json)>, ch: Option<Seq<char>>, ds: Option<Seq<char>>, fuel: nat) -> Seq<AddressedView>
    decreases fuel, entries, 0nat,
{
    if entries.len() == 0 {
        Seq::empty()
    } else {
        walk_value(entries[0].1, ch, ds, fuel) + walk_members(entries.subrange(1, entries.len() as int), ch, ds, fuel)
    }
}

/// The operations found in one member's value: a string that looks like a JSON
/// document and parses is walked as that document.
pub open spec fn walk_value(v: Json, ch: Option<Seq<char>>, ds: Option<Seq<char>>, fuel: nat) -> Seq<AddressedView>
    decreases fuel, v, 1nat,
{
    match v {
        Json::String(s) => if fuel > 0 && looks_like_json(s@) {
            match json_from_text(s@) {
                Some(nested) => walk(nested, ch, ds, (fuel - 1) as nat),
                None => Seq::empty(),
            }
        } else {
            Seq::empty()
        },
        _ => walk(v, ch, ds, fuel),
    }
}

/// What parsing text as JSON gives.
pub open spec fn json_from_text(s: Seq<char>) -> Option<Json> {
    crate::json::json_from_bytes(encode_utf8(s))
}

/// The operations of every delta that parses, in order.
pub open spec fn parse_deltas(deltas: Seq<Seq<char>>) -> Seq<AddressedView>
    decreases deltas.len(),
{
    if deltas.len() == 0 {
        Seq::empty()
    } else {
        parse_deltas(deltas.drop_last()) + match json_from_text(deltas.last()) {
            Some(record) => walk(record, None, None, MAX_STRING_NESTING as nat),
            None => Seq::empty(),
        }
    }
}

/// Reads a position.
fn read_position(value: &Json, key: &str) -> (r: Option<usize>)
    requires
        value is Object,
    ensures
        r == position_field(value->Object_0@, key@),
{
    match value.get(key) {
        Some(p) => match p.as_u64() {
            Some(u) => Some(u as usize),
            None => None,
        },
        None => None,
    }
}

/// Recognises a merge-tree operation by its numeric `type`.
fn as_merge_tree_op(value: &Json) -> (r: Option<DocumentOp>)
    requires
        value is Object,
    ensures
        match merge_tree_op(value->Object_0@) {
            Some(op) => r matches Some(x) && x@ == op,
            None => r is None,
        },
{
    let op_type = match value.get("type") {
        Some(t) => match t.as_i64() {
            Some(x) => x,
            None => return None,
        },
        None => return None,
    };
    let pos1 = read_position(value, "pos1");
    if op_type == TYPE_INSERT {
        let seg = match value.get("seg") {
            Some(s) => s,
            None => return None,
        };
        let segments = match seg {
            Json::Array(items) => {
                let mut out: Vec<Segment> = Vec::new();
                let mut i: usize = 0;
                while i < items.len()
                    invariant
                        i <= items@.len(),
                        out@.len() == i,
                        forall|k: int| 0 <= k < i ==> (#[trigger] out@[k])@ == segment_of(items@[k]@),
                    decreases items@.len() - i,
                {
                    out.push(Segment::from_value(&items[i]));
                    i += 1;
                }
                assert(segment_views(out@) =~= items@.map_values(|j: Json| segment_of(j@)));
                out
            },
            other => {
                let mut out: Vec<Segment> = Vec::new();
                out.push(Segment::from_value(other));
                assert(segment_views(out@) =~= seq![segment_of(other@)]);
                out
            },
        };
        let position = match pos1 {
            Some(p) => p,
            None => 0,
        };
        return Some(DocumentOp::Insert { position, segments });
    }
    if op_type == TYPE_REMOVE || op_type == TYPE_ANNOTATE {
        let start = match pos1 {
            Some(p) => p,
            None => return None,
        };
        let end = match read_position(value, "pos2") {
            Some(p) => p,
            None => return None,
        };
        if op_type == TYPE_REMOVE {
            return Some(DocumentOp::Remove { start, end });
        }
        let properties = match value.get("props") {
            Some(Json::Object(m)) => Properties(copy_members(m)),
            _ => Properties::new(),
        };
        assert(view_members(Seq::<(String, Json)>::empty()) =~= Seq::empty());
        return Some(DocumentOp::Annotate { start, end, properties });
    }
    None
}

/// Whether a string, after leading whitespace, starts with `{` or `[`.
fn looks_like_json_text(text: &str) -> (r: bool)
    ensures
        r == looks_like_json(text@),
{
    let cs = chars_of(text);
    let mut i: usize = 0;
    assert(cs@.skip(0) =~= cs@);
    while i < cs.len()
        invariant
            i <= cs@.len(),
            cs@ == text@,
            looks_like_json(text@) == looks_like_json(cs@.skip(i as int)),
        decreases cs@.len() - i,
    {
        let c = cs[i];
        assert(cs@.skip(i as int)[0] == c);
        let white = ('\u{9}' <= c && c <= '\u{d}') || c == ' ' || c == '\u{85}' || c == '\u{a0}' || c == '\u{1680}'
            || ('\u{2000}' <= c && c <= '\u{200a}') || c == '\u{2028}' || c == '\u{2029}' || c == '\u{202f}' || c
            == '\u{205f}' || c == '\u{3000}';
        if !white {
            return c == '{' || c == '[';
        }
        assert(cs@.skip(i as int).drop_first() =~= cs@.skip(i + 1));
        i += 1;
    }
    false
}

/// A copy of an optional string.
fn copy_text(o: &Option<String>) -> (r: Option<String>)
    ensures
        opt_chars(r) == opt_chars(*o),
{
    match o {
        Some(s) => Some(s.clone()),
        None => None,
    }
}

/// Walks a message, carrying the address down and unwrapping JSON strings.
fn collect(node: &Json, channel: &Option<String>, data_structure: &Option<String>, ops: &mut Vec<AddressedOp>, fuel: usize)
    ensures
        op_views(final(ops)@) == op_views(old(ops)@) + walk(*node, opt_chars(*channel), opt_chars(*data_structure), fuel as nat),
    decreases fuel, *node, 0nat,
{
    let ghost start = op_views(ops@);
    match node {
        Json::Array(items) => {
            let mut i: usize = 0;
            let ghost mut acc: Seq<AddressedView> = Seq::empty();
            assert(items@.subrange(0, items@.len() as int) =~= items@);
            while i < items.len()
                invariant
                    i <= items@.len(),
                    *node == Json::Array(*items),
                    op_views(ops@) == start + acc,
                    walk(*node, opt_chars(*channel), opt_chars(*data_structure), fuel as nat) == acc + walk_items(
                        items@.subrange(i as int, items@.len() as int),
                        opt_chars(*channel),
                        opt_chars(*data_structure),
                        fuel as nat,
                    ),
                decreases items@.len() - i,
            {
                proof {
                    assert(decreases_to!(*node => node->Array_0));
                    assert(decreases_to!(*items => items@));
                    assert(decreases_to!(items@ => items@[i as int]));
                }
                let ghost rest = items@.subrange(i as int, items@.len() as int);
                assert(rest[0] == items@[i as int]);
                assert(rest.subrange(1, rest.len() as int) =~= items@.subrange(i + 1, items@.len() as int));
                let ghost before = op_views(ops@);
                collect(&items[i], channel, data_structure, ops, fuel);
                proof {
                    acc = acc + walk(items@[i as int], opt_chars(*channel), opt_chars(*data_structure), fuel as nat);
                }
                assert(op_views(ops@) =~= start + acc);
                i += 1;
            }
            assert(items@.subrange(i as int, items@.len() as int) =~= Seq::<Json>::empty());
            assert(acc + Seq::<AddressedView>::empty() =~= acc);
        },
        Json::Object(entries) => {
            proof {
                lemma_field_of_view(entries@, "address"@);
            }
            let address = match node.get("address") {
                Some(a) => a.as_str(),
                None => None,
            };
            let (ch, ds) = match address {
                Some(a) => if channel.is_none() {
                    (Some(a.clone()), copy_text(data_structure))
                } else {
                    (copy_text(channel), Some(a.clone()))
                },
                None => (copy_text(channel), copy_text(data_structure)),
            };
            assert((opt_chars(ch), opt_chars(ds)) == address_step(entries@, opt_chars(*channel), opt_chars(*data_structure)));
            match as_merge_tree_op(node) {
                Some(op) => {
                    let ghost before = ops@;
                    ops.push(AddressedOp { channel: ch, data_structure: ds, op });
                    assert(op_views(ops@) =~= op_views(before).push(ops@.last()@));
                    return;
                },
                None => {},
            }
            let mut i: usize = 0;
            let ghost mut acc: Seq<AddressedView> = Seq::empty();
            assert(entries@.subrange(0, entries@.len() as int) =~= entries@);
            while i < entries.len()
                invariant
                    i <= entries@.len(),
                    *node == Json::Object(*entries),
                    op_views(ops@) == start + acc,
                    walk(*node, opt_chars(*channel), opt_chars(*data_structure), fuel as nat) == acc + walk_members(
                        entries@.subrange(i as int, entries@.len() as int),
                        opt_chars(ch),
                        opt_chars(ds),
                        fuel as nat,
                    ),
                decreases entries@.len() - i,
            {
                proof {
                    assert(decreases_to!(*node => node->Object_0));
                    assert(decreases_to!(*entries => entries@));
                    assert(decreases_to!(entries@ => entries@[i as int]));
                    assert(decreases_to!(entries@[i as int] => entries@[i as int].1));
                }
                let ghost rest = entries@.subrange(i as int, entries@.len() as int);
                assert(rest[0] == entries@[i as int]);
                assert(rest.subrange(1, rest.len() as int) =~= entries@.subrange(i + 1, entries@.len() as int));
                collect_value(&entries[i].1, &ch, &ds, ops, fuel);
                proof {
                    acc = acc + walk_value(entries@[i as int].1, opt_chars(ch), opt_chars(ds), fuel as nat);
                }
                assert(op_views(ops@) =~= start + acc);
                i += 1;
            }
            assert(entries@.subrange(i as int, entries@.len() as int) =~= Seq::<(String, Json)>::empty());
            assert(acc + Seq::<AddressedView>::empty() =~= acc);
        },
        _ => {
            assert(op_views(ops@) =~= start + Seq::<AddressedView>::empty());
        },
    }
}

/// Walks one member's value; `contents` is frequently a JSON document encoded
/// as a string.
fn collect_value(value: &Json, channel: &Option<String>, data_structure: &Option<String>, ops: &mut Vec<AddressedOp>, fuel: usize)
    ensures
        op_views(final(ops)@) == op_views(old(ops)@) + walk_value(*value, opt_chars(*channel), opt_chars(*data_structure), fuel as nat),
    decreases fuel, *value, 1nat,
{
    match value {
        Json::String(text) => {
            if fuel > 0 && looks_like_json_text(text.as_str()) {
                match Json::parse(text.as_str()) {
                    Some(nested) => {
                        collect(&nested, channel, data_structure, ops, fuel - 1);
                    },
                    None => {
                        assert(op_views(ops@) =~= op_views(old(ops)@) + Seq::<AddressedView>::empty());
                    },
                }
            } else {
                assert(op_views(ops@) =~= op_views(old(ops)@) + Seq::<AddressedView>::empty());
            }
        },
        _ => collect(value, channel, data_structure, ops, fuel),
    }
}

/// Parses every operation out of the raw delta strings. Deltas that are not
/// JSON are skipped.
pub fn parse(deltas: &[String]) -> (r: Vec<AddressedOp>)
    ensures
        op_views(r@) == parse_deltas(deltas@.map_values(|d: String| d@)),
{
    let ghost dv = deltas@.map_values(|d: String| d@);
    let mut ops: Vec<AddressedOp> = Vec::new();
    let mut i: usize = 0;
    assert(dv.take(0) =~= Seq::<Seq<char>>::empty());
    assert(op_views(ops@) =~= Seq::<AddressedView>::empty());
    while i < deltas.len()
        invariant
            i <= deltas@.len(),
            dv == deltas@.map_values(|d: String| d@),
            op_views(ops@) == parse_deltas(dv.take(i as int)),
        decreases deltas@.len() - i,
    {
        assert(dv.take(i + 1).drop_last() =~= dv.take(i as int));
        assert(dv.take(i + 1).last() == deltas@[i as int]@);
        match Json::parse(deltas[i].as_str()) {
            Some(record) => {
                let none: Option<String> = None;
                collect(&record, &none, &none, &mut ops, MAX_STRING_NESTING);
            },
            None => {
                assert(op_views(ops@) =~= op_views(ops@) + Seq::<AddressedView>::empty());
            },
        }
        i += 1;
    }
    assert(dv.take(i as int) =~= dv);
    ops
}

/// The counts of operations by kind.
pub open spec fn count_ops(ops: Seq<AddressedView>) -> OperationCounts
    decreases ops.len(),
{
    if ops.len() == 0 {
        OperationCounts { records: 0, inserts: 0, removes: 0, annotates: 0, unknown: 0 }
    } else {
        let c = count_ops(ops.drop_last());
        let c2 = OperationCounts { records: (c.records + 1) as usize, ..c };
        match ops.last().op {
            OpView::Insert { .. } => OperationCounts { inserts: (c.inserts + 1) as usize, ..c2 },
            OpView::Remove { .. } => OperationCounts { removes: (c.removes + 1) as usize, ..c2 },
            OpView::Annotate { .. } => OperationCounts { annotates: (c.annotates + 1) as usize, ..c2 },
            OpView::Unknown { .. } => OperationCounts { unknown: (c.unknown + 1) as usize, ..c2 },
        }
    }
}

/// Counts what an operation log holds.
pub fn counts(ops: &[AddressedOp]) -> (c: OperationCounts)
    ensures
        c == count_ops(op_views(ops@)),
        c.records == ops@.len(),
        c.inserts + c.removes + c.annotates + c.unknown == ops@.len(),
{
    let ghost v = op_views(ops@);
    let mut c = OperationCounts { records: 0, inserts: 0, removes: 0, annotates: 0, unknown: 0 };
    let mut i: usize = 0;
    assert(v.take(0) =~= Seq::<AddressedView>::empty());
    while i < ops.len()
        invariant
            i <= ops@.len(),
            v == op_views(ops@),
            c == count_ops(v.take(i as int)),
            c.records == i,
            c.inserts + c.removes + c.annotates + c.unknown == i,
        decreases ops@.len() - i,
    {
        assert(v.take(i + 1).drop_last() =~= v.take(i as int));
        assert(v.take(i + 1).last() == ops@[i as int]@);
        c.records += 1;
        match &ops[i].op {
            DocumentOp::Insert { .. } => c.inserts += 1,
            DocumentOp::Remove { .. } => c.removes += 1,
            DocumentOp::Annotate { .. } => c.annotates += 1,
            DocumentOp::Unknown { .. } => c.unknown += 1,
        }
        i += 1;
    }
    assert(v.take(i as int) =~= v);
    c
}

/// A merge-tree operation reads its range by field name: a remove (type 1)
/// runs from `pos1` to `pos2`, and an annotate (type 2) covers the same
/// range, whatever else the record holds.
pub proof fn lemma_range_is_pos1_to_pos2(e: Seq<(String, Json)>, ty: i64, s: u64, x: u64)
    requires
        ty == 1 || ty == 2,
        field_of(e, "type"@) matches Some(t) && t.int_value() == Some(ty),
        field_of(e, "pos1"@) matches Some(a) && a.unsigned_value() == Some(s),
        field_of(e, "pos2"@) matches Some(b) && b.unsigned_value() == Some(x),
    ensures
        ty == 1 ==> merge_tree_op(e) == Some(OpView::Remove { start: s as usize, end: x as usize }),
        ty == 2 ==> (merge_tree_op(e) matches Some(OpView::Annotate { start, end, .. }) && start == s as usize && end
            == x as usize),
{
}

/// An insert (type 0) with segments goes at `pos1`, or at the start when the
/// record has no `pos1`.
pub proof fn lemma_insert_goes_at_pos1(e: Seq<(String, Json)>)
    requires
        field_of(e, "type"@) matches Some(t) && t.int_value() == Some(0i64),
        field_of(e, "seg"@) is Some,
    ensures
        merge_tree_op(e) matches Some(OpView::Insert { position, .. }) && position == match field_of(e, "pos1"@) {
            Some(a) => match a.unsigned_value() {
                Some(p) => p as usize,
                None => 0usize,
            },
            None => 0usize,
        },
{
}

} // verus!
