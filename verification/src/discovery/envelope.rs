//! Narrow reader for the binary member framing.
//!
//! Purpose: recover *where* each payload sits, not to decode the format fully.
//! A merge-tree chunk on its own cannot say whether it is the page title, the
//! page body or a table cell, because all three are structurally identical.
//! The framing knows, and this module asks it.
//!
//! # The framing, as observed
//!
//! A member is a tagged value stream with an interned string table. Decoding it
//! yields a Fluid summary:
//!
//! ```text
//! {mrv, cv, lsn, snapshot: {id, sequenceNumber, treeNodes: [...]}, blobs: [...], deltas: {...}}
//! ```
//!
//! `treeNodes` is a tree of `{name, children}` and `{name, nodeType, value}`
//! nodes, where `value` is a content id. `blobs` is a flat list of
//! `{id, data}` records holding the content those ids refer to. Walking the
//! tree gives every blob a path such as
//! `/.app/.channels/E/.channels/text/content/header`.
//!
//! Classification uses the component name. Each channel's `.component` blob
//! names the component that owns it: `LoopCanvasComponentSingleton` is the page
//! body, `LoopPageTitleSingleton` is the page title, `TableroComponentType` is a
//! table, `BlockCalloutComponentType` is a callout card.
//!
//! # Tag table
//!
//! ```text
//! 0x01                                    integer zero
//! 0x03 <u8>                               integer
//! 0x05 <u16le>                            integer
//! 0x07 <u32le>                            integer
//! 0x0b / 0x0c                             true / false
//! 0x0d                                    null
//! 0x0e <u8 len> <bytes>                   string literal
//! 0x0f <u16le len> <bytes>                string literal
//! 0x10 <u32le len> <bytes>                string literal
//! 0x11 <u8 id>                            interned string reference
//! 0x12 <u16le id>                         interned string reference
//! 0x13 <u32le id>                         interned string reference
//! 0x14 <u8 id> <u8 len> <bytes>           intern a string
//! 0x15 <u32le id> <u32le len> <bytes>     intern a string (wide)
//! 0x21 <u8 len> <bytes>                   blob
//! 0x22 <u16le len> <bytes>                blob
//! 0x23 <u32le len> <bytes>                blob
//! 0x31 / 0x32                             open / close array
//! 0x33 / 0x34                             open / close map
//! ```
//!
//! A string definition yields no value; it populates the table and may stand
//! anywhere a value may, including just before a closing tag. Tags not listed
//! stop the decode rather than risking a silent desync.
//!
//! ASSUMPTION, not confirmed: the `0x07`, `0x10`, `0x13` and `0x23` widths are
//! extrapolated from the pattern of their narrower siblings.
//!
//! This is reverse-engineered behaviour and is not based on a published
//! Microsoft Prague/Fluid file-format specification.

use vstd::prelude::*;
use crate::strmap::{StrMap, keys_sorted};
use crate::json::{Json, JsonValue, json_from_bytes};
use vstd::utf8::{encode_utf8, valid_utf8, decode_utf8};
use crate::text::{push_char, push_str, same_text, chars_of, decimal, decimal_digits};
use crate::digest::{hex, hex_of};
use super::{PayloadCandidate, DiscoveryError, PayloadDiscovery, parsed_from, sort_by_span, sort_payloads};

verus! {

/// Why a member could not be decoded.
#[derive(Debug, Clone, Copy, PartialEq, Eq)]
pub enum EnvelopeError {
    UnknownTag { tag: u8, offset: usize },
    Truncated { offset: usize },
    TooDeep { limit: usize },
    NotAnEnvelope(NotEnvelope),
}

/// Which part of the summary shape was missing.
#[derive(Debug, Clone, Copy, PartialEq, Eq)]
pub enum NotEnvelope {
    /// The root has no `snapshot` value.
    NoSnapshot,
    /// The snapshot has no `treeNodes` array.
    NoTreeNodes,
}

/// Maximum nesting accepted while parsing, to bound recursion on damaged input.
pub const MAX_DEPTH: usize = 256;

/// A decoded value from the framing.
#[derive(Debug, PartialEq)]
pub enum FrameValue {
    Null,
    Bool(bool),
    Int(i64),
    Str(String),
    /// A byte range within the decompressed member.
    Blob { start: usize, len: usize },
    Array(Vec<FrameValue>),
    /// Key order is preserved; keys are not required to be strings.
    Dict(Vec<(FrameValue, FrameValue)>),
}

/// The content of a [`FrameValue`].
pub enum Decoded {
    Null,
    Bool(bool),
    Int(int),
    Str(Seq<char>),
    Blob { start: int, len: int },
    Array(Seq<Decoded>),
    Dict(Seq<(Decoded, Decoded)>),
}

/// The content of a sequence of values.
pub open spec fn view_values(items: Seq<FrameValue>) -> Seq<Decoded>
    decreases items,
{
    if items.len() == 0 {
        Seq::empty()
    } else {
        seq![items[0].view_value()] + view_values(items.subrange(1, items.len() as int))
    }
}

/// The content of a sequence of map entries.
pub open spec fn view_entries(entries: Seq<(FrameValue, FrameValue)>) -> Seq<(Decoded, Decoded)>
    decreases entries,
{
    if entries.len() == 0 {
        Seq::empty()
    } else {
        seq![(entries[0].0.view_value(), entries[0].1.view_value())] + view_entries(
            entries.subrange(1, entries.len() as int),
        )
    }
}

/// Viewing values extended by one extends their view by one.
pub proof fn lemma_view_values_push(s: Seq<FrameValue>, x: FrameValue)
    ensures
        view_values(s.push(x)) == view_values(s).push(x.view_value()),
    decreases s.len(),
{
    if s.len() == 0 {
        assert(s.push(x).subrange(1, 1) =~= Seq::<FrameValue>::empty());
        assert(view_values(s.push(x).subrange(1, 1)) =~= Seq::empty());
        assert(view_values(s.push(x)) =~= seq![x.view_value()]);
    } else {
        assert(s.push(x).subrange(1, s.len() as int + 1) =~= s.subrange(1, s.len() as int).push(x));
        lemma_view_values_push(s.subrange(1, s.len() as int), x);
        assert(view_values(s.push(x)) =~= view_values(s).push(x.view_value()));
    }
}

/// Viewing entries extended by one extends their view by one.
pub proof fn lemma_view_entries_push(s: Seq<(FrameValue, FrameValue)>, x: (FrameValue, FrameValue))
    ensures
        view_entries(s.push(x)) == view_entries(s).push((x.0.view_value(), x.1.view_value())),
    decreases s.len(),
{
    if s.len() == 0 {
        assert(s.push(x).subrange(1, 1) =~= Seq::<(FrameValue, FrameValue)>::empty());
        assert(view_entries(s.push(x).subrange(1, 1)) =~= Seq::empty());
        assert(view_entries(s.push(x)) =~= seq![(x.0.view_value(), x.1.view_value())]);
    } else {
        assert(s.push(x).subrange(1, s.len() as int + 1) =~= s.subrange(1, s.len() as int).push(x));
        lemma_view_entries_push(s.subrange(1, s.len() as int), x);
        assert(view_entries(s.push(x)) =~= view_entries(s).push(
            (x.0.view_value(), x.1.view_value()),
        ));
    }
}

impl FrameValue {
    /// The content of this value.
    pub open spec fn view_value(self) -> Decoded
        decreases self,
    {
        match self {
            FrameValue::Null => Decoded::Null,
            FrameValue::Bool(b) => Decoded::Bool(b),
            FrameValue::Int(i) => Decoded::Int(i as int),
            FrameValue::Str(s) => Decoded::Str(s@),
            FrameValue::Blob { start, len } => Decoded::Blob { start: start as int, len: len as int },
            FrameValue::Array(items) => Decoded::Array(view_values(items@)),
            FrameValue::Dict(entries) => Decoded::Dict(view_entries(entries@)),
        }
    }
}

impl View for FrameValue {
    type V = Decoded;

    open spec fn view(&self) -> Decoded {
        self.view_value()
    }
}

/// What `String::from_utf8_lossy` makes of these bytes.
pub uninterp spec fn utf8_lossy(bytes: Seq<u8>) -> Seq<char>;

/// Decodes bytes as UTF-8, replacing invalid sequences.
///
/// Trusted: calls `String::from_utf8_lossy`. The contract names the result
/// (`utf8_lossy` of the input) and states what the function's documentation
/// promises: bytes that are valid UTF-8 come back as the string they encode.
/// What replaces an invalid sequence is left to the name.
#[verifier::external_body]
fn lossy_string(bytes: &[u8]) -> (r: String)
    ensures
        r@ == utf8_lossy(bytes@),
        valid_utf8(bytes@) ==> r@ == decode_utf8(bytes@),
{
    String::from_utf8_lossy(bytes).into_owned()
}

/// The text a string's bytes decode to: exactly the characters they encode
/// when they are valid UTF-8, and otherwise what lossy decoding makes of them.
pub open spec fn text_of_bytes(bytes: Seq<u8>) -> Seq<char> {
    if valid_utf8(bytes) {
        decode_utf8(bytes)
    } else {
        utf8_lossy(bytes)
    }
}

/// The interned-string table: definitions in the order they were read.
pub type Table = Seq<(u32, Seq<char>)>;

/// The string interned under `id`: the latest definition wins, and an id never
/// defined reads as the empty string.
pub open spec fn lookup(table: Table, id: u32) -> Seq<char>
    decreases table.len(),
{
    if table.len() == 0 {
        Seq::empty()
    } else if table.last().0 == id {
        table.last().1
    } else {
        lookup(table.drop_last(), id)
    }
}

/// A little-endian unsigned integer of `width` bytes (1, 2 or 4) at `pos`.
pub open spec fn le(data: Seq<u8>, pos: int, width: int) -> int {
    if width == 1 {
        data[pos] as int
    } else if width == 2 {
        data[pos] + 256 * data[pos + 1]
    } else {
        data[pos] + 256 * data[pos + 1] + 65536 * data[pos + 2] + 16777216 * data[pos + 3]
    }
}

/// The outcome of decoding one item: a value, the position after it and the
/// string table after it, or the error that stopped the decode.
pub enum Step {
    Done(Decoded, int, Table),
    Failed(EnvelopeError),
}

/// Width of the length or id field that follows a tag in a family of three.
pub open spec fn width_of(tag: u8, first: u8) -> int {
    if tag == first { 1 } else if tag == first + 1 { 2 } else { 4 }
}

/// A string definition (tag `0x14` or `0x15`) whose tag stands at `t`: the
/// position after it, the id and the text it defines.
pub open spec fn definition(data: Seq<u8>, t: int) -> Result<(int, u32, Seq<char>), EnvelopeError> {
    let tag = data[t];
    let (w_id, w_len) = if tag == 0x14u8 { (1int, 1int) } else { (4int, 4int) };
    let id_at = t + 1;
    let len_at = id_at + w_id;
    let text_at = len_at + w_len;
    if id_at + w_id > data.len() {
        Err(EnvelopeError::Truncated { offset: id_at as usize })
    } else if len_at + w_len > data.len() {
        Err(EnvelopeError::Truncated { offset: len_at as usize })
    } else {
        let len = le(data, len_at, w_len);
        if text_at + len > data.len() {
            Err(EnvelopeError::Truncated { offset: text_at as usize })
        } else {
            Ok((text_at + len, le(data, id_at, w_id) as u32, text_of_bytes(data.subrange(text_at, text_at + len))))
        }
    }
}

/// True for the two tags that define a string.
pub open spec fn is_definition(tag: u8) -> bool {
    tag == 0x14u8 || tag == 0x15u8
}

/// Decodes one value at `pos` with nesting `depth`, skipping string
/// definitions before it.
pub open spec fn decode_value(data: Seq<u8>, pos: int, table: Table, depth: int) -> Step
    decreases data.len() - pos, 1int,
{
    if depth > MAX_DEPTH {
        Step::Failed(EnvelopeError::TooDeep { limit: MAX_DEPTH })
    } else if pos < 0 || pos >= data.len() {
        Step::Failed(EnvelopeError::Truncated { offset: pos as usize })
    } else {
        let tag = data[pos];
        if is_definition(tag) {
            match definition(data, pos) {
                Err(e) => Step::Failed(e),
                Ok((next, id, text)) => decode_value(data, next, table.push((id, text)), depth),
            }
        } else if tag == 0x01u8 {
            Step::Done(Decoded::Int(0), pos + 1, table)
        } else if tag == 0x03u8 || tag == 0x05u8 || tag == 0x07u8 {
            let w = if tag == 0x03u8 { 1int } else if tag == 0x05u8 { 2int } else { 4int };
            if pos + 1 + w > data.len() {
                Step::Failed(EnvelopeError::Truncated { offset: (pos + 1) as usize })
            } else {
                Step::Done(Decoded::Int(le(data, pos + 1, w)), pos + 1 + w, table)
            }
        } else if tag == 0x0bu8 {
            Step::Done(Decoded::Bool(true), pos + 1, table)
        } else if tag == 0x0cu8 {
            Step::Done(Decoded::Bool(false), pos + 1, table)
        } else if tag == 0x0du8 {
            Step::Done(Decoded::Null, pos + 1, table)
        } else if 0x0eu8 <= tag <= 0x10u8 {
            let w = width_of(tag, 0x0eu8);
            let at = pos + 1 + w;
            if at > data.len() {
                Step::Failed(EnvelopeError::Truncated { offset: (pos + 1) as usize })
            } else {
                let len = le(data, pos + 1, w);
                if at + len > data.len() {
                    Step::Failed(EnvelopeError::Truncated { offset: at as usize })
                } else {
                    Step::Done(Decoded::Str(text_of_bytes(data.subrange(at, at + len))), at + len, table)
                }
            }
        } else if 0x11u8 <= tag <= 0x13u8 {
            let w = width_of(tag, 0x11u8);
            if pos + 1 + w > data.len() {
                Step::Failed(EnvelopeError::Truncated { offset: (pos + 1) as usize })
            } else {
                Step::Done(Decoded::Str(lookup(table, le(data, pos + 1, w) as u32)), pos + 1 + w, table)
            }
        } else if 0x21u8 <= tag <= 0x23u8 {
            let w = width_of(tag, 0x21u8);
            let at = pos + 1 + w;
            if at > data.len() {
                Step::Failed(EnvelopeError::Truncated { offset: (pos + 1) as usize })
            } else {
                let len = le(data, pos + 1, w);
                if at + len > data.len() {
                    Step::Failed(EnvelopeError::Truncated { offset: at as usize })
                } else {
                    Step::Done(Decoded::Blob { start: at, len }, at + len, table)
                }
            }
        } else if tag == 0x31u8 {
            decode_items(data, pos + 1, table, depth, Seq::empty())
        } else if tag == 0x33u8 {
            decode_entries(data, pos + 1, table, depth, Seq::empty())
        } else {
            Step::Failed(EnvelopeError::UnknownTag { tag, offset: pos as usize })
        }
    }
}

/// Decodes array items from `pos` up to and including the closing `0x32`.
pub open spec fn decode_items(data: Seq<u8>, pos: int, table: Table, depth: int, acc: Seq<Decoded>) -> Step
    decreases data.len() - pos, 2int,
{
    if pos < 0 || pos >= data.len() {
        Step::Failed(EnvelopeError::Truncated { offset: pos as usize })
    } else if is_definition(data[pos]) {
        match definition(data, pos) {
            Err(e) => Step::Failed(e),
            Ok((next, id, text)) => decode_items(data, next, table.push((id, text)), depth, acc),
        }
    } else if data[pos] == 0x32u8 {
        Step::Done(Decoded::Array(acc), pos + 1, table)
    } else {
        match decode_value(data, pos, table, depth + 1) {
            Step::Failed(e) => Step::Failed(e),
            Step::Done(v, next, t) => if pos < next <= data.len() {
                decode_items(data, next, t, depth, acc.push(v))
            } else {
                Step::Failed(EnvelopeError::Truncated { offset: pos as usize })
            },
        }
    }
}

/// Decodes map entries from `pos` up to and including the closing `0x34`.
pub open spec fn decode_entries(
    data: Seq<u8>,
    pos: int,
    table: Table,
    depth: int,
    acc: Seq<(Decoded, Decoded)>,
) -> Step
    decreases data.len() - pos, 2int,
{
    if pos < 0 || pos >= data.len() {
        Step::Failed(EnvelopeError::Truncated { offset: pos as usize })
    } else if is_definition(data[pos]) {
        match definition(data, pos) {
            Err(e) => Step::Failed(e),
            Ok((next, id, text)) => decode_entries(data, next, table.push((id, text)), depth, acc),
        }
    } else if data[pos] == 0x34u8 {
        Step::Done(Decoded::Dict(acc), pos + 1, table)
    } else {
        match decode_value(data, pos, table, depth + 1) {
            Step::Failed(e) => Step::Failed(e),
            Step::Done(k, mid, t1) => if pos < mid <= data.len() {
                match decode_value(data, mid, t1, depth + 1) {
                    Step::Failed(e) => Step::Failed(e),
                    Step::Done(v, next, t2) => if mid < next <= data.len() {
                        decode_entries(data, next, t2, depth, acc.push((k, v)))
                    } else {
                        Step::Failed(EnvelopeError::Truncated { offset: pos as usize })
                    },
                }
            } else {
                Step::Failed(EnvelopeError::Truncated { offset: pos as usize })
            },
        }
    }
}

/// View of the entry at index `i`.
pub proof fn lemma_view_entries_index(s: Seq<(FrameValue, FrameValue)>, i: int)
    requires
        0 <= i < s.len(),
    ensures
        view_entries(s).len() == s.len(),
        view_entries(s)[i] == (s[i].0.view_value(), s[i].1.view_value()),
    decreases s.len(),
{
    if i > 0 {
        lemma_view_entries_index(s.subrange(1, s.len() as int), i - 1);
    } else {
        lemma_view_entries_len(s.subrange(1, s.len() as int));
    }
}

/// The view of entries has one element per entry.
pub proof fn lemma_view_entries_len(s: Seq<(FrameValue, FrameValue)>)
    ensures
        view_entries(s).len() == s.len(),
    decreases s.len(),
{
    if s.len() > 0 {
        lemma_view_entries_len(s.subrange(1, s.len() as int));
    }
}

/// View of the value at index `i`.
pub proof fn lemma_view_values_index(s: Seq<FrameValue>, i: int)
    requires
        0 <= i < s.len(),
    ensures
        view_values(s).len() == s.len(),
        view_values(s)[i] == s[i].view_value(),
    decreases s.len(),
{
    if i > 0 {
        lemma_view_values_index(s.subrange(1, s.len() as int), i - 1);
    } else {
        lemma_view_values_len(s.subrange(1, s.len() as int));
    }
}

/// The view of values has one element per value.
pub proof fn lemma_view_values_len(s: Seq<FrameValue>)
    ensures
        view_values(s).len() == s.len(),
    decreases s.len(),
{
    if s.len() > 0 {
        lemma_view_values_len(s.subrange(1, s.len() as int));
    }
}

/// The value of the first entry whose key is the string `key`.
pub open spec fn entry_value(entries: Seq<(Decoded, Decoded)>, key: Seq<char>) -> Option<Decoded>
    decreases entries.len(),
{
    if entries.len() == 0 {
        None
    } else if entries[0].0 == Decoded::Str(key) {
        Some(entries[0].1)
    } else {
        entry_value(entries.drop_first(), key)
    }
}

/// A value found by key is structurally smaller than the entries holding it.
pub proof fn lemma_entry_value_smaller(entries: Seq<(Decoded, Decoded)>, key: Seq<char>)
    ensures
        entry_value(entries, key) matches Some(v) ==> decreases_to!(entries => v),
    decreases entries.len(),
{
    if entries.len() > 0 {
        if entries[0].0 == Decoded::Str(key) {
            assert(decreases_to!(entries => entries[0]));
            assert(decreases_to!(entries[0] => entries[0].1));
        } else {
            lemma_entry_value_smaller(entries.drop_first(), key);
            assert(entries.drop_first() =~= entries.subrange(1, entries.len() as int));
        }
    }
}

impl Decoded {
    /// `get` on decoded content: the first entry keyed by the string `key`.
    pub open spec fn field(self, key: Seq<char>) -> Option<Decoded> {
        match self {
            Decoded::Dict(entries) => entry_value(entries, key),
            _ => None,
        }
    }

    /// The text, when this is a string.
    pub open spec fn text(self) -> Option<Seq<char>> {
        match self {
            Decoded::Str(s) => Some(s),
            _ => None,
        }
    }

    /// The items, when this is an array.
    pub open spec fn items(self) -> Option<Seq<Decoded>> {
        match self {
            Decoded::Array(items) => Some(items),
            _ => None,
        }
    }

    /// The byte range, when this is a blob.
    pub open spec fn range(self) -> Option<(int, int)> {
        match self {
            Decoded::Blob { start, len } => Some((start, len)),
            _ => None,
        }
    }

    /// The field `key` of this value, when it is a string.
    pub open spec fn text_field(self, key: Seq<char>) -> Option<Seq<char>> {
        match self.field(key) {
            Some(v) => v.text(),
            None => None,
        }
    }
}

impl FrameValue {
    /// The value stored under the string key `key`, when this is a map.
    pub fn get(&self, key: &str) -> (r: Option<&FrameValue>)
        ensures
            r matches Some(v) ==> self@.field(key@) == Some(v@) && decreases_to!(*self => *v),
            r is None ==> self@.field(key@) is None,
    {
        match self {
            FrameValue::Dict(entries) => {
                let ghost v = view_entries(entries@);
                proof { lemma_view_entries_len(entries@); }
                assert(v.skip(0) =~= v);
                let mut i: usize = 0;
                while i < entries.len()
                    invariant
                        i <= entries@.len(),
                        *self == FrameValue::Dict(*entries),
                        v == view_entries(entries@),
                        v.len() == entries@.len(),
                        self@.field(key@) == entry_value(v, key@),
                        entry_value(v, key@) == entry_value(v.skip(i as int), key@),
                    decreases entries@.len() - i,
                {
                    proof { lemma_view_entries_index(entries@, i as int); }
                    assert(v.skip(i as int)[0] == v[i as int]);
                    assert(v.skip(i as int).drop_first() =~= v.skip(i + 1));
                    let matched = match &entries[i].0 {
                        FrameValue::Str(name) => same_text(name.as_str(), key),
                        _ => false,
                    };
                    if matched {
                        proof {
                            assert(decreases_to!(*self => self->Dict_0));
                            assert(decreases_to!(self->Dict_0 => entries@));
                            assert(decreases_to!(entries@ => entries@[i as int]));
                            assert(decreases_to!(entries@[i as int] => entries@[i as int].1));
                        }
                        return Some(&entries[i].1);
                    }
                    i += 1;
                }
                None
            },
            _ => None,
        }
    }

    /// The text, when this is a string.
    pub fn as_str(&self) -> (r: Option<&String>)
        ensures
            r matches Some(s) ==> self@.text() == Some(s@),
            r is None ==> self@.text() is None,
    {
        match self {
            FrameValue::Str(text) => Some(text),
            _ => None,
        }
    }

    /// The items, when this is an array.
    pub fn as_array(&self) -> (r: Option<&Vec<FrameValue>>)
        ensures
            r matches Some(items) ==> self@.items() == Some(view_values(items@))
                && *self == FrameValue::Array(*items),
            r is None ==> self@.items() is None,
    {
        match self {
            FrameValue::Array(items) => Some(items),
            _ => None,
        }
    }

    /// The byte range, when this is a blob.
    pub fn as_blob(&self) -> (r: Option<(usize, usize)>)
        ensures
            r matches Some((s, l)) ==> self@.range() == Some((s as int, l as int)),
            r is None ==> self@.range() is None,
    {
        match self {
            FrameValue::Blob { start, len } => Some((*start, *len)),
            _ => None,
        }
    }
}

/// Scanning a path left to right: the non-empty pieces completed so far and
/// the piece in progress.
pub open spec fn scan_parts(s: Seq<char>) -> (Seq<Seq<char>>, Seq<char>)
    decreases s.len(),
{
    if s.len() == 0 {
        (Seq::empty(), Seq::empty())
    } else {
        let (done, cur) = scan_parts(s.drop_last());
        if s.last() == '/' {
            (if cur.len() > 0 { done.push(cur) } else { done }, Seq::empty())
        } else {
            (done, cur.push(s.last()))
        }
    }
}

/// The non-empty pieces of a path between `/` separators, in order.
pub open spec fn path_parts(s: Seq<char>) -> Seq<Seq<char>> {
    let (done, cur) = scan_parts(s);
    if cur.len() > 0 { done.push(cur) } else { done }
}

/// The piece after each `.channels` piece that has a successor.
pub open spec fn channels_after(parts: Seq<Seq<char>>) -> Seq<Seq<char>>
    decreases parts.len(),
{
    if parts.len() < 2 {
        Seq::empty()
    } else if parts[parts.len() - 2] == ".channels"@ {
        channels_after(parts.drop_last()).push(parts.last())
    } else {
        channels_after(parts.drop_last())
    }
}

/// The channel ids a summary-tree path passes through, outermost first.
pub open spec fn channel_ids(path: Seq<char>) -> Seq<Seq<char>> {
    channels_after(path_parts(path))
}

/// The non-empty `/`-separated pieces of a path.
fn split_path(path: &str) -> (r: Vec<Vec<char>>)
    ensures
        r@.map_values(|p: Vec<char>| p@) == path_parts(path@),
{
    let cs = chars_of(path);
    let mut done: Vec<Vec<char>> = Vec::new();
    let mut cur: Vec<char> = Vec::new();
    let mut i: usize = 0;
    while i < cs.len()
        invariant
            i <= cs@.len(),
            cs@ == path@,
            scan_parts(cs@.take(i as int)) == (done@.map_values(|p: Vec<char>| p@), cur@),
        decreases cs@.len() - i,
    {
        assert(cs@.take(i + 1).drop_last() =~= cs@.take(i as int));
        assert(cs@.take(i + 1).last() == cs@[i as int]);
        if cs[i] == '/' {
            if cur.len() > 0 {
                let piece = cur;
                proof {
                    assert(done@.push(piece).map_values(|p: Vec<char>| p@) =~= done@.map_values(
                        |p: Vec<char>| p@,
                    ).push(piece@));
                }
                done.push(piece);
            }
            cur = Vec::new();
        } else {
            cur.push(cs[i]);
        }
        i += 1;
    }
    assert(cs@.take(cs@.len() as int) =~= cs@);
    if cur.len() > 0 {
        proof {
            assert(done@.push(cur).map_values(|p: Vec<char>| p@) =~= done@.map_values(
                |p: Vec<char>| p@,
            ).push(cur@));
        }
        done.push(cur);
    }
    done
}

/// The segments that follow each `.channels` element of a path.
pub fn channel_segments(path: &str) -> (r: Vec<String>)
    ensures
        r@.map_values(|s: String| s@) == channel_ids(path@),
{
    let parts = split_path(path);
    let ghost views = parts@.map_values(|p: Vec<char>| p@);
    let mut out: Vec<String> = Vec::new();
    if parts.len() < 2 {
        assert(out@.map_values(|s: String| s@) =~= Seq::<Seq<char>>::empty());
        return out;
    }
    let channels = chars_of(".channels");
    let mut i: usize = 1;
    assert(views.take(2).drop_last().len() < 2);
    while i < parts.len()
        invariant
            1 <= i <= parts@.len(),
            views == parts@.map_values(|p: Vec<char>| p@),
            channels@ == ".channels"@,
            out@.map_values(|s: String| s@) == channels_after(views.take(i as int)),
        decreases parts@.len() - i,
    {
        let ghost t = views.take(i + 1);
        assert(t.drop_last() =~= views.take(i as int));
        assert(t[t.len() - 2] == parts@[i - 1]@);
        assert(t.last() == parts@[i as int]@);
        if crate::text::same_chars(parts[i - 1].as_slice(), channels.as_slice()) {
            let s = crate::text::string_of(parts[i].as_slice());
            proof {
                assert(out@.push(s).map_values(|s: String| s@) =~= out@.map_values(
                    |s: String| s@,
                ).push(s@));
            }
            out.push(s);
        }
        i += 1;
    }
    assert(views.take(parts@.len() as int) =~= views);
    out
}

/// Every content id in a summary tree, with the path it is reached by, in
/// depth-first order. A node without a string `name` is skipped; a node with
/// a `children` array is descended into; otherwise a string `value` is a
/// content id placed at the node's path.
pub open spec fn tree_paths(nodes: Seq<Decoded>, prefix: Seq<char>) -> Seq<(Seq<char>, Seq<char>)>
    decreases nodes,
{
    if nodes.len() == 0 {
        Seq::empty()
    } else {
        node_paths(nodes[0], prefix) + tree_paths(nodes.subrange(1, nodes.len() as int), prefix)
    }
}

/// The content ids one summary-tree node contributes; see [`tree_paths`].
pub open spec fn node_paths(node: Decoded, prefix: Seq<char>) -> Seq<(Seq<char>, Seq<char>)>
    decreases node,
{
    match node.text_field("name"@) {
        None => Seq::empty(),
        Some(name) => {
            let path = prefix + seq!['/'] + name;
            match node.field("children"@) {
                Some(Decoded::Array(children)) => {
                    proof {
                        if let Decoded::Dict(entries) = node {
                            lemma_entry_value_smaller(entries, "children"@);
                        }
                    }
                    tree_paths(children, path)
                },
                _ => match node.text_field("value"@) {
                    Some(id) => seq![(id, path)],
                    None => Seq::empty(),
                },
            }
        },
    }
}

/// A map after inserting each pair in order; later pairs win.
pub open spec fn insert_all<V>(m: Map<Seq<char>, V>, items: Seq<(Seq<char>, V)>) -> Map<Seq<char>, V>
    decreases items.len(),
{
    if items.len() == 0 {
        m
    } else {
        insert_all(m.insert(items[0].0, items[0].1), items.drop_first())
    }
}

proof fn lemma_insert_all_append<V>(m: Map<Seq<char>, V>, a: Seq<(Seq<char>, V)>, b: Seq<(Seq<char>, V)>)
    ensures
        insert_all(m, a + b) == insert_all(insert_all(m, a), b),
    decreases a.len(),
{
    if a.len() > 0 {
        assert((a + b).drop_first() =~= a.drop_first() + b);
        lemma_insert_all_append(m.insert(a[0].0, a[0].1), a.drop_first(), b);
    } else {
        assert(a + b =~= b);
    }
}

/// The text content of a string map.
pub open spec fn texts(m: Map<Seq<char>, String>) -> Map<Seq<char>, Seq<char>> {
    m.map_values(|s: String| s@)
}

proof fn lemma_texts_insert(m: Map<Seq<char>, String>, k: Seq<char>, v: String)
    ensures
        texts(m.insert(k, v)) == texts(m).insert(k, v@),
{
    assert(texts(m.insert(k, v)) =~= texts(m).insert(k, v@));
}

/// Depth-first walk assigning a path to every content id in the summary tree.
fn walk_tree(nodes: &[FrameValue], prefix: &str, paths: &mut StrMap<String>)
    requires
        old(paths).wf(),
    ensures
        final(paths).wf(),
        texts(final(paths).as_map()) == insert_all(
            texts(old(paths).as_map()),
            tree_paths(view_values(nodes@), prefix@),
        ),
    decreases nodes@,
{
    let ghost all = view_values(nodes@);
    proof { lemma_view_values_len(nodes@); }
    let mut i: usize = 0;
    assert(all.subrange(0, all.len() as int) =~= all);
    proof {
        assert(tree_paths(all, prefix@) == tree_paths(all.subrange(0, all.len() as int), prefix@));
    }
    let ghost start = texts(old(paths).as_map());
    while i < nodes.len()
        invariant
            i <= nodes@.len(),
            all == view_values(nodes@),
            all.len() == nodes@.len(),
            paths.wf(),
            insert_all(start, tree_paths(all, prefix@)) == insert_all(
                texts(paths.as_map()),
                tree_paths(all.subrange(i as int, all.len() as int), prefix@),
            ),
        decreases nodes@.len() - i,
    {
        let ghost here = all.subrange(i as int, all.len() as int);
        proof {
            lemma_view_values_index(nodes@, i as int);
            assert(here[0] == nodes@[i as int].view_value());
            assert(here.subrange(1, here.len() as int) =~= all.subrange(i + 1, all.len() as int));
        }
        let node = &nodes[i];
        let ghost rest = tree_paths(all.subrange(i + 1, all.len() as int), prefix@);
        let ghost own = node_paths(node@, prefix@);
        let ghost before_all = texts(paths.as_map());
        assert(tree_paths(here, prefix@) == own + rest);
        proof { lemma_insert_all_append(before_all, own, rest); }
        match node.get("name") {
            Some(name_value) => {
                match name_value.as_str() {
                    Some(name) => {
                        let mut path = String::from_str(prefix);
                        push_char(&mut path, '/');
                        push_str(&mut path, name.as_str());
                        assert(path@ =~= prefix@ + seq!['/'] + name@);
                        assert(node@.text_field("name"@) == Some(name@));
                        let mut handled = false;
                        match node.get("children") {
                            Some(children_value) => {
                                match children_value.as_array() {
                                    Some(children) => {
                                        proof {
                                            assert(decreases_to!(nodes@ => nodes@[i as int]));
                                            assert(decreases_to!(*children_value => *children));
                                            assert(decreases_to!(*children => children@));
                                        }
                                        let ghost before = texts(paths.as_map());
                                        assert(own == tree_paths(view_values(children@), path@));
                                        walk_tree(children.as_slice(), path.as_str(), paths);
                                        proof {
                                            lemma_insert_all_append(
                                                before,
                                                tree_paths(view_values(children@), path@),
                                                tree_paths(all.subrange(i + 1, all.len() as int), prefix@),
                                            );
                                        }
                                        handled = true;
                                    },
                                    None => {},
                                }
                            },
                            None => {},
                        }
                        if !handled {
                            match node.get("value") {
                                Some(id_value) => match id_value.as_str() {
                                    Some(id) => {
                                        let ghost before = texts(paths.as_map());
                                        let key = id.clone();
                                        proof { lemma_texts_insert(paths.as_map(), key@, path); }
                                        assert(own == seq![(id@, path@)]);
                                        paths.insert(key, path);
                                        proof {
                                            let item = seq![(id@, path@)];
                                            assert(insert_all(before, item + tree_paths(all.subrange(i + 1, all.len() as int), prefix@))
                                                == insert_all(insert_all(before, item), tree_paths(all.subrange(i + 1, all.len() as int), prefix@))) by {
                                                lemma_insert_all_append(before, item, tree_paths(all.subrange(i + 1, all.len() as int), prefix@));
                                            }
                                            assert(item.drop_first() =~= Seq::<(Seq<char>, Seq<char>)>::empty());
                                            assert(insert_all(before, item) == insert_all(before.insert(id@, path@), item.drop_first()));
                                        }
                                    },
                                    None => {},
                                },
                                None => {},
                            }
                        }
                    },
                    None => {},
                }
            },
            None => {},
        }
        assert(insert_all(before_all, own) == texts(paths.as_map()));
        i += 1;
    }
}

/// The component a `.component` blob names: the last element of its `pkg`
/// member, which is a JSON array of strings encoded as a string.
///
/// Observed shape:
/// `{"pkg":"[\"Root\",\"LoopCanvasComponentSingleton\"]", ...}`.
pub open spec fn component_of(j: JsonValue) -> Option<Seq<char>> {
    match j.text_field("pkg"@) {
        None => None,
        Some(raw) => match json_from_bytes(encode_utf8(raw)) {
            Some(parsed) => match parsed@ {
                JsonValue::Array(items) => if items.len() > 0 && all_strings(items) {
                    items.last().text()
                } else {
                    None
                },
                _ => None,
            },
            None => None,
        },
    }
}

/// Every item is a string.
pub open spec fn all_strings(items: Seq<JsonValue>) -> bool {
    forall|i: int| 0 <= i < items.len() ==> #[trigger] items[i] is String
}

/// The url of a Fluid handle record
/// `{"value": {"handle": {"type": "__fluid_handle__", "url": ...}}}`.
pub open spec fn handle_url(v: JsonValue) -> Option<Seq<char>> {
    match v.field("value"@) {
        None => None,
        Some(inner) => match inner.field("handle"@) {
            None => None,
            Some(handle) => if handle.text_field("type"@) == Some("__fluid_handle__"@) {
                handle.text_field("url"@)
            } else {
                None
            },
        },
    }
}

/// Every `(name, url)` handle in a JSON value, depth first, in member order.
pub open spec fn json_handles(j: JsonValue) -> Seq<(Seq<char>, Seq<char>)>
    decreases j,
{
    match j {
        JsonValue::Object(members) => members_handles(members),
        JsonValue::Array(items) => items_handles(items),
        _ => Seq::empty(),
    }
}

/// Handles in a run of object members: each member's own handle, then those
/// nested inside it.
pub open spec fn members_handles(members: Seq<(Seq<char>, JsonValue)>) -> Seq<(Seq<char>, Seq<char>)>
    decreases members,
{
    if members.len() == 0 {
        Seq::empty()
    } else {
        let own = match handle_url(members[0].1) {
            Some(url) => seq![(members[0].0, url)],
            None => Seq::empty(),
        };
        own + json_handles(members[0].1) + members_handles(members.subrange(1, members.len() as int))
    }
}

/// Handles in a run of array items.
pub open spec fn items_handles(items: Seq<JsonValue>) -> Seq<(Seq<char>, Seq<char>)>
    decreases items,
{
    if items.len() == 0 {
        Seq::empty()
    } else {
        json_handles(items[0]) + items_handles(items.subrange(1, items.len() as int))
    }
}

/// The JSON held by the blob at `[start, start + len)` of the member, when that
/// range is inside the member and parses.
pub open spec fn blob_json(member: Seq<u8>, start: int, len: int) -> Option<JsonValue> {
    if start + len <= member.len() {
        match json_from_bytes(member.subrange(start, start + len)) {
            Some(j) => Some(j@),
            None => None,
        }
    } else {
        None
    }
}

/// Blob ranges keyed by blob id, in key order.
pub type Ranges = Seq<(Seq<char>, (int, int))>;

/// Channel-to-package assignments made by the `.component` blobs, in order.
pub open spec fn package_steps(member: Seq<u8>, ranges: Ranges, paths: Map<Seq<char>, Seq<char>>) -> Seq<(Seq<char>, Seq<char>)>
    decreases ranges.len(),
{
    if ranges.len() == 0 {
        Seq::empty()
    } else {
        let (id, (start, len)) = ranges.last();
        let own = match blob_json(member, start, len) {
            None => Seq::empty(),
            Some(j) => match component_of(j) {
                None => Seq::empty(),
                Some(package) => if paths.contains_key(id) && channel_ids(paths[id]).len() > 0 {
                    seq![(channel_ids(paths[id])[0], package)]
                } else {
                    Seq::empty()
                },
            },
        };
        package_steps(member, ranges.drop_last(), paths) + own
    }
}

/// Handle assignments found in the blobs, in order.
pub open spec fn handle_steps(member: Seq<u8>, ranges: Ranges) -> Seq<(Seq<char>, Seq<char>)>
    decreases ranges.len(),
{
    if ranges.len() == 0 {
        Seq::empty()
    } else {
        let (id, (start, len)) = ranges.last();
        let own = match blob_json(member, start, len) {
            None => Seq::empty(),
            Some(j) => json_handles(j),
        };
        handle_steps(member, ranges.drop_last()) + own
    }
}

/// Blob records `{id, data}` with a string id and a blob, in order.
pub open spec fn blob_records(records: Seq<Decoded>) -> Ranges
    decreases records.len(),
{
    if records.len() == 0 {
        Seq::empty()
    } else {
        let r = records.last();
        let own = match (r.text_field("id"@), r.field("data"@)) {
            (Some(id), Some(Decoded::Blob { start, len })) => seq![(id, (start, len))],
            _ => Seq::empty(),
        };
        blob_records(records.drop_last()) + own
    }
}

/// The strings among some values, in order.
pub open spec fn strings_among(items: Seq<Decoded>) -> Seq<Seq<char>>
    decreases items.len(),
{
    if items.len() == 0 {
        Seq::empty()
    } else {
        let own = match items.last() {
            Decoded::Str(s) => seq![s],
            _ => Seq::empty(),
        };
        strings_among(items.drop_last()) + own
    }
}

/// An integer value as an `i64`.
pub open spec fn int_of(v: Option<Decoded>) -> Option<i64> {
    match v {
        Some(Decoded::Int(n)) => Some(n as i64),
        _ => None,
    }
}

proof fn lemma_insert_all_push<V>(m: Map<Seq<char>, V>, a: Seq<(Seq<char>, V)>, x: (Seq<char>, V))
    ensures
        insert_all(m, a.push(x)) == insert_all(m, a).insert(x.0, x.1),
{
    lemma_insert_all_append(m, a, seq![x]);
    assert(a.push(x) =~= a + seq![x]);
    let one = seq![x];
    assert(one.drop_first() =~= Seq::<(Seq<char>, V)>::empty());
    let mid = insert_all(m, a);
    assert(insert_all(mid, one) == insert_all(mid.insert(one[0].0, one[0].1), one.drop_first()));
    assert(insert_all(mid.insert(x.0, x.1), Seq::<(Seq<char>, V)>::empty()) == mid.insert(x.0, x.1));
}

/// The text of an optional string.
pub open spec fn opt_text(o: Option<String>) -> Option<Seq<char>> {
    match o {
        Some(s) => Some(s@),
        None => None,
    }
}

/// Where one payload sits inside the container.
#[derive(Debug, PartialEq, Eq, Default)]
pub struct PayloadLocation {
    pub member_index: usize,
    /// Full summary-tree path, for example
    /// `/.app/.channels/E/.channels/text/content/header`.
    pub blob_path: Option<String>,
    /// The first channel on that path: the component or data store id.
    pub channel_id: Option<String>,
    /// The Fluid handle that points at this channel, when one does.
    pub handle_name: Option<String>,
    /// The channel one level up, when the path nests channels.
    pub parent_channel: Option<String>,
    /// Component package that owns the channel, for example
    /// `LoopCanvasComponentSingleton`.
    pub component_package: Option<String>,
}

/// The content of a [`PayloadLocation`].
pub struct LocationView {
    pub member_index: usize,
    pub blob_path: Option<Seq<char>>,
    pub channel_id: Option<Seq<char>>,
    pub handle_name: Option<Seq<char>>,
    pub parent_channel: Option<Seq<char>>,
    pub component_package: Option<Seq<char>>,
}

impl View for PayloadLocation {
    type V = LocationView;

    open spec fn view(&self) -> LocationView {
        LocationView {
            member_index: self.member_index,
            blob_path: opt_text(self.blob_path),
            channel_id: opt_text(self.channel_id),
            handle_name: opt_text(self.handle_name),
            parent_channel: opt_text(self.parent_channel),
            component_package: opt_text(self.component_package),
        }
    }
}

/// A copy of an optional string.
pub fn copy_opt(o: &Option<String>) -> (r: Option<String>)
    ensures
        opt_text(r) == opt_text(*o),
{
    match o {
        Some(s) => Some(s.clone()),
        None => None,
    }
}

impl Clone for PayloadLocation {
    fn clone(&self) -> (r: Self)
        ensures
            r@ == self@,
    {
        PayloadLocation {
            member_index: self.member_index,
            blob_path: copy_opt(&self.blob_path),
            channel_id: copy_opt(&self.channel_id),
            handle_name: copy_opt(&self.handle_name),
            parent_channel: copy_opt(&self.parent_channel),
            component_package: copy_opt(&self.component_package),
        }
    }
}

/// What one member's framing says about its contents.
#[derive(Debug)]
pub struct EnvelopeIndex {
    /// Blob id to summary-tree path.
    pub blob_paths: StrMap<String>,
    /// Blob id to its byte range in the decompressed member.
    pub blob_ranges: StrMap<(usize, usize)>,
    /// Channel id to the component package that owns it.
    pub channel_packages: StrMap<String>,
    /// Fluid handle name to the url it points at, for example
    /// `CanvasComponentHandle` to `/E`.
    pub handles: StrMap<String>,
    /// Raw operation-log messages, each a JSON document as a string.
    pub deltas: Vec<String>,
    /// `snapshot.sequenceNumber`: the last operation folded into the snapshot.
    pub snapshot_sequence_number: Option<i64>,
    /// `deltas.firstSequenceNumber`: the first operation held separately.
    pub first_delta_sequence_number: Option<i64>,
}

/// Blob ranges as integers, in key order.
pub open spec fn ranges_of(e: Seq<(String, (usize, usize))>) -> Ranges {
    Seq::new(e.len(), |i: int| (e[i].0@, (e[i].1.0 as int, e[i].1.1 as int)))
}

impl EnvelopeIndex {
    /// All four maps keep their keys sorted.
    pub open spec fn wf(&self) -> bool {
        &&& self.blob_paths.wf()
        &&& self.blob_ranges.wf()
        &&& self.channel_packages.wf()
        &&& self.handles.wf()
    }

    /// True when the operation log begins exactly where the snapshot ends, so
    /// replaying it on top of the snapshot applies nothing twice.
    ///
    /// Observed in every corpus file that carries both:
    /// `firstSequenceNumber == snapshot.sequenceNumber + 1`.
    pub fn operations_follow_snapshot(&self) -> (r: bool)
        ensures
            r == (match (self.snapshot_sequence_number, self.first_delta_sequence_number) {
                (Some(snapshot), Some(first)) => first == snapshot + 1,
                _ => false,
            }),
    {
        match (self.snapshot_sequence_number, self.first_delta_sequence_number) {
            (Some(snapshot), Some(first)) => snapshot < i64::MAX && first == snapshot + 1,
            _ => false,
        }
    }
}

/// The url a Fluid handle record points at.
fn handle_url_of(value: &Json) -> (r: Option<String>)
    ensures
        opt_text(r) == handle_url(value@),
{
    let inner = match value.get("value") {
        Some(v) => v,
        None => return None,
    };
    let handle = match inner.get("handle") {
        Some(h) => h,
        None => return None,
    };
    let kind = match handle.get("type") {
        Some(t) => match t.as_str() {
            Some(k) => k,
            None => return None,
        },
        None => return None,
    };
    if !same_text(kind.as_str(), "__fluid_handle__") {
        return None;
    }
    match handle.get("url") {
        Some(u) => match u.as_str() {
            Some(url) => Some(url.clone()),
            None => None,
        },
        None => None,
    }
}

/// Collects `<name>: {... "url": "/E"}` Fluid handles at any depth.
fn collect_handles(json: &Json, handles: &mut StrMap<String>)
    requires
        old(handles).wf(),
    ensures
        final(handles).wf(),
        texts(final(handles).as_map()) == insert_all(texts(old(handles).as_map()), json_handles(json@)),
    decreases json,
{
    let ghost start = texts(handles.as_map());
    match json {
        Json::Object(members) => {
            let ghost ms = crate::json::view_members(members@);
            proof { crate::json::lemma_view_members_index(members@); }
            let mut i: usize = 0;
            assert(ms.subrange(0, ms.len() as int) =~= ms);
            while i < members.len()
                invariant
                    i <= members@.len(),
                    *json == Json::Object(*members),
                    ms == crate::json::view_members(members@),
                    ms.len() == members@.len(),
                    forall|k: int| 0 <= k < members@.len() ==> #[trigger] ms[k] == (members@[k].0@, members@[k].1.view_json()),
                    handles.wf(),
                    insert_all(start, json_handles(json@)) == insert_all(
                        texts(handles.as_map()),
                        members_handles(ms.subrange(i as int, ms.len() as int)),
                    ),
                decreases members@.len() - i,
            {
                let ghost here = ms.subrange(i as int, ms.len() as int);
                assert(here.subrange(1, here.len() as int) =~= ms.subrange(i + 1, ms.len() as int));
                assert(here[0] == ms[i as int]);
                let ghost rest = members_handles(ms.subrange(i + 1, ms.len() as int));
                let ghost before = texts(handles.as_map());
                let value = &members[i].1;
                let ghost own = match handle_url(value@) {
                    Some(url) => seq![(members@[i as int].0@, url)],
                    None => Seq::empty(),
                };
                assert(members_handles(here) == own + json_handles(value@) + rest);
                match handle_url_of(value) {
                    Some(url) => {
                        let key = members[i].0.clone();
                        proof { lemma_texts_insert(handles.as_map(), key@, url); }
                        handles.insert(key, url);
                        proof { lemma_insert_all_push(before, Seq::empty(), (key@, url@)); }
                    },
                    None => {},
                }
                assert(texts(handles.as_map()) == insert_all(before, own));
                proof {
                    assert(decreases_to!(*json => json->Object_0));
                    assert(decreases_to!(json->Object_0 => members@));
                    assert(decreases_to!(members@ => members@[i as int]));
                    assert(decreases_to!(members@[i as int] => members@[i as int].1));
                }
                let ghost middle = texts(handles.as_map());
                collect_handles(value, handles);
                proof {
                    lemma_insert_all_append(before, own + json_handles(value@), rest);
                    lemma_insert_all_append(before, own, json_handles(value@));
                }
                i += 1;
            }
        },
        Json::Array(items) => {
            let ghost vs = crate::json::view_items(items@);
            proof { crate::json::lemma_view_items_index(items@); }
            let mut i: usize = 0;
            assert(vs.subrange(0, vs.len() as int) =~= vs);
            while i < items.len()
                invariant
                    i <= items@.len(),
                    *json == Json::Array(*items),
                    vs == crate::json::view_items(items@),
                    vs.len() == items@.len(),
                    forall|k: int| 0 <= k < items@.len() ==> #[trigger] vs[k] == items@[k].view_json(),
                    handles.wf(),
                    insert_all(start, json_handles(json@)) == insert_all(
                        texts(handles.as_map()),
                        items_handles(vs.subrange(i as int, vs.len() as int)),
                    ),
                decreases items@.len() - i,
            {
                let ghost here = vs.subrange(i as int, vs.len() as int);
                assert(here.subrange(1, here.len() as int) =~= vs.subrange(i + 1, vs.len() as int));
                assert(here[0] == vs[i as int]);
                let ghost rest = items_handles(vs.subrange(i + 1, vs.len() as int));
                let ghost before = texts(handles.as_map());
                proof {
                    assert(decreases_to!(*json => json->Array_0));
                    assert(decreases_to!(json->Array_0 => items@));
                    assert(decreases_to!(items@ => items@[i as int]));
                }
                collect_handles(&items[i], handles);
                proof {
                    lemma_insert_all_append(before, json_handles(items@[i as int]@), rest);
                }
                i += 1;
            }
        },
        _ => {},
    }
}

/// The component package a `.component` blob names.
fn component_package(json: &Json) -> (r: Option<String>)
    ensures
        opt_text(r) == component_of(json@),
{
    let raw = match json.get("pkg") {
        Some(v) => match v.as_str() {
            Some(text) => text,
            None => return None,
        },
        None => return None,
    };
    let parsed = match Json::parse(raw.as_str()) {
        Some(p) => p,
        None => return None,
    };
    match &parsed {
        Json::Array(items) => {
            proof { crate::json::lemma_view_items_index(items@); }
            let ghost vs = crate::json::view_items(items@);
            assert(parsed@ == JsonValue::Array(vs));
            assert(component_of(json@) == (if vs.len() > 0 && all_strings(vs) { vs.last().text() } else { None }));
            let mut i: usize = 0;
            while i < items.len()
                invariant
                    i <= items@.len(),
                    component_of(json@) == (if vs.len() > 0 && all_strings(vs) { vs.last().text() } else { None }),
                    vs == crate::json::view_items(items@),
                    vs.len() == items@.len(),
                    forall|k: int| 0 <= k < items@.len() ==> #[trigger] vs[k] == items@[k].view_json(),
                    forall|k: int| 0 <= k < i ==> #[trigger] vs[k] is String,
                decreases items@.len() - i,
            {
                match &items[i] {
                    Json::String(_) => {},
                    _ => {
                        assert(!(vs[i as int] is String));
                        return None;
                    },
                }
                i += 1;
            }
            if items.len() == 0 {
                return None;
            }
            match &items[items.len() - 1] {
                Json::String(s) => Some(s.clone()),
                _ => None,
            }
        },
        _ => None,
    }
}

/// Reads component packages and Fluid handles out of the blobs.
fn collect_component_metadata(member: &[u8], index: &mut EnvelopeIndex)
    requires
        old(index).wf(),
    ensures
        final(index).wf(),
        final(index).blob_paths == old(index).blob_paths,
        final(index).blob_ranges == old(index).blob_ranges,
        final(index).deltas == old(index).deltas,
        final(index).snapshot_sequence_number == old(index).snapshot_sequence_number,
        final(index).first_delta_sequence_number == old(index).first_delta_sequence_number,
        texts(final(index).channel_packages.as_map()) == insert_all(
            texts(old(index).channel_packages.as_map()),
            package_steps(member@, ranges_of(old(index).blob_ranges.entries()), texts(old(index).blob_paths.as_map())),
        ),
        texts(final(index).handles.as_map()) == insert_all(
            texts(old(index).handles.as_map()),
            handle_steps(member@, ranges_of(old(index).blob_ranges.entries())),
        ),
{
    let ghost ranges = ranges_of(index.blob_ranges.entries());
    let ghost paths = texts(index.blob_paths.as_map());
    let ghost packages0 = texts(index.channel_packages.as_map());
    let ghost handles0 = texts(index.handles.as_map());
    let n = index.blob_ranges.len();
    let mut i: usize = 0;
    assert(ranges.take(0) =~= Seq::<(Seq<char>, (int, int))>::empty());
    while i < n
        invariant
            i <= n,
            n == index.blob_ranges.entries().len(),
            index.wf(),
            ranges == ranges_of(index.blob_ranges.entries()),
            paths == texts(index.blob_paths.as_map()),
            index.blob_paths == old(index).blob_paths,
            index.blob_ranges == old(index).blob_ranges,
            index.deltas == old(index).deltas,
            index.snapshot_sequence_number == old(index).snapshot_sequence_number,
            index.first_delta_sequence_number == old(index).first_delta_sequence_number,
            texts(index.channel_packages.as_map()) == insert_all(packages0, package_steps(member@, ranges.take(i as int), paths)),
            texts(index.handles.as_map()) == insert_all(handles0, handle_steps(member@, ranges.take(i as int))),
        decreases n - i,
    {
        let ghost prefix = ranges.take(i + 1);
        assert(prefix.drop_last() =~= ranges.take(i as int));
        let id = index.blob_ranges.key_at(i);
        let (start, len) = *index.blob_ranges.value_at(i);
        assert(prefix.last() == (id@, (start as int, len as int)));
        let ghost pk_before = texts(index.channel_packages.as_map());
        let ghost hd_before = texts(index.handles.as_map());
        if start <= member.len() && len <= member.len() - start {
            let end = start + len;
            let parsed = Json::parse_bytes(&member[start..end]);
            assert(blob_json(member@, start as int, len as int) == match parsed {
                Some(j) => Some(j@),
                None => None,
            });
            match parsed {
                Some(json) => {
                    match component_package(&json) {
                        Some(package) => {
                            let path = index.blob_paths.get(id.as_str());
                            match path {
                                Some(path) => {
                                    assert(paths.contains_key(id@));
                                    assert(paths[id@] == path@);
                                    let channels = channel_segments(path.as_str());
                                    if channels.len() > 0 {
                                        let channel = channels[0].clone();
                                        assert(channels@.map_values(|s: String| s@)[0] == channel@);
                                        proof { lemma_texts_insert(index.channel_packages.as_map(), channel@, package); }
                                        let ghost pv = package@;
                                        index.channel_packages.insert(channel, package);
                                        proof {
                                            lemma_insert_all_push(packages0, package_steps(member@, ranges.take(i as int), paths), (channel@, pv));
                                            assert(package_steps(member@, prefix, paths) == package_steps(member@, ranges.take(i as int), paths).push((channel@, pv)));
                                        }
                                    } else {
                                        assert(channels@.map_values(|s: String| s@).len() == 0);
                                        assert(package_steps(member@, ranges.take(i as int), paths) + Seq::empty() =~= package_steps(member@, ranges.take(i as int), paths));
                                    }
                                },
                                None => {
                                    assert(!paths.contains_key(id@));
                                    assert(package_steps(member@, ranges.take(i as int), paths) + Seq::empty() =~= package_steps(member@, ranges.take(i as int), paths));
                                },
                            }
                        },
                        None => {
                            assert(package_steps(member@, ranges.take(i as int), paths) + Seq::empty() =~= package_steps(member@, ranges.take(i as int), paths));
                        },
                    }
                    collect_handles(&json, &mut index.handles);
                    proof { lemma_insert_all_append(handles0, handle_steps(member@, ranges.take(i as int)), json_handles(json@)); }
                },
                None => {
                    assert(package_steps(member@, ranges.take(i as int), paths) + Seq::empty() =~= package_steps(member@, ranges.take(i as int), paths));
                    assert(handle_steps(member@, ranges.take(i as int)) + Seq::empty() =~= handle_steps(member@, ranges.take(i as int)));
                },
            }
        } else {
            assert(package_steps(member@, ranges.take(i as int), paths) + Seq::empty() =~= package_steps(member@, ranges.take(i as int), paths));
            assert(handle_steps(member@, ranges.take(i as int)) + Seq::empty() =~= handle_steps(member@, ranges.take(i as int)));
        }
        i += 1;
    }
    assert(ranges.take(n as int) =~= ranges);
}

/// The items of the array under `outer.inner` of a decoded root, or none.
pub open spec fn nested_items(root: Decoded, outer: Seq<char>, inner: Seq<char>) -> Seq<Decoded> {
    match root.field(outer) {
        Some(o) => match o.field(inner) {
            Some(Decoded::Array(items)) => items,
            _ => Seq::empty(),
        },
        None => Seq::empty(),
    }
}

/// The items of the array under `key` of a decoded root, or none.
pub open spec fn array_items(root: Decoded, key: Seq<char>) -> Seq<Decoded> {
    match root.field(key) {
        Some(Decoded::Array(items)) => items,
        _ => Seq::empty(),
    }
}

/// The `(key, text)` pairs of a string map, in key order.
pub open spec fn pairs_of(e: Seq<(String, String)>) -> Seq<(Seq<char>, Seq<char>)> {
    Seq::new(e.len(), |i: int| (e[i].0@, e[i].1@))
}

/// Byte ranges as integers.
pub open spec fn int_ranges(m: Map<Seq<char>, (usize, usize)>) -> Map<Seq<char>, (int, int)> {
    m.map_values(|r: (usize, usize)| (r.0 as int, r.1 as int))
}

/// What [`read`] records about a member whose framing decoded to `root`, with
/// the summary tree `nodes` found under `snapshot`.
pub open spec fn index_matches(index: EnvelopeIndex, member: Seq<u8>, root: Decoded, snapshot: Decoded, nodes: Seq<Decoded>) -> bool {
    let paths = texts(index.blob_paths.as_map());
    let ranges = ranges_of(index.blob_ranges.entries());
    &&& index.wf()
    &&& paths == insert_all(Map::empty(), tree_paths(nodes, Seq::empty()))
    &&& int_ranges(index.blob_ranges.as_map()) == insert_all(Map::empty(), blob_records(array_items(root, "blobs"@)))
    &&& index.snapshot_sequence_number == int_of(snapshot.field("sequenceNumber"@))
    &&& index.first_delta_sequence_number == int_of(
        match root.field("deltas"@) {
            Some(d) => d.field("firstSequenceNumber"@),
            None => None,
        },
    )
    &&& index.deltas@.map_values(|d: String| d@) == strings_among(nested_items(root, "deltas"@, "deltas"@))
    &&& texts(index.channel_packages.as_map()) == insert_all(Map::empty(), package_steps(member, ranges, paths))
    &&& texts(index.handles.as_map()) == insert_all(Map::empty(), handle_steps(member, ranges))
}

/// What [`read`] returns for a member.
pub open spec fn read_result(member: Seq<u8>, r: Result<EnvelopeIndex, EnvelopeError>) -> bool {
    match decode_value(member, 0, Seq::empty(), 0) {
        Step::Failed(e) => r == Err::<EnvelopeIndex, EnvelopeError>(e),
        Step::Done(root, _, _) => match root.field("snapshot"@) {
            None => r == Err::<EnvelopeIndex, EnvelopeError>(EnvelopeError::NotAnEnvelope(NotEnvelope::NoSnapshot)),
            Some(snapshot) => match snapshot.field("treeNodes"@) {
                Some(Decoded::Array(nodes)) => r matches Ok(index) && index_matches(index, member, root, snapshot, nodes),
                _ => r == Err::<EnvelopeIndex, EnvelopeError>(EnvelopeError::NotAnEnvelope(NotEnvelope::NoTreeNodes)),
            },
        },
    }
}

/// Decodes a member and indexes what it says about payload locations.
///
/// Returns `Err` when the member is not an envelope or uses a tag this reader
/// does not know. Callers fall back to content heuristics; nothing depends on
/// this succeeding.
pub fn read(member: &[u8]) -> (r: Result<EnvelopeIndex, EnvelopeError>)
    ensures
        read_result(member@, r),
{
    let root = match parse(member) {
        Ok(v) => v,
        Err(e) => return Err(e),
    };
    let snapshot = match root.get("snapshot") {
        Some(s) => s,
        None => return Err(EnvelopeError::NotAnEnvelope(NotEnvelope::NoSnapshot)),
    };
    let tree_nodes = match snapshot.get("treeNodes") {
        Some(t) => match t.as_array() {
            Some(a) => a,
            None => return Err(EnvelopeError::NotAnEnvelope(NotEnvelope::NoTreeNodes)),
        },
        None => return Err(EnvelopeError::NotAnEnvelope(NotEnvelope::NoTreeNodes)),
    };

    let mut blob_paths: StrMap<String> = StrMap::new();
    let mut blob_ranges: StrMap<(usize, usize)> = StrMap::new();
    let mut deltas: Vec<String> = Vec::new();
    assert(texts(blob_paths.as_map()) =~= Map::empty());
    proof { reveal_strlit(""); }
    assert(""@ =~= Seq::<char>::empty());
    walk_tree(tree_nodes.as_slice(), "", &mut blob_paths);

    let ghost blob_items = array_items(root@, "blobs"@);
    match root.get("blobs") {
        Some(b) => match b.as_array() {
            Some(blobs) => {
                proof { lemma_view_values_len(blobs@); }
                assert(blob_items == view_values(blobs@));
                let mut i: usize = 0;
                assert(blob_items.take(0) =~= Seq::<Decoded>::empty());
                assert(int_ranges(blob_ranges.as_map()) =~= Map::empty());
                while i < blobs.len()
                    invariant
                        i <= blobs@.len(),
                        blob_items == view_values(blobs@),
                        blob_items.len() == blobs@.len(),
                        blob_ranges.wf(),
                        int_ranges(blob_ranges.as_map()) == insert_all(Map::empty(), blob_records(blob_items.take(i as int))),
                    decreases blobs@.len() - i,
                {
                    proof { lemma_view_values_index(blobs@, i as int); }
                    let ghost prefix = blob_items.take(i + 1);
                    assert(prefix.drop_last() =~= blob_items.take(i as int));
                    assert(prefix.last() == blobs@[i as int]@);
                    let record = &blobs[i];
                    let id = match record.get("id") {
                        Some(v) => v.as_str(),
                        None => None,
                    };
                    let range = match record.get("data") {
                        Some(v) => v.as_blob(),
                        None => None,
                    };
                    let ghost before = blob_ranges.as_map();
                    match (id, range) {
                        (Some(id), Some(range)) => {
                            assert(blob_records(prefix) == blob_records(blob_items.take(i as int)) + seq![(id@, (range.0 as int, range.1 as int))]);
                            assert(blob_records(prefix) =~= blob_records(blob_items.take(i as int)).push((id@, (range.0 as int, range.1 as int))));
                            let key = id.clone();
                            blob_ranges.insert(key, range);
                            proof {
                                lemma_insert_all_push(Map::empty(), blob_records(blob_items.take(i as int)), (id@, (range.0 as int, range.1 as int)));
                                assert(int_ranges(before.insert(key@, range)) =~= int_ranges(before).insert(key@, (range.0 as int, range.1 as int)));
                            }
                        },
                        _ => {
                            assert(blob_records(prefix) == blob_records(blob_items.take(i as int)) + Seq::empty());
                            assert(blob_records(prefix) =~= blob_records(blob_items.take(i as int)));
                        },
                    }
                    i += 1;
                }
                assert(blob_items.take(blobs@.len() as int) =~= blob_items);
            },
            None => {
                assert(int_ranges(blob_ranges.as_map()) =~= Map::empty());
            },
        },
        None => {
            assert(int_ranges(blob_ranges.as_map()) =~= Map::empty());
        },
    }

    let snapshot_sequence_number = match snapshot.get("sequenceNumber") {
        Some(FrameValue::Int(number)) => Some(*number),
        _ => None,
    };
    let deltas_value = root.get("deltas");
    let first_delta_sequence_number = match deltas_value {
        Some(d) => match d.get("firstSequenceNumber") {
            Some(FrameValue::Int(first)) => Some(*first),
            _ => None,
        },
        None => None,
    };

    // Operations live alongside the snapshot, as JSON strings.
    let ghost delta_items = nested_items(root@, "deltas"@, "deltas"@);
    let inner = match deltas_value {
        Some(d) => match d.get("deltas") {
            Some(v) => v.as_array(),
            None => None,
        },
        None => None,
    };
    match inner {
        Some(items) => {
            proof { lemma_view_values_len(items@); }
            assert(delta_items == view_values(items@));
            let mut i: usize = 0;
            assert(delta_items.take(0) =~= Seq::<Decoded>::empty());
            assert(deltas@.map_values(|d: String| d@) =~= strings_among(delta_items.take(0)));
            while i < items.len()
                invariant
                    i <= items@.len(),
                    delta_items == view_values(items@),
                    delta_items.len() == items@.len(),
                    deltas@.map_values(|d: String| d@) == strings_among(delta_items.take(i as int)),
                decreases items@.len() - i,
            {
                proof { lemma_view_values_index(items@, i as int); }
                let ghost prefix = delta_items.take(i + 1);
                assert(prefix.drop_last() =~= delta_items.take(i as int));
                assert(prefix.last() == items@[i as int]@);
                match &items[i] {
                    FrameValue::Str(text) => {
                        let copy = text.clone();
                        proof {
                            assert(deltas@.push(copy).map_values(|d: String| d@) =~= deltas@.map_values(|d: String| d@).push(copy@));
                        }
                        deltas.push(copy);
                    },
                    _ => {
                        assert(strings_among(prefix) =~= strings_among(delta_items.take(i as int)));
                    },
                }
                i += 1;
            }
            assert(delta_items.take(items@.len() as int) =~= delta_items);
        },
        None => {
            assert(deltas@.map_values(|d: String| d@) =~= Seq::<Seq<char>>::empty());
        },
    }

    let mut index = EnvelopeIndex {
        blob_paths,
        blob_ranges,
        channel_packages: StrMap::new(),
        handles: StrMap::new(),
        deltas,
        snapshot_sequence_number,
        first_delta_sequence_number,
    };
    assert(texts(index.channel_packages.as_map()) =~= Map::empty());
    assert(texts(index.handles.as_map()) =~= Map::empty());
    collect_component_metadata(member, &mut index);
    assert(index.snapshot_sequence_number == int_of(snapshot@.field("sequenceNumber"@)));
    assert(index.first_delta_sequence_number == int_of(
        match root@.field("deltas"@) {
            Some(d) => d.field("firstSequenceNumber"@),
            None => None,
        },
    ));
    assert(index_matches(index, member@, root@, snapshot@, view_values(tree_nodes@)));
    Ok(index)
}

/// A string with every leading `/` removed.
pub open spec fn trim_slashes(s: Seq<char>) -> Seq<char>
    decreases s.len(),
{
    if s.len() > 0 && s[0] == '/' {
        trim_slashes(s.drop_first())
    } else {
        s
    }
}

/// `url.trim_start_matches('/') == id`.
fn trimmed_equals(url: &str, id: &str) -> (r: bool)
    ensures
        r == (trim_slashes(url@) == id@),
{
    let cs = chars_of(url);
    let mut k: usize = 0;
    assert(cs@.skip(0) =~= cs@);
    while k < cs.len() && cs[k] == '/'
        invariant
            k <= cs@.len(),
            cs@ == url@,
            trim_slashes(url@) == trim_slashes(cs@.skip(k as int)),
        decreases cs@.len() - k,
    {
        assert(cs@.skip(k as int).drop_first() =~= cs@.skip(k + 1));
        k += 1;
    }
    let rest = crate::text::string_of(&cs.as_slice()[k..cs.len()]);
    assert(rest@ =~= cs@.skip(k as int));
    same_text(rest.as_str(), id)
}

/// The id of the first blob, in key order, whose byte range contains `offset`.
pub open spec fn blob_containing(ranges: Ranges, offset: int) -> Option<Seq<char>>
    decreases ranges.len(),
{
    if ranges.len() == 0 {
        None
    } else if ranges[0].1.0 <= offset < ranges[0].1.0 + ranges[0].1.1 {
        Some(ranges[0].0)
    } else {
        blob_containing(ranges.drop_first(), offset)
    }
}

/// The first handle, in name order, whose url names `channel`.
pub open spec fn handle_for(handles: Seq<(Seq<char>, Seq<char>)>, channel: Seq<char>) -> Option<Seq<char>>
    decreases handles.len(),
{
    if handles.len() == 0 {
        None
    } else if trim_slashes(handles[0].1) == channel {
        Some(handles[0].0)
    } else {
        handle_for(handles.drop_first(), channel)
    }
}

/// What [`EnvelopeIndex::locate`] reports for a payload at `offset`.
pub open spec fn location_of(index: EnvelopeIndex, member_index: usize, offset: int) -> Option<LocationView> {
    match blob_containing(ranges_of(index.blob_ranges.entries()), offset) {
        None => None,
        Some(id) => {
            let paths = texts(index.blob_paths.as_map());
            if !paths.contains_key(id) {
                None
            } else {
                let path = paths[id];
                let channels = channel_ids(path);
                let channel = if channels.len() > 0 { Some(channels[0]) } else { None };
                let packages = texts(index.channel_packages.as_map());
                Some(LocationView {
                    member_index,
                    blob_path: Some(path),
                    channel_id: channel,
                    handle_name: match channel {
                        Some(c) => handle_for(pairs_of(index.handles.entries()), c),
                        None => None,
                    },
                    parent_channel: if channels.len() > 1 { Some(channels[0]) } else { None },
                    component_package: match channel {
                        Some(c) => if packages.contains_key(c) { Some(packages[c]) } else { None },
                        None => None,
                    },
                })
            }
        },
    }
}

impl EnvelopeIndex {
    /// Index of the first blob, in key order, whose range contains `offset`.
    fn find_blob(&self, offset: usize) -> (r: Option<usize>)
        ensures
            r matches Some(k) ==> k < self.blob_ranges.entries().len() && blob_containing(
                ranges_of(self.blob_ranges.entries()),
                offset as int,
            ) == Some(self.blob_ranges.entries()[k as int].0@),
            r is None ==> blob_containing(ranges_of(self.blob_ranges.entries()), offset as int) is None,
    {
        let ghost ranges = ranges_of(self.blob_ranges.entries());
        let n = self.blob_ranges.len();
        let mut i: usize = 0;
        assert(ranges.skip(0) =~= ranges);
        while i < n
            invariant
                i <= n,
                n == self.blob_ranges.entries().len(),
                ranges == ranges_of(self.blob_ranges.entries()),
                blob_containing(ranges, offset as int) == blob_containing(ranges.skip(i as int), offset as int),
            decreases n - i,
        {
            let (start, len) = *self.blob_ranges.value_at(i);
            assert(ranges.skip(i as int)[0] == ranges[i as int]);
            assert(ranges.skip(i as int).drop_first() =~= ranges.skip(i + 1));
            if offset >= start && offset - start < len {
                return Some(i);
            }
            i += 1;
        }
        assert(ranges.skip(i as int).len() == 0);
        None
    }

    /// Index of the first handle, in name order, whose url names `channel`.
    fn find_handle(&self, channel: &str) -> (r: Option<usize>)
        ensures
            r matches Some(k) ==> k < self.handles.entries().len() && handle_for(
                pairs_of(self.handles.entries()),
                channel@,
            ) == Some(self.handles.entries()[k as int].0@),
            r is None ==> handle_for(pairs_of(self.handles.entries()), channel@) is None,
    {
        let ghost hs = pairs_of(self.handles.entries());
        let m = self.handles.len();
        let mut j: usize = 0;
        assert(hs.skip(0) =~= hs);
        while j < m
            invariant
                j <= m,
                m == self.handles.entries().len(),
                hs == pairs_of(self.handles.entries()),
                handle_for(hs, channel@) == handle_for(hs.skip(j as int), channel@),
            decreases m - j,
        {
            assert(hs.skip(j as int)[0] == hs[j as int]);
            assert(hs.skip(j as int).drop_first() =~= hs.skip(j + 1));
            if trimmed_equals(self.handles.value_at(j).as_str(), channel) {
                return Some(j);
            }
            j += 1;
        }
        assert(hs.skip(j as int).len() == 0);
        None
    }

    /// Finds the blob whose byte range contains `offset`, and describes it.
    pub fn locate(&self, member_index: usize, offset: usize) -> (r: Option<PayloadLocation>)
        requires
            self.wf(),
        ensures
            r is None <==> location_of(*self, member_index, offset as int) is None,
            r matches Some(l) ==> Some(l@) == location_of(*self, member_index, offset as int),
    {
        let idx = match self.find_blob(offset) {
            Some(idx) => idx,
            None => return None,
        };
        let id = self.blob_ranges.key_at(idx);
        let path = match self.blob_paths.get(id.as_str()) {
            Some(p) => p,
            None => return None,
        };
        let channels = channel_segments(path.as_str());
        let ghost ids = channels@.map_values(|s: String| s@);
        let channel_id = if channels.len() > 0 { Some(channels[0].clone()) } else { None };
        let parent_channel = if channels.len() > 1 { Some(channels[0].clone()) } else { None };

        let component_package = match &channel_id {
            Some(c) => match self.channel_packages.get(c.as_str()) {
                Some(p) => Some(p.clone()),
                None => None,
            },
            None => None,
        };
        let handle_name = match &channel_id {
            Some(c) => match self.find_handle(c.as_str()) {
                Some(j) => Some(self.handles.key_at(j).clone()),
                None => None,
            },
            None => None,
        };

        Some(PayloadLocation {
            member_index,
            blob_path: Some(path.clone()),
            channel_id,
            handle_name,
            parent_channel,
            component_package,
        })
    }
}

/// The table held by a list of definitions.
pub open spec fn table_of(v: Seq<(u32, String)>) -> Table {
    Seq::new(v.len(), |i: int| (v[i].0, v[i].1@))
}

proof fn lemma_table_of_push(v: Seq<(u32, String)>, x: (u32, String))
    ensures
        table_of(v.push(x)) == table_of(v).push((x.0, x.1@)),
{
    assert(table_of(v.push(x)) =~= table_of(v).push((x.0, x.1@)));
}

/// Reads a little-endian unsigned integer of `width` bytes at `pos`.
fn read_le(data: &[u8], pos: usize, width: usize) -> (r: Option<u64>)
    requires
        width == 1 || width == 2 || width == 4,
    ensures
        pos + width <= data@.len() ==> r == Some(le(data@, pos as int, width as int) as u64),
        pos + width > data@.len() ==> r is None,
        r matches Some(v) ==> v < 0x1_0000_0000,
{
    if pos > data.len() || width > data.len() - pos {
        return None;
    }
    let b0 = data[pos] as u64;
    if width == 1 {
        return Some(b0);
    }
    let b1 = data[pos + 1] as u64;
    if width == 2 {
        return Some(b0 + 256 * b1);
    }
    let b2 = data[pos + 2] as u64;
    let b3 = data[pos + 3] as u64;
    Some(b0 + 256 * b1 + 65536 * b2 + 16777216 * b3)
}

/// The string the table holds under `id`.
fn lookup_string(strings: &Vec<(u32, String)>, id: u32) -> (r: String)
    ensures
        r@ == lookup(table_of(strings@), id),
{
    let mut i = strings.len();
    assert(strings@.take(i as int) =~= strings@);
    while i > 0
        invariant
            i <= strings@.len(),
            lookup(table_of(strings@), id) == lookup(table_of(strings@.take(i as int)), id),
        decreases i,
    {
        let ghost t = table_of(strings@.take(i as int));
        assert(t.last() == (strings@[i - 1].0, strings@[i - 1].1@));
        assert(t.drop_last() =~= table_of(strings@.take(i - 1)));
        if strings[i - 1].0 == id {
            return strings[i - 1].1.clone();
        }
        i -= 1;
    }
    assert(table_of(strings@.take(0)) =~= Seq::empty());
    String::new()
}

/// Reads the string definition whose tag stands at `t`.
fn read_definition(data: &[u8], t: usize) -> (r: Result<(usize, u32, String), EnvelopeError>)
    requires
        t < data@.len(),
        is_definition(data@[t as int]),
    ensures
        match definition(data@, t as int) {
            Ok((next, id, text)) => r matches Ok((n, i, s)) && n == next && i == id && s@ == text
                && t < n <= data@.len(),
            Err(e) => r == Err::<(usize, u32, String), EnvelopeError>(e),
        },
{
    let wide = data[t] != 0x14;
    let w: usize = if wide { 4 } else { 1 };
    let id_at = t + 1;
    let id = match read_le(data, id_at, w) {
        Some(v) => v as u32,
        None => return Err(EnvelopeError::Truncated { offset: id_at }),
    };
    let len_at = id_at + w;
    let len = match read_le(data, len_at, w) {
        Some(v) => v,
        None => return Err(EnvelopeError::Truncated { offset: len_at }),
    };
    let text_at = len_at + w;
    if len > (data.len() - text_at) as u64 {
        return Err(EnvelopeError::Truncated { offset: text_at });
    }
    let end = text_at + len as usize;
    let text = lossy_string(&data[text_at..end]);
    Ok((end, id, text))
}

/// Decodes one value at `pos`.
///
/// The result is exactly [`decode_value`]: the value, the position after it and
/// the string table after it, or the error that stopped the decode.
fn decode_at(data: &[u8], pos: usize, strings: &mut Vec<(u32, String)>, depth: usize) -> (r: Result<(FrameValue, usize), EnvelopeError>)
    requires
        pos <= data@.len(),
    ensures
        match decode_value(data@, pos as int, table_of(old(strings)@), depth as int) {
            Step::Done(v, p, t) => r matches Ok((val, q)) && val@ == v && q == p
                && table_of(final(strings)@) == t && pos < q <= data@.len(),
            Step::Failed(e) => r == Err::<(FrameValue, usize), EnvelopeError>(e),
        },
    decreases data@.len() - pos,
{
    if depth > MAX_DEPTH {
        return Err(EnvelopeError::TooDeep { limit: MAX_DEPTH });
    }
    let mut p = pos;
    loop
        invariant
            pos <= p <= data@.len(),
            depth <= MAX_DEPTH,
            decode_value(data@, pos as int, table_of(old(strings)@), depth as int)
                == decode_value(data@, p as int, table_of(strings@), depth as int),
        decreases data@.len() - p,
    {
        if p >= data.len() {
            return Err(EnvelopeError::Truncated { offset: p });
        }
        let tag = data[p];
        if tag == 0x14 || tag == 0x15 {
            match read_definition(data, p) {
                Err(e) => return Err(e),
                Ok((next, id, text)) => {
                    proof { lemma_table_of_push(strings@, (id, text)); }
                    strings.push((id, text));
                    p = next;
                },
            }
        } else {
            return decode_tag(data, p, pos, strings, depth);
        }
    }
}

/// Decodes the value whose (non-definition) tag stands at `p`.
fn decode_tag(data: &[u8], p: usize, pos: usize, strings: &mut Vec<(u32, String)>, depth: usize) -> (r: Result<(FrameValue, usize), EnvelopeError>)
    requires
        pos <= p < data@.len(),
        depth <= MAX_DEPTH,
        !is_definition(data@[p as int]),
    ensures
        match decode_value(data@, p as int, table_of(old(strings)@), depth as int) {
            Step::Done(v, q0, t) => r matches Ok((val, q)) && val@ == v && q == q0
                && table_of(final(strings)@) == t && p < q <= data@.len(),
            Step::Failed(e) => r == Err::<(FrameValue, usize), EnvelopeError>(e),
        },
    decreases data@.len() - pos, 0nat,
{
    let tag = data[p];
    if tag == 0x01 {
        return Ok((FrameValue::Int(0), p + 1));
    }
    if tag == 0x03 || tag == 0x05 || tag == 0x07 {
        let w: usize = if tag == 0x03 { 1 } else if tag == 0x05 { 2 } else { 4 };
        return match read_le(data, p + 1, w) {
            Some(v) => Ok((FrameValue::Int(v as i64), p + 1 + w)),
            None => Err(EnvelopeError::Truncated { offset: p + 1 }),
        };
    }
    if tag == 0x0b {
        return Ok((FrameValue::Bool(true), p + 1));
    }
    if tag == 0x0c {
        return Ok((FrameValue::Bool(false), p + 1));
    }
    if tag == 0x0d {
        return Ok((FrameValue::Null, p + 1));
    }
    if tag >= 0x0e && tag <= 0x10 {
        let w: usize = if tag == 0x0e { 1 } else if tag == 0x0f { 2 } else { 4 };
        let len = match read_le(data, p + 1, w) {
            Some(v) => v,
            None => return Err(EnvelopeError::Truncated { offset: p + 1 }),
        };
        let at = p + 1 + w;
        if len > (data.len() - at) as u64 {
            return Err(EnvelopeError::Truncated { offset: at });
        }
        let end = at + len as usize;
        let text = lossy_string(&data[at..end]);
        return Ok((FrameValue::Str(text), end));
    }
    if tag >= 0x11 && tag <= 0x13 {
        let w: usize = if tag == 0x11 { 1 } else if tag == 0x12 { 2 } else { 4 };
        return match read_le(data, p + 1, w) {
            Some(v) => Ok((FrameValue::Str(lookup_string(strings, v as u32)), p + 1 + w)),
            None => Err(EnvelopeError::Truncated { offset: p + 1 }),
        };
    }
    if tag >= 0x21 && tag <= 0x23 {
        let w: usize = if tag == 0x21 { 1 } else if tag == 0x22 { 2 } else { 4 };
        let len = match read_le(data, p + 1, w) {
            Some(v) => v,
            None => return Err(EnvelopeError::Truncated { offset: p + 1 }),
        };
        let at = p + 1 + w;
        if len > (data.len() - at) as u64 {
            return Err(EnvelopeError::Truncated { offset: at });
        }
        return Ok((FrameValue::Blob { start: at, len: len as usize }, at + len as usize));
    }
    if tag == 0x31 {
        let mut items: Vec<FrameValue> = Vec::new();
        let mut q = p + 1;
        loop
            invariant
                pos <= p < q <= data@.len(),
                depth <= MAX_DEPTH,
                decode_value(data@, p as int, table_of(old(strings)@), depth as int)
                    == decode_items(data@, q as int, table_of(strings@), depth as int, view_values(items@)),
            decreases data@.len() - q,
        {
            if q >= data.len() {
                return Err(EnvelopeError::Truncated { offset: q });
            }
            let t = data[q];
            if t == 0x14 || t == 0x15 {
                match read_definition(data, q) {
                    Err(e) => return Err(e),
                    Ok((next, id, text)) => {
                        proof { lemma_table_of_push(strings@, (id, text)); }
                        strings.push((id, text));
                        q = next;
                    },
                }
            } else if t == 0x32 {
                return Ok((FrameValue::Array(items), q + 1));
            } else {
                match decode_at(data, q, strings, depth + 1) {
                    Err(e) => return Err(e),
                    Ok((v, next)) => {
                        proof { lemma_view_values_push(items@, v); }
                        items.push(v);
                        q = next;
                    },
                }
            }
        }
    }
    if tag == 0x33 {
        let mut entries: Vec<(FrameValue, FrameValue)> = Vec::new();
        let mut q = p + 1;
        loop
            invariant
                pos <= p < q <= data@.len(),
                depth <= MAX_DEPTH,
                decode_value(data@, p as int, table_of(old(strings)@), depth as int)
                    == decode_entries(data@, q as int, table_of(strings@), depth as int, view_entries(entries@)),
            decreases data@.len() - q,
        {
            if q >= data.len() {
                return Err(EnvelopeError::Truncated { offset: q });
            }
            let t = data[q];
            if t == 0x14 || t == 0x15 {
                match read_definition(data, q) {
                    Err(e) => return Err(e),
                    Ok((next, id, text)) => {
                        proof { lemma_table_of_push(strings@, (id, text)); }
                        strings.push((id, text));
                        q = next;
                    },
                }
            } else if t == 0x34 {
                return Ok((FrameValue::Dict(entries), q + 1));
            } else {
                let key = match decode_at(data, q, strings, depth + 1) {
                    Err(e) => return Err(e),
                    Ok((k, mid)) => {
                        q = mid;
                        k
                    },
                };
                match decode_at(data, q, strings, depth + 1) {
                    Err(e) => return Err(e),
                    Ok((v, next)) => {
                        proof { lemma_view_entries_push(entries@, (key, v)); }
                        entries.push((key, v));
                        q = next;
                    },
                }
            }
        }
    }
    Err(EnvelopeError::UnknownTag { tag, offset: p })
}

/// Decodes a whole member into one value.
///
/// The result is the value [`decode_value`] finds at the start of the member
/// with an empty string table; bytes after it are not examined.
pub fn parse(member: &[u8]) -> (r: Result<FrameValue, EnvelopeError>)
    ensures
        match decode_value(member@, 0, Seq::empty(), 0) {
            Step::Done(v, _, _) => r matches Ok(val) && val@ == v,
            Step::Failed(e) => r == Err::<FrameValue, EnvelopeError>(e),
        },
{
    let mut strings: Vec<(u32, String)> = Vec::new();
    assert(table_of(strings@) =~= Seq::empty());
    match decode_at(member, 0, &mut strings, 0) {
        Ok((value, _)) => Ok(value),
        Err(e) => Err(e),
    }
}


impl EnvelopeError {
    /// The text of the error, as it is displayed.
    pub open spec fn describe(self) -> Seq<char> {
        match self {
            EnvelopeError::UnknownTag { tag, offset } => "unknown tag 0x"@ + hex_of(seq![tag]) + " at offset "@
                + decimal_digits(offset as nat),
            EnvelopeError::Truncated { offset } => "member ends part way through a value at offset "@
                + decimal_digits(offset as nat),
            EnvelopeError::TooDeep { limit } => "value nesting deeper than "@ + decimal_digits(limit as nat)
                + " levels"@,
            EnvelopeError::NotAnEnvelope(NotEnvelope::NoSnapshot) => "this member is not an envelope: no snapshot value"@,
            EnvelopeError::NotAnEnvelope(NotEnvelope::NoTreeNodes) => "this member is not an envelope: no treeNodes array"@,
        }
    }

    /// The text of the error, as it is displayed.
    pub fn message(&self) -> (r: String)
        ensures
            r@ == self.describe(),
    {
        match self {
            EnvelopeError::UnknownTag { tag, offset } => {
                let mut r = String::from_str("unknown tag 0x");
                let t = [*tag];
                let h = hex(&t);
                assert(t@ =~= seq![*tag]);
                r.append(h.as_str());
                r.append(" at offset ");
                let d = decimal(*offset as u64);
                r.append(d.as_str());
                r
            },
            EnvelopeError::Truncated { offset } => {
                let mut r = String::from_str("member ends part way through a value at offset ");
                let d = decimal(*offset as u64);
                r.append(d.as_str());
                r
            },
            EnvelopeError::TooDeep { limit } => {
                let mut r = String::from_str("value nesting deeper than ");
                let d = decimal(*limit as u64);
                r.append(d.as_str());
                r.append(" levels");
                r
            },
            EnvelopeError::NotAnEnvelope(NotEnvelope::NoSnapshot) => String::from_str(
                "this member is not an envelope: no snapshot value",
            ),
            EnvelopeError::NotAnEnvelope(NotEnvelope::NoTreeNodes) => String::from_str(
                "this member is not an envelope: no treeNodes array",
            ),
        }
    }
}

/// The payloads held by blobs, in blob-id order: each blob whose range lies
/// within the member and parses as a JSON object.
pub open spec fn blob_candidates(
    member: Seq<u8>,
    ranges: Seq<(String, (usize, usize))>,
    member_index: usize,
) -> Seq<PayloadCandidate>
    decreases ranges.len(),
{
    if ranges.len() == 0 {
        Seq::empty()
    } else {
        let before = blob_candidates(member, ranges.drop_last(), member_index);
        let start = ranges.last().1.0;
        let end = start + ranges.last().1.1;
        if end <= member.len() {
            match json_from_bytes(member.subrange(start as int, end)) {
                Some(v) => if v is Object {
                    before.push(
                        PayloadCandidate {
                            member_index,
                            start,
                            end: end as usize,
                            anchor: "envelope-blob",
                            value: v,
                        },
                    )
                } else {
                    before
                },
                None => before,
            }
        } else {
            before
        }
    }
}

/// Whether the member decodes to a summary with a snapshot and a `treeNodes`
/// array, so that [`read`] succeeds.
pub open spec fn reads_as_envelope(member: Seq<u8>) -> bool {
    match decode_value(member, 0, Seq::empty(), 0) {
        Step::Done(root, _, _) => match root.field("snapshot"@) {
            Some(snapshot) => snapshot.field("treeNodes"@) matches Some(Decoded::Array(_)),
            None => false,
        },
        Step::Failed(_) => false,
    }
}

/// Reads the framing and returns the blobs that hold JSON objects.
#[derive(Debug)]
pub struct EnvelopeDecoder;

impl EnvelopeDecoder {
    /// The payloads of the blobs an index knows, sorted by `(start, end)`.
    pub fn blob_payloads(index: &EnvelopeIndex, member_index: usize, member: &[u8]) -> (r: Vec<PayloadCandidate>)
        ensures
            r@ == sort_by_span(blob_candidates(member@, index.blob_ranges.entries(), member_index)),
            forall|i: int| 0 <= i < r@.len() ==> parsed_from(#[trigger] r@[i], member_index, member@),
    {
        let ghost ranges = index.blob_ranges.entries();
        let mut found: Vec<PayloadCandidate> = Vec::new();
        let n = index.blob_ranges.len();
        let mut i: usize = 0;
        assert(ranges.take(0) =~= Seq::<(String, (usize, usize))>::empty());
        while i < n
            invariant
                n == ranges.len(),
                ranges == index.blob_ranges.entries(),
                i <= n,
                found@ == blob_candidates(member@, ranges.take(i as int), member_index),
                forall|k: int| 0 <= k < found@.len() ==> parsed_from(#[trigger] found@[k], member_index, member@),
            decreases n - i,
        {
            let (start, len) = *index.blob_ranges.value_at(i);
            assert(ranges.take(i + 1).drop_last() =~= ranges.take(i as int));
            let ghost before = found@;
            if len <= member.len() && start <= member.len() - len {
                let end = start + len;
                match Json::parse_bytes(&member[start..end]) {
                    Some(value) => {
                        if value.is_object() {
                            found.push(
                                PayloadCandidate { member_index, start, end, anchor: "envelope-blob", value },
                            );
                            assert forall|k: int| 0 <= k < found@.len() implies parsed_from(
                                #[trigger] found@[k],
                                member_index,
                                member@,
                            ) by {
                                if k < before.len() {
                                    assert(found@[k] == before[k]);
                                }
                            }
                        }
                    },
                    None => {},
                }
            }
            i += 1;
        }
        assert(ranges.take(n as int) =~= ranges);
        let ghost unsorted = found@;
        let r = sort_payloads(found);
        proof {
            super::lemma_sort_by_span(unsorted);
            assert forall|k: int| 0 <= k < r@.len() implies parsed_from(#[trigger] r@[k], member_index, member@) by {
                r@.to_multiset_ensures();
                unsorted.to_multiset_ensures();
                assert(r@.contains(r@[k]));
                assert(r@.to_multiset().count(r@[k]) > 0);
                assert(unsorted.contains(r@[k]));
                let j = choose|j: int| 0 <= j < unsorted.len() && unsorted[j] == r@[k];
                assert(parsed_from(unsorted[j], member_index, member@));
            }
        }
        r
    }
}

impl PayloadDiscovery for EnvelopeDecoder {
    /// Names this strategy in diagnostics: `envelope`.
    fn name(&self) -> (r: &'static str)
        ensures
            r@ == "envelope"@,
    {
        "envelope"
    }

    /// Fails when the member is not an envelope; otherwise returns the blobs
    /// that hold JSON objects, sorted by `(start, end)`.
    fn discover(&self, member_index: usize, member: &[u8]) -> (r: Result<Vec<PayloadCandidate>, DiscoveryError>)
        ensures
            r is Ok <==> reads_as_envelope(member@),
            r matches Err(DiscoveryError::Unsupported(m)) ==> exists|e: EnvelopeError|
                read_result(member@, Err(e)) && m@ == e.describe(),
            r matches Ok(found) ==> exists|index: EnvelopeIndex|
                read_result(member@, Ok(index)) && found@ == sort_by_span(
                    blob_candidates(member@, index.blob_ranges.entries(), member_index),
                ),
    {
        match read(member) {
            Err(e) => {
                let m = e.message();
                assert(read_result(member@, Err(e)));
                Err(DiscoveryError::Unsupported(m))
            },
            Ok(index) => {
                let found = EnvelopeDecoder::blob_payloads(&index, member_index, member);
                assert(read_result(member@, Ok(index)));
                Ok(found)
            },
        }
    }
}

} // verus!
