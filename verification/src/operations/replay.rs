//! Rebuilding a merge tree by applying its operations in order.
//!
//! Positions in merge-tree operations count UTF-16 code units, because the
//! Fluid runtime that wrote them is JavaScript. Text segments therefore measure
//! their length in UTF-16 units here too, and a marker counts as one unit.
//!
//! Only insert and remove are applied. Annotate is parsed and counted, but
//! applying it needs range splitting that no corpus file requires to recover
//! its text.

use vstd::prelude::*;
use vstd::utf8::encode_utf8;
use crate::fluid::merge_tree::{Segment, SegmentView, segment_views};
use crate::text::{chars_of, string_of, decimal, decimal_digits};
use crate::warning::{Warning, WarningView};
use super::log::{DocumentOp, OpView};
use super::plain_text;

verus! {

/// UTF-16 code units of one character: two above the Basic Multilingual
/// Plane, else one.
pub open spec fn char_units(c: char) -> int {
    if c as u32 > 0xFFFF { 2 } else { 1 }
}

/// Length of text in UTF-16 code units.
pub open spec fn utf16_len(s: Seq<char>) -> int
    decreases s.len(),
{
    if s.len() == 0 {
        0
    } else {
        char_units(s[0]) + utf16_len(s.drop_first())
    }
}

/// UTF-16 length adds up over concatenation.
pub proof fn lemma_utf16_len_concat(a: Seq<char>, b: Seq<char>)
    ensures
        utf16_len(a + b) == utf16_len(a) + utf16_len(b),
    decreases a.len(),
{
    if a.len() > 0 {
        assert((a + b).drop_first() =~= a.drop_first() + b);
        lemma_utf16_len_concat(a.drop_first(), b);
    } else {
        assert(a + b =~= b);
    }
}

proof fn lemma_utf16_len_nonneg(s: Seq<char>)
    ensures
        utf16_len(s) >= 0,
    decreases s.len(),
{
    if s.len() > 0 {
        lemma_utf16_len_nonneg(s.drop_first());
    }
}

/// Text never has more UTF-16 units than UTF-8 bytes.
proof fn lemma_utf16_len_bytes(s: Seq<char>)
    ensures
        utf16_len(s) <= encode_utf8(s).len(),
    decreases s.len(),
{
    if s.len() > 0 {
        lemma_utf16_len_bytes(s.drop_first());
    }
}

/// Length of a segment in UTF-16 code units, matching merge-tree positions: a
/// marker (or anything else that is not text) occupies one position.
pub open spec fn seg_len(s: SegmentView) -> int {
    match s {
        SegmentView::Text { text, .. } => utf16_len(text),
        _ => 1,
    }
}

/// Length of a document in UTF-16 code units.
pub open spec fn doc_len(segs: Seq<SegmentView>) -> int
    decreases segs.len(),
{
    if segs.len() == 0 {
        0
    } else {
        seg_len(segs[0]) + doc_len(segs.drop_first())
    }
}

/// The character index where `units` UTF-16 units end, scanning from index
/// `k` with `acc` units already counted; `None` when `units` falls inside a
/// surrogate pair or past the end.
pub open spec fn char_split_from(text: Seq<char>, units: int, k: int, acc: int) -> Option<int>
    decreases text.len() - k,
{
    if acc == units {
        Some(k)
    } else if k >= text.len() || k < 0 {
        None
    } else if acc + char_units(text[k]) > units {
        None
    } else {
        char_split_from(text, units, k + 1, acc + char_units(text[k]))
    }
}

/// Splits `segs` so that a boundary exists at `pos`, scanning from segment
/// `index`, which starts at `offset`. Gives the new segments and the index of
/// the segment that starts at `pos`; `None` when `pos` is past the end or
/// inside something that cannot be split (a marker, or a surrogate pair).
pub open spec fn split_from(segs: Seq<SegmentView>, pos: int, index: int, offset: int) -> Option<(Seq<SegmentView>, int)>
    decreases segs.len() - index,
{
    if index >= segs.len() || index < 0 {
        if offset == pos { Some((segs, segs.len() as int)) } else { None }
    } else if offset == pos {
        Some((segs, index))
    } else if pos < offset + seg_len(segs[index]) {
        match segs[index] {
            SegmentView::Text { text, props } => match char_split_from(text, pos - offset, 0, 0) {
                Some(k) => Some(
                    (
                        segs.update(index, SegmentView::Text { text: text.take(k), props }).insert(
                            index + 1,
                            SegmentView::Text { text: text.skip(k), props },
                        ),
                        index + 1,
                    ),
                ),
                None => None,
            },
            _ => None,
        }
    } else {
        split_from(segs, pos, index + 1, offset + seg_len(segs[index]))
    }
}

/// Splits `segs` so that a boundary exists at UTF-16 position `pos`.
pub open spec fn split_spec(segs: Seq<SegmentView>, pos: int) -> Option<(Seq<SegmentView>, int)> {
    split_from(segs, pos, 0, 0)
}

/// The index of the first segment that starts at `end`, scanning from
/// `index`, which starts at `offset`; the number of segments when none does.
pub open spec fn boundary_from(segs: Seq<SegmentView>, end: int, index: int, offset: int) -> int
    decreases segs.len() - index,
{
    if index >= segs.len() || index < 0 {
        segs.len() as int
    } else if offset == end {
        index
    } else {
        boundary_from(segs, end, index + 1, offset + seg_len(segs[index]))
    }
}

/// Inserting `new` at `pos`: at the boundary there when one can be made;
/// otherwise appended at the end, which is reported as not applied.
pub open spec fn insert_spec(segs: Seq<SegmentView>, pos: int, new: Seq<SegmentView>) -> (Seq<SegmentView>, bool) {
    match split_spec(segs, pos) {
        Some(x) => (x.0.take(x.1) + new + x.0.skip(x.1), true),
        None => (segs + new, false),
    }
}

/// Removing `[start, end)`: boundaries are made at `end` and then at `start`,
/// and the segments between them dropped. An empty or reversed range, or one
/// where a boundary cannot be made, is not applied (splits already made stay).
pub open spec fn remove_spec(segs: Seq<SegmentView>, start: int, end: int) -> (Seq<SegmentView>, bool) {
    if end <= start {
        (segs, false)
    } else {
        match split_spec(segs, end) {
            None => (segs, false),
            Some(a) => match split_spec(a.0, start) {
                None => (a.0, false),
                Some(b) => {
                    let to = boundary_from(b.0, end, 0, 0);
                    if b.1 > to {
                        (b.0, false)
                    } else {
                        (b.0.take(b.1) + b.0.skip(to), true)
                    }
                },
            },
        }
    }
}

/// The outcome of a replay.
#[derive(Debug)]
pub struct Replay {
    pub segments: Vec<Segment>,
    pub applied: usize,
    pub skipped: usize,
    pub warnings: Vec<Warning>,
}

/// The content of a [`Replay`].
pub struct ReplayView {
    pub segments: Seq<SegmentView>,
    pub applied: int,
    pub skipped: int,
    pub warnings: Seq<WarningView>,
}

impl View for Replay {
    type V = ReplayView;

    open spec fn view(&self) -> ReplayView {
        ReplayView {
            segments: segment_views(self.segments@),
            applied: self.applied as int,
            skipped: self.skipped as int,
            warnings: self.warnings@.map_values(|w: Warning| w@),
        }
    }
}

/// The message given when an insert position is past the end.
pub open spec fn insert_message(position: usize) -> Seq<char> {
    "an insert at position "@ + decimal_digits(position as nat)
        + " is past the end of the reconstructed text; it was appended instead"@
}

/// The message given when a remove range does not fit.
pub open spec fn remove_message(start: usize, end: usize) -> Seq<char> {
    "a remove of ["@ + decimal_digits(start as nat) + ", "@ + decimal_digits(end as nat)
        + ") does not fit the reconstructed text"@
}

/// A warning with no position.
pub open spec fn range_warning(message: Seq<char>) -> WarningView {
    WarningView { code: "operation_position_out_of_range"@, message, member_index: None, file_offset: None }
}

/// Applies operations in order to `base`.
pub open spec fn replay_ops(base: Seq<SegmentView>, ops: Seq<OpView>) -> ReplayView
    decreases ops.len(),
{
    if ops.len() == 0 {
        ReplayView { segments: base, applied: 0, skipped: 0, warnings: Seq::empty() }
    } else {
        let r = replay_ops(base, ops.drop_last());
        match ops.last() {
            OpView::Insert { position, segments } => {
                let x = insert_spec(r.segments, position as int, segments);
                if x.1 {
                    ReplayView { segments: x.0, applied: r.applied + 1, ..r }
                } else {
                    ReplayView {
                        segments: x.0,
                        skipped: r.skipped + 1,
                        warnings: r.warnings.push(range_warning(insert_message(position))),
                        ..r
                    }
                }
            },
            OpView::Remove { start, end } => {
                let x = remove_spec(r.segments, start as int, end as int);
                if x.1 {
                    ReplayView { segments: x.0, applied: r.applied + 1, ..r }
                } else {
                    ReplayView {
                        segments: x.0,
                        skipped: r.skipped + 1,
                        warnings: r.warnings.push(range_warning(remove_message(start, end))),
                        ..r
                    }
                }
            },
            _ => ReplayView { skipped: r.skipped + 1, ..r },
        }
    }
}

/// Length of text in UTF-16 code units, or `None` when it does not fit in a
/// `usize`.
fn text_units(text: &String) -> (r: Option<usize>)
    ensures
        match r {
            Some(n) => n == utf16_len(text@),
            None => utf16_len(text@) > usize::MAX,
        },
{
    let cs = chars_of(text.as_str());
    let mut n: usize = 0;
    let mut i: usize = cs.len();
    assert(cs@.skip(cs@.len() as int) =~= Seq::<char>::empty());
    while i > 0
        invariant
            i <= cs@.len(),
            cs@ == text@,
            n == utf16_len(cs@.skip(i as int)),
        decreases i,
    {
        assert(cs@.skip(i - 1).drop_first() =~= cs@.skip(i as int));
        assert(cs@.skip(i - 1)[0] == cs@[i - 1]);
        let u: usize = if (cs[i - 1] as u32) > 0xFFFFu32 { 2 } else { 1 };
        match n.checked_add(u) {
            Some(m) => n = m,
            None => {
                proof {
                    assert(cs@ =~= cs@.take(i - 1) + cs@.skip(i - 1));
                    lemma_utf16_len_concat(cs@.take(i - 1), cs@.skip(i - 1));
                    lemma_utf16_len_nonneg(cs@.take(i - 1));
                }
                return None;
            },
        }
        i -= 1;
    }
    assert(cs@.skip(0) =~= cs@);
    Some(n)
}

/// Length of a segment in UTF-16 code units, or `None` when it does not fit
/// in a `usize`.
fn segment_len(segment: &Segment) -> (r: Option<usize>)
    ensures
        match r {
            Some(n) => n == seg_len(segment@),
            None => seg_len(segment@) > usize::MAX,
        },
{
    match segment {
        Segment::Text { text, .. } => text_units(text),
        _ => Some(1),
    }
}

/// The character index where `units` UTF-16 units end, or `None` when that
/// falls inside a surrogate pair or past the end.
fn char_split(cs: &Vec<char>, units: usize) -> (r: Option<usize>)
    ensures
        match char_split_from(cs@, units as int, 0, 0) {
            Some(k) => r == Some(k as usize) && 0 <= k <= cs@.len(),
            None => r is None,
        },
{
    let mut acc: usize = 0;
    let mut k: usize = 0;
    while k < cs.len()
        invariant
            k <= cs@.len(),
            acc <= units,
            char_split_from(cs@, units as int, 0, 0) == char_split_from(cs@, units as int, k as int, acc as int),
        decreases cs@.len() - k,
    {
        if acc == units {
            return Some(k);
        }
        let u: usize = if cs[k] as u32 > 0xFFFF { 2 } else { 1 };
        if u > units - acc {
            return None;
        }
        acc = acc + u;
        k += 1;
    }
    if acc == units { Some(k) } else { None }
}

/// Splits `segments` so that a boundary exists at `position`.
///
/// Returns the index of the segment that starts at `position`, or `None` when
/// the position is past the end or cannot be split.
fn split_at(segments: &mut Vec<Segment>, position: usize) -> (r: Option<usize>)
    ensures
        match split_spec(segment_views(old(segments)@), position as int) {
            Some(x) => r matches Some(i) && i as int == x.1 && segment_views(final(segments)@) == x.0 && 0 <= x.1 <= x.0.len(),
            None => r is None && segment_views(final(segments)@) == segment_views(old(segments)@),
        },
{
    let ghost v = segment_views(segments@);
    let mut offset: usize = 0;
    let mut index: usize = 0;
    while index < segments.len()
        invariant
            v == segment_views(segments@),
            index <= segments@.len(),
            v == segment_views(old(segments)@),
            split_spec(v, position as int) == split_from(v, position as int, index as int, offset as int),
            offset <= position,
        decreases segments@.len() - index,
    {
        if offset == position {
            return Some(index);
        }
        let step = match segment_len(&segments[index]) {
            Some(len) => offset.checked_add(len),
            None => None,
        };
        let inside = match step {
            Some(end) => position < end,
            None => true,
        };
        if inside {
            let (text, props) = match &segments[index] {
                Segment::Text { text, props } => (text, props),
                _ => return None,
            };
            let cs = chars_of(text.as_str());
            let k = match char_split(&cs, position - offset) {
                Some(k) => k,
                None => return None,
            };
            let head = Segment::Text { text: string_of(&cs.as_slice()[0..k]), props: props.clone() };
            let tail = Segment::Text { text: string_of(&cs.as_slice()[k..cs.len()]), props: props.clone() };
            assert(cs@.subrange(0, k as int) =~= text@.take(k as int));
            assert(cs@.subrange(k as int, cs@.len() as int) =~= text@.skip(k as int));
            let ghost before = segments@;
            segments.remove(index);
            segments.insert(index, head);
            segments.insert(index + 1, tail);
            assert(segment_views(segments@) =~= v.update(index as int, head@).insert(index + 1, tail@));
            return Some(index + 1);
        }
        offset = match step {
            Some(end) => end,
            None => offset,
        };
        index += 1;
    }
    if offset == position { Some(segments.len()) } else { None }
}

/// The index of the first segment that starts at `end`, or the number of
/// segments when none does.
fn boundary_at(segments: &Vec<Segment>, end: usize) -> (r: usize)
    ensures
        r as int == boundary_from(segment_views(segments@), end as int, 0, 0),
        r <= segments@.len(),
{
    let ghost v = segment_views(segments@);
    let mut offset: usize = 0;
    let mut index: usize = 0;
    while index < segments.len()
        invariant
            v == segment_views(segments@),
            index <= segments@.len(),
            boundary_from(v, end as int, 0, 0) == boundary_from(v, end as int, index as int, offset as int),
            offset <= end,
        decreases segments@.len() - index,
    {
        if offset == end {
            return index;
        }
        let step = match segment_len(&segments[index]) {
            Some(len) => offset.checked_add(len),
            None => None,
        };
        match step {
            Some(next) => {
                if next > end {
                    // No later segment can start exactly at `end`.
                    proof { lemma_boundary_past(v, end as int, index + 1, next as int); }
                    return segments.len();
                }
                offset = next;
            },
            None => {
                proof { lemma_boundary_past(v, end as int, index + 1, offset + seg_len(v[index as int])); }
                return segments.len();
            },
        }
        index += 1;
    }
    segments.len()
}

proof fn lemma_seg_len_nonneg(s: SegmentView)
    ensures
        seg_len(s) >= 0,
{
    if let SegmentView::Text { text, .. } = s {
        lemma_utf16_len_nonneg(text);
    }
}

/// Once the offset is past `end`, no boundary at `end` is found.
proof fn lemma_boundary_past(v: Seq<SegmentView>, end: int, index: int, offset: int)
    requires
        offset > end,
        0 <= index,
    ensures
        boundary_from(v, end, index, offset) == v.len(),
    decreases v.len() - index,
{
    if index < v.len() {
        lemma_seg_len_nonneg(v[index]);
        lemma_boundary_past(v, end, index + 1, offset + seg_len(v[index]));
    }
}

/// Copies of segments, in order.
fn copy_all(segments: &Vec<Segment>) -> (r: Vec<Segment>)
    ensures
        segment_views(r@) == segment_views(segments@),
{
    let mut out: Vec<Segment> = Vec::new();
    let mut i: usize = 0;
    while i < segments.len()
        invariant
            i <= segments@.len(),
            out@.len() == i,
            forall|k: int| 0 <= k < i ==> (#[trigger] out@[k])@ == segments@[k]@,
        decreases segments@.len() - i,
    {
        out.push(segments[i].clone());
        i += 1;
    }
    assert(segment_views(out@) =~= segment_views(segments@));
    out
}

/// Inserts copies of `new` at `position`; appends them when no boundary can be
/// made there. Returns whether the insert was applied where it asked.
fn insert(segments: &mut Vec<Segment>, position: usize, new: &Vec<Segment>) -> (ok: bool)
    ensures
        (segment_views(final(segments)@), ok) == insert_spec(segment_views(old(segments)@), position as int, segment_views(new@)),
{
    let mut copies = copy_all(new);
    match split_at(segments, position) {
        Some(index) => {
            let ghost split = segments@;
            assert(split_spec(segment_views(old(segments)@), position as int) matches Some(x) && x.0 == segment_views(split) && x.1 == index as int);
            let mut tail = segments.split_off(index);
            let ghost head = segments@;
            let ghost tl = tail@;
            assert(segment_views(head) =~= segment_views(split).take(index as int));
            assert(segment_views(tl) =~= segment_views(split).skip(index as int));
            segments.append(&mut copies);
            segments.append(&mut tail);
            assert(segment_views(segments@) =~= segment_views(head) + segment_views(new@) + segment_views(tl));
            assert(segment_views(segments@) =~= insert_spec(segment_views(old(segments)@), position as int, segment_views(new@)).0);
            true
        },
        None => {
            let ghost before = segments@;
            segments.append(&mut copies);
            assert(segment_views(segments@) =~= segment_views(before) + segment_views(new@));
            assert(segment_views(segments@) =~= insert_spec(segment_views(old(segments)@), position as int, segment_views(new@)).0);
            false
        },
    }
}

/// Removes `[start, end)`. Returns whether the remove was applied.
fn remove(segments: &mut Vec<Segment>, start: usize, end: usize) -> (ok: bool)
    ensures
        (segment_views(final(segments)@), ok) == remove_spec(segment_views(old(segments)@), start as int, end as int),
{
    if end <= start {
        return false;
    }
    match split_at(segments, end) {
        Some(_) => {},
        None => return false,
    }
    let from = match split_at(segments, start) {
        Some(i) => i,
        None => return false,
    };
    let to = boundary_at(segments, end);
    if from > to {
        return false;
    }
    let ghost split = segments@;
    let mut tail = segments.split_off(to);
    segments.truncate(from);
    let ghost head = segments@;
    let ghost tl = tail@;
    assert(segment_views(head) =~= segment_views(split).take(from as int));
    assert(segment_views(tl) =~= segment_views(split).skip(to as int));
    segments.append(&mut tail);
    assert(segment_views(segments@) =~= segment_views(head) + segment_views(tl));
    assert(segment_views(segments@) =~= remove_spec(segment_views(old(segments)@), start as int, end as int).0);
    true
}

/// Applies operations in order, starting from an empty document.
pub fn replay(ops: &[DocumentOp]) -> (r: Replay)
    ensures
        r@ == replay_ops(Seq::empty(), ops@.map_values(|o: DocumentOp| o@)),
{
    let r = replay_onto(Vec::new(), ops);
    assert(segment_views(Seq::<Segment>::empty()) =~= Seq::<SegmentView>::empty());
    r
}

/// Applies operations in order on top of an existing segment list.
///
/// Seeding with the snapshot's own segments is only sound when the operation
/// log begins where the snapshot ends; see
/// `EnvelopeIndex::operations_follow_snapshot`.
pub fn replay_onto(base: Vec<Segment>, ops: &[DocumentOp]) -> (r: Replay)
    ensures
        r@ == replay_ops(segment_views(base@), ops@.map_values(|o: DocumentOp| o@)),
{
    let ghost ov = ops@.map_values(|o: DocumentOp| o@);
    let ghost b = segment_views(base@);
    let mut result = Replay { segments: base, applied: 0, skipped: 0, warnings: Vec::new() };
    let mut i: usize = 0;
    assert(ov.take(0) =~= Seq::<OpView>::empty());
    assert(result@.warnings =~= Seq::<WarningView>::empty());
    assert(result@ == replay_ops(b, ov.take(0)));
    while i < ops.len()
        invariant
            i <= ops@.len(),
            ov == ops@.map_values(|o: DocumentOp| o@),
            result@ == replay_ops(b, ov.take(i as int)),
            result.applied + result.skipped == i,
        decreases ops@.len() - i,
    {
        assert(ov.take(i + 1).drop_last() =~= ov.take(i as int));
        assert(ov.take(i + 1).last() == ops@[i as int]@);
        let ghost ws = result.warnings@;
        match &ops[i] {
            DocumentOp::Insert { position, segments } => {
                if insert(&mut result.segments, *position, segments) {
                    result.applied += 1;
                } else {
                    result.skipped += 1;
                    let mut m = String::from_str("an insert at position ");
                    m.append(decimal(*position as u64).as_str());
                    m.append(" is past the end of the reconstructed text; it was appended instead");
                    let w = Warning::new("operation_position_out_of_range", m);
                    result.warnings.push(w);
                    assert(result.warnings@.map_values(|w: Warning| w@) =~= ws.map_values(|w: Warning| w@).push(w@));
                }
            },
            DocumentOp::Remove { start, end } => {
                if remove(&mut result.segments, *start, *end) {
                    result.applied += 1;
                } else {
                    result.skipped += 1;
                    let mut m = String::from_str("a remove of [");
                    m.append(decimal(*start as u64).as_str());
                    m.append(", ");
                    m.append(decimal(*end as u64).as_str());
                    m.append(") does not fit the reconstructed text");
                    let w = Warning::new("operation_position_out_of_range", m);
                    result.warnings.push(w);
                    assert(result.warnings@.map_values(|w: Warning| w@) =~= ws.map_values(|w: Warning| w@).push(w@));
                }
            },
            DocumentOp::Annotate { .. } => {
                result.skipped += 1;
            },
            DocumentOp::Unknown { .. } => {
                result.skipped += 1;
            },
        }
        i += 1;
    }
    assert(ov.take(i as int) =~= ov);
    result
}


/// UTF-16 length of one character on its own.
proof fn lemma_utf16_len_single(c: char)
    ensures
        utf16_len(seq![c]) == char_units(c),
{
    assert(seq![c].drop_first() =~= Seq::<char>::empty());
    assert(utf16_len(Seq::<char>::empty()) == 0);
    assert(seq![c][0] == c);
}

/// UTF-16 length of a prefix grows by one character at a time.
proof fn lemma_utf16_len_take_next(text: Seq<char>, k: int)
    requires
        0 <= k < text.len(),
    ensures
        utf16_len(text.take(k + 1)) == utf16_len(text.take(k)) + char_units(text[k]),
{
    assert(text.take(k + 1) =~= text.take(k) + seq![text[k]]);
    lemma_utf16_len_concat(text.take(k), seq![text[k]]);
    lemma_utf16_len_single(text[k]);
}

/// Where a text split lands: the prefix before it has exactly the requested
/// UTF-16 length.
proof fn lemma_char_split(text: Seq<char>, units: int, k: int, acc: int)
    requires
        0 <= k <= text.len(),
        acc == utf16_len(text.take(k)),
        char_split_from(text, units, k, acc) is Some,
    ensures
        k <= char_split_from(text, units, k, acc)->0 <= text.len(),
        utf16_len(text.take(char_split_from(text, units, k, acc)->0)) == units,
    decreases text.len() - k,
{
    if acc != units {
        lemma_utf16_len_take_next(text, k);
        lemma_char_split(text, units, k + 1, acc + char_units(text[k]));
    }
}

/// Document length adds up over concatenation.
pub proof fn lemma_doc_len_concat(a: Seq<SegmentView>, b: Seq<SegmentView>)
    ensures
        doc_len(a + b) == doc_len(a) + doc_len(b),
    decreases a.len(),
{
    if a.len() > 0 {
        assert((a + b).drop_first() =~= a.drop_first() + b);
        lemma_doc_len_concat(a.drop_first(), b);
    } else {
        assert(a + b =~= b);
    }
}

/// Plain text adds up over concatenation.
pub proof fn lemma_plain_text_concat(a: Seq<SegmentView>, b: Seq<SegmentView>)
    ensures
        plain_text(a + b) == plain_text(a) + plain_text(b),
    decreases b.len(),
{
    if b.len() > 0 {
        assert((a + b).drop_last() =~= a + b.drop_last());
        lemma_plain_text_concat(a, b.drop_last());
        assert(plain_text(a) + plain_text(b.drop_last()) + match b.last() {
            SegmentView::Text { text, .. } => text,
            _ => Seq::empty(),
        } =~= plain_text(a) + plain_text(b));
    } else {
        assert(a + b =~= a);
        assert(plain_text(a) + plain_text(b) =~= plain_text(a));
    }
}

proof fn lemma_doc_len_single(x: SegmentView)
    ensures
        doc_len(seq![x]) == seg_len(x),
{
    assert(seq![x].drop_first() =~= Seq::<SegmentView>::empty());
    assert(doc_len(Seq::<SegmentView>::empty()) == 0);
    assert(seq![x][0] == x);
}

proof fn lemma_plain_text_single(x: SegmentView)
    ensures
        plain_text(seq![x]) == match x {
            SegmentView::Text { text, .. } => text,
            _ => Seq::empty(),
        },
{
    assert(seq![x].drop_last() =~= Seq::<SegmentView>::empty());
    assert(plain_text(Seq::<SegmentView>::empty()) == Seq::<char>::empty());
    assert(seq![x].last() == x);
    assert(Seq::<char>::empty() + match x {
        SegmentView::Text { text, .. } => text,
        _ => Seq::<char>::empty(),
    } =~= match x {
        SegmentView::Text { text, .. } => text,
        _ => Seq::<char>::empty(),
    });
}

proof fn lemma_doc_len_take_next(s: Seq<SegmentView>, i: int)
    requires
        0 <= i < s.len(),
    ensures
        doc_len(s.take(i + 1)) == doc_len(s.take(i)) + seg_len(s[i]),
{
    assert(s.take(i + 1) =~= s.take(i) + seq![s[i]]);
    lemma_doc_len_concat(s.take(i), seq![s[i]]);
    lemma_doc_len_single(s[i]);
}

/// Making a boundary keeps the document's length and text, and the boundary
/// sits exactly at the requested position.
proof fn lemma_split_from(segs: Seq<SegmentView>, pos: int, index: int, offset: int)
    requires
        0 <= index <= segs.len(),
        offset == doc_len(segs.take(index)),
        split_from(segs, pos, index, offset) is Some,
    ensures
        ({
            let x = split_from(segs, pos, index, offset)->0;
            &&& 0 <= x.1 <= x.0.len()
            &&& doc_len(x.0.take(x.1)) == pos
            &&& doc_len(x.0) == doc_len(segs)
            &&& plain_text(x.0) == plain_text(segs)
        }),
    decreases segs.len() - index,
{
    if index >= segs.len() {
        assert(segs.take(index) =~= segs);
    } else if offset == pos {
    } else if pos < offset + seg_len(segs[index]) {
        match segs[index] {
            SegmentView::Text { text, props } => {
                let k = char_split_from(text, pos - offset, 0, 0)->0;
                assert(text.take(0) =~= Seq::<char>::empty());
                lemma_char_split(text, pos - offset, 0, 0);
                let t1 = SegmentView::Text { text: text.take(k), props };
                let t2 = SegmentView::Text { text: text.skip(k), props };
                let s2 = segs.update(index, t1).insert(index + 1, t2);
                let pre = segs.take(index);
                let post = segs.skip(index + 1);
                assert(s2 =~= pre + seq![t1, t2] + post);
                assert(segs =~= pre + seq![segs[index]] + post);
                assert(s2.take(index + 1) =~= pre + seq![t1]);
                assert(seq![t1, t2] =~= seq![t1] + seq![t2]);
                lemma_doc_len_concat(pre, seq![t1]);
                lemma_doc_len_single(t1);
                lemma_doc_len_concat(pre + seq![t1, t2], post);
                lemma_doc_len_concat(pre, seq![t1, t2]);
                lemma_doc_len_concat(seq![t1], seq![t2]);
                lemma_doc_len_single(t2);
                lemma_doc_len_concat(pre + seq![segs[index]], post);
                lemma_doc_len_concat(pre, seq![segs[index]]);
                lemma_doc_len_single(segs[index]);
                assert(text =~= text.take(k) + text.skip(k));
                lemma_utf16_len_concat(text.take(k), text.skip(k));
                lemma_plain_text_concat(pre + seq![t1, t2], post);
                lemma_plain_text_concat(pre, seq![t1, t2]);
                lemma_plain_text_concat(seq![t1], seq![t2]);
                lemma_plain_text_single(t1);
                lemma_plain_text_single(t2);
                lemma_plain_text_concat(pre + seq![segs[index]], post);
                lemma_plain_text_concat(pre, seq![segs[index]]);
                lemma_plain_text_single(segs[index]);
                assert(plain_text(pre) + (text.take(k) + text.skip(k)) =~= plain_text(pre) + text.take(k)
                    + text.skip(k));
            },
            _ => {},
        }
    } else {
        lemma_doc_len_take_next(segs, index);
        lemma_split_from(segs, pos, index + 1, offset + seg_len(segs[index]));
    }
}

/// An insert that applies puts the new segments exactly at UTF-16 position
/// `pos`: what stands before them is `pos` units long, and before and after
/// together are the old document, same length and same text, split at most
/// once. An insert that does not apply appends the new segments.
pub proof fn lemma_insert_places_content(segs: Seq<SegmentView>, pos: int, new: Seq<SegmentView>)
    ensures
        insert_spec(segs, pos, new).1 ==> exists|before: Seq<SegmentView>, after: Seq<SegmentView>|
            #![trigger before + new + after]
            insert_spec(segs, pos, new).0 == before + new + after && doc_len(before) == pos && doc_len(before + after)
                == doc_len(segs) && plain_text(before + after) == plain_text(segs),
        !insert_spec(segs, pos, new).1 ==> insert_spec(segs, pos, new).0 == segs + new,
        doc_len(insert_spec(segs, pos, new).0) == doc_len(segs) + doc_len(new),
{
    assert(segs.take(0) =~= Seq::<SegmentView>::empty());
    match split_spec(segs, pos) {
        Some(x) => {
            lemma_split_from(segs, pos, 0, 0);
            let before = x.0.take(x.1);
            let after = x.0.skip(x.1);
            assert(before + after =~= x.0);
            lemma_doc_len_concat(before + new, after);
            lemma_doc_len_concat(before, new);
            lemma_doc_len_concat(before, after);
            assert(insert_spec(segs, pos, new).0 == before + new + after);
        },
        None => {
            lemma_doc_len_concat(segs, new);
        },
    }
}


/// Making a boundary keeps every boundary there was: each position where a
/// segment started still has a segment starting there.
proof fn lemma_split_keeps_boundaries(segs: Seq<SegmentView>, pos: int, index: int, offset: int, k: int)
    requires
        0 <= index <= segs.len(),
        offset == doc_len(segs.take(index)),
        split_from(segs, pos, index, offset) is Some,
        0 <= k <= segs.len(),
    ensures
        exists|k2: int|
            0 <= k2 <= (split_from(segs, pos, index, offset)->0).0.len() && #[trigger] doc_len(
                (split_from(segs, pos, index, offset)->0).0.take(k2),
            ) == doc_len(segs.take(k)),
    decreases segs.len() - index,
{
    let s2 = (split_from(segs, pos, index, offset)->0).0;
    if index >= segs.len() || offset == pos {
        assert(s2 == segs);
        assert(doc_len(s2.take(k)) == doc_len(segs.take(k)));
    } else if pos < offset + seg_len(segs[index]) {
        match segs[index] {
            SegmentView::Text { text, props } => {
                let c = char_split_from(text, pos - offset, 0, 0)->0;
                assert(text.take(0) =~= Seq::<char>::empty());
                lemma_char_split(text, pos - offset, 0, 0);
                let t1 = SegmentView::Text { text: text.take(c), props };
                let t2 = SegmentView::Text { text: text.skip(c), props };
                assert(s2 == segs.update(index, t1).insert(index + 1, t2));
                if k <= index {
                    assert(s2.take(k) =~= segs.take(k));
                    assert(doc_len(s2.take(k)) == doc_len(segs.take(k)));
                } else {
                    let pre = segs.take(index);
                    let mid = segs.subrange(index + 1, k);
                    assert(s2.take(k + 1) =~= pre + seq![t1, t2] + mid);
                    assert(segs.take(k) =~= pre + seq![segs[index]] + mid);
                    lemma_doc_len_concat(pre + seq![t1, t2], mid);
                    lemma_doc_len_concat(pre, seq![t1, t2]);
                    assert(seq![t1, t2] =~= seq![t1] + seq![t2]);
                    lemma_doc_len_concat(seq![t1], seq![t2]);
                    lemma_doc_len_single(t1);
                    lemma_doc_len_single(t2);
                    lemma_doc_len_concat(pre + seq![segs[index]], mid);
                    lemma_doc_len_concat(pre, seq![segs[index]]);
                    lemma_doc_len_single(segs[index]);
                    assert(text =~= text.take(c) + text.skip(c));
                    lemma_utf16_len_concat(text.take(c), text.skip(c));
                    assert(doc_len(s2.take(k + 1)) == doc_len(segs.take(k)));
                }
            },
            _ => {},
        }
    } else {
        lemma_doc_len_take_next(segs, index);
        lemma_split_keeps_boundaries(segs, pos, index + 1, offset + seg_len(segs[index]), k);
    }
}

/// When some segment starts at `end`, the scan for a boundary at `end` finds
/// one: the segments before the index it gives are `end` units long.
proof fn lemma_boundary_found(segs: Seq<SegmentView>, end: int, index: int, offset: int, k: int)
    requires
        0 <= index <= k <= segs.len(),
        offset == doc_len(segs.take(index)),
        doc_len(segs.take(k)) == end,
    ensures
        index <= boundary_from(segs, end, index, offset) <= segs.len(),
        doc_len(segs.take(boundary_from(segs, end, index, offset))) == end,
    decreases segs.len() - index,
{
    if index >= segs.len() {
        assert(index == k);
    } else if offset != end {
        assert(index != k);
        lemma_doc_len_take_next(segs, index);
        lemma_boundary_found(segs, end, index + 1, offset + seg_len(segs[index]), k);
    }
}

/// A remove that applies deletes exactly `[start, end)`: what is left is the
/// part before `start` followed by the part after `end`, and the part taken
/// out is `end - start` UTF-16 units long. Together the three parts are the
/// old document, same length and same text. A remove that does not apply
/// leaves the text as it was.
pub proof fn lemma_remove_deletes_its_range(segs: Seq<SegmentView>, start: int, end: int)
    ensures
        remove_spec(segs, start, end).1 ==> exists|before: Seq<SegmentView>, gone: Seq<SegmentView>, after: Seq<
            SegmentView,
        >|
            #![trigger before + gone + after]
            remove_spec(segs, start, end).0 == before + after && doc_len(before) == start && doc_len(gone) == end
                - start && doc_len(before + gone + after) == doc_len(segs) && plain_text(before + gone + after)
                == plain_text(segs),
        remove_spec(segs, start, end).1 ==> doc_len(remove_spec(segs, start, end).0) == doc_len(segs) - (end
            - start),
        !remove_spec(segs, start, end).1 ==> plain_text(remove_spec(segs, start, end).0) == plain_text(segs)
            && doc_len(remove_spec(segs, start, end).0) == doc_len(segs),
{
    assert(segs.take(0) =~= Seq::<SegmentView>::empty());
    if end > start {
        match split_spec(segs, end) {
            None => {},
            Some(a) => {
                lemma_split_from(segs, end, 0, 0);
                assert(a.0.take(0) =~= Seq::<SegmentView>::empty());
                match split_spec(a.0, start) {
                    None => {},
                    Some(b) => {
                        lemma_split_from(a.0, start, 0, 0);
                        lemma_split_keeps_boundaries(a.0, start, 0, 0, a.1);
                        let k2 = choose|k2: int|
                            0 <= k2 <= b.0.len() && #[trigger] doc_len(b.0.take(k2)) == doc_len(a.0.take(a.1));
                        assert(b.0.take(0) =~= Seq::<SegmentView>::empty());
                        lemma_boundary_found(b.0, end, 0, 0, k2);
                        let to = boundary_from(b.0, end, 0, 0);
                        if b.1 <= to {
                            let before = b.0.take(b.1);
                            let gone = b.0.subrange(b.1, to);
                            let after = b.0.skip(to);
                            assert(before + gone + after =~= b.0);
                            assert(b.0.take(to) =~= before + gone);
                            lemma_doc_len_concat(before, gone);
                            lemma_doc_len_concat(before + gone, after);
                            lemma_doc_len_concat(before, after);
                            assert(remove_spec(segs, start, end).0 == before + after);
                        }
                    },
                }
            },
        }
    }
}

} // verus!
