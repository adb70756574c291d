//! Turning merge-tree segments into document blocks.
//!
//! A marker terminates the text run before it and carries that block's
//! properties. The very first segments of a body are often markers with nothing
//! before them, which is how an empty leading paragraph or a table-of-contents
//! widget is represented.
//!
//! ```text
//! TEXT  "Lead-in heading: "             {format!bold: true}
//! TEXT  "the sentence that follows"    {}
//! MARK                                  {nodeType: Paragraph,
//!                                        list!reference: "0;list!list-...030"}
//! ```
//!
//! becomes one list item at depth 0 whose content is bold text followed by
//! plain text.
//!
//! This is reverse-engineered behaviour and is not based on a published
//! Microsoft Prague/Fluid file-format specification.

use vstd::prelude::*;
use crate::fluid::merge_tree::{Segment, SegmentView, segment_views, prop_text, prop_true};
use crate::fluid::properties::{Properties, ListReference, parse_u32, parse_u32_text, first_semicolon};
use crate::json::{JsonValue, view_members, lemma_field_of_view};
use crate::operations::log::is_white;
use crate::text::{chars_of, has_prefix, same_text, starts_with};
use crate::warning::{Warning, WarningView, warning_views};
use crate::analysis::{Analysis, body_index, hex, shift};
use crate::discovery::envelope::EnvelopeIndex;
use crate::digest::hex_of;
use crate::container::identity_views;
use crate::operations::{ReplaySummaryView, ops_for, channel_for, first_seen_tally, rank_order, tally_views};
use crate::operations::log::{op_views, opt_chars, AddressedView};
use crate::operations::replay::{Replay, replay_ops};
use crate::order::stable_sort_by;
use crate::fluid::merge_tree::{MergeTree, RoleEvidence, TreeRole, copy_segments, bytes_less, compare_digests};
use crate::operations::{ReplaySummary, segments_text, plain_text};
use crate::text::{decimal, decimal_digits, string_of};
use super::model::{Block, BlockView, Inline, InlineView, inline_views, block_views, lemma_inline_views_single,
    ContentSource, Document, Metadata, TitleSelection};

verus! {

/// A segment's properties, as content.
pub type PropsView = Seq<(Seq<char>, JsonValue)>;

/// The formatting that distinguishes one inline run from the next.
pub struct StyleView {
    pub bold: bool,
    pub italic: bool,
    pub link: Option<Seq<char>>,
}

/// The formatting a segment's properties give.
pub open spec fn style_of(p: PropsView) -> StyleView {
    StyleView {
        bold: prop_true(p, "format!bold"@),
        italic: prop_true(p, "format!italic"@),
        link: prop_text(p, "hyperlink!url"@),
    }
}

/// Wraps a run in its formatting: italic innermost, then bold, then the link.
pub open spec fn wrap_style(st: StyleView, inner: InlineView) -> InlineView {
    let a = if st.italic { InlineView::Italic(seq![inner]) } else { inner };
    let b = if st.bold { InlineView::Bold(seq![a]) } else { a };
    match st.link {
        Some(t) => InlineView::Link(seq![b], t),
        None => b,
    }
}

/// How many leading entries of `run` have style `st`.
pub open spec fn style_prefix(run: Seq<(Seq<char>, PropsView)>, st: StyleView) -> int
    decreases run.len(),
{
    if run.len() == 0 || style_of(run[0].1) != st {
        0
    } else {
        1 + style_prefix(run.drop_first(), st)
    }
}

pub proof fn lemma_style_prefix(run: Seq<(Seq<char>, PropsView)>, st: StyleView)
    ensures
        0 <= style_prefix(run, st) <= run.len(),
        run.len() > 0 && style_of(run[0].1) == st ==> style_prefix(run, st) >= 1,
    decreases run.len(),
{
    if run.len() > 0 && style_of(run[0].1) == st {
        lemma_style_prefix(run.drop_first(), st);
    }
}

/// The texts of a run, concatenated.
pub open spec fn run_text(run: Seq<(Seq<char>, PropsView)>) -> Seq<char>
    decreases run.len(),
{
    if run.len() == 0 {
        Seq::empty()
    } else {
        run_text(run.drop_last()) + run.last().0
    }
}

/// Groups consecutive entries that share formatting into inline runs; a group
/// whose text is empty gives no run.
pub open spec fn inlines_of(run: Seq<(Seq<char>, PropsView)>) -> Seq<InlineView>
    decreases run.len(),
{
    if run.len() == 0 {
        Seq::empty()
    } else {
        let st = style_of(run[0].1);
        let n = style_prefix(run, st);
        proof {
            lemma_style_prefix(run, st);
        }
        let text = run_text(run.take(n));
        let rest = inlines_of(run.skip(n));
        if text.len() == 0 {
            rest
        } else {
            seq![wrap_style(st, InlineView::Text(text))] + rest
        }
    }
}

/// Text without leading and trailing whitespace.
pub open spec fn trim_text(s: Seq<char>) -> Seq<char> {
    trim_end(trim_start(s))
}

/// Text without leading whitespace.
pub open spec fn trim_start(s: Seq<char>) -> Seq<char>
    decreases s.len(),
{
    if s.len() > 0 && is_white(s[0]) { trim_start(s.drop_first()) } else { s }
}

/// Text without trailing whitespace.
pub open spec fn trim_end(s: Seq<char>) -> Seq<char>
    decreases s.len(),
{
    if s.len() > 0 && is_white(s.last()) { trim_end(s.drop_last()) } else { s }
}

/// `style!reference` read as a heading level: `Heading N` with N from 1 to 6.
pub open spec fn heading_level_of(p: PropsView) -> Option<u8> {
    match prop_text(p, "style!reference"@) {
        Some(style) => if has_prefix(style, "Heading "@) {
            match parse_u32(trim_text(style.skip(8))) {
                Some(n) => if 1 <= n <= 6 { Some(n as u8) } else { None },
                None => None,
            }
        } else {
            None
        },
        None => None,
    }
}

/// The block a finished run forms with the properties of the marker that
/// closed it: a heading when the style says so, else a list item when there is
/// a list reference, else embedded content when the node type is not
/// `Paragraph`, else a paragraph.
pub open spec fn block_of(run: Seq<(Seq<char>, PropsView)>, p: PropsView) -> BlockView {
    let content = inlines_of(run);
    match heading_level_of(p) {
        Some(level) => BlockView::Heading { level, content, props: p },
        None => match prop_text(p, "list!reference"@) {
            Some(r) if r.len() > 0 => {
                let (depth, list_id) = match first_semicolon(r) {
                    Some(i) => (match parse_u32(r.take(i)) {
                        Some(d) => d,
                        None => 0u32,
                    }, Some(r.skip(i + 1))),
                    None => (0u32, None),
                };
                BlockView::ListItem { depth, list_id, content, props: p }
            },
            _ => match prop_text(p, "nodeType"@) {
                Some(nt) if nt != "Paragraph"@ => BlockView::Embedded { node_type: nt, content, props: p },
                _ => BlockView::Paragraph { content, props: p },
            },
        },
    }
}

/// The state of splitting segments into blocks: the blocks so far, the open
/// text run, and how many unparsed segments were met.
pub open spec fn blocks_scan(segs: Seq<SegmentView>) -> (Seq<BlockView>, Seq<(Seq<char>, PropsView)>, int)
    decreases segs.len(),
{
    if segs.len() == 0 {
        (Seq::empty(), Seq::empty(), 0)
    } else {
        let s = blocks_scan(segs.drop_last());
        match segs.last() {
            SegmentView::Text { text, props } => (s.0, s.1.push((text, props)), s.2),
            SegmentView::Marker { props, .. } => (s.0.push(block_of(s.1, props)), Seq::empty(), s.2),
            SegmentView::Unknown { raw } => (s.0.push(BlockView::Unknown { raw }), s.1, s.2 + 1),
        }
    }
}

/// The blocks segments form: a marker closes the text run before it; text
/// after the final marker still forms a block.
pub open spec fn blocks_of(segs: Seq<SegmentView>) -> Seq<BlockView> {
    let s = blocks_scan(segs);
    if s.1.len() > 0 { s.0.push(block_of(s.1, Seq::empty())) } else { s.0 }
}

/// The warning given for each unparsed segment.
pub open spec fn unknown_segment_warning() -> WarningView {
    WarningView {
        code: "unknown_segment"@,
        message: "a segment matched no known shape and was preserved unparsed"@,
        member_index: None,
        file_offset: None,
    }
}

/// The content of an open run.
pub open spec fn run_views(run: Seq<(&str, &Properties)>) -> Seq<(Seq<char>, PropsView)> {
    run.map_values(|e: (&str, &Properties)| (e.0@, e.1.view_props()))
}

/// The formatting of one segment.
struct Style {
    bold: bool,
    italic: bool,
    link: Option<String>,
}

impl Style {
    spec fn view_style(&self) -> StyleView {
        StyleView {
            bold: self.bold,
            italic: self.italic,
            link: match self.link {
                Some(s) => Some(s@),
                None => None,
            },
        }
    }

    fn of(props: &Properties) -> (r: Style)
        ensures
            r.view_style() == style_of(props.view_props()),
    {
        proof {
            lemma_field_of_view(props.0@, "format!bold"@);
            lemma_field_of_view(props.0@, "format!italic"@);
            lemma_field_of_view(props.0@, "hyperlink!url"@);
        }
        Style {
            bold: props.bold() == Some(true),
            italic: props.italic() == Some(true),
            link: match props.hyperlink_url() {
                Some(s) => Some(s.to_string()),
                None => None,
            },
        }
    }

    fn same(&self, other: &Style) -> (r: bool)
        ensures
            r == (self.view_style() == other.view_style()),
    {
        self.bold == other.bold && self.italic == other.italic && match (&self.link, &other.link) {
            (Some(a), Some(b)) => same_text(a.as_str(), b.as_str()),
            (None, None) => true,
            _ => false,
        }
    }

    fn wrap(&self, inner: Inline) -> (r: Inline)
        ensures
            r.view_inline() == wrap_style(self.view_style(), inner.view_inline()),
    {
        let mut current = inner;
        let ghost iv = inner.view_inline();
        if self.italic {
            current = Inline::Italic { content: single(current) };
        }
        assert(current.view_inline() == if self.italic { InlineView::Italic(seq![iv]) } else { iv });
        let ghost a = current.view_inline();
        if self.bold {
            current = Inline::Bold { content: single(current) };
        }
        assert(current.view_inline() == if self.bold { InlineView::Bold(seq![a]) } else { a });
        let ghost b = current.view_inline();
        match &self.link {
            Some(target) => {
                current = Inline::Link { content: single(current), target: target.clone() };
            },
            None => {},
        }
        current
    }
}

/// A vector holding one run.
fn single(x: Inline) -> (v: Vec<Inline>)
    ensures
        inline_views(v@) == seq![x.view_inline()],
{
    let mut v: Vec<Inline> = Vec::new();
    v.push(x);
    assert(v@ =~= seq![x]);
    proof { lemma_inline_views_single(x); }
    v
}

/// Groups consecutive segments that share formatting into inline runs.
fn inlines_from(run: &Vec<(&str, &Properties)>) -> (r: Vec<Inline>)
    ensures
        inline_views(r@) == inlines_of(run_views(run@)),
{
    let ghost rv = run_views(run@);
    let mut inlines: Vec<Inline> = Vec::new();
    let mut index: usize = 0;
    let ghost mut acc: Seq<InlineView> = Seq::empty();
    assert(rv.skip(0) =~= rv);
    while index < run.len()
        invariant
            index <= run@.len(),
            rv == run_views(run@),
            rv.len() == run@.len(),
            inline_views(inlines@) == acc,
            inlines_of(rv) == acc + inlines_of(rv.skip(index as int)),
        decreases run@.len() - index,
    {
        let style = Style::of(run[index].1);
        let ghost st = style.view_style();
        let ghost rest = rv.skip(index as int);
        assert(rest[0] == rv[index as int]);
        let ghost n = style_prefix(rest, st);
        proof {
            lemma_style_prefix(rest, st);
        }
        let mut text = String::new();
        let start = index;
        assert(rest.take(0) =~= Seq::<(Seq<char>, PropsView)>::empty());
        assert(rest.skip(0) =~= rest);
        while index < run.len() && Style::of(run[index].1).same(&style)
            invariant
                start <= index <= run@.len(),
                rv == run_views(run@),
                rest == rv.skip(start as int),
                st == style.view_style(),
                text@ == run_text(rest.take(index - start)),
                style_prefix(rest, st) == (index - start) + style_prefix(rest.skip(index - start), st),
            decreases run@.len() - index,
        {
            assert(rest.skip(index - start)[0] == rv[index as int]);
            assert(rest.skip(index - start).drop_first() =~= rest.skip(index - start + 1));
            assert(rest.take(index - start + 1).drop_last() =~= rest.take(index - start));
            assert(rest.take(index - start + 1).last() == rv[index as int]);
            text.append(run[index].0);
            index += 1;
        }
        proof {
            if index < run@.len() {
                assert(rest.skip(index - start)[0] == rv[index as int]);
            }
            assert(rest.skip(index - start) =~= rv.skip(index as int));
        }
        assert(n == index - start);
        if text.as_str().is_empty() {
            continue;
        }
        let w = style.wrap(Inline::text(text.as_str()));
        let ghost before = inlines@;
        inlines.push(w);
        proof {
            lemma_inline_views_push(before, w);
            acc = acc + seq![w.view_inline()];
        }
    }
    assert(rv.skip(index as int) =~= Seq::<(Seq<char>, PropsView)>::empty());
    assert(acc + Seq::<InlineView>::empty() =~= acc);
    inlines
}

proof fn lemma_inline_views_push(s: Seq<Inline>, x: Inline)
    ensures
        inline_views(s.push(x)) == inline_views(s) + seq![x.view_inline()],
    decreases s.len(),
{
    if s.len() == 0 {
        assert(s.push(x) =~= seq![x]);
        lemma_inline_views_single(x);
        assert(inline_views(s) =~= Seq::<InlineView>::empty());
    } else {
        let t = s.subrange(1, s.len() as int);
        lemma_inline_views_push(t, x);
        assert(s.push(x).subrange(1, s.len() as int + 1) =~= t.push(x));
        assert(s.push(x)[0] == s[0]);
        assert(inline_views(s.push(x)) =~= inline_views(s) + seq![x.view_inline()]);
    }
}

/// Text without leading and trailing whitespace.
pub(crate) fn trim_chars(s: &[char]) -> (r: Vec<char>)
    ensures
        r@ == trim_text(s@),
{
    let mut lo: usize = 0;
    assert(s@.skip(0) =~= s@);
    while lo < s.len() && (('\u{9}' <= s[lo] && s[lo] <= '\u{d}') || s[lo] == ' ' || s[lo] == '\u{85}' || s[lo]
        == '\u{a0}' || s[lo] == '\u{1680}' || ('\u{2000}' <= s[lo] && s[lo] <= '\u{200a}') || s[lo] == '\u{2028}'
        || s[lo] == '\u{2029}' || s[lo] == '\u{202f}' || s[lo] == '\u{205f}' || s[lo] == '\u{3000}')
        invariant
            lo <= s@.len(),
            trim_start(s@) == trim_start(s@.skip(lo as int)),
        decreases s@.len() - lo,
    {
        assert(s@.skip(lo as int)[0] == s@[lo as int]);
        assert(s@.skip(lo as int).drop_first() =~= s@.skip(lo + 1));
        lo += 1;
    }
    proof {
        if lo < s@.len() {
            assert(s@.skip(lo as int)[0] == s@[lo as int]);
        }
    }
    let ghost t = s@.skip(lo as int);
    let mut hi: usize = s.len();
    assert(t.take(t.len() as int) =~= t);
    while hi > lo && (('\u{9}' <= s[hi - 1] && s[hi - 1] <= '\u{d}') || s[hi - 1] == ' ' || s[hi - 1] == '\u{85}'
        || s[hi - 1] == '\u{a0}' || s[hi - 1] == '\u{1680}' || ('\u{2000}' <= s[hi - 1] && s[hi - 1] <= '\u{200a}')
        || s[hi - 1] == '\u{2028}' || s[hi - 1] == '\u{2029}' || s[hi - 1] == '\u{202f}' || s[hi - 1] == '\u{205f}'
        || s[hi - 1] == '\u{3000}')
        invariant
            lo <= hi <= s@.len(),
            t == s@.skip(lo as int),
            trim_end(t) == trim_end(t.take(hi - lo)),
        decreases hi,
    {
        assert(t.take(hi - lo).last() == s@[hi - 1]);
        assert(t.take(hi - lo).drop_last() =~= t.take(hi - lo - 1));
        hi -= 1;
    }
    proof {
        if hi > lo {
            assert(t.take(hi - lo).last() == s@[hi - 1]);
        } else {
            assert(t.take(0) =~= Seq::<char>::empty());
        }
    }
    let mut out: Vec<char> = Vec::new();
    let mut k = lo;
    while k < hi
        invariant
            lo <= k <= hi <= s@.len(),
            out@ == s@.subrange(lo as int, k as int),
        decreases hi - k,
    {
        out.push(s[k]);
        assert(out@ =~= s@.subrange(lo as int, k + 1));
        k += 1;
    }
    assert(out@ =~= t.take(hi - lo));
    out
}

/// Reads `style!reference` as a heading level.
///
/// Observed values: `Heading 1`, `Heading 2`, `Body`. Only the `Heading N` form
/// produces a heading; anything else leaves the block a paragraph.
fn heading_level(props: &Properties) -> (r: Option<u8>)
    ensures
        r == heading_level_of(props.view_props()),
{
    proof {
        lemma_field_of_view(props.0@, "style!reference"@);
    }
    let style = match props.style_reference() {
        Some(s) => s,
        None => return None,
    };
    if !starts_with(style, "Heading ") {
        return None;
    }
    proof { reveal_strlit("Heading "); }
    let cs = chars_of(style);
    let rest = &cs.as_slice()[8..cs.len()];
    assert(rest@ =~= style@.skip(8));
    let trimmed = trim_chars(rest);
    match parse_u32_text(trimmed.as_slice()) {
        Some(n) => if 1 <= n && n <= 6 { Some(n as u8) } else { None },
        None => None,
    }
}

/// Builds one block from a finished text run and the properties of the marker
/// that closed it.
fn block_from(run: &Vec<(&str, &Properties)>, props: &Properties) -> (b: Block)
    ensures
        b@ == block_of(run_views(run@), props.view_props()),
{
    let content = inlines_from(run);
    let props = props.clone();
    proof {
        lemma_field_of_view(props.0@, "list!reference"@);
        lemma_field_of_view(props.0@, "nodeType"@);
    }
    match heading_level(&props) {
        Some(level) => return Block::Heading { level, content, props },
        None => {},
    }
    match props.list_reference() {
        Some(list) => {
            let depth = match list.depth {
                Some(d) => d,
                None => 0,
            };
            return Block::ListItem { depth, list_id: list.list_id, content, props };
        },
        None => {},
    }
    let node_type = match props.node_type() {
        Some(t) => if same_text(t, "Paragraph") { None } else { Some(t.to_string()) },
        None => None,
    };
    match node_type {
        Some(node_type) => Block::Embedded { node_type, content, props },
        None => Block::Paragraph { content, props },
    }
}

/// Splits a run of segments into blocks at marker boundaries. Each unparsed
/// segment is kept as a block of its own and reported.
pub fn blocks_from(segments: &[Segment], warnings: &mut Vec<Warning>) -> (r: Vec<Block>)
    ensures
        block_views(r@) == blocks_of(segment_views(segments@)),
        final(warnings)@.map_values(|w: Warning| w@) == old(warnings)@.map_values(|w: Warning| w@) + Seq::new(
            blocks_scan(segment_views(segments@)).2 as nat,
            |i: int| unknown_segment_warning(),
        ),
{
    let ghost sv = segment_views(segments@);
    let ghost w0 = warnings@.map_values(|w: Warning| w@);
    let mut blocks: Vec<Block> = Vec::new();
    let mut run: Vec<(&str, &Properties)> = Vec::new();
    let mut unknown: usize = 0;
    let mut i: usize = 0;
    assert(sv.take(0) =~= Seq::<SegmentView>::empty());
    assert(block_views(blocks@) =~= Seq::<BlockView>::empty());
    assert(run_views(run@) =~= Seq::<(Seq<char>, PropsView)>::empty());
    assert(w0 + Seq::new(0, |k: int| unknown_segment_warning()) =~= w0);
    while i < segments.len()
        invariant
            i <= segments@.len(),
            sv == segment_views(segments@),
            unknown <= i,
            ({
                let s = blocks_scan(sv.take(i as int));
                &&& block_views(blocks@) == s.0
                &&& run_views(run@) == s.1
                &&& unknown as int == s.2
            }),
            warnings@.map_values(|w: Warning| w@) == w0 + Seq::new(unknown as nat, |k: int| unknown_segment_warning()),
        decreases segments@.len() - i,
    {
        assert(sv.take(i + 1).drop_last() =~= sv.take(i as int));
        assert(sv.take(i + 1).last() == segments@[i as int]@);
        match &segments[i] {
            Segment::Text { text, props } => {
                let ghost before = run@;
                run.push((text.as_str(), props));
                assert(run_views(run@) =~= run_views(before).push((text@, props.view_props())));
            },
            Segment::Marker { props, .. } => {
                let b = block_from(&run, props);
                let ghost before = blocks@;
                blocks.push(b);
                assert(block_views(blocks@) =~= block_views(before).push(b@));
                run = Vec::new();
                assert(run_views(run@) =~= Seq::<(Seq<char>, PropsView)>::empty());
            },
            Segment::Unknown { raw } => {
                let ghost wb = warnings@;
                let w = Warning::new("unknown_segment", String::from_str("a segment matched no known shape and was preserved unparsed"));
                warnings.push(w);
                assert(w@ == unknown_segment_warning());
                assert(warnings@.map_values(|w: Warning| w@) =~= wb.map_values(|w: Warning| w@).push(w@));
                assert(warnings@.map_values(|w: Warning| w@) =~= w0 + Seq::new(unknown as nat + 1, |k: int| unknown_segment_warning()));
                unknown += 1;
                let b = Block::Unknown { raw: raw.deep_copy() };
                let ghost before = blocks@;
                blocks.push(b);
                assert(block_views(blocks@) =~= block_views(before).push(b@));
            },
        }
        i += 1;
    }
    assert(sv.take(i as int) =~= sv);
    // Text after the final marker still forms a block.
    if run.len() > 0 {
        let empty = Properties::new();
        assert(view_members(empty.0@) =~= Seq::<(Seq<char>, JsonValue)>::empty());
        let b = block_from(&run, &empty);
        let ghost before = blocks@;
        blocks.push(b);
        assert(block_views(blocks@) =~= block_views(before).push(b@));
    }
    blocks
}


/// Rule names recorded with a resolved title.
pub const RULE_STRUCTURAL_PACKAGE: &'static str = "the container framing places this tree under the page title component";
pub const RULE_STRUCTURAL_HANDLE: &'static str = "the container framing points the page header handle at this tree's channel";
pub const RULE_BARE_TREE: &'static str = "the only title candidate whose text carries no formatting and whose closing marker carries only markerId and nodeType";
pub const RULE_SOLE_CANDIDATE: &'static str = "the only title candidate in the file";

/// The component that owns a Loop page canvas.
pub const CANVAS_PACKAGE: &'static str = "LoopCanvasComponentSingleton";

/// What `format!("{:?}", s)` gives for a string: it in double quotes, with
/// quotes, backslashes and unprintable characters escaped.
pub uninterp spec fn debug_quoted(s: Seq<char>) -> Seq<char>;

/// `format!("{:?}", s)` for a string.
///
/// Trusted: calls the `Debug` implementation of `str` through `format!`. The
/// contract names the result; it depends on the text alone.
#[verifier::external_body]
pub(crate) fn debug_text(s: &str) -> (r: String)
    ensures
        r@ == debug_quoted(s@),
{
    format!("{:?}", s)
}

/// The plain text of a tree, trimmed.
pub open spec fn tree_text_of(segs: Seq<SegmentView>) -> Seq<char> {
    trim_text(plain_text(segs))
}

/// The text of a tree: its text segments joined, whitespace trimmed.
pub fn tree_text(tree: &MergeTree) -> (r: String)
    ensures
        r@ == tree_text_of(segment_views(tree.segments@)),
{
    let joined = segments_text(tree.segments.as_slice());
    let cs = chars_of(joined.as_str());
    let t = trim_chars(cs.as_slice());
    string_of(t.as_slice())
}

/// Whether a property list's keys are all among `allowed`.
pub open spec fn keys_within(p: PropsView, allowed: Seq<Seq<char>>) -> bool {
    forall|i: int| 0 <= i < p.len() ==> allowed.contains(#[trigger] p[i].0)
}

/// Whether a tree is bare: text carries only attribution, markers only
/// `markerId`, `nodeType` and attribution, and nothing is unparsed.
pub open spec fn bare(segs: Seq<SegmentView>) -> bool {
    forall|i: int| 0 <= i < segs.len() ==> match #[trigger] segs[i] {
        SegmentView::Text { props, .. } => keys_within(props, seq!["attribution"@]),
        SegmentView::Marker { props, .. } => keys_within(props, seq!["markerId"@, "nodeType"@, "attribution"@]),
        SegmentView::Unknown { .. } => false,
    }
}

/// True when nothing about the tree's properties suggests it is anything but a
/// plain title.
///
/// The page title tree is *bare*: its text segments carry no formatting or
/// locale properties, and its closing marker carries only `markerId` and
/// `nodeType`. A heading inside an embedded card, by contrast, carries
/// `format!bold` and `content!locale`. That test does *not* separate a title
/// from a table cell, which is bare too.
pub fn is_bare(tree: &MergeTree) -> (r: bool)
    ensures
        r == bare(segment_views(tree.segments@)),
{
    let ghost sv = segment_views(tree.segments@);
    let mut i: usize = 0;
    while i < tree.segments.len()
        invariant
            i <= tree.segments@.len(),
            sv == segment_views(tree.segments@),
            forall|k: int| 0 <= k < i ==> match #[trigger] sv[k] {
                SegmentView::Text { props, .. } => keys_within(props, seq!["attribution"@]),
                SegmentView::Marker { props, .. } => keys_within(props, seq!["markerId"@, "nodeType"@, "attribution"@]),
                SegmentView::Unknown { .. } => false,
            },
        decreases tree.segments@.len() - i,
    {
        let seg = &tree.segments[i];
        assert(sv[i as int] == seg@);
        let (props, marker) = match seg {
            Segment::Text { props, .. } => (props, false),
            Segment::Marker { props, .. } => (props, true),
            Segment::Unknown { .. } => return false,
        };
        let ghost pv = props.view_props();
        proof { crate::json::lemma_view_members_index(props.0@); }
        let mut j: usize = 0;
        while j < props.0.len()
            invariant
                j <= props.0@.len(),
                pv == props.view_props(),
                pv.len() == props.0@.len(),
                i < sv.len(),
                sv == segment_views(tree.segments@),
                match sv[i as int] {
                    SegmentView::Text { props: p, .. } => !marker && p == pv,
                    SegmentView::Marker { props: p, .. } => marker && p == pv,
                    SegmentView::Unknown { .. } => false,
                },
                forall|q: int| 0 <= q < props.0@.len() ==> (#[trigger] pv[q]).0 == props.0@[q].0@,
                forall|q: int| 0 <= q < j ==> (if marker {
                    seq!["markerId"@, "nodeType"@, "attribution"@]
                } else {
                    seq!["attribution"@]
                }).contains(#[trigger] pv[q].0),
            decreases props.0@.len() - j,
        {
            let key = props.0[j].0.as_str();
            let ok = if marker {
                same_text(key, "markerId") || same_text(key, "nodeType") || same_text(key, "attribution")
            } else {
                same_text(key, "attribution")
            };
            proof {
                reveal_strlit("markerId");
                reveal_strlit("nodeType");
                reveal_strlit("attribution");
            }
            if !ok {
                proof {
                    let allowed = if marker {
                        seq!["markerId"@, "nodeType"@, "attribution"@]
                    } else {
                        seq!["attribution"@]
                    };
                    if allowed.contains(pv[j as int].0) {
                        let w = choose|w: int| 0 <= w < allowed.len() && allowed[w] == pv[j as int].0;
                        assert(allowed[w] == key@);
                    }
                    assert(!keys_within(pv, allowed));
                    assert(!bare(sv));
                }
                return false;
            }
            proof {
                let allowed = if marker {
                    seq!["markerId"@, "nodeType"@, "attribution"@]
                } else {
                    seq!["attribution"@]
                };
                if marker {
                    if key@ == "markerId"@ {
                        assert(allowed[0] == key@);
                    } else if key@ == "nodeType"@ {
                        assert(allowed[1] == key@);
                    } else {
                        assert(allowed[2] == key@);
                    }
                } else {
                    assert(allowed[0] == key@);
                }
            }
            j += 1;
        }
        i += 1;
    }
    true
}

/// The content of a title selection.
pub enum TitleView {
    Resolved(Seq<char>, Seq<char>),
    Ambiguous(Option<Seq<char>>, Seq<Seq<char>>, Seq<char>),
    NoTitle,
}

impl TitleSelection {
    /// The content of this selection.
    pub open spec fn view_title(&self) -> TitleView {
        match self {
            TitleSelection::Resolved { title, rule } => TitleView::Resolved(title@, rule@),
            TitleSelection::Ambiguous { chosen, candidates, reason } => TitleView::Ambiguous(
                match chosen {
                    Some(c) => Some(c@),
                    None => None,
                },
                candidates@.map_values(|c: String| c@),
                reason@,
            ),
            TitleSelection::NoTitle => TitleView::NoTitle,
        }
    }
}

/// The position of the first tree in `pool` with the smallest content hash.
pub open spec fn least_hash(pool: Seq<MergeTree>) -> int
    decreases pool.len(),
{
    if pool.len() <= 1 {
        0
    } else {
        let k = least_hash(pool.drop_last());
        if bytes_less(pool.last().content_hash@, pool[k].content_hash@) { pool.len() - 1 } else { k }
    }
}

proof fn lemma_least_hash(pool: Seq<MergeTree>)
    ensures
        pool.len() > 0 ==> 0 <= least_hash(pool) < pool.len(),
    decreases pool.len(),
{
    if pool.len() > 1 {
        lemma_least_hash(pool.drop_last());
        assert(pool.drop_last()[least_hash(pool.drop_last())] == pool[least_hash(pool.drop_last())]);
    }
}

/// The title the trees give: the tree the framing names as the title;
/// otherwise the only title candidate; otherwise the only bare candidate;
/// otherwise an ambiguous choice, the one with the smallest content hash among
/// the bare candidates (or all candidates when none is bare).
pub open spec fn title_choice(trees: Seq<MergeTree>) -> TitleView {
    let titles = trees.filter(|t: MergeTree| t.role == TreeRole::Title);
    let candidates = trees.filter(|t: MergeTree| t.role == TreeRole::TitleCandidate);
    let bare_ones = candidates.filter(|t: MergeTree| bare(segment_views(t.segments@)));
    if titles.len() > 0 {
        TitleView::Resolved(
            tree_text_of(segment_views(titles[0].segments@)),
            if titles[0].role_evidence is FluidHandle {
                "the container framing points the page header handle at this tree's channel"@
            } else {
                "the container framing places this tree under the page title component"@
            },
        )
    } else if candidates.len() == 0 {
        TitleView::NoTitle
    } else if candidates.len() == 1 {
        TitleView::Resolved(tree_text_of(segment_views(candidates[0].segments@)), "the only title candidate in the file"@)
    } else if bare_ones.len() == 1 {
        TitleView::Resolved(
            tree_text_of(segment_views(bare_ones[0].segments@)),
            "the only title candidate whose text carries no formatting and whose closing marker carries only markerId and nodeType"@,
        )
    } else {
        let pool = if bare_ones.len() == 0 { candidates } else { bare_ones };
        TitleView::Ambiguous(
            Some(tree_text_of(segment_views(pool[least_hash(pool)].segments@))),
            pool.map_values(|t: MergeTree| tree_text_of(segment_views(t.segments@))),
            "several trees are structurally indistinguishable from the title"@,
        )
    }
}


/// Trees among `trees` satisfying a role test, as references.
fn trees_with_role(trees: &Vec<MergeTree>, role: TreeRole) -> (r: Vec<&MergeTree>)
    ensures
        r@.map_values(|t: &MergeTree| *t) == trees@.filter(|t: MergeTree| t.role == role),
{
    let ghost pred = |t: MergeTree| t.role == role;
    let mut out: Vec<&MergeTree> = Vec::new();
    let mut i: usize = 0;
    assert(trees@.take(0).filter(pred) =~= Seq::<MergeTree>::empty());
    while i < trees.len()
        invariant
            i <= trees@.len(),
            pred == |t: MergeTree| t.role == role,
            out@.map_values(|t: &MergeTree| *t) == trees@.take(i as int).filter(pred),
        decreases trees@.len() - i,
    {
        let t = &trees[i];
        assert(trees@.take(i + 1) =~= trees@.take(i as int).push(*t));
        proof { trees@.take(i as int).lemma_filter_push(*t, pred); }
        let ghost before = out@;
        if t.role == role {
            out.push(t);
            assert(out@.map_values(|t: &MergeTree| *t) =~= before.map_values(|t: &MergeTree| *t).push(*t));
        }
        i += 1;
    }
    assert(trees@.take(i as int) =~= trees@);
    out
}

/// The bare trees among `pool`, as references.
fn bare_trees<'a>(pool: &Vec<&'a MergeTree>) -> (r: Vec<&'a MergeTree>)
    ensures
        r@.map_values(|t: &MergeTree| *t) == pool@.map_values(|t: &MergeTree| *t).filter(
            |t: MergeTree| bare(segment_views(t.segments@)),
        ),
{
    let ghost pv = pool@.map_values(|t: &MergeTree| *t);
    let ghost pred = |t: MergeTree| bare(segment_views(t.segments@));
    let mut out: Vec<&MergeTree> = Vec::new();
    let mut i: usize = 0;
    assert(pv.take(0).filter(pred) =~= Seq::<MergeTree>::empty());
    while i < pool.len()
        invariant
            i <= pool@.len(),
            pv == pool@.map_values(|t: &MergeTree| *t),
            pred == |t: MergeTree| bare(segment_views(t.segments@)),
            out@.map_values(|t: &MergeTree| *t) == pv.take(i as int).filter(pred),
        decreases pool@.len() - i,
    {
        let t = pool[i];
        assert(pv.take(i + 1) =~= pv.take(i as int).push(*t));
        proof { pv.take(i as int).lemma_filter_push(*t, pred); }
        let ghost before = out@;
        if is_bare(t) {
            out.push(t);
            assert(out@.map_values(|t: &MergeTree| *t) =~= before.map_values(|t: &MergeTree| *t).push(*t));
        }
        i += 1;
    }
    assert(pv.take(i as int) =~= pv);
    out
}

/// The message of a `title_ambiguous` warning.
pub open spec fn ambiguous_message(n: nat, chosen: Seq<char>) -> Seq<char> {
    decimal_digits(n) + " trees could be the document title; chose "@ + debug_quoted(chosen)
        + " by content hash. Structural classification from the container framing is needed to decide this properly."@
}

/// Chooses the document title from the title candidates. An ambiguous choice
/// is reported as a `title_ambiguous` warning.
pub fn select_title(analysis: &Analysis, warnings: &mut Vec<Warning>) -> (r: TitleSelection)
    ensures
        r.view_title() == title_choice(analysis.trees@),
        r.view_title() is Ambiguous ==> final(warnings)@.len() == old(warnings)@.len() + 1
            && final(warnings)@.take(old(warnings)@.len() as int) == old(warnings)@
            && (r.view_title() matches TitleView::Ambiguous(Some(c), cs, _) && final(warnings)@.last()@ == WarningView {
                code: "title_ambiguous"@,
                message: ambiguous_message(cs.len(), c),
                member_index: None,
                file_offset: None,
            }),
        !(r.view_title() is Ambiguous) ==> final(warnings)@ == old(warnings)@,
{
    let titles = trees_with_role(&analysis.trees, TreeRole::Title);
    let ghost tv = analysis.trees@;

    if titles.len() > 0 {
        let tree = titles[0];
        assert(titles@.map_values(|t: &MergeTree| *t)[0] == *tree);
        let rule = match &tree.role_evidence {
            RoleEvidence::FluidHandle { .. } => RULE_STRUCTURAL_HANDLE,
            _ => RULE_STRUCTURAL_PACKAGE,
        };
        return TitleSelection::Resolved { title: tree_text(tree), rule };
    }
    let candidates = trees_with_role(&analysis.trees, TreeRole::TitleCandidate);
    let ghost cv = candidates@.map_values(|t: &MergeTree| *t);

    if candidates.len() == 0 {
        return TitleSelection::NoTitle;
    }
    if candidates.len() == 1 {
        assert(cv[0] == *candidates[0]);
        return TitleSelection::Resolved { title: tree_text(candidates[0]), rule: RULE_SOLE_CANDIDATE };
    }
    let bare_ones = bare_trees(&candidates);
    let ghost bv = bare_ones@.map_values(|t: &MergeTree| *t);
    if bare_ones.len() == 1 {
        assert(bv[0] == *bare_ones[0]);
        return TitleSelection::Resolved { title: tree_text(bare_ones[0]), rule: RULE_BARE_TREE };
    }
    // Still ambiguous. Choose deterministically by content hash so the output
    // never depends on file order, and say so.
    let pool = if bare_ones.len() == 0 { candidates } else { bare_ones };
    let ghost pv = pool@.map_values(|t: &MergeTree| *t);
    assert(pv == if bv.len() == 0 { cv } else { bv });
    let mut best: usize = 0;
    let mut k: usize = 1;
    assert(pv.take(1).len() == 1);
    proof { lemma_least_hash(pv); }
    while k < pool.len()
        invariant
            1 <= k <= pool@.len(),
            pv == pool@.map_values(|t: &MergeTree| *t),
            best as int == least_hash(pv.take(k as int)),
            best < k,
        decreases pool@.len() - k,
    {
        assert(pv.take(k + 1).drop_last() =~= pv.take(k as int));
        assert(pv.take(k + 1).last() == *pool[k as int]);
        assert(pv.take(k + 1)[best as int] == *pool[best as int]);
        if compare_digests(&pool[k].content_hash, &pool[best].content_hash) < 0 {
            best = k;
        }
        k += 1;
    }
    assert(pv.take(k as int) =~= pv);
    let chosen = tree_text(pool[best]);
    let mut texts: Vec<String> = Vec::new();
    let mut q: usize = 0;
    while q < pool.len()
        invariant
            q <= pool@.len(),
            pv == pool@.map_values(|t: &MergeTree| *t),
            texts@.len() == q,
            forall|j: int| 0 <= j < q ==> (#[trigger] texts@[j])@ == tree_text_of(segment_views(pv[j].segments@)),
        decreases pool@.len() - q,
    {
        texts.push(tree_text(pool[q]));
        q += 1;
    }
    let mut m = decimal(pool.len() as u64);
    m.append(" trees could be the document title; chose ");
    m.append(debug_text(chosen.as_str()).as_str());
    m.append(" by content hash. Structural classification from the container framing is needed to decide this properly.");
    let ghost wb = warnings@;
    warnings.push(Warning::new("title_ambiguous", m));
    assert(warnings@.take(wb.len() as int) =~= wb);
    let r = TitleSelection::Ambiguous {
        chosen: Some(chosen),
        candidates: texts,
        reason: "several trees are structurally indistinguishable from the title",
    };
    assert(r.view_title()->Ambiguous_1 =~= pv.map_values(|t: MergeTree| tree_text_of(segment_views(t.segments@))));
    r
}


/// A warning with no position.
pub open spec fn plain_warning(code: Seq<char>, message: Seq<char>) -> WarningView {
    WarningView { code, message, member_index: None, file_offset: None }
}

/// The component package the framing gives a channel: that of the first
/// decoded framing that names the channel.
pub open spec fn package_in(envs: Seq<EnvelopeIndex>, channel: Seq<char>) -> Option<Seq<char>>
    decreases envs.len(),
{
    if envs.len() == 0 {
        None
    } else if envs[0].channel_packages.as_map().contains_key(channel) {
        Some(envs[0].channel_packages.as_map()[channel]@)
    } else {
        package_in(envs.drop_first(), channel)
    }
}

/// The component package that owns the channel an address lies in.
pub open spec fn package_for(a: Analysis, address: Seq<char>) -> Option<Seq<char>> {
    match channel_for(op_views(a.operations.ops@), address) {
        Some(c) => package_in(a.envelopes@, c),
        None => None,
    }
}

/// Addresses with their insert counts, most inserts first.
pub open spec fn ranked_addresses(a: Analysis) -> Seq<(Seq<char>, int)> {
    stable_sort_by(first_seen_tally(op_views(a.operations.ops@)), rank_order())
}

/// The first ranked address whose channel the framing places under the page
/// canvas.
pub open spec fn first_canvas(a: Analysis, ranked: Seq<(Seq<char>, int)>) -> Option<int>
    decreases ranked.len(),
{
    if ranked.len() == 0 {
        None
    } else if package_for(a, ranked[0].0) == Some("LoopCanvasComponentSingleton"@) {
        Some(0)
    } else {
        shift(first_canvas(a, ranked.drop_first()), 1)
    }
}

proof fn lemma_first_canvas_range(a: Analysis, ranked: Seq<(Seq<char>, int)>)
    ensures
        first_canvas(a, ranked) matches Some(i) ==> 0 <= i < ranked.len(),
    decreases ranked.len(),
{
    if ranked.len() > 0 {
        lemma_first_canvas_range(a, ranked.drop_first());
    }
}

/// The address whose operations rebuild the body: the one the framing places
/// under the page canvas, else the one with the most inserts.
pub open spec fn chosen_address(a: Analysis) -> Option<Seq<char>> {
    let ranked = ranked_addresses(a);
    if ranked.len() == 0 {
        None
    } else {
        match first_canvas(a, ranked) {
            Some(i) => Some(ranked[i].0),
            None => Some(ranked[0].0),
        }
    }
}

/// The position of the first tree the framing places in channel `c`.
pub open spec fn tree_in_channel(trees: Seq<MergeTree>, c: Seq<char>) -> Option<int>
    decreases trees.len(),
{
    if trees.len() == 0 {
        None
    } else if (trees[0].location matches Some(l) && opt_chars(l.channel_id) == Some(c)) {
        Some(0)
    } else {
        shift(tree_in_channel(trees.drop_first(), c), 1)
    }
}

/// The segments replay starts from: when the log follows the snapshot, those
/// of the snapshot tree in the replayed channel; otherwise none.
pub open spec fn replay_base(a: Analysis, channel: Option<Seq<char>>) -> Seq<SegmentView> {
    if a.operations.follows_snapshot {
        match channel {
            Some(c) => match tree_in_channel(a.trees@, c) {
                Some(i) => segment_views(a.trees@[i].segments@),
                None => Seq::empty(),
            },
            None => Seq::empty(),
        }
    } else {
        Seq::empty()
    }
}

pub open spec fn unconfirmed_warning(chosen: Seq<char>) -> WarningView {
    plain_warning(
        "operation_target_unconfirmed"@,
        "the container framing does not confirm which channel is the page body; replayed the address with the most inserts ("@
            + chosen + ")"@,
    )
}

pub open spec fn several_channels_warning(n: nat, chosen: Seq<char>) -> WarningView {
    plain_warning(
        "operations_span_several_channels"@,
        "operations target "@ + decimal_digits(n) + " channels; only "@ + chosen + " was replayed"@,
    )
}

pub open spec fn rebuilt_warning(segments: nat, applied: nat, seeded: bool) -> WarningView {
    plain_warning(
        "body_rebuilt_from_operations"@,
        "the snapshot holds no body text; rebuilt "@ + decimal_digits(segments) + " segment(s) from "@
            + decimal_digits(applied) + " operation(s)"@ + if seeded {
            " applied on top of the snapshot"@
        } else {
            ""@
        },
    )
}

/// Rebuilding the body from the operation log: the summary and segments when
/// the replayed text is not blank, and the warnings given either way.
pub open spec fn body_replay(a: Analysis) -> (Option<(ReplaySummaryView, Seq<SegmentView>)>, Seq<WarningView>) {
    match chosen_address(a) {
        None => (None, Seq::empty()),
        Some(chosen) => {
            let ranked = ranked_addresses(a);
            let package = package_for(a, chosen);
            let channel = channel_for(op_views(a.operations.ops@), chosen);
            let w1 = if package != Some("LoopCanvasComponentSingleton"@) {
                seq![unconfirmed_warning(chosen)]
            } else {
                Seq::empty()
            };
            let w2 = if ranked.len() > 1 {
                seq![several_channels_warning(ranked.len(), chosen)]
            } else {
                Seq::empty()
            };
            let base = replay_base(a, channel);
            let r = replay_ops(base, ops_for(op_views(a.operations.ops@), chosen));
            let w = w1 + w2 + r.warnings;
            if trim_text(plain_text(r.segments)).len() == 0 {
                (None, w)
            } else {
                (
                    Some(
                        (
                            ReplaySummaryView {
                                address: chosen,
                                seeded_from_snapshot: base.len() > 0,
                                channel,
                                component_package: package,
                                operations_applied: r.applied,
                                operations_skipped: r.skipped,
                                segments: r.segments.len() as int,
                            },
                            r.segments,
                        ),
                    ),
                    w.push(rebuilt_warning(r.segments.len(), r.applied as nat, base.len() > 0)),
                )
            }
        },
    }
}

/// The component package that owns the channel of `address`.
fn package_of(analysis: &Analysis, address: &str) -> (r: Option<String>)
    requires
        analysis.wf(),
    ensures
        opt_chars(r) == package_for(*analysis, address@),
{
    let channel = analysis.operations.channel_of(address);
    match channel {
        None => None,
        Some(c) => {
            let ghost envs = analysis.envelopes@;
            let mut i: usize = 0;
            assert(envs.skip(0) =~= envs);
            while i < analysis.envelopes.len()
                invariant
                    i <= envs.len(),
                    envs == analysis.envelopes@,
                    analysis.wf(),
                    package_in(envs, c@) == package_in(envs.skip(i as int), c@),
                    channel_for(op_views(analysis.operations.ops@), address@) == Some(c@),
                decreases envs.len() - i,
            {
                assert(envs.skip(i as int)[0] == envs[i as int]);
                assert(envs.skip(i as int).drop_first() =~= envs.skip(i + 1));
                assert(envs[i as int].wf());
                match analysis.envelopes[i].channel_packages.get(c.as_str()) {
                    Some(p) => {
                        let q = p.clone();
                        assert(envs[i as int].channel_packages.as_map().contains_key(c@));
                        assert(envs[i as int].channel_packages.as_map()[c@]@ == q@);
                        assert(envs.skip(i as int).len() > 0);
                        assert(package_in(envs.skip(i as int), c@) == Some(q@));
                        return Some(q);
                    },
                    None => {},
                }
                i += 1;
            }
            None
        },
    }
}

/// Whether a package is the page canvas.
fn is_canvas(package: &Option<String>) -> (r: bool)
    ensures
        r == (opt_chars(*package) == Some("LoopCanvasComponentSingleton"@)),
{
    proof { reveal_strlit("LoopCanvasComponentSingleton"); }
    match package {
        Some(p) => same_text(p.as_str(), CANVAS_PACKAGE),
        None => false,
    }
}

/// The position of the first ranked address under the page canvas.
fn first_canvas_index(analysis: &Analysis, ranked: &Vec<(String, usize)>) -> (r: Option<usize>)
    requires
        analysis.wf(),
    ensures
        shift(
            match r {
                Some(k) => Some(k as int),
                None => None,
            },
            0,
        ) == first_canvas(*analysis, tally_views(ranked@)),
{
    let ghost tv = tally_views(ranked@);
    let mut i: usize = 0;
    assert(tv.skip(0) =~= tv);
    while i < ranked.len()
        invariant
            i <= ranked@.len(),
            tv == tally_views(ranked@),
            analysis.wf(),
            first_canvas(*analysis, tv) == shift(first_canvas(*analysis, tv.skip(i as int)), i as int),
        decreases ranked@.len() - i,
    {
        assert(tv.skip(i as int)[0] == tv[i as int]);
        assert(tv.skip(i as int).drop_first() =~= tv.skip(i + 1));
        let p = package_of(analysis, ranked[i].0.as_str());
        if is_canvas(&p) {
            return Some(i);
        }
        i += 1;
    }
    None
}

/// The position of the first tree the framing places in channel `c`.
fn tree_in_channel_index(trees: &Vec<MergeTree>, c: &str) -> (r: Option<usize>)
    ensures
        shift(
            match r {
                Some(k) => Some(k as int),
                None => None,
            },
            0,
        ) == tree_in_channel(trees@, c@),
{
    let mut i: usize = 0;
    assert(trees@.skip(0) =~= trees@);
    while i < trees.len()
        invariant
            i <= trees@.len(),
            tree_in_channel(trees@, c@) == shift(tree_in_channel(trees@.skip(i as int), c@), i as int),
        decreases trees@.len() - i,
    {
        assert(trees@.skip(i as int)[0] == trees@[i as int]);
        assert(trees@.skip(i as int).drop_first() =~= trees@.skip(i + 1));
        let here = match &trees[i].location {
            Some(l) => match &l.channel_id {
                Some(id) => same_text(id.as_str(), c),
                None => false,
            },
            None => false,
        };
        if here {
            return Some(i);
        }
        i += 1;
    }
    None
}

fn unconfirmed(chosen: &str) -> (w: Warning)
    ensures
        w@ == unconfirmed_warning(chosen@),
{
    let mut m = String::from_str(
        "the container framing does not confirm which channel is the page body; replayed the address with the most inserts (",
    );
    m.append(chosen);
    m.append(")");
    Warning::new("operation_target_unconfirmed", m)
}

fn several_channels(n: usize, chosen: &str) -> (w: Warning)
    ensures
        w@ == several_channels_warning(n as nat, chosen@),
{
    let mut m = String::from_str("operations target ");
    m.append(decimal(n as u64).as_str());
    m.append(" channels; only ");
    m.append(chosen);
    m.append(" was replayed");
    Warning::new("operations_span_several_channels", m)
}

fn rebuilt(segments: usize, applied: usize, seeded: bool) -> (w: Warning)
    ensures
        w@ == rebuilt_warning(segments as nat, applied as nat, seeded),
{
    let mut m = String::from_str("the snapshot holds no body text; rebuilt ");
    m.append(decimal(segments as u64).as_str());
    m.append(" segment(s) from ");
    m.append(decimal(applied as u64).as_str());
    m.append(" operation(s)");
    if seeded {
        m.append(" applied on top of the snapshot");
    } else {
        m.append("");
    }
    Warning::new("body_rebuilt_from_operations", m)
}

proof fn lemma_tree_in_channel_range(trees: Seq<MergeTree>, c: Seq<char>)
    ensures
        tree_in_channel(trees, c) matches Some(i) ==> 0 <= i < trees.len(),
    decreases trees.len(),
{
    if trees.len() > 0 {
        lemma_tree_in_channel_range(trees.drop_first(), c);
    }
}

/// The segments replay starts from.
fn replay_seed(analysis: &Analysis, channel: &Option<String>) -> (r: Vec<Segment>)
    ensures
        segment_views(r@) == replay_base(*analysis, opt_chars(*channel)),
{
    if analysis.operations.follows_snapshot {
        match channel {
            Some(c) => {
                proof { lemma_tree_in_channel_range(analysis.trees@, c@); }
                match tree_in_channel_index(&analysis.trees, c.as_str()) {
                    Some(t) => copy_segments(&analysis.trees[t].segments),
                    None => {
                        assert(segment_views(Seq::<Segment>::empty()) =~= Seq::<SegmentView>::empty());
                        Vec::new()
                    },
                }
            },
            None => {
                assert(segment_views(Seq::<Segment>::empty()) =~= Seq::<SegmentView>::empty());
                Vec::new()
            },
        }
    } else {
        assert(segment_views(Seq::<Segment>::empty()) =~= Seq::<SegmentView>::empty());
        Vec::new()
    }
}

/// Rebuilds the body from the operation log when the snapshot has none.
///
/// Chooses which address to replay by asking the container framing which
/// channel is the page canvas. Failing that, the address with the most inserts
/// wins, which is deterministic and reported.
pub fn replay_body(analysis: &Analysis, warnings: &mut Vec<Warning>) -> (r: Option<(ReplaySummary, Vec<Segment>)>)
    requires
        analysis.wf(),
    ensures
        warning_views(final(warnings)@) == warning_views(old(warnings)@) + body_replay(*analysis).1,
        match body_replay(*analysis).0 {
            None => r is None,
            Some(x) => r matches Some(y) && y.0@ == x.0 && segment_views(y.1@) == x.1,
        },
{
    let ghost w0 = warning_views(warnings@);
    let log = &analysis.operations;
    let by_inserts = log.addresses_by_inserts();
    let ghost ranked = tally_views(by_inserts@);
    assert(ranked == ranked_addresses(*analysis));
    if log.is_empty() || by_inserts.len() == 0 {
        proof {
            if log.ops@.len() == 0 {
                assert(op_views(log.ops@) =~= Seq::<AddressedView>::empty());
                assert(first_seen_tally(op_views(log.ops@)) =~= Seq::<(Seq<char>, int)>::empty());
            }
            assert(warning_views(warnings@) =~= w0 + Seq::<WarningView>::empty());
        }
        return None;
    }
    let found = first_canvas_index(analysis, &by_inserts);
    proof { lemma_first_canvas_range(*analysis, ranked); }
    let chosen = match found {
        Some(k) => by_inserts[k].0.clone(),
        None => by_inserts[0].0.clone(),
    };
    assert(chosen_address(*analysis) == Some(chosen@)) by {
        match found {
            Some(k) => { assert(ranked[k as int].0 == by_inserts@[k as int].0@); },
            None => { assert(ranked[0].0 == by_inserts@[0].0@); },
        }
    }

    let package = package_of(analysis, chosen.as_str());
    let confirmed = is_canvas(&package);
    let ghost w1: Seq<WarningView> = if !confirmed { seq![unconfirmed_warning(chosen@)] } else { Seq::empty() };
    if !confirmed {
        warnings.push(unconfirmed(chosen.as_str()));
    }
    assert(warning_views(warnings@) =~= w0 + w1);
    let ghost w2: Seq<WarningView> = if ranked.len() > 1 {
        seq![several_channels_warning(ranked.len(), chosen@)]
    } else {
        Seq::empty()
    };
    if by_inserts.len() > 1 {
        warnings.push(several_channels(by_inserts.len(), chosen.as_str()));
    }
    assert(warning_views(warnings@) =~= w0 + w1 + w2);

    // Seed from the snapshot when the log provably starts where it ends. The
    // snapshot for an operation-backed page is usually a few empty markers, and
    // the first operations insert at positions that only make sense on top of
    // them.
    let channel = log.channel_of(chosen.as_str());
    let base = replay_seed(analysis, &channel);
    assert(segment_views(base@) == replay_base(*analysis, opt_chars(channel)));
    let seeded = base.len() > 0;

    let result = log.replay_address(chosen.as_str(), base);
    let Replay { segments, applied, skipped, warnings: replay_warnings } = result;
    let ghost w3 = warning_views(warnings@);
    let mut k: usize = 0;
    while k < replay_warnings.len()
        invariant
            k <= replay_warnings@.len(),
            warning_views(warnings@) == w3 + warning_views(replay_warnings@).take(k as int),
        decreases replay_warnings@.len() - k,
    {
        let w = replay_warnings[k].clone();
        let ghost before = warnings@;
        warnings.push(w);
        assert(warning_views(warnings@) =~= warning_views(before).push(replay_warnings@[k as int]@));
        assert(warning_views(replay_warnings@).take(k + 1) =~= warning_views(replay_warnings@).take(k as int).push(
            replay_warnings@[k as int]@,
        ));
        assert(warning_views(warnings@) =~= w3 + warning_views(replay_warnings@).take(k + 1));
        k += 1;
    }
    assert(warning_views(replay_warnings@).take(k as int) =~= warning_views(replay_warnings@));

    let text = segments_text(segments.as_slice());
    let cs = chars_of(text.as_str());
    let trimmed = trim_chars(cs.as_slice());
    if trimmed.len() == 0 {
        return None;
    }

    let rebuilt = rebuilt(segments.len(), applied, seeded);
    let ghost wb = warnings@;
    warnings.push(rebuilt);
    assert(warning_views(warnings@) =~= warning_views(wb).push(warnings@.last()@));

    let n = segments.len();
    let summary = ReplaySummary {
        address: chosen,
        seeded_from_snapshot: seeded,
        channel,
        component_package: package,
        operations_applied: applied,
        operations_skipped: skipped,
        segments: n,
    };
    Some((summary, segments))
}


/// The tree whose snapshot holds the body text, when one does.
pub open spec fn snapshot_body(a: Analysis) -> Option<int> {
    match body_index(a.trees@) {
        Some(i) => if a.trees@[i].evidence.text_segments > 0 { Some(i) } else { None },
        None => None,
    }
}

/// The warning given when neither the snapshot nor the operations hold a body.
pub open spec fn no_body_warning() -> WarningView {
    plain_warning(
        "no_body_tree"@,
        "no merge tree in the snapshot carries text, and no operations rebuilt one"@,
    )
}

/// Where the body comes from: its segments, their source, the replay that
/// rebuilt them, and the warnings choosing them gave.
///
/// The snapshot wins when it holds a usable body, otherwise the operation log.
/// The two are never combined, because combining them safely needs proof that
/// the operations begin after this exact snapshot.
pub open spec fn body_source(a: Analysis) -> (Seq<SegmentView>, ContentSource, Option<ReplaySummaryView>, Seq<WarningView>) {
    match snapshot_body(a) {
        Some(i) => (segment_views(a.trees@[i].segments@), ContentSource::Snapshot, None, Seq::empty()),
        None => {
            let replay = body_replay(a);
            match replay.0 {
                Some(x) => (
                    x.1,
                    if x.0.seeded_from_snapshot { ContentSource::SnapshotPlusOperations } else { ContentSource::Operations },
                    Some(x.0),
                    replay.1,
                ),
                None => match body_index(a.trees@) {
                    Some(i) => (segment_views(a.trees@[i].segments@), ContentSource::Snapshot, None, replay.1),
                    None => (Seq::empty(), ContentSource::Snapshot, None, replay.1.push(no_body_warning())),
                },
            }
        },
    }
}

/// The title a selection gives.
pub open spec fn title_text(t: TitleView) -> Option<Seq<char>> {
    match t {
        TitleView::Resolved(title, _) => Some(title),
        TitleView::Ambiguous(chosen, _, _) => chosen,
        TitleView::NoTitle => None,
    }
}

/// The warnings a title selection gives.
pub open spec fn title_warnings(t: TitleView) -> Seq<WarningView> {
    match t {
        TitleView::Ambiguous(Some(c), cs, _) => seq![plain_warning("title_ambiguous"@, ambiguous_message(cs.len(), c))],
        _ => Seq::empty(),
    }
}

/// The segments of the body source, for the exec side.
fn body_segments(analysis: &Analysis, warnings: &mut Vec<Warning>) -> (r: (Vec<Segment>, ContentSource, Option<ReplaySummary>))
    requires
        analysis.wf(),
    ensures
        segment_views(r.0@) == body_source(*analysis).0,
        r.1 == body_source(*analysis).1,
        match r.2 {
            Some(s) => body_source(*analysis).2 == Some(s@),
            None => body_source(*analysis).2 is None,
        },
        warning_views(final(warnings)@) == warning_views(old(warnings)@) + body_source(*analysis).3,
{
    let ghost w0 = warning_views(warnings@);
    let body = analysis.body_candidate();
    let snapshot_has_text = match body {
        Some(tree) => tree.evidence.text_segments > 0,
        None => false,
    };
    if snapshot_has_text {
        assert(warning_views(warnings@) =~= w0 + Seq::<WarningView>::empty());
        let tree = body.unwrap();
        return (copy_segments(&tree.segments), ContentSource::Snapshot, None);
    }
    match replay_body(analysis, warnings) {
        Some((summary, segments)) => {
            let source = if summary.seeded_from_snapshot {
                ContentSource::SnapshotPlusOperations
            } else {
                ContentSource::Operations
            };
            (segments, source, Some(summary))
        },
        None => {
            match body {
                Some(tree) => (copy_segments(&tree.segments), ContentSource::Snapshot, None),
                None => {
                    let ghost wb = warnings@;
                    warnings.push(
                        Warning::new(
                            "no_body_tree",
                            String::from_str("no merge tree in the snapshot carries text, and no operations rebuilt one"),
                        ),
                    );
                    assert(warning_views(warnings@) =~= warning_views(wb).push(no_body_warning()));
                    assert(segment_views(Seq::<Segment>::empty()) =~= Seq::<SegmentView>::empty());
                    (Vec::new(), ContentSource::Snapshot, None)
                },
            }
        },
    }
}

/// Reconstructs a document from an analysed container.
///
/// The body comes from the snapshot when it holds text, otherwise from the
/// operation log ([`body_source`]); its segments split into blocks at markers
/// ([`blocks_of`]); the title is chosen from the trees ([`title_choice`]). The
/// warnings are those choosing the body gave, one per unparsed segment, and
/// one when the title is ambiguous.
pub fn reconstruct(analysis: &Analysis) -> (r: (Document, Vec<Warning>))
    requires
        analysis.wf(),
    ensures
        block_views(r.0.blocks@) == blocks_of(body_source(*analysis).0),
        r.0.metadata.title_selection.view_title() == title_choice(analysis.trees@),
        opt_chars(r.0.title) == title_text(title_choice(analysis.trees@)),
        r.0.metadata.source_path@ == analysis.path@,
        r.0.metadata.file_size == analysis.file_size,
        r.0.metadata.format@ == analysis.assessment.format@,
        identity_views(r.0.metadata.components@) == identity_views(analysis.assessment.components@),
        r.0.metadata.content_source == body_source(*analysis).1,
        opt_chars(r.0.metadata.body_tree_hash) == match body_index(analysis.trees@) {
            Some(i) => Some(hex_of(analysis.trees@[i].content_hash@)),
            None => None,
        },
        r.0.metadata.body_segment_count == body_source(*analysis).0.len(),
        r.0.metadata.merge_trees == analysis.trees@.len(),
        match r.0.metadata.replay {
            Some(s) => body_source(*analysis).2 == Some(s@),
            None => body_source(*analysis).2 is None,
        },
        warning_views(r.1@) == body_source(*analysis).3 + Seq::new(
            blocks_scan(body_source(*analysis).0).2 as nat,
            |i: int| unknown_segment_warning(),
        ) + title_warnings(title_choice(analysis.trees@)),
{
    let mut warnings: Vec<Warning> = Vec::new();
    assert(warning_views(warnings@) =~= Seq::<WarningView>::empty());
    let (segments, content_source, replay) = body_segments(analysis, &mut warnings);
    let blocks = blocks_from(segments.as_slice(), &mut warnings);
    let ghost wt = warnings@;
    let title_selection = select_title(analysis, &mut warnings);
    proof {
        let tv = title_selection.view_title();
        if tv is Ambiguous {
            assert(warnings@ =~= wt.push(warnings@.last()));
            assert(warning_views(warnings@) =~= warning_views(wt) + title_warnings(tv));
        } else {
            assert(warning_views(warnings@) =~= warning_views(wt) + title_warnings(tv));
        }
    }
    let title = match &title_selection {
        TitleSelection::Resolved { title, .. } => Some(title.clone()),
        TitleSelection::Ambiguous { chosen, .. } => match chosen {
            Some(c) => Some(c.clone()),
            None => None,
        },
        TitleSelection::NoTitle => None,
    };
    let body = analysis.body_candidate();
    let body_tree_hash = match body {
        Some(tree) => Some(hex(&tree.content_hash)),
        None => None,
    };
    let assessment = analysis.assessment.copy();
    let n = segments.len();
    let metadata = Metadata {
        source_path: analysis.path.clone(),
        file_size: analysis.file_size,
        format: assessment.format,
        components: assessment.components,
        content_source,
        title_selection,
        body_tree_hash,
        body_segment_count: n,
        merge_trees: analysis.trees.len(),
        replay,
    };
    (Document { title, blocks, metadata }, warnings)
}


/// The snapshot wins when it holds a usable body: its segments are used as
/// they are, nothing is replayed, and the operation log adds nothing to them.
pub proof fn lemma_snapshot_body_is_never_combined(a: Analysis)
    requires
        snapshot_body(a) is Some,
    ensures
        body_source(a).0 == segment_views(a.trees@[snapshot_body(a)->0].segments@),
        body_source(a).1 == ContentSource::Snapshot,
        body_source(a).2 is None,
        body_source(a).3 == Seq::<WarningView>::empty(),
{
}

/// A replay starts from the snapshot's segments only when the operation log
/// provably begins where the snapshot ends; otherwise it starts from nothing.
pub proof fn lemma_replay_is_seeded_only_after_the_snapshot(a: Analysis)
    ensures
        body_replay(a).0 matches Some(x) && x.0.seeded_from_snapshot ==> a.operations.follows_snapshot,
        body_source(a).1 == ContentSource::SnapshotPlusOperations ==> a.operations.follows_snapshot,
{
}

/// The first element a filter keeps is the first element the predicate holds
/// of.
proof fn lemma_filter_first<A>(s: Seq<A>, pred: spec_fn(A) -> bool, i: int)
    requires
        0 <= i < s.len(),
        pred(s[i]),
        forall|j: int| 0 <= j < i ==> !pred(#[trigger] s[j]),
    ensures
        s.filter(pred).len() > 0,
        s.filter(pred)[0] == s[i],
{
    let a = s.take(i);
    let b = s.skip(i + 1);
    assert(s =~= a + (seq![s[i]] + b));
    assert(a.all(|x: A| !pred(x))) by {
        assert forall|j: int| 0 <= j < a.len() implies !pred(#[trigger] a[j]) by {
            assert(a[j] == s[j]);
        }
    }
    a.lemma_all_neg_filter_empty(pred);
    Seq::filter_distributes_over_add(a, seq![s[i]] + b, pred);
    b.lemma_filter_prepend(s[i], pred);
    assert(a.filter(pred) =~= Seq::<A>::empty());
}

/// The container framing decides the title: whenever some tree has the role
/// `Title`, the document title is the trimmed text of the first such tree,
/// with the rule that names how the framing placed it, whatever the other
/// trees are.
pub proof fn lemma_framing_title_decides(trees: Seq<MergeTree>, i: int)
    requires
        0 <= i < trees.len(),
        trees[i].role == TreeRole::Title,
        forall|j: int| 0 <= j < i ==> (#[trigger] trees[j]).role != TreeRole::Title,
    ensures
        title_choice(trees) == (TitleView::Resolved(
            trim_text(plain_text(segment_views(trees[i].segments@))),
            (if trees[i].role_evidence is FluidHandle {
                "the container framing points the page header handle at this tree's channel"@
            } else {
                "the container framing places this tree under the page title component"@
            }),
        )),
{
    lemma_filter_first(trees, |t: MergeTree| t.role == TreeRole::Title, i);
}

/// A character `1` to `6`, the digit of `n`.
pub open spec fn heading_digit(n: u8) -> char {
    seq!['1', '2', '3', '4', '5', '6'][n - 1]
}

/// Every heading style from `Heading 1` to `Heading 6` makes a heading of
/// that level: a run closed by a marker whose `style!reference` is
/// `Heading N` forms a heading block of level N holding the run's text.
pub proof fn lemma_heading_styles_make_headings(run: Seq<(Seq<char>, PropsView)>, p: PropsView, n: u8)
    requires
        1 <= n <= 6,
        prop_text(p, "style!reference"@) == Some("Heading "@.push(heading_digit(n))),
    ensures
        heading_level_of(p) == Some(n),
        block_of(run, p) == (BlockView::Heading { level: n, content: inlines_of(run), props: p }),
{
    reveal_strlit("Heading ");
    let style = "Heading "@.push(heading_digit(n));
    let d = heading_digit(n);
    assert(style.take(8) =~= "Heading "@);
    assert(style.skip(8) =~= seq![d]);
    assert(!is_white(d));
    assert(seq![d].drop_first() =~= Seq::<char>::empty());
    assert(seq![d].drop_last() =~= Seq::<char>::empty());
    assert(trim_start(seq![d]) == seq![d]);
    assert(trim_end(seq![d]) == seq![d]);
    assert(trim_text(seq![d]) == seq![d]);
    assert(crate::fluid::properties::all_digits(seq![d]));
    assert(crate::fluid::properties::digits_value(Seq::<char>::empty()) == 0);
    assert(crate::fluid::properties::digits_value(seq![d]) == n);
    assert(parse_u32(seq![d]) == Some(n as u32));
}

/// Without a framing title, the title falls to the heuristic candidates: none
/// means no title, and a single one is the title, with its trimmed text.
pub proof fn lemma_candidates_decide_without_framing(trees: Seq<MergeTree>)
    requires
        forall|j: int| 0 <= j < trees.len() ==> (#[trigger] trees[j]).role != TreeRole::Title,
    ensures
        (forall|j: int| 0 <= j < trees.len() ==> (#[trigger] trees[j]).role != TreeRole::TitleCandidate) ==> title_choice(
            trees,
        ) == TitleView::NoTitle,
        forall|i: int|
            0 <= i < trees.len() && (#[trigger] trees[i]).role == TreeRole::TitleCandidate && (forall|j: int|
                0 <= j < trees.len() && j != i ==> (#[trigger] trees[j]).role != TreeRole::TitleCandidate)
                ==> title_choice(trees) == TitleView::Resolved(
                trim_text(plain_text(segment_views(trees[i].segments@))),
                "the only title candidate in the file"@,
            ),
{
    let tp = |t: MergeTree| t.role == TreeRole::Title;
    let cp = |t: MergeTree| t.role == TreeRole::TitleCandidate;
    assert(trees.all(|x: MergeTree| !tp(x)));
    trees.lemma_all_neg_filter_empty(tp);
    if forall|j: int| 0 <= j < trees.len() ==> (#[trigger] trees[j]).role != TreeRole::TitleCandidate {
        assert(trees.all(|x: MergeTree| !cp(x)));
        trees.lemma_all_neg_filter_empty(cp);
    }
    assert forall|i: int|
        0 <= i < trees.len() && (#[trigger] trees[i]).role == TreeRole::TitleCandidate && (forall|j: int|
            0 <= j < trees.len() && j != i ==> (#[trigger] trees[j]).role != TreeRole::TitleCandidate)
            implies title_choice(trees) == TitleView::Resolved(
            trim_text(plain_text(segment_views(trees[i].segments@))),
            "the only title candidate in the file"@,
        ) by {
        lemma_filter_first(trees, cp, i);
        let a = trees.take(i + 1);
        let b = trees.skip(i + 1);
        assert(trees =~= a + b);
        Seq::filter_distributes_over_add(a, b, cp);
        assert(b.all(|x: MergeTree| !cp(x))) by {
            assert forall|j: int| 0 <= j < b.len() implies !cp(#[trigger] b[j]) by {
                assert(b[j] == trees[i + 1 + j]);
            }
        }
        b.lemma_all_neg_filter_empty(cp);
        a.filter_lemma(cp);
        lemma_filter_first(a, cp, i);
        assert(a.drop_last() =~= trees.take(i));
        a.drop_last().lemma_all_neg_filter_empty(cp);
        a.drop_last().lemma_filter_push(trees[i], cp);
        assert(a.drop_last().push(trees[i]) =~= a);
    }
}

/// Styles other than `Heading 1` to `Heading 6` make no heading: `Heading 0`
/// and `Heading 7` to `Heading 9` leave the level unset.
pub proof fn lemma_other_heading_styles_are_not_headings(p: PropsView, d: char)
    requires
        d == '0' || d == '7' || d == '8' || d == '9',
        prop_text(p, "style!reference"@) == Some("Heading "@.push(d)),
    ensures
        heading_level_of(p) is None,
{
    reveal_strlit("Heading ");
    let style = "Heading "@.push(d);
    assert(style.take(8) =~= "Heading "@);
    assert(style.skip(8) =~= seq![d]);
    assert(!is_white(d));
    assert(seq![d].drop_first() =~= Seq::<char>::empty());
    assert(seq![d].drop_last() =~= Seq::<char>::empty());
    assert(trim_start(seq![d]) == seq![d]);
    assert(trim_end(seq![d]) == seq![d]);
    assert(trim_text(seq![d]) == seq![d]);
    assert(crate::fluid::properties::digits_value(Seq::<char>::empty()) == 0);
    assert(crate::fluid::properties::digits_value(seq![d]) == d as int - '0' as int);
}

} // verus!
