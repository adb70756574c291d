//! The format-independent document model.
//!
//! Reconstruction produces this; renderers consume it. Nothing here knows about
//! Markdown, gzip or Fluid framing, so a new output format needs no parser
//! change and a format discovery needs no renderer change.

use vstd::prelude::*;
use crate::container::ComponentIdentity;
use crate::fluid::properties::Properties;
use crate::json::{Json, JsonValue};
use crate::operations::ReplaySummary;

verus! {

/// Where the reconstructed content came from.
#[derive(Debug, Clone, Copy, PartialEq, Eq, Structural)]
pub enum ContentSource {
    /// The current snapshot held a usable body.
    Snapshot,
    /// The snapshot body was empty; the body was replayed from operations.
    Operations,
    /// Snapshot content advanced by later operations.
    SnapshotPlusOperations,
}

impl ContentSource {
    /// The name used in reports.
    pub fn name(self) -> (r: &'static str)
        ensures
            r@ == (match self {
                ContentSource::Snapshot => "Snapshot"@,
                ContentSource::Operations => "Operations"@,
                ContentSource::SnapshotPlusOperations => "SnapshotPlusOperations"@,
            }),
    {
        match self {
            ContentSource::Snapshot => "Snapshot",
            ContentSource::Operations => "Operations",
            ContentSource::SnapshotPlusOperations => "SnapshotPlusOperations",
        }
    }
}

/// How the document title was decided.
#[derive(Debug)]
pub enum TitleSelection {
    /// One candidate stood out under a documented rule.
    Resolved { title: String, rule: &'static str },
    /// Several candidates remain. One was chosen deterministically, and the
    /// rest are listed so the choice can be checked.
    Ambiguous { chosen: Option<String>, candidates: Vec<String>, reason: &'static str },
    /// No tree looked like a title.
    NoTitle,
}

/// What the extraction used and found, for the report.
#[derive(Debug)]
pub struct Metadata {
    pub source_path: String,
    pub file_size: usize,
    pub format: String,
    pub components: Vec<ComponentIdentity>,
    pub content_source: ContentSource,
    pub title_selection: TitleSelection,
    /// SHA-256 of the tree the body was reconstructed from, when there was one.
    pub body_tree_hash: Option<String>,
    pub body_segment_count: usize,
    pub merge_trees: usize,
    /// Present when the body was rebuilt from operations.
    pub replay: Option<ReplaySummary>,
}

/// One run of inline content.
///
/// Nesting order, innermost first: text, italic, bold, link. So bold italic
/// linked text is `Link { content: [Bold([Italic([Text])])] }`.
#[derive(Debug, PartialEq)]
pub enum Inline {
    Text { text: String },
    Bold { content: Vec<Inline> },
    Italic { content: Vec<Inline> },
    Link { content: Vec<Inline>, target: String },
}

/// The content of an [`Inline`].
pub enum InlineView {
    Text(Seq<char>),
    Bold(Seq<InlineView>),
    Italic(Seq<InlineView>),
    Link(Seq<InlineView>, Seq<char>),
}

/// The contents of inline runs, in order.
pub open spec fn inline_views(s: Seq<Inline>) -> Seq<InlineView>
    decreases s,
{
    if s.len() == 0 {
        Seq::empty()
    } else {
        seq![s[0].view_inline()] + inline_views(s.subrange(1, s.len() as int))
    }
}

impl Inline {
    /// The content of this run.
    pub open spec fn view_inline(self) -> InlineView
        decreases self,
    {
        match self {
            Inline::Text { text } => InlineView::Text(text@),
            Inline::Bold { content } => InlineView::Bold(inline_views(content@)),
            Inline::Italic { content } => InlineView::Italic(inline_views(content@)),
            Inline::Link { content, target } => InlineView::Link(inline_views(content@), target@),
        }
    }

    /// A plain text run.
    pub fn text(value: &str) -> (r: Inline)
        ensures
            r.view_inline() == InlineView::Text(value@),
    {
        Inline::Text { text: value.to_string() }
    }

    /// Concatenated plain text, formatting discarded.
    pub fn plain(&self) -> (r: String)
        ensures
            r@ == plain_inline(self.view_inline()),
        decreases self,
    {
        match self {
            Inline::Text { text } => text.clone(),
            Inline::Bold { content } => {
                proof {
                    assert(decreases_to!(*self => self->Bold_content));
                }
                plain_of_vec(content)
            },
            Inline::Italic { content } => {
                proof {
                    assert(decreases_to!(*self => self->Italic_content));
                }
                plain_of_vec(content)
            },
            Inline::Link { content, .. } => {
                proof {
                    assert(decreases_to!(*self => self->Link_content));
                }
                plain_of_vec(content)
            },
        }
    }
}

/// Concatenated plain text of one run.
pub open spec fn plain_inline(v: InlineView) -> Seq<char>
    decreases v,
{
    match v {
        InlineView::Text(t) => t,
        InlineView::Bold(c) => plain_all(c),
        InlineView::Italic(c) => plain_all(c),
        InlineView::Link(c, _) => plain_all(c),
    }
}

/// Concatenated plain text of runs.
pub open spec fn plain_all(s: Seq<InlineView>) -> Seq<char>
    decreases s,
{
    if s.len() == 0 {
        Seq::empty()
    } else {
        plain_inline(s[0]) + plain_all(s.subrange(1, s.len() as int))
    }
}

pub proof fn lemma_inline_views_index(s: Seq<Inline>, i: int)
    requires
        0 <= i < s.len(),
    ensures
        inline_views(s).len() == s.len(),
        inline_views(s)[i] == s[i].view_inline(),
        inline_views(s.subrange(i, s.len() as int)) == inline_views(s).subrange(i, s.len() as int),
    decreases s.len(),
{
    lemma_inline_views_len(s);
    if i > 0 {
        let t = s.subrange(1, s.len() as int);
        lemma_inline_views_index(t, i - 1);
        assert(t.subrange(i - 1, t.len() as int) =~= s.subrange(i, s.len() as int));
        assert(inline_views(s).subrange(i, s.len() as int) =~= inline_views(t).subrange(i - 1, t.len() as int));
    } else {
        assert(s.subrange(0, s.len() as int) =~= s);
        assert(inline_views(s).subrange(0, s.len() as int) =~= inline_views(s));
    }
}

/// The content of one run on its own.
pub proof fn lemma_inline_views_single(x: Inline)
    ensures
        inline_views(seq![x]) == seq![x.view_inline()],
{
    let s = seq![x];
    assert(s.subrange(1, 1) =~= Seq::<Inline>::empty());
    assert(s[0] == x);
    assert(inline_views(s.subrange(1, 1)) =~= Seq::<InlineView>::empty());
    assert(inline_views(s) == seq![s[0].view_inline()] + inline_views(s.subrange(1, s.len() as int)));
    assert(inline_views(s) =~= seq![x.view_inline()]);
}

pub proof fn lemma_inline_views_len(s: Seq<Inline>)
    ensures
        inline_views(s).len() == s.len(),
    decreases s.len(),
{
    if s.len() > 0 {
        lemma_inline_views_len(s.subrange(1, s.len() as int));
    }
}

/// Concatenated plain text of a vector of runs.
fn plain_of_vec(inlines: &Vec<Inline>) -> (r: String)
    ensures
        r@ == plain_all(inline_views(inlines@)),
    decreases inlines@,
{
    let mut out = String::new();
    let mut i: usize = inlines.len();
    let ghost v = inline_views(inlines@);
    proof { lemma_inline_views_len(inlines@); }
    assert(v.subrange(v.len() as int, v.len() as int) =~= Seq::<InlineView>::empty());
    let mut acc = String::new();
    // Built back to front, so that each step prepends one run's text.
    while i > 0
        invariant
            i <= inlines@.len(),
            v == inline_views(inlines@),
            v.len() == inlines@.len(),
            acc@ == plain_all(v.subrange(i as int, v.len() as int)),
        decreases i,
    {
        proof {
            assert(decreases_to!(inlines@ => inlines@[i - 1]));
            lemma_inline_views_index(inlines@, i - 1);
        }
        let part = inlines[i - 1].plain();
        let ghost sub = v.subrange(i - 1, v.len() as int);
        assert(sub[0] == v[i - 1]);
        assert(sub.subrange(1, sub.len() as int) =~= v.subrange(i as int, v.len() as int));
        let mut joined = part;
        joined.append(acc.as_str());
        acc = joined;
        i -= 1;
    }
    assert(v.subrange(0, v.len() as int) =~= v);
    out.append(acc.as_str());
    assert(out@ =~= acc@);
    out
}

/// Concatenated plain text of runs.
pub fn plain_of(inlines: &[Inline]) -> (r: String)
    ensures
        r@ == plain_all(inline_views(inlines@)),
{
    let mut v: Vec<Inline> = Vec::new();
    let mut out = String::new();
    let mut i: usize = 0;
    proof { lemma_inline_views_len(inlines@); }
    assert(inline_views(inlines@).take(0) =~= Seq::<InlineView>::empty());
    while i < inlines.len()
        invariant
            i <= inlines@.len(),
            inline_views(inlines@).len() == inlines@.len(),
            out@ == plain_all(inline_views(inlines@).take(i as int)),
        decreases inlines@.len() - i,
    {
        proof {
            lemma_inline_views_index(inlines@, i as int);
            lemma_plain_all_push(inline_views(inlines@).take(i as int), inline_views(inlines@)[i as int]);
        }
        let part = inlines[i].plain();
        out.append(part.as_str());
        assert(inline_views(inlines@).take(i + 1) =~= inline_views(inlines@).take(i as int).push(
            inline_views(inlines@)[i as int],
        ));
        i += 1;
    }
    assert(inline_views(inlines@).take(i as int) =~= inline_views(inlines@));
    out
}

/// Plain text grows by one run's text when a run is added.
pub proof fn lemma_plain_all_push(s: Seq<InlineView>, x: InlineView)
    ensures
        plain_all(s.push(x)) == plain_all(s) + plain_inline(x),
    decreases s.len(),
{
    if s.len() == 0 {
        assert(s.push(x).subrange(1, 1) =~= Seq::<InlineView>::empty());
        assert(s.push(x)[0] == x);
        assert(plain_all(s.push(x)) == plain_inline(x) + plain_all(Seq::<InlineView>::empty()));
        assert(plain_inline(x) + Seq::<char>::empty() =~= plain_inline(x));
        assert(Seq::<char>::empty() + plain_inline(x) =~= plain_inline(x));
    } else {
        let t = s.subrange(1, s.len() as int);
        lemma_plain_all_push(t, x);
        assert(s.push(x).subrange(1, s.len() as int + 1) =~= t.push(x));
        assert(s.push(x)[0] == s[0]);
        assert(plain_all(s.push(x)) =~= plain_inline(s[0]) + plain_all(t.push(x)));
        assert(plain_all(s) == plain_inline(s[0]) + plain_all(t));
        assert(plain_inline(s[0]) + (plain_all(t) + plain_inline(x)) =~= (plain_inline(s[0]) + plain_all(t))
            + plain_inline(x));
    }
}

/// Plain text splits over concatenation: the plain text of two runs of
/// inlines, one after the other, is the plain text of the first followed by
/// that of the second; no runs give no text.
pub proof fn lemma_plain_all_concat(a: Seq<InlineView>, b: Seq<InlineView>)
    ensures
        plain_all(a + b) == plain_all(a) + plain_all(b),
        plain_all(Seq::<InlineView>::empty()) == Seq::<char>::empty(),
    decreases a.len(),
{
    if a.len() == 0 {
        assert(a + b =~= b);
        assert(Seq::<char>::empty() + plain_all(b) =~= plain_all(b));
    } else {
        let t = a.subrange(1, a.len() as int);
        lemma_plain_all_concat(t, b);
        assert((a + b)[0] == a[0]);
        assert((a + b).subrange(1, (a + b).len() as int) =~= t + b);
        assert(plain_inline(a[0]) + (plain_all(t) + plain_all(b)) =~= (plain_inline(a[0]) + plain_all(t)) + plain_all(
            b,
        ));
    }
}

/// The plain text of two runs of inlines, one after the other, is the plain
/// text of the first followed by that of the second.
pub proof fn lemma_plain_of_concat(xs: Seq<Inline>, ys: Seq<Inline>)
    ensures
        inline_views(xs + ys) == inline_views(xs) + inline_views(ys),
        plain_all(inline_views(xs + ys)) == plain_all(inline_views(xs)) + plain_all(inline_views(ys)),
    decreases xs.len(),
{
    if xs.len() == 0 {
        assert(xs + ys =~= ys);
        assert(inline_views(xs) =~= Seq::<InlineView>::empty());
        assert(Seq::<InlineView>::empty() + inline_views(ys) =~= inline_views(ys));
    } else {
        let t = xs.subrange(1, xs.len() as int);
        lemma_plain_of_concat(t, ys);
        assert((xs + ys)[0] == xs[0]);
        assert((xs + ys).subrange(1, (xs + ys).len() as int) =~= t + ys);
        assert(seq![xs[0].view_inline()] + (inline_views(t) + inline_views(ys)) =~= (seq![xs[0].view_inline()]
            + inline_views(t)) + inline_views(ys));
    }
    lemma_plain_all_concat(inline_views(xs), inline_views(ys));
}

/// Plain text discards formatting: a text run gives its text, and bold,
/// italic and a link give the plain text of their content, the link's target
/// dropped.
pub proof fn lemma_plain_discards_formatting(text: Seq<char>, content: Seq<InlineView>, target: Seq<char>)
    ensures
        plain_all(seq![InlineView::Text(text)]) == text,
        plain_all(seq![InlineView::Bold(content)]) == plain_all(content),
        plain_all(seq![InlineView::Italic(content)]) == plain_all(content),
        plain_all(seq![InlineView::Link(content, target)]) == plain_all(content),
{
    lemma_plain_all_push(Seq::empty(), InlineView::Text(text));
    lemma_plain_all_push(Seq::empty(), InlineView::Bold(content));
    lemma_plain_all_push(Seq::empty(), InlineView::Italic(content));
    lemma_plain_all_push(Seq::empty(), InlineView::Link(content, target));
    assert(Seq::<InlineView>::empty().push(InlineView::Text(text)) =~= seq![InlineView::Text(text)]);
    assert(Seq::<InlineView>::empty().push(InlineView::Bold(content)) =~= seq![InlineView::Bold(content)]);
    assert(Seq::<InlineView>::empty().push(InlineView::Italic(content)) =~= seq![InlineView::Italic(content)]);
    assert(Seq::<InlineView>::empty().push(InlineView::Link(content, target)) =~= seq![
        InlineView::Link(content, target),
    ]);
    assert(Seq::<char>::empty() + text =~= text);
    assert(Seq::<char>::empty() + plain_all(content) =~= plain_all(content));
}

/// A block of document content.
///
/// A merge tree is a flat run of text segments punctuated by markers. A marker
/// *terminates* the run before it and carries that block's properties, in the
/// way a paragraph mark does in a word processor. List nesting is therefore a
/// property of the block, not a tree structure, and is kept flat here with an
/// explicit depth. Renderers that need nesting build it from the depth.
#[derive(Debug)]
pub enum Block {
    Paragraph { content: Vec<Inline>, props: Properties },
    Heading { level: u8, content: Vec<Inline>, props: Properties },
    ListItem { depth: u32, list_id: Option<String>, content: Vec<Inline>, props: Properties },
    /// A marker for something embedded rather than typed: a table of contents,
    /// an image, a nested Fluid component. Its content lives in another tree.
    Embedded { node_type: String, content: Vec<Inline>, props: Properties },
    /// A segment matching no known shape, preserved rather than discarded.
    Unknown { raw: Json },
}

/// The content of a [`Block`].
pub enum BlockView {
    Paragraph { content: Seq<InlineView>, props: Seq<(Seq<char>, JsonValue)> },
    Heading { level: u8, content: Seq<InlineView>, props: Seq<(Seq<char>, JsonValue)> },
    ListItem { depth: u32, list_id: Option<Seq<char>>, content: Seq<InlineView>, props: Seq<(Seq<char>, JsonValue)> },
    Embedded { node_type: Seq<char>, content: Seq<InlineView>, props: Seq<(Seq<char>, JsonValue)> },
    Unknown { raw: JsonValue },
}

impl View for Block {
    type V = BlockView;

    open spec fn view(&self) -> BlockView {
        match self {
            Block::Paragraph { content, props } => BlockView::Paragraph {
                content: inline_views(content@),
                props: props.view_props(),
            },
            Block::Heading { level, content, props } => BlockView::Heading {
                level: *level,
                content: inline_views(content@),
                props: props.view_props(),
            },
            Block::ListItem { depth, list_id, content, props } => BlockView::ListItem {
                depth: *depth,
                list_id: match list_id {
                    Some(s) => Some(s@),
                    None => None,
                },
                content: inline_views(content@),
                props: props.view_props(),
            },
            Block::Embedded { node_type, content, props } => BlockView::Embedded {
                node_type: node_type@,
                content: inline_views(content@),
                props: props.view_props(),
            },
            Block::Unknown { raw } => BlockView::Unknown { raw: raw@ },
        }
    }
}

/// The inline content of a block; none for an unparsed segment.
pub open spec fn block_content(b: BlockView) -> Seq<InlineView> {
    match b {
        BlockView::Paragraph { content, .. } => content,
        BlockView::Heading { content, .. } => content,
        BlockView::ListItem { content, .. } => content,
        BlockView::Embedded { content, .. } => content,
        BlockView::Unknown { .. } => Seq::empty(),
    }
}

/// Whether a block carries no text.
pub open spec fn block_is_empty(b: BlockView) -> bool {
    plain_all(block_content(b)).len() == 0
}

/// The contents of blocks, in order.
pub open spec fn block_views(s: Seq<Block>) -> Seq<BlockView> {
    s.map_values(|b: Block| b@)
}

impl Block {
    pub fn content(&self) -> (r: &[Inline])
        ensures
            inline_views(r@) == block_content(self@),
    {
        match self {
            Block::Paragraph { content, .. } => content.as_slice(),
            Block::Heading { content, .. } => content.as_slice(),
            Block::ListItem { content, .. } => content.as_slice(),
            Block::Embedded { content, .. } => content.as_slice(),
            Block::Unknown { .. } => {
                let r: &[Inline] = &[];
                assert(r@ =~= Seq::<Inline>::empty());
                assert(inline_views(r@) =~= Seq::<InlineView>::empty());
                r
            },
        }
    }

    pub fn props(&self) -> (r: Option<&Properties>)
        ensures
            self is Unknown <==> r is None,
            r matches Some(p) ==> match self@ {
                BlockView::Paragraph { props, .. } => props == p.view_props(),
                BlockView::Heading { props, .. } => props == p.view_props(),
                BlockView::ListItem { props, .. } => props == p.view_props(),
                BlockView::Embedded { props, .. } => props == p.view_props(),
                BlockView::Unknown { .. } => false,
            },
    {
        match self {
            Block::Paragraph { props, .. } => Some(props),
            Block::Heading { props, .. } => Some(props),
            Block::ListItem { props, .. } => Some(props),
            Block::Embedded { props, .. } => Some(props),
            Block::Unknown { .. } => None,
        }
    }

    /// True when the block carries no text. Renderers skip these; the model
    /// keeps them because an empty paragraph is real document structure.
    pub fn is_empty(&self) -> (r: bool)
        ensures
            r == block_is_empty(self@),
    {
        let text = plain_of(self.content());
        text.as_str().is_empty()
    }
}

/// A reconstructed document.
#[derive(Debug)]
pub struct Document {
    pub title: Option<String>,
    pub blocks: Vec<Block>,
    pub metadata: Metadata,
}

/// The blocks that carry text, in order.
pub open spec fn visible(blocks: Seq<BlockView>) -> Seq<BlockView> {
    blocks.filter(|b: BlockView| !block_is_empty(b))
}

impl Document {
    /// Blocks that carry text, in order.
    pub fn visible_blocks(&self) -> (r: Vec<&Block>)
        ensures
            r@.map_values(|b: &Block| b@) == visible(block_views(self.blocks@)),
    {
        let ghost v = block_views(self.blocks@);
        let mut out: Vec<&Block> = Vec::new();
        let mut i: usize = 0;
        assert(v.take(0).filter(|b: BlockView| !block_is_empty(b)) =~= Seq::<BlockView>::empty());
        while i < self.blocks.len()
            invariant
                i <= self.blocks@.len(),
                v == block_views(self.blocks@),
                out@.map_values(|b: &Block| b@) == v.take(i as int).filter(|b: BlockView| !block_is_empty(b)),
            decreases self.blocks@.len() - i,
        {
            let b = &self.blocks[i];
            let ghost before = out@;
            assert(v.take(i + 1) =~= v.take(i as int).push(b@));
            proof {
                v.take(i as int).lemma_filter_push(b@, |b: BlockView| !block_is_empty(b));
            }
            if !b.is_empty() {
                out.push(b);
                assert(out@.map_values(|b: &Block| b@) =~= before.map_values(|b: &Block| b@).push(b@));
            }
            i += 1;
        }
        assert(v.take(i as int) =~= v);
        out
    }
}


/// A block reduced to what a reader sees: its kind, heading level, list depth
/// and list, and content. Its properties, an embedded block's node type and
/// the raw value of an unparsed block are emptied.
pub open spec fn without_properties(b: BlockView) -> BlockView {
    match b {
        BlockView::Paragraph { content, .. } => BlockView::Paragraph { content, props: Seq::empty() },
        BlockView::Heading { level, content, .. } => BlockView::Heading { level, content, props: Seq::empty() },
        BlockView::ListItem { depth, list_id, content, .. } => BlockView::ListItem {
            depth,
            list_id,
            content,
            props: Seq::empty(),
        },
        BlockView::Embedded { content, .. } => BlockView::Embedded {
            node_type: Seq::empty(),
            content,
            props: Seq::empty(),
        },
        BlockView::Unknown { .. } => BlockView::Unknown { raw: JsonValue::Null },
    }
}

} // verus!
