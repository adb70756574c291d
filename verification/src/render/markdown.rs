//! Markdown rendering.
//!
//! The goal is the document's logical structure, not a byte-identical copy of
//! Microsoft's own Markdown export.

use vstd::prelude::*;
use crate::document::model::{Block, BlockView, Document, Inline, InlineView, inline_views, block_views,
    block_is_empty, without_properties, block_content, lemma_inline_views_index, lemma_inline_views_len};
use crate::document::reconstruct::{trim_text, trim_start, trim_end};
use crate::operations::log::{is_white, opt_chars};
use crate::text::{chars_of, string_of, joined, texts_of, join, repeated, repeat, push_char};

verus! {

/// Spaces per nesting level. Four keeps nested bullets unambiguous in every
/// Markdown flavour.
pub const INDENT: &'static str = "    ";

/// How one character is written: a backslash before those that would change
/// the structure, and before `#`, `>`, `-` and `+` at the start of the text.
pub open spec fn escape_char(c: char, at_start: bool) -> Seq<char> {
    if c == '\\' || c == '*' || c == '_' || c == '`' || c == '[' || c == ']' || (at_start && (c == '#' || c
        == '>' || c == '-' || c == '+')) {
        seq!['\\', c]
    } else {
        seq![c]
    }
}

/// Text with Markdown structure characters escaped.
pub open spec fn escape_md(s: Seq<char>) -> Seq<char>
    decreases s.len(),
{
    if s.len() == 0 {
        Seq::empty()
    } else {
        escape_md(s.drop_last()) + escape_char(s.last(), s.len() == 1)
    }
}

/// How one character of a link target is written.
pub open spec fn target_char(c: char) -> Seq<char> {
    if c == ' ' {
        seq!['%', '2', '0']
    } else if c == ')' {
        seq!['%', '2', '9']
    } else {
        seq![c]
    }
}

/// A link target with spaces and closing parentheses percent-encoded.
pub open spec fn escape_target_md(s: Seq<char>) -> Seq<char>
    decreases s.len(),
{
    if s.len() == 0 {
        Seq::empty()
    } else {
        escape_target_md(s.drop_last()) + target_char(s.last())
    }
}

/// Emphasis around rendered text, with leading and trailing whitespace moved
/// outside the markers; blank text stays as it is.
pub open spec fn wrap_md(rendered: Seq<char>, marker: Seq<char>) -> Seq<char> {
    if trim_text(rendered).len() == 0 {
        rendered
    } else {
        rendered.take(rendered.len() - trim_start(rendered).len()) + marker + trim_text(rendered) + marker
            + rendered.skip(trim_end(rendered).len() as int)
    }
}

/// One inline run as Markdown.
pub open spec fn md_inline(v: InlineView) -> Seq<char>
    decreases v,
{
    match v {
        InlineView::Text(t) => escape_md(t),
        InlineView::Bold(c) => wrap_md(md_all(c), "**"@),
        InlineView::Italic(c) => wrap_md(md_all(c), "*"@),
        InlineView::Link(c, t) => "["@ + md_all(c) + "]("@ + escape_target_md(t) + ")"@,
    }
}

/// Inline runs as Markdown, one after another.
pub open spec fn md_all(s: Seq<InlineView>) -> Seq<char>
    decreases s,
{
    if s.len() == 0 {
        Seq::empty()
    } else {
        md_inline(s[0]) + md_all(s.subrange(1, s.len() as int))
    }
}

/// A heading's level in the output: with a title, which is the page's own H1,
/// every body heading moves one level down, to at most 6.
pub open spec fn md_heading_level(level: u8, titled: bool) -> nat {
    let l = level + if titled { 1int } else { 0int };
    if l < 6 { l as nat } else { 6 }
}

/// Rendering state: finished groups, the open list's lines, and its id.
pub struct MdState {
    pub groups: Seq<Seq<char>>,
    pub lines: Seq<Seq<char>>,
    pub list_id: Option<Seq<char>>,
}

/// One block's effect on the rendering state.
///
/// Consecutive list items form one group of lines; a different list id starts
/// a new list. Every other block stands alone; blocks without text, and
/// unparsed segments, render as nothing.
pub open spec fn md_step(st: MdState, b: BlockView, titled: bool) -> MdState {
    match b {
        BlockView::ListItem { depth, list_id, content, .. } => if block_is_empty(b) {
            st
        } else {
            let groups = if st.lines.len() > 0 && list_id != st.list_id {
                st.groups.push(joined(st.lines, "\n"@))
            } else {
                st.groups
            };
            let lines = if st.lines.len() > 0 && list_id != st.list_id { Seq::empty() } else { st.lines };
            MdState {
                groups,
                lines: lines.push(repeated(INDENT@, depth as nat) + "- "@ + md_all(content)),
                list_id,
            }
        },
        _ => {
            let st1 = if st.lines.len() > 0 {
                MdState { groups: st.groups.push(joined(st.lines, "\n"@)), lines: Seq::empty(), list_id: None }
            } else {
                st
            };
            if block_is_empty(b) {
                st1
            } else {
                match b {
                    BlockView::Heading { level, content, .. } => MdState {
                        groups: st1.groups.push(repeated("#"@, md_heading_level(level, titled)) + " "@ + md_all(content)),
                        ..st1
                    },
                    BlockView::Paragraph { content, .. } => MdState { groups: st1.groups.push(md_all(content)), ..st1 },
                    BlockView::Embedded { content, .. } => MdState { groups: st1.groups.push(md_all(content)), ..st1 },
                    _ => st1,
                }
            }
        },
    }
}

/// The rendering state after each block in turn.
pub open spec fn md_scan(init: MdState, blocks: Seq<BlockView>, titled: bool) -> MdState
    decreases blocks.len(),
{
    if blocks.len() == 0 {
        init
    } else {
        md_step(md_scan(init, blocks.drop_last(), titled), blocks.last(), titled)
    }
}

/// Groups separated by blank lines, ending in a newline when there is any.
pub open spec fn finish(groups: Seq<Seq<char>>) -> Seq<char> {
    let out = joined(groups, "\n\n"@);
    if out.len() > 0 { out.push('\n') } else { out }
}

/// A document as Markdown: the title as a level-one heading, then the blocks.
pub open spec fn markdown_of(title: Option<Seq<char>>, blocks: Seq<BlockView>) -> Seq<char> {
    let g0 = match title {
        Some(t) => if t.len() > 0 { seq!["# "@ + escape_md(t)] } else { Seq::empty() },
        None => Seq::empty(),
    };
    let st = md_scan(MdState { groups: g0, lines: Seq::empty(), list_id: None }, blocks, title is Some);
    finish(if st.lines.len() > 0 { st.groups.push(joined(st.lines, "\n"@)) } else { st.groups })
}

/// Escapes the characters that would otherwise change the structure.
///
/// Deliberately minimal: over-escaping makes ordinary prose unreadable, and the
/// output is meant to be read as well as parsed.
fn escape(text: &str) -> (r: String)
    ensures
        r@ == escape_md(text@),
{
    let cs = chars_of(text);
    let mut out = String::new();
    let mut i: usize = 0;
    assert(cs@.take(0) =~= Seq::<char>::empty());
    while i < cs.len()
        invariant
            i <= cs@.len(),
            cs@ == text@,
            out@ == escape_md(cs@.take(i as int)),
        decreases cs@.len() - i,
    {
        let c = cs[i];
        assert(cs@.take(i + 1).drop_last() =~= cs@.take(i as int));
        assert(cs@.take(i + 1).last() == c);
        let at_start = i == 0;
        if c == '\\' || c == '*' || c == '_' || c == '`' || c == '[' || c == ']' || (at_start && (c == '#' || c
            == '>' || c == '-' || c == '+')) {
            push_char(&mut out, '\\');
        }
        push_char(&mut out, c);
        i += 1;
    }
    assert(cs@.take(i as int) =~= cs@);
    out
}

/// Percent-encodes spaces and closing parentheses in a link target.
fn escape_target(target: &str) -> (r: String)
    ensures
        r@ == escape_target_md(target@),
{
    let cs = chars_of(target);
    let mut out = String::new();
    let mut i: usize = 0;
    assert(cs@.take(0) =~= Seq::<char>::empty());
    while i < cs.len()
        invariant
            i <= cs@.len(),
            cs@ == target@,
            out@ == escape_target_md(cs@.take(i as int)),
        decreases cs@.len() - i,
    {
        let c = cs[i];
        assert(cs@.take(i + 1).drop_last() =~= cs@.take(i as int));
        assert(cs@.take(i + 1).last() == c);
        if c == ' ' {
            out.append("%20");
            proof { reveal_strlit("%20"); }
        } else if c == ')' {
            out.append("%29");
            proof { reveal_strlit("%29"); }
        } else {
            push_char(&mut out, c);
        }
        i += 1;
    }
    assert(cs@.take(i as int) =~= cs@);
    out
}

/// How many leading characters are whitespace.
fn leading_white(s: &[char]) -> (lo: usize)
    ensures
        lo <= s@.len(),
        s@.skip(lo as int) == trim_start(s@),
{
    let mut lo: usize = 0;
    assert(s@.skip(0) =~= s@);
    while lo < s.len() && (('\u{9}' <= s[lo] && s[lo] <= '\u{d}') || s[lo] == ' ' || s[lo] == '\u{85}' || s[lo]
        == '\u{a0}' || s[lo] == '\u{1680}' || ('\u{2000}' <= s[lo] && s[lo] <= '\u{200a}') || s[lo] == '\u{2028}'
        || s[lo] == '\u{2029}' || s[lo] == '\u{202f}' || s[lo] == '\u{205f}' || s[lo] == '\u{3000}')
        invariant
            lo <= s@.len(),
            trim_start(s@) == trim_start(s@.skip(lo as int)),
        decreases s@.len() - lo,
    {
        assert(s@.skip(lo as int)[0] == s@[lo as int]);
        assert(s@.skip(lo as int).drop_first() =~= s@.skip(lo + 1));
        lo += 1;
    }
    proof {
        if lo < s@.len() {
            assert(s@.skip(lo as int)[0] == s@[lo as int]);
        }
    }
    lo
}

/// How many characters remain once trailing whitespace is dropped.
fn trailing_white(s: &[char]) -> (hi: usize)
    ensures
        hi <= s@.len(),
        s@.take(hi as int) == trim_end(s@),
{
    let mut hi: usize = s.len();
    assert(s@.take(s@.len() as int) =~= s@);
    while hi > 0 && (('\u{9}' <= s[hi - 1] && s[hi - 1] <= '\u{d}') || s[hi - 1] == ' ' || s[hi - 1] == '\u{85}'
        || s[hi - 1] == '\u{a0}' || s[hi - 1] == '\u{1680}' || ('\u{2000}' <= s[hi - 1] && s[hi - 1] <= '\u{200a}')
        || s[hi - 1] == '\u{2028}' || s[hi - 1] == '\u{2029}' || s[hi - 1] == '\u{202f}' || s[hi - 1] == '\u{205f}'
        || s[hi - 1] == '\u{3000}')
        invariant
            hi <= s@.len(),
            trim_end(s@) == trim_end(s@.take(hi as int)),
        decreases hi,
    {
        assert(s@.take(hi as int).last() == s@[hi - 1]);
        assert(s@.take(hi as int).drop_last() =~= s@.take(hi - 1));
        hi -= 1;
    }
    proof {
        if hi > 0 {
            assert(s@.take(hi as int).last() == s@[hi - 1]);
        } else {
            assert(s@.take(0) =~= Seq::<char>::empty());
        }
    }
    hi
}

/// The characters from `a` up to `b`, as a string.
fn chars_between(cs: &[char], a: usize, b: usize) -> (r: String)
    requires
        a <= b <= cs@.len(),
    ensures
        r@ == cs@.subrange(a as int, b as int),
{
    let mut out = String::new();
    let mut k = a;
    while k < b
        invariant
            a <= k <= b <= cs@.len(),
            out@ == cs@.subrange(a as int, k as int),
        decreases b - k,
    {
        push_char(&mut out, cs[k]);
        assert(out@ =~= cs@.subrange(a as int, k + 1));
        k += 1;
    }
    out
}

/// Emphasis cannot span leading or trailing whitespace in Markdown, so the
/// spaces are moved outside the markers.
///
/// Bold lead-ins are written with the trailing space inside the bold run, as
/// `"Lead-in heading: "`.
fn wrap(rendered: String, marker: &str) -> (r: String)
    ensures
        r@ == wrap_md(rendered@, marker@),
{
    let cs = chars_of(rendered.as_str());
    let lo = leading_white(cs.as_slice());
    let hi = trailing_white(cs.as_slice());
    let trimmed = crate::document::reconstruct::trim_chars(cs.as_slice());
    if trimmed.len() == 0 {
        return rendered;
    }
    let mut out = chars_between(cs.as_slice(), 0, lo);
    let ghost lead = cs@.subrange(0, lo as int);
    assert(lead =~= cs@.take(cs@.len() - trim_start(cs@).len()));
    out.append(marker);
    out.append(string_of(trimmed.as_slice()).as_str());
    out.append(marker);
    let tail = chars_between(cs.as_slice(), hi, cs.len());
    out.append(tail.as_str());
    assert(tail@ =~= cs@.skip(trim_end(cs@).len() as int));
    out
}

/// One inline run as Markdown.
fn render_inline(value: &Inline) -> (r: String)
    ensures
        r@ == md_inline(value.view_inline()),
    decreases value,
{
    match value {
        Inline::Text { text } => escape(text.as_str()),
        Inline::Bold { content } => {
            proof {
                assert(decreases_to!(*value => value->Bold_content));
            }
            wrap(render_vec(content), "**")
        },
        Inline::Italic { content } => {
            proof {
                assert(decreases_to!(*value => value->Italic_content));
            }
            wrap(render_vec(content), "*")
        },
        Inline::Link { content, target } => {
            proof {
                assert(decreases_to!(*value => value->Link_content));
            }
            let mut out = String::from_str("[");
            out.append(render_vec(content).as_str());
            out.append("](");
            out.append(escape_target(target.as_str()).as_str());
            out.append(")");
            out
        },
    }
}

/// Inline runs as Markdown, built back to front.
fn render_vec(content: &Vec<Inline>) -> (r: String)
    ensures
        r@ == md_all(inline_views(content@)),
    decreases content@,
{
    let ghost v = inline_views(content@);
    proof { lemma_inline_views_len(content@); }
    let mut acc = String::new();
    let mut i: usize = content.len();
    assert(v.subrange(v.len() as int, v.len() as int) =~= Seq::<InlineView>::empty());
    while i > 0
        invariant
            i <= content@.len(),
            v == inline_views(content@),
            v.len() == content@.len(),
            acc@ == md_all(v.subrange(i as int, v.len() as int)),
        decreases i,
    {
        proof {
            assert(decreases_to!(content@ => content@[i - 1]));
            lemma_inline_views_index(content@, i - 1);
        }
        let part = render_inline(&content[i - 1]);
        let ghost sub = v.subrange(i - 1, v.len() as int);
        assert(sub[0] == v[i - 1]);
        assert(sub.subrange(1, sub.len() as int) =~= v.subrange(i as int, v.len() as int));
        let mut joined_part = part;
        joined_part.append(acc.as_str());
        acc = joined_part;
        i -= 1;
    }
    assert(v.subrange(0, v.len() as int) =~= v);
    acc
}

/// Inline runs as Markdown.
pub fn inlines(content: &[Inline]) -> (r: String)
    ensures
        r@ == md_all(inline_views(content@)),
{
    let mut v: Vec<Inline> = Vec::new();
    let mut acc = String::new();
    let mut i: usize = content.len();
    proof { lemma_inline_views_len(content@); }
    let ghost w = inline_views(content@);
    assert(w.subrange(w.len() as int, w.len() as int) =~= Seq::<InlineView>::empty());
    while i > 0
        invariant
            i <= content@.len(),
            w == inline_views(content@),
            w.len() == content@.len(),
            acc@ == md_all(w.subrange(i as int, w.len() as int)),
        decreases i,
    {
        proof {
            lemma_inline_views_index(content@, i - 1);
        }
        let part = render_inline(&content[i - 1]);
        let ghost sub = w.subrange(i - 1, w.len() as int);
        assert(sub[0] == w[i - 1]);
        assert(sub.subrange(1, sub.len() as int) =~= w.subrange(i as int, w.len() as int));
        let mut joined_part = part;
        joined_part.append(acc.as_str());
        acc = joined_part;
        i -= 1;
    }
    assert(w.subrange(0, w.len() as int) =~= w);
    acc
}

/// A heading's level in the output. The document title is the page's own H1,
/// so a `Heading 1` inside the body is a section beneath it and shifts down one
/// level.
fn heading_level(document: &Document, level: u8) -> (r: usize)
    ensures
        r == md_heading_level(level, document.title is Some),
{
    let offset: usize = if document.title.is_some() { 1 } else { 0 };
    let l = level as usize + offset;
    if l < 6 { l } else { 6 }
}

/// Renders a document as Markdown.
pub fn render(document: &Document) -> (r: String)
    ensures
        r@ == markdown_of(
            match document.title {
                Some(t) => Some(t@),
                None => None,
            },
            block_views(document.blocks@),
        ),
{
    let mut groups: Vec<String> = Vec::new();
    match &document.title {
        Some(title) => {
            if !title.as_str().is_empty() {
                let mut g = String::from_str("# ");
                g.append(escape(title.as_str()).as_str());
                groups.push(g);
            }
        },
        None => {},
    }
    let ghost titled = document.title is Some;
    let ghost init = MdState { groups: texts_of(groups@), lines: Seq::empty(), list_id: None };
    proof {
        assert(texts_of(groups@) =~= (match document.title {
            Some(t) => if t@.len() > 0 { seq!["# "@ + escape_md(t@)] } else { Seq::<Seq<char>>::empty() },
            None => Seq::<Seq<char>>::empty(),
        }));
    }
    let ghost bv = block_views(document.blocks@);

    // Consecutive list items form one block of lines; everything else stands
    // alone, separated by a blank line.
    let mut list_lines: Vec<String> = Vec::new();
    let mut list_id: Option<String> = None;
    let mut i: usize = 0;
    assert(bv.take(0) =~= Seq::<BlockView>::empty());
    assert(texts_of(list_lines@) =~= Seq::<Seq<char>>::empty());
    while i < document.blocks.len()
        invariant
            i <= document.blocks@.len(),
            bv == block_views(document.blocks@),
            titled == document.title is Some,
            md_scan(init, bv.take(i as int), titled) == (MdState {
                groups: texts_of(groups@),
                lines: texts_of(list_lines@),
                list_id: opt_chars(list_id),
            }),
        decreases document.blocks@.len() - i,
    {
        let block = &document.blocks[i];
        assert(bv.take(i + 1).drop_last() =~= bv.take(i as int));
        assert(bv.take(i + 1).last() == block@);
        let ghost gs = texts_of(groups@);
        let ghost ls = texts_of(list_lines@);
        let ghost st = MdState {
            groups: gs,
            lines: ls,
            list_id: opt_chars(list_id),
        };
        assert(md_scan(init, bv.take(i + 1), titled) == md_step(st, block@, titled));
        match block {
            Block::ListItem { depth, list_id: id, content, .. } => {
                if !block.is_empty() {
                    let same = match (id, &list_id) {
                        (Some(a), Some(b)) => crate::text::same_text(a.as_str(), b.as_str()),
                        (None, None) => true,
                        _ => false,
                    };
                    if list_lines.len() > 0 && !same {
                        let g = join(&list_lines, "\n");
                        groups.push(g);
                        list_lines = Vec::new();
                        assert(texts_of(groups@) =~= gs.push(joined(ls, "\n"@)));
                    }
                    list_id = match id {
                        Some(s) => Some(s.clone()),
                        None => None,
                    };
                    let ghost ls1 = texts_of(list_lines@);
                    let mut line = repeat(INDENT, *depth as usize);
                    line.append("- ");
                    line.append(inlines(content.as_slice()).as_str());
                    list_lines.push(line);
                    assert(texts_of(list_lines@) =~= ls1.push(line@));
                    assert(md_step(st, block@, titled).lines == texts_of(list_lines@));
                    assert(md_step(st, block@, titled).groups == texts_of(groups@));
                }
            },
            _ => {
                if list_lines.len() > 0 {
                    let g = join(&list_lines, "\n");
                    groups.push(g);
                    list_lines = Vec::new();
                    list_id = None;
                    assert(texts_of(groups@) =~= gs.push(joined(ls, "\n"@)));
                    assert(texts_of(list_lines@) =~= Seq::<Seq<char>>::empty());
                }
                if !block.is_empty() {
                    let ghost gs1 = texts_of(groups@);
                    match block {
                        Block::Heading { level, content, .. } => {
                            let l = heading_level(document, *level);
                            let mut g = repeat("#", l);
                            g.append(" ");
                            g.append(inlines(content.as_slice()).as_str());
                            groups.push(g);
                            assert(texts_of(groups@) =~= gs1.push(g@));
                        },
                        Block::Paragraph { content, .. } => {
                            let g = inlines(content.as_slice());
                            groups.push(g);
                            assert(texts_of(groups@) =~= gs1.push(g@));
                        },
                        Block::Embedded { content, .. } => {
                            let g = inlines(content.as_slice());
                            groups.push(g);
                            assert(texts_of(groups@) =~= gs1.push(g@));
                        },
                        _ => {},
                    }
                }
            },
        }
        i += 1;
    }
    assert(bv.take(i as int) =~= bv);
    if list_lines.len() > 0 {
        let ghost gs = texts_of(groups@);
        let g = join(&list_lines, "\n");
        groups.push(g);
        assert(texts_of(groups@) =~= gs.push(g@));
    }
    let mut out = join(&groups, "\n\n");
    if !out.as_str().is_empty() {
        push_char(&mut out, '\n');
    }
    out
}


proof fn lemma_md_scan_ignores_properties(init: MdState, blocks: Seq<BlockView>, titled: bool)
    ensures
        md_scan(init, blocks, titled) == md_scan(init, blocks.map_values(|b: BlockView| without_properties(b)), titled),
    decreases blocks.len(),
{
    if blocks.len() > 0 {
        let f = |b: BlockView| without_properties(b);
        lemma_md_scan_ignores_properties(init, blocks.drop_last(), titled);
        assert(blocks.map_values(f).drop_last() =~= blocks.drop_last().map_values(f));
        assert(blocks.map_values(f).last() == without_properties(blocks.last()));
        assert(block_content(without_properties(blocks.last())) == block_content(blocks.last()));
    }
}

/// Markdown never carries attribution or any other property: rendering a
/// document whose blocks have had their properties, node types and raw values
/// removed gives the same text. The text is empty or ends with a line break.
pub proof fn lemma_markdown_of_ignores_properties(title: Option<Seq<char>>, blocks: Seq<BlockView>)
    ensures
        markdown_of(title, blocks) == markdown_of(title, blocks.map_values(|b: BlockView| without_properties(b))),
        markdown_of(title, blocks).len() == 0 || markdown_of(title, blocks).last() == '\n',
{
    let g0 = match title {
        Some(t) => if t.len() > 0 { seq!["# "@ + escape_md(t)] } else { Seq::empty() },
        None => Seq::empty(),
    };
    lemma_md_scan_ignores_properties(MdState { groups: g0, lines: Seq::empty(), list_id: None }, blocks, title is Some);
}

/// Two documents with the same title whose blocks read the same once
/// properties, node types and raw values are removed render to the same
/// Markdown, whatever their properties (attribution among them) and metadata.
pub proof fn lemma_markdown_ignores_what_readers_do_not_see(
    title: Option<Seq<char>>,
    b1: Seq<BlockView>,
    b2: Seq<BlockView>,
)
    requires
        b1.map_values(|b: BlockView| without_properties(b)) == b2.map_values(|b: BlockView| without_properties(b)),
    ensures
        markdown_of(title, b1) == markdown_of(title, b2),
{
    lemma_markdown_of_ignores_properties(title, b1);
    lemma_markdown_of_ignores_properties(title, b2);
}

proof fn lemma_marks(n: nat)
    ensures
        repeated("#"@, n).len() == n,
        forall|j: int| 0 <= j < n ==> #[trigger] repeated("#"@, n)[j] == '#',
    decreases n,
{
    reveal_strlit("#");
    if n > 0 {
        lemma_marks((n - 1) as nat);
        let r = repeated("#"@, (n - 1) as nat);
        assert forall|j: int| 0 <= j < n implies #[trigger] repeated("#"@, n)[j] == '#' by {
            if j < n - 1 {
                assert(repeated("#"@, n)[j] == r[j]);
            }
        }
    }
}

/// A heading renders as a run of `#` marks, a space, and its text. The
/// document title is the page's own level-one heading, so with a title a
/// body heading of level L gets min(L + 1, 6) marks (`Heading 1` becomes
/// `## `), and without one it gets min(L, 6).
pub proof fn lemma_heading_marks(st: MdState, level: u8, content: Seq<InlineView>, props: Seq<(Seq<char>, crate::json::JsonValue)>, titled: bool)
    requires
        !block_is_empty(BlockView::Heading { level, content, props }),
    ensures
        ({
            let g = md_step(st, BlockView::Heading { level, content, props }, titled).groups.last();
            let k: int = if titled {
                if level + 1 < 6 { level + 1 } else { 6 }
            } else {
                if level < 6 { level as int } else { 6 }
            };
            &&& g.len() == k + 1 + md_all(content).len()
            &&& forall|j: int| 0 <= j < k ==> g[j] == '#'
            &&& g[k] == ' '
            &&& g.skip(k + 1) == md_all(content)
        }),
{
    reveal_strlit(" ");
    let k = md_heading_level(level, titled);
    lemma_marks(k);
    let g = md_step(st, BlockView::Heading { level, content, props }, titled).groups.last();
    assert(g == repeated("#"@, k) + " "@ + md_all(content));
    assert(g.skip(k as int + 1) =~= md_all(content));
    assert forall|j: int| 0 <= j < k implies g[j] == '#' by {
        assert(g[j] == repeated("#"@, k)[j]);
    }
}

} // verus!
