//! Plain-text rendering: formatting removed, structure kept readable.

use vstd::prelude::*;
use crate::document::model::{Block, BlockView, Document, block_views, block_content, block_is_empty, without_properties, plain_all,
    plain_of, inline_views};
use crate::render::markdown::{INDENT, finish};
use crate::text::{joined, texts_of, join, repeated, repeat, push_char};

verus! {

/// Rendering state: finished groups and the open list's lines.
pub struct TextState {
    pub groups: Seq<Seq<char>>,
    pub lines: Seq<Seq<char>>,
}

/// One block's effect on the rendering state. A list item with text adds a
/// bulleted line, indented by its depth; any other block closes the open list
/// and, when it carries text, stands alone as its plain text.
pub open spec fn text_step(st: TextState, b: BlockView) -> TextState {
    match b {
        BlockView::ListItem { depth, content, .. } if !block_is_empty(b) => TextState {
            lines: st.lines.push(repeated(INDENT@, depth as nat) + "- "@ + plain_all(content)),
            ..st
        },
        _ => {
            let st1 = if st.lines.len() > 0 {
                TextState { groups: st.groups.push(joined(st.lines, "\n"@)), lines: Seq::empty() }
            } else {
                st
            };
            if block_is_empty(b) {
                st1
            } else {
                TextState { groups: st1.groups.push(plain_all(block_content(b))), ..st1 }
            }
        },
    }
}

/// The rendering state after each block in turn.
pub open spec fn text_scan(init: TextState, blocks: Seq<BlockView>) -> TextState
    decreases blocks.len(),
{
    if blocks.len() == 0 {
        init
    } else {
        text_step(text_scan(init, blocks.drop_last()), blocks.last())
    }
}

/// A document as plain text: the title, then the blocks.
pub open spec fn text_of(title: Option<Seq<char>>, blocks: Seq<BlockView>) -> Seq<char> {
    let g0 = match title {
        Some(t) => if t.len() > 0 { seq![t] } else { Seq::empty() },
        None => Seq::empty(),
    };
    let st = text_scan(TextState { groups: g0, lines: Seq::empty() }, blocks);
    finish(if st.lines.len() > 0 { st.groups.push(joined(st.lines, "\n"@)) } else { st.groups })
}

/// Renders a document as plain text.
pub fn render(document: &Document) -> (r: String)
    ensures
        r@ == text_of(
            match document.title {
                Some(t) => Some(t@),
                None => None,
            },
            block_views(document.blocks@),
        ),
{
    let mut groups: Vec<String> = Vec::new();
    match &document.title {
        Some(title) => {
            if !title.as_str().is_empty() {
                groups.push(title.clone());
            }
        },
        None => {},
    }
    let ghost init = TextState { groups: texts_of(groups@), lines: Seq::empty() };
    proof {
        assert(texts_of(groups@) =~= (match document.title {
            Some(t) => if t@.len() > 0 { seq![t@] } else { Seq::<Seq<char>>::empty() },
            None => Seq::<Seq<char>>::empty(),
        }));
    }
    let ghost bv = block_views(document.blocks@);
    let mut list_lines: Vec<String> = Vec::new();
    let mut i: usize = 0;
    assert(bv.take(0) =~= Seq::<BlockView>::empty());
    assert(texts_of(list_lines@) =~= Seq::<Seq<char>>::empty());
    while i < document.blocks.len()
        invariant
            i <= document.blocks@.len(),
            bv == block_views(document.blocks@),
            text_scan(init, bv.take(i as int)) == (TextState {
                groups: texts_of(groups@),
                lines: texts_of(list_lines@),
            }),
        decreases document.blocks@.len() - i,
    {
        let block = &document.blocks[i];
        assert(bv.take(i + 1).drop_last() =~= bv.take(i as int));
        assert(bv.take(i + 1).last() == block@);
        let ghost st = TextState { groups: texts_of(groups@), lines: texts_of(list_lines@) };
        assert(text_scan(init, bv.take(i + 1)) == text_step(st, block@));
        let empty = block.is_empty();
        match block {
            Block::ListItem { depth, content, .. } if !empty => {
                // The bullet is structure, not formatting, so it stays.
                let ghost ls = texts_of(list_lines@);
                let mut line = repeat(INDENT, *depth as usize);
                line.append("- ");
                line.append(plain_of(content.as_slice()).as_str());
                list_lines.push(line);
                assert(texts_of(list_lines@) =~= ls.push(line@));
            },
            _ => {
                if list_lines.len() > 0 {
                    let ghost gs = texts_of(groups@);
                    let ghost ls = texts_of(list_lines@);
                    let g = join(&list_lines, "\n");
                    groups.push(g);
                    list_lines = Vec::new();
                    assert(texts_of(groups@) =~= gs.push(joined(ls, "\n"@)));
                    assert(texts_of(list_lines@) =~= Seq::<Seq<char>>::empty());
                }
                if !empty {
                    let ghost gs = texts_of(groups@);
                    let g = plain_of(block.content());
                    groups.push(g);
                    assert(texts_of(groups@) =~= gs.push(g@));
                }
            },
        }
        i += 1;
    }
    assert(bv.take(i as int) =~= bv);
    if list_lines.len() > 0 {
        let ghost gs = texts_of(groups@);
        let g = join(&list_lines, "\n");
        groups.push(g);
        assert(texts_of(groups@) =~= gs.push(g@));
    }
    let mut out = join(&groups, "\n\n");
    if !out.as_str().is_empty() {
        push_char(&mut out, '\n');
    }
    out
}


proof fn lemma_text_scan_ignores_properties(init: TextState, blocks: Seq<BlockView>)
    ensures
        text_scan(init, blocks) == text_scan(init, blocks.map_values(|b: BlockView| without_properties(b))),
    decreases blocks.len(),
{
    if blocks.len() > 0 {
        let f = |b: BlockView| without_properties(b);
        lemma_text_scan_ignores_properties(init, blocks.drop_last());
        assert(blocks.map_values(f).drop_last() =~= blocks.drop_last().map_values(f));
        assert(blocks.map_values(f).last() == without_properties(blocks.last()));
        assert(block_content(without_properties(blocks.last())) == block_content(blocks.last()));
    }
}

/// Plain text never carries attribution or any other property: rendering a
/// document whose blocks have had their properties, node types and raw values
/// removed gives the same text.
pub proof fn lemma_text_of_ignores_properties(title: Option<Seq<char>>, blocks: Seq<BlockView>)
    ensures
        text_of(title, blocks) == text_of(title, blocks.map_values(|b: BlockView| without_properties(b))),
{
    let g0 = match title {
        Some(t) => if t.len() > 0 { seq![t] } else { Seq::empty() },
        None => Seq::empty(),
    };
    lemma_text_scan_ignores_properties(TextState { groups: g0, lines: Seq::empty() }, blocks);
}

} // verus!
