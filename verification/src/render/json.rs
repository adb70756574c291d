//! Removing personal data before a JSON export.
//!
//! The parser always keeps attribution; filtering happens here, in the output
//! layer, so later analysis stays possible without exposing names and email
//! addresses in an ordinary export.

use vstd::prelude::*;
use crate::document::model::{Block, BlockView, Document, block_views};
use crate::fluid::properties::{Properties, is_personal_data, is_personal_key};
use crate::json::{Json, JsonValue, view_members, lemma_view_members_take, lemma_view_items_take};

verus! {

/// Export options.
#[derive(Debug, Clone, Copy)]
pub struct Options {
    /// Keep author names, email addresses, object ids and timestamps.
    pub include_attribution: bool,
}

/// A value with every member whose key carries personal data removed, at
/// every depth.
pub open spec fn scrub(v: JsonValue) -> JsonValue
    decreases v,
{
    match v {
        JsonValue::Object(m) => JsonValue::Object(scrub_members(m)),
        JsonValue::Array(items) => JsonValue::Array(scrub_items(items)),
        _ => v,
    }
}

/// Object members without those whose key carries personal data, the rest
/// scrubbed.
pub open spec fn scrub_members(m: Seq<(Seq<char>, JsonValue)>) -> Seq<(Seq<char>, JsonValue)>
    decreases m,
{
    if m.len() == 0 {
        Seq::empty()
    } else {
        let rest = scrub_members(m.drop_last());
        if is_personal_key(m.last().0) {
            rest
        } else {
            rest.push((m.last().0, scrub(m.last().1)))
        }
    }
}

/// Array items, each scrubbed.
pub open spec fn scrub_items(items: Seq<JsonValue>) -> Seq<JsonValue>
    decreases items,
{
    if items.len() == 0 {
        Seq::empty()
    } else {
        scrub_items(items.drop_last()).push(scrub(items.last()))
    }
}

/// Whether no member at any depth has a key that carries personal data.
pub open spec fn clean(v: JsonValue) -> bool
    decreases v,
{
    match v {
        JsonValue::Object(m) => clean_members(m),
        JsonValue::Array(items) => clean_items(items),
        _ => true,
    }
}

pub open spec fn clean_members(m: Seq<(Seq<char>, JsonValue)>) -> bool
    decreases m,
{
    if m.len() == 0 {
        true
    } else {
        clean_members(m.drop_last()) && !is_personal_key(m.last().0) && clean(m.last().1)
    }
}

pub open spec fn clean_items(items: Seq<JsonValue>) -> bool
    decreases items,
{
    if items.len() == 0 {
        true
    } else {
        clean_items(items.drop_last()) && clean(items.last())
    }
}

/// Property lists without the keys that carry personal data.
pub open spec fn redact_props_view(p: Seq<(Seq<char>, JsonValue)>) -> Seq<(Seq<char>, JsonValue)> {
    p.filter(|e: (Seq<char>, JsonValue)| !is_personal_key(e.0))
}

/// A block with personal data removed from its properties, or from its raw
/// value when it is unparsed.
pub open spec fn redact_block_view(b: BlockView) -> BlockView {
    match b {
        BlockView::Paragraph { content, props } => BlockView::Paragraph { content, props: redact_props_view(props) },
        BlockView::Heading { level, content, props } => BlockView::Heading {
            level,
            content,
            props: redact_props_view(props),
        },
        BlockView::ListItem { depth, list_id, content, props } => BlockView::ListItem {
            depth,
            list_id,
            content,
            props: redact_props_view(props),
        },
        BlockView::Embedded { node_type, content, props } => BlockView::Embedded {
            node_type,
            content,
            props: redact_props_view(props),
        },
        BlockView::Unknown { raw } => BlockView::Unknown { raw: scrub(raw) },
    }
}

/// A block's properties; none for an unparsed block.
pub open spec fn block_props(b: BlockView) -> Seq<(Seq<char>, JsonValue)> {
    match b {
        BlockView::Paragraph { props, .. } => props,
        BlockView::Heading { props, .. } => props,
        BlockView::ListItem { props, .. } => props,
        BlockView::Embedded { props, .. } => props,
        BlockView::Unknown { .. } => Seq::empty(),
    }
}

/// Scrubbing leaves no member whose key carries personal data, at any depth.
pub proof fn lemma_scrub_clean(v: JsonValue)
    ensures
        clean(scrub(v)),
    decreases v,
{
    match v {
        JsonValue::Object(m) => {
            lemma_scrub_members_clean(m);
        },
        JsonValue::Array(items) => {
            lemma_scrub_items_clean(items);
        },
        _ => {},
    }
}

proof fn lemma_scrub_members_clean(m: Seq<(Seq<char>, JsonValue)>)
    ensures
        clean_members(scrub_members(m)),
    decreases m,
{
    if m.len() > 0 {
        lemma_scrub_members_clean(m.drop_last());
        let rest = scrub_members(m.drop_last());
        if !is_personal_key(m.last().0) {
            lemma_scrub_clean(m.last().1);
            let x = (m.last().0, scrub(m.last().1));
            assert(rest.push(x).drop_last() =~= rest);
        }
    }
}

proof fn lemma_scrub_items_clean(items: Seq<JsonValue>)
    ensures
        clean_items(scrub_items(items)),
    decreases items,
{
    if items.len() > 0 {
        lemma_scrub_items_clean(items.drop_last());
        lemma_scrub_clean(items.last());
        assert(scrub_items(items.drop_last()).push(scrub(items.last())).drop_last() =~= scrub_items(
            items.drop_last(),
        ));
    }
}

/// Filtering out personal keys leaves none, and values are kept as they are.
proof fn lemma_filtered_clean_keys(p: Seq<(Seq<char>, JsonValue)>, i: int)
    requires
        0 <= i < redact_props_view(p).len(),
    ensures
        !is_personal_key(redact_props_view(p)[i].0),
{
    let f = |e: (Seq<char>, JsonValue)| !is_personal_key(e.0);
    assert(redact_props_view(p).contains(redact_props_view(p)[i]));
    p.filter_lemma(f);
}

/// A redacted document carries no personal data: no property key of any block
/// carries it, and no member at any depth of an unparsed block's raw value.
pub proof fn lemma_redacted_blocks_carry_no_personal_keys(b: BlockView)
    ensures
        forall|i: int|
            0 <= i < block_props(redact_block_view(b)).len() ==> !is_personal_key(
                #[trigger] block_props(redact_block_view(b))[i].0,
            ),
        redact_block_view(b) matches BlockView::Unknown { raw } ==> clean(raw),
{
    match b {
        BlockView::Paragraph { props, .. } => {
            assert forall|i: int| 0 <= i < redact_props_view(props).len() implies !is_personal_key(
                redact_props_view(props)[i].0,
            ) by {
                lemma_filtered_clean_keys(props, i);
            }
        },
        BlockView::Heading { props, .. } => {
            assert forall|i: int| 0 <= i < redact_props_view(props).len() implies !is_personal_key(
                redact_props_view(props)[i].0,
            ) by {
                lemma_filtered_clean_keys(props, i);
            }
        },
        BlockView::ListItem { props, .. } => {
            assert forall|i: int| 0 <= i < redact_props_view(props).len() implies !is_personal_key(
                redact_props_view(props)[i].0,
            ) by {
                lemma_filtered_clean_keys(props, i);
            }
        },
        BlockView::Embedded { props, .. } => {
            assert forall|i: int| 0 <= i < redact_props_view(props).len() implies !is_personal_key(
                redact_props_view(props)[i].0,
            ) by {
                lemma_filtered_clean_keys(props, i);
            }
        },
        BlockView::Unknown { raw } => {
            lemma_scrub_clean(raw);
        },
    }
}

/// A value with every member whose key carries personal data removed.
fn scrub_json(value: &Json) -> (r: Json)
    ensures
        r@ == scrub(value@),
    decreases value,
{
    match value {
        Json::Array(items) => {
            let mut out: Vec<Json> = Vec::new();
            let ghost iv = crate::json::view_items(items@);
            let mut i: usize = 0;
            proof { crate::json::lemma_view_items_index(items@); }
            assert(crate::json::view_items(items@.take(0)) =~= Seq::<JsonValue>::empty());
            assert(crate::json::view_items(out@) =~= Seq::<JsonValue>::empty());
            while i < items.len()
                invariant
                    i <= items@.len(),
                    *value == Json::Array(*items),
                    crate::json::view_items(out@) == scrub_items(crate::json::view_items(items@.take(i as int))),
                decreases items@.len() - i,
            {
                proof {
                    assert(decreases_to!(*value => value->Array_0));
                    assert(decreases_to!(*items => items@));
                    assert(decreases_to!(items@ => items@[i as int]));
                }
                let item = scrub_json(&items[i]);
                proof {
                    crate::json::lemma_view_items_push(out@, item);
                    lemma_view_items_take(items@, i as int);
                    let t = crate::json::view_items(items@.take(i + 1));
                    assert(t.drop_last() =~= crate::json::view_items(items@.take(i as int)));
                }
                out.push(item);
                i += 1;
            }
            assert(items@.take(items@.len() as int) =~= items@);
            Json::Array(out)
        },
        Json::Object(entries) => Json::Object(scrub_entries(entries)),
        Json::Null => Json::Null,
        Json::Bool(b) => Json::Bool(*b),
        Json::Number(_) | Json::String(_) => value.deep_copy(),
    }
}

/// Object members without those whose key carries personal data, the rest
/// scrubbed.
fn scrub_entries(entries: &Vec<(String, Json)>) -> (r: Vec<(String, Json)>)
    ensures
        view_members(r@) == scrub_members(view_members(entries@)),
    decreases entries@,
{
    let mut out: Vec<(String, Json)> = Vec::new();
    let mut i: usize = 0;
    assert(view_members(entries@.take(0)) =~= Seq::<(Seq<char>, JsonValue)>::empty());
    assert(view_members(out@) =~= Seq::<(Seq<char>, JsonValue)>::empty());
    while i < entries.len()
        invariant
            i <= entries@.len(),
            view_members(out@) == scrub_members(view_members(entries@.take(i as int))),
        decreases entries@.len() - i,
    {
        proof {
            assert(decreases_to!(entries@ => entries@[i as int]));
            assert(decreases_to!(entries@[i as int] => entries@[i as int].1));
            lemma_view_members_take(entries@, i as int);
            let t = view_members(entries@.take(i + 1));
            assert(t.drop_last() =~= view_members(entries@.take(i as int)));
        }
        if !is_personal_data(entries[i].0.as_str()) {
            let value = scrub_json(&entries[i].1);
            let key = entries[i].0.clone();
            proof { crate::json::lemma_view_members_push(out@, (key, value)); }
            out.push((key, value));
        }
        i += 1;
    }
    assert(entries@.take(entries@.len() as int) =~= entries@);
    out
}

/// A property map without the keys that carry personal data.
fn redact_props(props: &Properties) -> (r: Properties)
    ensures
        r.view_props() == redact_props_view(props.view_props()),
{
    let ghost f = |e: (Seq<char>, JsonValue)| !is_personal_key(e.0);
    let ghost pv = props.view_props();
    let mut out: Vec<(String, Json)> = Vec::new();
    let mut i: usize = 0;
    assert(view_members(props.0@.take(0)) =~= Seq::<(Seq<char>, JsonValue)>::empty());
    assert(view_members(out@) =~= Seq::<(Seq<char>, JsonValue)>::empty());
    while i < props.0.len()
        invariant
            i <= props.0@.len(),
            f == |e: (Seq<char>, JsonValue)| !is_personal_key(e.0),
            view_members(out@) == view_members(props.0@.take(i as int)).filter(f),
        decreases props.0@.len() - i,
    {
        proof {
            lemma_view_members_take(props.0@, i as int);
            view_members(props.0@.take(i as int)).lemma_filter_push(
                (props.0@[i as int].0@, props.0@[i as int].1@),
                f,
            );
        }
        if !is_personal_data(props.0[i].0.as_str()) {
            let value = props.0[i].1.deep_copy();
            let key = props.0[i].0.clone();
            proof { crate::json::lemma_view_members_push(out@, (key, value)); }
            out.push((key, value));
        }
        i += 1;
    }
    assert(props.0@.take(props.0@.len() as int) =~= props.0@);
    Properties(out)
}

/// A block with personal data removed.
fn redact_block(block: Block) -> (r: Block)
    ensures
        r@ == redact_block_view(block@),
{
    match block {
        Block::Paragraph { content, props } => Block::Paragraph { content, props: redact_props(&props) },
        Block::Heading { level, content, props } => Block::Heading { level, content, props: redact_props(&props) },
        Block::ListItem { depth, list_id, content, props } => Block::ListItem {
            depth,
            list_id,
            content,
            props: redact_props(&props),
        },
        Block::Embedded { node_type, content, props } => Block::Embedded {
            node_type,
            content,
            props: redact_props(&props),
        },
        Block::Unknown { raw } => Block::Unknown { raw: scrub_json(&raw) },
    }
}

/// Removes personal data from every property map in the document, and from
/// every depth of the raw value of each unparsed block. Title and metadata
/// are kept.
pub fn redact(document: Document) -> (r: Document)
    ensures
        block_views(r.blocks@) == block_views(document.blocks@).map_values(|b: BlockView| redact_block_view(b)),
        r.title == document.title,
        r.metadata == document.metadata,
{
    let Document { title, blocks, metadata } = document;
    let ghost bv = block_views(blocks@);
    let mut rest = blocks;
    let mut out: Vec<Block> = Vec::new();
    let ghost n = rest@.len();
    assert(block_views(out@) =~= bv.take(0).map_values(|b: BlockView| redact_block_view(b)));
    assert(rest@ =~= blocks@.skip(0));
    while rest.len() > 0
        invariant
            rest@.len() <= n,
            n == blocks@.len(),
            bv == block_views(blocks@),
            rest@ == blocks@.skip(n - rest@.len()),
            block_views(out@) == bv.take(n - rest@.len()).map_values(|b: BlockView| redact_block_view(b)),
        decreases rest@.len(),
    {
        let ghost k = n - rest@.len();
        let b = rest.remove(0);
        assert(b == blocks@[k]);
        assert(rest@ =~= blocks@.skip(k + 1));
        let ghost before = block_views(out@);
        let r = redact_block(b);
        out.push(r);
        assert(bv.take(k + 1) =~= bv.take(k).push(b@));
        assert(block_views(out@) =~= before.push(r@));
        assert(bv.take(k + 1).map_values(|b: BlockView| redact_block_view(b)) =~= bv.take(k).map_values(
            |b: BlockView| redact_block_view(b),
        ).push(redact_block_view(b@)));
    }
    assert(bv.take(n as int) =~= bv);
    Document { title, blocks: out, metadata }
}

} // verus!
