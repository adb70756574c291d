//! What to tell the reader when a file yields no document.
//!
//! An unreadable file and an empty page are deliberately different outcomes,
//! so a script can tell them apart; these messages say which one happened, in
//! the terms the scan actually established.

use vstd::prelude::*;
use crate::analysis::Analysis;
use crate::container::Confidence;
use crate::document::model::Document;
use crate::fluid::merge_tree::MergeTree;
use crate::text::{decimal, decimal_digits};

verus! {

/// How many trees carry text.
pub open spec fn text_tree_count(trees: Seq<MergeTree>) -> int
    decreases trees.len(),
{
    if trees.len() == 0 {
        0
    } else {
        text_tree_count(trees.drop_last()) + if trees.last().evidence.text_segments > 0 { 1int } else { 0int }
    }
}

/// Why a file was not recognised.
pub open spec fn absence_message(members: nat, file_size: nat, candidates: nat) -> Seq<char> {
    if members == 0 {
        "no gzip member could be inflated from "@ + decimal_digits(file_size) + " byte(s) ("@ + decimal_digits(
            candidates,
        ) + " signature(s) tried)"@
    } else {
        decimal_digits(members) + " gzip member(s) inflated but none contained an embedded JSON payload"@
    }
}

/// The error for a file that holds no Fluid structure at all.
pub open spec fn not_a_container_message(path: Seq<char>, members: nat, file_size: nat, candidates: nat) -> Seq<char> {
    path + " is not a Microsoft Loop or Fluid container: "@ + absence_message(members, file_size, candidates)
        + ". Run `loop-extract inspect` on it for the detail."@
}

/// Which kind of empty a recognised container is.
pub open spec fn empty_message(trees: nat, text_trees: nat, inserts: nat, body_segments: nat) -> Seq<char> {
    if trees == 0 {
        "the container was read but holds no merge tree, so there is no document structure to reconstruct"@
    } else if text_trees == 0 && inserts == 0 {
        "the page is empty: "@ + decimal_digits(trees)
            + " merge tree(s) hold only structure, and the operation log carries no text to replay"@
    } else if text_trees > 0 {
        decimal_digits(text_trees)
            + " merge tree(s) carry text, but none of them is the page body; the text belongs to embedded components, which are not yet rendered. Use --format json to see it"@
    } else {
        "no document text was recovered from "@ + decimal_digits(trees) + " merge tree(s) or "@ + decimal_digits(
            body_segments,
        ) + " operation(s)"@
    }
}

/// Why a file was not recognised, in the terms the scan actually established.
pub fn describe_absence(analysis: &Analysis) -> (r: String)
    ensures
        r@ == absence_message(
            analysis.members@.len(),
            analysis.file_size as nat,
            analysis.gzip_candidates as nat,
        ),
{
    if analysis.members.len() == 0 {
        let mut m = String::from_str("no gzip member could be inflated from ");
        m.append(decimal(analysis.file_size as u64).as_str());
        m.append(" byte(s) (");
        m.append(decimal(analysis.gzip_candidates as u64).as_str());
        m.append(" signature(s) tried)");
        m
    } else {
        let mut m = decimal(analysis.members.len() as u64);
        m.append(" gzip member(s) inflated but none contained an embedded JSON payload");
        m
    }
}

/// The reason to refuse a file, when it holds no Fluid structure at all: an
/// unreadable file is an error, not an empty document, so that a script can
/// tell "not a Loop file" from "an empty Loop page". `None` when the format
/// was recognised, however weakly.
pub fn not_a_container(path: &str, analysis: &Analysis) -> (r: Option<String>)
    ensures
        match r {
            Some(m) => analysis.assessment.confidence == Confidence::NoneFound && m@ == not_a_container_message(
                path@,
                analysis.members@.len(),
                analysis.file_size as nat,
                analysis.gzip_candidates as nat,
            ),
            None => analysis.assessment.confidence != Confidence::NoneFound,
        },
{
    if analysis.assessment.confidence == Confidence::NoneFound {
        let mut m = String::from_str(path);
        m.append(" is not a Microsoft Loop or Fluid container: ");
        m.append(describe_absence(analysis).as_str());
        m.append(". Run `loop-extract inspect` on it for the detail.");
        Some(m)
    } else {
        None
    }
}

/// Which kind of empty a recognised container is, so the two are not confused.
pub fn describe_empty(analysis: &Analysis, document: &Document) -> (r: String)
    ensures
        r@ == empty_message(
            analysis.trees@.len(),
            text_tree_count(analysis.trees@) as nat,
            analysis.operations.counts.inserts as nat,
            document.metadata.body_segment_count as nat,
        ),
{
    let mut text_trees: usize = 0;
    let mut i: usize = 0;
    assert(analysis.trees@.take(0) =~= Seq::<MergeTree>::empty());
    while i < analysis.trees.len()
        invariant
            i <= analysis.trees@.len(),
            text_trees == text_tree_count(analysis.trees@.take(i as int)),
            text_trees <= i,
        decreases analysis.trees@.len() - i,
    {
        assert(analysis.trees@.take(i + 1).drop_last() =~= analysis.trees@.take(i as int));
        if analysis.trees[i].evidence.text_segments > 0 {
            text_trees += 1;
        }
        i += 1;
    }
    assert(analysis.trees@.take(i as int) =~= analysis.trees@);
    if analysis.trees.len() == 0 {
        String::from_str(
            "the container was read but holds no merge tree, so there is no document structure to reconstruct",
        )
    } else if text_trees == 0 && analysis.operations.counts.inserts == 0 {
        let mut m = String::from_str("the page is empty: ");
        m.append(decimal(analysis.trees.len() as u64).as_str());
        m.append(" merge tree(s) hold only structure, and the operation log carries no text to replay");
        m
    } else if text_trees > 0 {
        let mut m = decimal(text_trees as u64);
        m.append(
            " merge tree(s) carry text, but none of them is the page body; the text belongs to embedded components, which are not yet rendered. Use --format json to see it",
        );
        m
    } else {
        let mut m = String::from_str("no document text was recovered from ");
        m.append(decimal(analysis.trees.len() as u64).as_str());
        m.append(" merge tree(s) or ");
        m.append(decimal(document.metadata.body_segment_count as u64).as_str());
        m.append(" operation(s)");
        m
    }
}

} // verus!
