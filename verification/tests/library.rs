//! End-to-end checks of the library and of the laws it states, on small
//! synthetic containers.

use std::io::Write;

use flate2::write::GzEncoder;
use flate2::Compression;
use sha2::{Digest, Sha256};

use loop_extract::analysis::{hex, Analysis};
use loop_extract::discovery::envelope::EnvelopeDecoder;
use loop_extract::discovery::{DiscoveryError, PayloadDiscovery};
use loop_extract::outcome::{describe_absence, describe_empty, not_a_container};
use loop_extract::document::model::{Block, ContentSource, Document, Metadata, TitleSelection};
use loop_extract::document::reconstruct::{blocks_from, reconstruct};
use loop_extract::fluid::merge_tree::{Segment, TreeRole};
use loop_extract::gzip::Limits;
use loop_extract::input::SourceFile;
use loop_extract::inspect::InspectReport;
use loop_extract::json::Json;
use loop_extract::operations::log::DocumentOp;
use loop_extract::operations::replay::replay;
use loop_extract::operations::segments_text;
use loop_extract::render::json::redact;
use loop_extract::render::{markdown, text};
use loop_extract::warning::{Warning, Warnings};

fn gzip(bytes: &[u8]) -> Vec<u8> {
    let mut encoder = GzEncoder::new(Vec::new(), Compression::default());
    encoder.write_all(bytes).unwrap();
    encoder.finish().unwrap()
}

const BODY: &str = r#"{"chunkStartSegmentIndex":0,"chunkSegmentCount":2,"totalSegmentCount":2,"totalLengthChars":4304,"chunkSequenceNumber":96,"segmentTexts":["say \"hi\"",{"marker":{"refType":1},"props":{"nodeType":"Paragraph"}}]}"#;
const TITLE: &str = r#"{"chunkStartSegmentIndex":0,"chunkSegmentCount":2,"totalSegmentCount":2,"totalLengthChars":46,"chunkSequenceNumber":96,"segmentTexts":["My Title",{"marker":{"refType":1},"props":{"nodeType":"Paragraph"}}]}"#;

fn member() -> Vec<u8> {
    let mut member = vec![0x00, 0x01];
    member.extend(BODY.as_bytes());
    member.extend([0x00, 0x02]);
    member.extend(TITLE.as_bytes());
    member
}

fn sample_analysis() -> Analysis {
    let mut bytes = b"header".to_vec();
    bytes.extend(gzip(&member()));
    let source = SourceFile { path: "notes/Page.LOOP".to_string(), bytes };
    Analysis::run(&source, Limits::default())
}

fn segment(json: &str) -> Segment {
    Segment::from_value(&Json::parse(json).unwrap())
}

fn document_of(segments: Vec<Segment>, title: Option<&str>) -> Document {
    let mut warnings: Vec<Warning> = Vec::new();
    Document {
        title: title.map(str::to_string),
        blocks: blocks_from(&segments, &mut warnings),
        metadata: Metadata {
            source_path: "test".into(),
            file_size: 0,
            format: "test".into(),
            components: Vec::new(),
            content_source: ContentSource::Snapshot,
            title_selection: TitleSelection::NoTitle,
            body_tree_hash: None,
            body_segment_count: 0,
            merge_trees: 0,
            replay: None,
        },
    }
}

#[test]
fn a_container_is_read_end_to_end() {
    let analysis = sample_analysis();
    assert_eq!(analysis.members.len(), 1);
    assert_eq!(analysis.trees.len(), 2);
    assert_eq!(analysis.trees[0].role, TreeRole::BodyCandidate);
    assert_eq!(analysis.trees[1].role, TreeRole::TitleCandidate);

    let (document, _) = reconstruct(&analysis);
    assert_eq!(document.title.as_deref(), Some("My Title"));
    assert_eq!(markdown::render(&document), "# My Title\n\nsay \"hi\"\n");
    assert_eq!(text::render(&document), "My Title\n\nsay \"hi\"\n");
    assert_eq!(document.metadata.content_source, ContentSource::Snapshot);
    assert_eq!(document.metadata.body_segment_count, 2);
    assert_eq!(
        document.metadata.body_tree_hash.as_deref(),
        Some(hex(&analysis.trees[0].content_hash).as_str())
    );
}

#[test]
fn a_member_digest_is_the_sha256_of_its_bytes() {
    let analysis = sample_analysis();
    let expected: String = Sha256::digest(member())
        .iter()
        .map(|b| format!("{b:02x}"))
        .collect();
    assert_eq!(analysis.member_info[0].sha256, expected);
}

#[test]
fn hex_writes_two_lowercase_digits_per_byte() {
    assert_eq!(hex(&[0x00, 0xab, 0x0f, 0xf0]), "00ab0ff0");
}

#[test]
fn the_extension_is_read_from_the_path_in_lower_case() {
    let source = SourceFile { path: "notes/Page.LOOP".to_string(), bytes: vec![1, 2, 3] };
    assert_eq!(source.extension(), "loop");
    assert_eq!(source.size(), 3);
}

#[test]
fn a_file_without_content_reconstructs_nothing_and_says_why() {
    let source = SourceFile { path: "empty.loop".to_string(), bytes: b"nothing here".to_vec() };
    let analysis = Analysis::run(&source, Limits::default());
    let (document, warnings) = reconstruct(&analysis);

    assert!(document.blocks.is_empty());
    assert_eq!(document.title, None);
    assert!(warnings.iter().any(|w| w.code == "no_body_tree"));
    assert_eq!(markdown::render(&document), "");
}

#[test]
fn the_inspect_report_counts_what_was_found() {
    let analysis = sample_analysis();
    let report = InspectReport::build(&analysis);

    assert_eq!(report.gzip_candidates, 1);
    assert_eq!(report.gzip_members_inflated, 1);
    assert_eq!(report.merge_trees, 2);
    assert_eq!(report.body_candidates, 1);
    assert_eq!(report.title_candidates, 1);
    assert!(!report.structurally_classified);
    assert_eq!(report.operations.snapshot_body_segments, 2);
    assert_eq!(report.operations.selected_content_source, ContentSource::Snapshot);

    let out = report.write_text(false);
    assert!(out.starts_with("File:            notes/Page.LOOP\n"));
    assert!(out.contains("Gzip members\n  signatures found:      1\n  inflated:              1\n"));
    assert!(out.contains("  classified by:         content heuristics\n"));
    assert!(out.contains("  [BodyCandidate] seq Some(96)  segments 2/Some(2)  chars Some(4304)"));
    assert!(out.contains("      preview: \"say \\\"hi\\\"\"\n"));
    assert!(out.contains("Warnings ("));
    assert!(!out.contains("Members\n"));
    assert!(report.write_text(true).contains("Members\n"));
}

#[test]
fn an_insert_lands_at_its_position_and_keeps_the_rest_in_order() {
    let ops = [
        DocumentOp::Insert { position: 0, segments: vec![segment(r#"{"text":"abcdef"}"#)] },
        DocumentOp::Insert { position: 3, segments: vec![segment(r#"{"text":"XY"}"#)] },
    ];
    let result = replay(&ops);
    assert_eq!(segments_text(&result.segments), "abcXYdef");
    assert_eq!(result.applied, 2);
    assert_eq!(result.skipped, 0);
}

#[test]
fn redaction_removes_personal_data_at_every_depth() {
    let segments = vec![
        segment(r#"{"text":"x","props":{"attribution":{"user":"u"},"format!bold":true}}"#),
        segment(r#"{"marker":{"refType":1},"props":{"nodeType":"Paragraph","attribution":"someone"}}"#),
        segment(r#"{"mystery":{"attribution":"a","keep":1}}"#),
    ];
    let document = document_of(segments, Some("T"));
    let before_markdown = markdown::render(&document);
    let before_text = text::render(&document);

    let redacted = redact(document);

    match &redacted.blocks[0] {
        Block::Paragraph { props, .. } => {
            let keys: Vec<&str> = props.0.iter().map(|(k, _)| k.as_str()).collect();
            assert_eq!(keys, vec!["nodeType"]);
        }
        other => panic!("expected a paragraph, got {other:?}"),
    }
    match &redacted.blocks[1] {
        Block::Unknown { raw } => {
            let inner = raw.get("mystery").unwrap();
            assert!(inner.get("attribution").is_none());
            assert_eq!(inner.get("keep").and_then(|v| v.as_i64()), Some(1));
        }
        other => panic!("expected an unparsed block, got {other:?}"),
    }
    // Markdown and text carry no properties, so removing them changes nothing.
    assert_eq!(markdown::render(&redacted), before_markdown);
    assert_eq!(text::render(&redacted), before_text);
    assert_eq!(before_markdown, "# T\n\n**x**\n");
}

#[test]
fn links_are_percent_encoded_and_emphasis_skips_surrounding_spaces() {
    let segments = vec![
        segment(r#"{"text":" spaced ","props":{"format!italic":true}}"#),
        segment(r#"{"text":"go","props":{"hyperlink!url":"https://example.org/a b)"}}"#),
        segment(r#"{"marker":{"refType":1},"props":{"nodeType":"Paragraph"}}"#),
    ];
    let document = document_of(segments, None);
    assert_eq!(
        markdown::render(&document),
        " *spaced* [go](https://example.org/a%20b%29)\n"
    );
}

#[test]
fn every_signature_is_inflated_or_rejected() {
    let mut bytes = vec![0x1f, 0x8b, 0x08, 0x99, 0x99, 0x99, 0x99];
    bytes.extend(gzip(&member()));
    bytes.extend([0x1f, 0x8b, 0x08, 0xff]);
    let source = SourceFile { path: "x.loop".to_string(), bytes };
    let analysis = Analysis::run(&source, Limits::default());

    assert_eq!(analysis.gzip_candidates, 3);
    assert_eq!(analysis.members.len(), 1);
    assert_eq!(analysis.failed_candidates.len(), 2);
    assert_eq!(analysis.members[0].index, 0);
    assert!(analysis
        .warnings
        .iter()
        .any(|w| w.code == "gzip_candidate_rejected"));
}

#[test]
fn a_member_that_is_not_an_envelope_is_refused_by_the_envelope_reader() {
    match EnvelopeDecoder.discover(0, b"plain bytes") {
        Err(DiscoveryError::Unsupported(message)) => assert!(!message.is_empty()),
        Ok(found) => panic!("expected a refusal, got {} payload(s)", found.len()),
    }
}

#[test]
fn an_unrecognised_file_and_an_empty_page_are_told_apart() {
    let source = SourceFile { path: "x.loop".to_string(), bytes: b"nothing here".to_vec() };
    let analysis = Analysis::run(&source, Limits::default());
    assert_eq!(
        describe_absence(&analysis),
        "no gzip member could be inflated from 12 byte(s) (0 signature(s) tried)"
    );
    let (document, _) = reconstruct(&analysis);
    assert_eq!(
        describe_empty(&analysis, &document),
        "the container was read but holds no merge tree, so there is no document structure to reconstruct"
    );

    let sample = sample_analysis();
    assert_eq!(
        describe_absence(&sample),
        "1 gzip member(s) inflated but none contained an embedded JSON payload"
    );
}

#[test]
fn the_verbose_report_lists_each_member() {
    let analysis = sample_analysis();
    let report = InspectReport::build(&analysis);
    let out = report.write_text(true);
    let expected = format!(
        "    0  offset {:>9}  compressed {:>9}  decompressed {:>9}  utf8 {:<5}  json {:>3}  chunks {:>3}\n",
        6,
        analysis.members[0].compressed_len.unwrap(),
        member().len(),
        true,
        2,
        2
    );
    assert!(out.contains(&expected), "{out}");
    assert!(out.contains("      source: member 0 at file offset 6, payload offset 2\n"), "{out}");
}

#[test]
fn a_file_that_is_not_a_container_fails_with_a_reason() {
    let source = SourceFile { path: "plain.loop".to_string(), bytes: b"this is not a Loop file at all".to_vec() };
    let analysis = Analysis::run(&source, Limits::default());

    let message = not_a_container("plain.loop", &analysis).expect("a plain file must be refused");
    assert!(
        message.contains("is not a Microsoft Loop or Fluid container"),
        "unexpected message: {message}"
    );
    assert!(
        message.contains("no gzip member could be inflated"),
        "should say why: {message}"
    );
    assert!(message.contains("inspect"), "should point at inspect: {message}");
    assert_eq!(
        message,
        "plain.loop is not a Microsoft Loop or Fluid container: no gzip member could be inflated from 30 byte(s) \
         (0 signature(s) tried). Run `loop-extract inspect` on it for the detail."
    );
}

#[test]
fn a_recognised_container_is_not_refused() {
    let analysis = sample_analysis();
    assert!(not_a_container("sample.loop", &analysis).is_none());
}

#[test]
fn the_chunk_count_is_the_sum_of_the_members_chunk_counts() {
    let mut bytes = b"header".to_vec();
    bytes.extend(gzip(&member()));
    bytes.extend(gzip(BODY.as_bytes()));
    let source = SourceFile { path: "two.loop".to_string(), bytes };
    let analysis = Analysis::run(&source, Limits::default());

    let per_member: usize = analysis.member_info.iter().map(|m| m.merge_tree_chunks).sum();
    assert_eq!(analysis.member_info.len(), 2);
    assert_eq!(analysis.chunk_candidates, per_member);
    assert_eq!(analysis.chunk_candidates, 3);
}

#[test]
fn a_rejected_signature_is_warned_about_after_the_scan_warnings() {
    let mut bytes = vec![0x00, 0x1f, 0x8b, 0x08, 0x99, 0x99, 0x99, 0x99];
    bytes.extend(gzip(&member()));
    let source = SourceFile { path: "x.loop".to_string(), bytes };
    let analysis = Analysis::run(&source, Limits::default());

    assert_eq!(analysis.failed_candidates.len(), 1);
    let rejected = &analysis.warnings[0];
    assert_eq!(rejected.code, "gzip_candidate_rejected");
    assert_eq!(
        rejected.message,
        format!("gzip signature did not inflate: {}", analysis.failed_candidates[0].error)
    );
    assert_eq!(rejected.member_index, Some(usize::MAX));
    assert_eq!(rejected.file_offset, Some(1));
}

#[test]
fn the_plain_report_is_the_verbose_report_without_members_and_sources() {
    let analysis = sample_analysis();
    let report = InspectReport::build(&analysis);
    let verbose = report.write_text(true);
    let plain = report.write_text(false);

    let mut kept: Vec<&str> = Vec::new();
    let mut in_members = false;
    for line in verbose.split_inclusive('\n') {
        if line == "Members\n" {
            in_members = true;
            continue;
        }
        if in_members {
            if line == "\n" {
                in_members = false;
            }
            continue;
        }
        if line.starts_with("      source: member ") {
            continue;
        }
        kept.push(line);
    }
    assert!(verbose.contains("Members\n"));
    assert!(verbose.contains("      source: member "));
    assert!(!plain.contains("Members\n"));
    assert!(!plain.contains("      source: member "));
    assert_eq!(kept.concat(), plain);
}

#[test]
fn warnings_keep_the_order_they_were_found_in() {
    let mut ws = Warnings::default();
    ws.push(Warning::new("a", "first".to_string()));
    ws.extend(vec![Warning::new("b", "second".to_string()), Warning::new("c", "third".to_string())]);
    assert_eq!(ws.as_slice().len(), 3);
    let codes: Vec<String> = ws.into_vec().into_iter().map(|w| w.code).collect();
    assert_eq!(codes, vec!["a", "b", "c"]);
}
