use reforger_language_server::index_build::{
    line_column, lossy_decode_detail, parse_diagnostic_details, record_file_counts,
    record_parse_diagnostic_details, source_snippet, IndexBuildControl, IndexBuildCounts,
    IndexBuildSummary, IndexBuildTimings, IndexSourceRoot, ParseDiagnosticDetail,
    INDEX_BUILD_CANCELLED, MAX_RECORDED_LOSSY_FILES,
};
use reforger_language_server::model::{SourceKind, TextSpan, SOURCE_PRIORITY_GAME_DATA};
use reforger_language_server::syntax::ParseDiagnostic;

fn empty_summary() -> IndexBuildSummary {
    IndexBuildSummary {
        totals: IndexBuildCounts::default(),
        by_source_kind: Vec::new(),
        timings: IndexBuildTimings::default(),
    }
}

fn diagnostic(message: &str, start: usize, end: usize) -> ParseDiagnostic {
    ParseDiagnostic { message: message.to_string(), span: TextSpan { start, end } }
}

fn detail(path: &str, n: usize) -> ParseDiagnosticDetail {
    ParseDiagnosticDetail {
        path: path.to_string(),
        message: format!("problem {n}"),
        span: TextSpan { start: n, end: n + 1 },
        line: 1,
        column: n + 1,
        snippet: String::new(),
    }
}

#[test]
fn line_column_counts_lines_and_characters() {
    let source = "ab\ncé\nx";
    assert_eq!(line_column(source, 0), (1, 1));
    assert_eq!(line_column(source, 1), (1, 2));
    assert_eq!(line_column(source, 3), (2, 1));
    // 'é' takes two bytes but one column.
    assert_eq!(line_column(source, 6), (2, 3));
    assert_eq!(line_column(source, 7), (3, 1));
    assert_eq!(line_column(source, 100), (3, 2));
}

#[test]
fn snippet_marks_the_line_and_shows_two_lines_around_it() {
    let source = "one\ntwo\nthree\nfour\nfive\nsix\nseven";
    let snippet = source_snippet(source, 4);
    assert_eq!(
        snippet,
        "      2 | two\n      3 | three\n>     4 | four\n      5 | five\n      6 | six\n"
    );
    let first = source_snippet(source, 1);
    assert_eq!(first, ">     1 | one\n      2 | two\n      3 | three\n");
}

#[test]
fn snippet_of_an_empty_text_says_so() {
    assert_eq!(source_snippet("", 1), "<empty file>\n");
}

#[test]
fn snippet_renders_tabs_and_replacement_characters() {
    let snippet = source_snippet("\tx\u{FFFD}", 1);
    assert_eq!(snippet, ">     1 |     x<U+FFFD>\n");
    assert!(!snippet.contains('\u{FFFD}'));
}

#[test]
fn lossy_detail_points_at_the_first_invalid_byte() {
    let bytes = [0xff, b'c', b'l', b'a', b's', b's'];
    let source = String::from_utf8_lossy(&bytes).into_owned();
    let detail = lossy_decode_detail("Lossy.c", &bytes, &source).unwrap();
    assert_eq!(detail.path, "Lossy.c");
    assert_eq!(detail.first_replacement_offset, 0);
    assert_eq!(detail.line, 1);
    assert_eq!(detail.column, 1);
    assert_eq!(detail.replacement_count, 1);
    assert!(detail.snippet.contains("<U+FFFD>"));
    assert!(!detail.snippet.contains('\u{FFFD}'));
}

#[test]
fn lossy_detail_reads_the_invalid_offset_from_the_bytes() {
    let bytes = [b'a', b'\n', b'b', 0xc3, b'c', 0xff];
    let source = String::from_utf8_lossy(&bytes).into_owned();
    let detail = lossy_decode_detail("F.c", &bytes, &source).unwrap();
    assert_eq!(detail.first_replacement_offset, 3);
    assert_eq!(detail.line, 2);
    assert_eq!(detail.column, 2);
    assert_eq!(detail.replacement_count, 2);
}

#[test]
fn lossy_detail_of_valid_bytes_uses_the_text_offset() {
    let source = "ab\u{FFFD}";
    let detail = lossy_decode_detail("F.c", source.as_bytes(), source).unwrap();
    assert_eq!(detail.first_replacement_offset, 2);
    assert_eq!(detail.column, 3);
}

#[test]
fn lossy_detail_is_none_without_replacement() {
    assert!(lossy_decode_detail("F.c", b"class A {}", "class A {}").is_none());
}

#[test]
fn diagnostic_details_keep_the_first_three() {
    let source = "class Broken {\n  int x\n";
    let diagnostics = vec![
        diagnostic("expected ';'", 22, 22),
        diagnostic("expected '}'", 23, 23),
        diagnostic("third", 0, 5),
        diagnostic("fourth", 1, 2),
    ];
    let details = parse_diagnostic_details("Malformed.c", source, &diagnostics);
    assert_eq!(details.len(), 3);
    assert_eq!(details[0].path, "Malformed.c");
    assert_eq!(details[0].message, "expected ';'");
    assert_eq!(details[0].span, TextSpan { start: 22, end: 22 });
    assert_eq!((details[0].line, details[0].column), (2, 8));
    assert_eq!((details[1].line, details[1].column), (3, 1));
    assert_eq!((details[2].line, details[2].column), (1, 1));
    assert!(details[2].snippet.contains("class Broken"));
}

#[test]
fn record_file_counts_adds_to_totals_and_the_files_kind() {
    let mut summary = empty_summary();
    record_file_counts(&mut summary, SourceKind::Workspace, "W.c", 10, false, b"", "class W {}", &[], 0, 1, 0);
    record_file_counts(&mut summary, SourceKind::GameData, "G.c", 5, false, b"", "class G {}", &[], 0, 2, 3);
    record_file_counts(&mut summary, SourceKind::Workspace, "V.c", 7, false, b"", "class V {}", &[], 0, 4, 0);

    assert_eq!(summary.totals.files, 3);
    assert_eq!(summary.totals.bytes, 22);
    assert_eq!(summary.totals.indexed_files, 3);
    assert_eq!(summary.totals.indexed_symbols, 7);
    assert_eq!(summary.totals.non_declaration_callable_fragments, 3);
    assert_eq!(summary.by_source_kind.len(), 2);
    assert_eq!(summary.by_source_kind[0].0, SourceKind::GameData);
    assert_eq!(summary.by_source_kind[1].0, SourceKind::Workspace);
    assert_eq!(summary.counts_for_kind(SourceKind::GameData).unwrap().files, 1);
    assert_eq!(summary.counts_for_kind(SourceKind::Workspace).unwrap().files, 2);
    assert_eq!(summary.counts_for_kind(SourceKind::Workspace).unwrap().bytes, 17);
    assert!(summary.counts_for_kind(SourceKind::Unknown).is_none());
}

#[test]
fn record_file_counts_counts_lossy_files_and_diagnostics() {
    let mut summary = empty_summary();
    let bytes = [0xff, b'c', b'l', b'a', b's', b's'];
    let source = String::from_utf8_lossy(&bytes).into_owned();
    record_file_counts(&mut summary, SourceKind::GameData, "Lossy.c", 6, true, &bytes, &source, &[], 0, 0, 0);
    let malformed = "class Broken {";
    let diagnostics = vec![diagnostic("expected '}'", 14, 14)];
    record_file_counts(
        &mut summary,
        SourceKind::GameData,
        "Malformed.c",
        malformed.len(),
        false,
        malformed.as_bytes(),
        malformed,
        &diagnostics,
        1,
        1,
        0,
    );

    assert_eq!(summary.totals.files, 2);
    assert_eq!(summary.totals.lossy_files, 1);
    assert_eq!(summary.totals.lossy_decode_details.len(), 1);
    assert_eq!(summary.totals.lossy_decode_details[0].first_replacement_offset, 0);
    assert_eq!(summary.totals.parse_diagnostics, 1);
    assert_eq!(summary.totals.parse_diagnostic_files, 1);
    assert_eq!(summary.totals.parse_diagnostic_details.len(), 1);
    assert!(summary.totals.parse_diagnostic_details[0].snippet.contains("class Broken"));
    assert_eq!(summary.totals.parse_diagnostic_details[0].line, 1);
    assert_eq!(summary.totals.parse_diagnostic_details[0].column, 15);
    let game = summary.counts_for_kind(SourceKind::GameData).unwrap();
    assert_eq!(game.lossy_files, 1);
    assert_eq!(game.parse_diagnostic_files, 1);
}

#[test]
fn lossy_details_stop_at_the_limit() {
    let mut summary = empty_summary();
    let bytes = [0xff];
    let source = String::from_utf8_lossy(&bytes).into_owned();
    for n in 0..(MAX_RECORDED_LOSSY_FILES + 5) {
        let name = format!("L{n}.c");
        record_file_counts(&mut summary, SourceKind::Unknown, &name, 1, true, &bytes, &source, &[], 0, 0, 0);
    }
    assert_eq!(summary.totals.lossy_files, MAX_RECORDED_LOSSY_FILES + 5);
    assert_eq!(summary.totals.lossy_decode_details.len(), MAX_RECORDED_LOSSY_FILES);
    assert_eq!(summary.totals.lossy_decode_details[0].path, "L0.c");
}

#[test]
fn diagnostic_details_stop_at_the_capacity() {
    let mut counts = IndexBuildCounts::default();
    for file in 0..99 {
        let path = format!("F{file}.c");
        let details = vec![detail(&path, 0), detail(&path, 1), detail(&path, 2)];
        record_parse_diagnostic_details(&mut counts, &details);
    }
    assert_eq!(counts.parse_diagnostic_details.len(), 297);
    let more = vec![detail("Last.c", 0), detail("Last.c", 1), detail("Last.c", 2), detail("Last.c", 3)];
    record_parse_diagnostic_details(&mut counts, &more);
    assert_eq!(counts.parse_diagnostic_details.len(), 300);
    record_parse_diagnostic_details(&mut counts, &[detail("After.c", 0)]);
    assert_eq!(counts.parse_diagnostic_details.len(), 300);
}

#[test]
fn diagnostic_details_stop_after_one_hundred_files() {
    let mut counts = IndexBuildCounts::default();
    for file in 0..100 {
        let path = format!("F{file}.c");
        record_parse_diagnostic_details(&mut counts, &[detail(&path, 0)]);
    }
    assert_eq!(counts.parse_diagnostic_details.len(), 100);
    record_parse_diagnostic_details(&mut counts, &[detail("F0.c", 1)]);
    assert_eq!(counts.parse_diagnostic_details.len(), 100);
}

#[test]
fn empty_diagnostic_details_change_nothing() {
    let mut counts = IndexBuildCounts::default();
    record_parse_diagnostic_details(&mut counts, &[]);
    assert_eq!(counts, IndexBuildCounts::default());
}

#[test]
fn control_checks_fail_once_cancelled() {
    let control = IndexBuildControl::default();
    let shared = control.clone();
    assert!(!control.is_cancelled());
    assert_eq!(control.check(), Ok(()));
    shared.cancel();
    assert!(control.is_cancelled());
    assert_eq!(control.check(), Err(INDEX_BUILD_CANCELLED.to_string()));
    assert_eq!(IndexBuildControl::check_outcome(false), Ok(()));
    assert_eq!(IndexBuildControl::check_outcome(true), Err("index build cancelled".to_string()));
}

#[test]
fn source_root_keeps_its_fields() {
    let root = IndexSourceRoot::new("/data/scripts", SourceKind::GameData, SOURCE_PRIORITY_GAME_DATA);
    assert_eq!(root.root_path, "/data/scripts");
    assert_eq!(root.kind, SourceKind::GameData);
    assert_eq!(root.priority, SOURCE_PRIORITY_GAME_DATA);
}
