use review_everything::difft::Status;
use review_everything::git::language_from_ext;
use review_everything::pipeline::difft_output_file;
use review_everything::report::{parse_report, read_value, Json};
use review_everything::types::SyntaxHighlight;

fn chars(s: &str) -> Vec<char> {
    s.chars().collect()
}

#[test]
fn report_reads_one_file_object() {
    let text = r#" {"path": "src/a.rs", "language": "Rust", "status": "changed",
        "aligned_lines": [[0, 0], [null, 1], [1, null]],
        "chunks": [[{"lhs": {"line_number": 0, "changes": [{"start": 0, "end": 3, "content": "fn", "highlight": "keyword"}]},
                     "rhs": {"line_number": 1, "changes": [{"start": 4, "end": 7, "highlight": "string"}, {"start": 1}]}}]]} "#;
    let files = parse_report(text).unwrap();
    assert_eq!(files.len(), 1);
    let f = &files[0];
    assert_eq!(f.path, "src/a.rs");
    assert_eq!(f.language, "Rust");
    assert_eq!(f.status, Status::Changed);
    assert_eq!(f.aligned_lines, vec![(Some(0), Some(0)), (None, Some(1)), (Some(1), None)]);
    assert_eq!(f.chunks.len(), 1);
    assert_eq!(f.chunks[0].len(), 1);
    let lhs = f.chunks[0][0].lhs.as_ref().unwrap();
    assert_eq!(lhs.line_number, 0);
    assert_eq!(lhs.changes.len(), 1);
    assert_eq!((lhs.changes[0].start, lhs.changes[0].end), (0, 3));
    assert_eq!(lhs.changes[0].highlight, SyntaxHighlight::Keyword);
    let rhs = f.chunks[0][0].rhs.as_ref().unwrap();
    assert_eq!(rhs.line_number, 1);
    assert_eq!(rhs.changes.len(), 1);
    assert_eq!(rhs.changes[0].highlight, SyntaxHighlight::String);
}

#[test]
fn report_reads_array_with_defaults() {
    let text = r#"[{"path": "a.rs", "status": "created"}, {}, 7]"#;
    let files = parse_report(text).unwrap();
    assert_eq!(files.len(), 3);
    assert_eq!(files[0].path, "a.rs");
    assert_eq!(files[0].language, "Text");
    assert_eq!(files[0].status, Status::Created);
    assert!(files[0].aligned_lines.is_empty() && files[0].chunks.is_empty());
    assert_eq!(files[1].path, "");
    assert_eq!(files[1].status, Status::Unchanged);
    assert_eq!(files[2].language, "Text");
    assert!(parse_report("[]").unwrap().is_empty());
}

#[test]
fn report_side_without_line_number_is_missing() {
    let text = r#"{"chunks": [[{"lhs": {"changes": []}, "rhs": {"line_number": -1}}, {"rhs": {"line_number": 2}}]]}"#;
    let files = parse_report(text).unwrap();
    let chunk = &files[0].chunks[0];
    assert_eq!(chunk.len(), 2);
    assert!(chunk[0].lhs.is_none() && chunk[0].rhs.is_none());
    assert!(chunk[1].lhs.is_none());
    assert_eq!(chunk[1].rhs.as_ref().unwrap().line_number, 2);
    assert!(chunk[1].rhs.as_ref().unwrap().changes.is_empty());
}

#[test]
fn report_string_escapes() {
    let text = r#"{"path": "a\u0041\n\"b\\c\/d\ud800"}"#;
    let files = parse_report(text).unwrap();
    assert_eq!(files[0].path, "aA\n\"b\\c/d\u{fffd}");
}

#[test]
fn report_numbers() {
    let s = chars("[12, 1e3, 2.75, -3, 4294967296, 4294967295, 0, -0]");
    match read_value(&s, 0) {
        Some((Json::Arr(items), end)) => {
            assert_eq!(end, s.len());
            let nums: Vec<Option<u32>> = items
                .iter()
                .map(|x| match x {
                    Json::Num(n) => *n,
                    _ => panic!("expected a number"),
                })
                .collect();
            assert_eq!(nums, vec![Some(12), Some(1), Some(2), None, None, Some(4294967295), Some(0), None]);
        }
        other => panic!("expected an array, got {:?}", other),
    }
    assert!(read_value(&chars("-"), 0).is_none());
    assert!(read_value(&chars("1-2"), 0).is_none());
    assert!(read_value(&chars(".5"), 0).is_none());
    assert!(read_value(&chars("+5"), 0).is_none());
}

#[test]
fn report_first_of_repeated_keys() {
    let files = parse_report(r#"{"path": "first", "path": "second"}"#).unwrap();
    assert_eq!(files[0].path, "first");
}

#[test]
fn report_literals_and_position() {
    let s = chars("  true , false");
    match read_value(&s, 0) {
        Some((Json::Bool(true), 6)) => {}
        other => panic!("unexpected {:?}", other),
    }
    match read_value(&s, 8) {
        Some((Json::Bool(false), 14)) => {}
        other => panic!("unexpected {:?}", other),
    }
    assert!(matches!(read_value(&chars("null"), 0), Some((Json::Null, 4))));
    assert!(read_value(&chars("nul"), 0).is_none());
    assert!(read_value(&chars("   "), 0).is_none());
}

#[test]
fn report_errors() {
    assert_eq!(parse_report("").unwrap_err(), "malformed JSON");
    assert_eq!(parse_report("[1, 2").unwrap_err(), "malformed JSON");
    assert_eq!(parse_report(r#"{"a" 1}"#).unwrap_err(), "malformed JSON");
    assert_eq!(parse_report(r#"{"a": 1,}"#).unwrap_err(), "malformed JSON");
    assert_eq!(parse_report(r#""unterminated"#).unwrap_err(), "malformed JSON");
    assert_eq!(parse_report("42").unwrap_err(), "expected an object or an array");
    assert_eq!(parse_report(r#""text""#).unwrap_err(), "expected an object or an array");
}

#[test]
fn report_difft_output_per_file() {
    let f = difft_output_file(" \n\t\u{a0}", "src/x.py".to_string()).unwrap();
    assert_eq!(f.path, "src/x.py");
    assert_eq!(f.language, "Python");
    assert_eq!(f.status, Status::Unchanged);
    assert!(f.aligned_lines.is_empty() && f.chunks.is_empty());

    let f = difft_output_file(r#"{"path": "/tmp/new/x.rs", "language": "Rust", "status": "changed"}"#, "x.rs".to_string())
        .unwrap();
    assert_eq!(f.path, "x.rs");
    assert_eq!(f.language, "Rust");
    assert_eq!(f.status, Status::Changed);

    assert_eq!(
        difft_output_file("[{}, {}]", "a.rs".to_string()).unwrap_err(),
        "a.rs: expected 1 file from difft, got 2"
    );
    assert_eq!(difft_output_file("[]", "a.rs".to_string()).unwrap_err(), "a.rs: expected 1 file from difft, got 0");
    assert_eq!(difft_output_file("{", "a.rs".to_string()).unwrap_err(), "a.rs: JSON parse error: malformed JSON");
    assert_eq!(
        difft_output_file("3", "a.rs".to_string()).unwrap_err(),
        "a.rs: JSON parse error: expected an object or an array"
    );
}

#[test]
fn report_language_from_extension() {
    assert_eq!(language_from_ext("src/main.rs"), "Rust");
    assert_eq!(language_from_ext("web/app.tsx"), "TypeScript");
    assert_eq!(language_from_ext("lib.hpp"), "C++");
    assert_eq!(language_from_ext("a.tar.gz"), "Text");
    assert_eq!(language_from_ext("conf/.bashrc"), "Text");
    assert_eq!(language_from_ext("dir.rs/Makefile"), "Text");
    assert_eq!(language_from_ext(".x.sh"), "Shell");
    assert_eq!(language_from_ext("file."), "Text");
    assert_eq!(language_from_ext("x.yaml"), "YAML");
}
