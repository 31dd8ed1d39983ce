use muninn::error::MuninnError;
use muninn::format::format_source;
use muninn::source::{compute_line_starts, offset_to_utf16_position, utf16_position_to_offset};
use muninn::span::Span;

#[test]
fn renders_error_with_source_context() {
    let source = "let x: Int = \"oops\";";
    let err = MuninnError::new(
        "typecheck",
        "expected Int, got String",
        Span::range(1, 14, 13, 1, 20, 19),
    )
    .with_note("try changing the literal type");

    let rendered = err.render_with_source(source);
    assert!(rendered.contains("typecheck error"));
    assert!(rendered.contains("let x: Int = \"oops\";"));
    assert!(rendered.contains("note:"));
}

#[test]
fn renders_caret_under_the_span() {
    let source = "let x: Int = \"oops\";";
    let err = MuninnError::new("typecheck", "expected Int, got String", Span::range(1, 14, 13, 1, 20, 19));
    let rendered = err.render_with_source(source);
    assert_eq!(
        rendered,
        "typecheck error: expected Int, got String\n --> 1:14\n  |\n  1 | let x: Int = \"oops\";\n  |              ^^^^^^"
    );
}

#[test]
fn describes_synthetic_span_errors_on_one_line() {
    let err = MuninnError::new("vm", "boom", Span::default()).with_note("first");
    assert_eq!(err.describe(), "vm error at 0:0: boom\n  note: first");
    assert_eq!(err.render_with_source("ignored"), "vm error at 0:0: boom\n  note: first");
}

#[test]
fn normalizes_indentation_and_trailing_whitespace() {
    let source = "fn add(a: Int, b: Int) -> Int {\nreturn a + b;   \n}\n";
    assert_eq!(
        format_source(source),
        "fn add(a: Int, b: Int) -> Int {\n    return a + b;\n}\n"
    );
}

#[test]
fn collapses_blank_runs_and_ends_with_one_newline() {
    let source = "let a: Int = 1;\n\n\nlet b: Int = 2;";
    assert_eq!(format_source(source), "let a: Int = 1;\n\nlet b: Int = 2;\n");
}

#[test]
fn braces_inside_strings_do_not_change_depth() {
    let source = "let s: String = \"}{\";\nlet t: Int = 1;\n";
    assert_eq!(format_source(source), source);
}

#[test]
fn nested_blocks_indent_per_level() {
    let source = "fn f() -> Int {\nif (true) {\nreturn 1;\n}\nreturn 0;\n}\n";
    assert_eq!(
        format_source(source),
        "fn f() -> Int {\n    if (true) {\n        return 1;\n    }\n    return 0;\n}\n"
    );
}

#[test]
fn empty_source_stays_empty() {
    assert_eq!(format_source(""), "");
}

#[test]
fn formatting_twice_changes_nothing() {
    let sources = [
        "fn f() -> Int {\nif (true) {\nreturn 1;\n}\n\n\n\nreturn 0;\n}   \n",
        "let s: String = \"}{\";\n  let t: Int = 1;",
        "}\n}\nlet a: Int = 1;\n",
    ];
    for source in sources {
        let once = format_source(source);
        assert_eq!(format_source(&once), once);
    }
}

#[test]
fn round_trips_utf16_positions() {
    let source = "let bird = \"🐦\";\nprint(bird);\n";
    let lines = compute_line_starts(source);
    let offset = source.find("🐦").expect("bird offset");
    let (line, character) = offset_to_utf16_position(source, &lines, offset);
    assert_eq!((line, character), (0, 12));
    let round_trip = utf16_position_to_offset(source, &lines, line, character).expect("offset");
    assert_eq!(round_trip, offset);
}

#[test]
fn line_starts_follow_newlines_in_bytes() {
    assert_eq!(compute_line_starts("a\né\nc"), vec![0, 2, 5]);
    assert_eq!(compute_line_starts(""), vec![0]);
}

#[test]
fn spans_merge_and_measure() {
    let a = Span::range(1, 1, 0, 1, 4, 3);
    let b = Span::range(2, 1, 10, 2, 5, 14);
    assert_eq!(a.merge(b), Span::range(1, 1, 0, 2, 5, 14));
    assert_eq!(Span::default().merge(b), b);
    assert_eq!(a.width(), 3);
    assert!(Span::new(1, 1, 7).contains_offset(7));
    assert!(!a.contains_offset(3));
}

#[test]
fn trailing_blank_lines_are_dropped() {
    assert_eq!(format_source("a\n\n"), "a\n");
    assert_eq!(format_source("let a: Int = 1;\n\n\n"), "let a: Int = 1;\n");
}
