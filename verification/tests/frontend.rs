use muninn::document::{apply_content_changes, compute_line_offsets, ContentChange, DocumentState, Position, Range};
use muninn::error::MuninnError;
use muninn::lexer::{lex_document, Lexer, TokenKind};
use muninn::project::{
    blank_imports, check_specifier, is_rename_identifier, FileDiagnostic, ImportWalk, LoadedProject,
    ProjectFile, Visit,
};
use muninn::span::Span;
use muninn::vm::{
    charge_step, check_reload_compatibility, first_validation_error, reload_status, GlobalCacheStats,
    ReloadStatus, ValueKind, VmOptions,
};
use muninn::bytecode::{BytecodeModule, Chunk, FunctionBytecode, GlobalSpec, GlobalValueKind, OpCode};

#[test]
fn lexes_keywords_and_types() {
    let tokens = Lexer::new("fn main() -> Void { let mut x: Int = 1; }")
        .lex()
        .expect("tokens");
    assert!(matches!(tokens[0].kind, TokenKind::Fn));
    assert!(tokens.iter().any(|token| matches!(token.kind, TokenKind::TypeVoid)));
    assert!(tokens.iter().any(|token| matches!(token.kind, TokenKind::TypeInt)));
}

#[test]
fn lexes_utf8_string_literal_offsets() {
    let tokens = Lexer::new("let bird: String = \"🐦\";").lex().expect("tokens");
    let string = tokens
        .iter()
        .find(|token| matches!(token.kind, TokenKind::StringLiteral(_)))
        .expect("string token");
    assert!(string.span.end_offset > string.span.offset);
}

#[test]
fn reports_invalid_integer_literal() {
    let errors = Lexer::new("let x: Int = 9223372036854775808;").lex().expect_err("lexer error");
    assert!(errors.iter().any(|error| error.message.contains("invalid integer literal")));
}

#[test]
fn lexer_tracks_lines_columns_and_bytes() {
    let tokens = lex_document("a\n  bb // note\n\"é\" 1.50 ->").expect("tokens");
    let kinds: Vec<&TokenKind> = tokens.iter().map(|t| &t.kind).collect();
    assert_eq!(kinds.len(), 6);
    assert_eq!(tokens[0].kind, TokenKind::Identifier("a".to_string()));
    assert_eq!(tokens[1].span, Span::range(2, 3, 4, 2, 5, 6));
    assert_eq!(tokens[2].kind, TokenKind::StringLiteral("é".to_string()));
    assert_eq!(tokens[2].span, Span::range(3, 1, 15, 3, 4, 19));
    assert_eq!(tokens[3].kind, TokenKind::FloatLiteral("1.50".to_string()));
    assert_eq!(tokens[4].kind, TokenKind::Arrow);
    assert_eq!(tokens[5].kind, TokenKind::Eof);
    assert_eq!(tokens[5].span, Span::new(3, 12, 27));
}

#[test]
fn lexer_reads_escapes_and_reports_every_problem() {
    let tokens = lex_document("\"a\\n\\\"b\"").expect("tokens");
    assert_eq!(tokens[0].kind, TokenKind::StringLiteral("a\n\"b".to_string()));
    let errors = lex_document("x & y | \"\\q\" $ \"open").expect_err("errors");
    let messages: Vec<&str> = errors.iter().map(|e| e.message.as_str()).collect();
    assert_eq!(
        messages,
        vec![
            "unexpected '&' (did you mean '&&'?)",
            "unexpected '|' (did you mean '||'?)",
            "unsupported escape sequence '\\q'",
            "unexpected character '$'",
            "unterminated string literal",
        ]
    );
    assert!(errors.iter().all(|e| e.phase == "lexer"));
    assert_eq!(errors[3].span, Span::range(1, 14, 13, 1, 15, 14));
}

#[test]
fn lexer_keeps_trailing_dot_out_of_numbers() {
    let tokens = lex_document("12 3.25").expect("tokens");
    assert_eq!(tokens[0].kind, TokenKind::IntLiteral(12));
    assert_eq!(tokens[1].kind, TokenKind::FloatLiteral("3.25".to_string()));
    let dotted = lex_document("12.x").expect_err("a dot without digits is not part of a number");
    assert_eq!(dotted.len(), 1);
    assert_eq!(dotted[0].message, "unexpected character '.'");
    assert_eq!(dotted[0].span.offset, 2);
}

#[test]
fn rename_targets_must_be_identifiers() {
    assert!(is_rename_identifier("value_2"));
    assert!(is_rename_identifier("_x"));
    assert!(!is_rename_identifier(""));
    assert!(!is_rename_identifier("2x"));
    assert!(!is_rename_identifier("a-b"));
    assert!(!is_rename_identifier("é"));
}

#[test]
fn rename_targets_are_never_keywords_or_type_names() {
    assert!(!is_rename_identifier("let"));
    assert!(!is_rename_identifier("while"));
    assert!(!is_rename_identifier("Int"));
    assert!(!is_rename_identifier("String"));
    assert!(is_rename_identifier("lettuce"));
}

#[test]
fn import_specifiers_must_be_relative_mun_files() {
    assert!(check_specifier("./util.mun", Span::default()).is_ok());
    assert!(check_specifier("../lib/math.mun", Span::default()).is_ok());
    let alias = check_specifier("@std/io.mun", Span::default()).expect_err("alias");
    assert!(alias.message.starts_with("'@' prefixes are reserved"));
    let bare = check_specifier("util.mun", Span::default()).expect_err("bare");
    assert_eq!(
        bare.message,
        "import paths must be file-relative (start with './' or '../'), got \"util.mun\""
    );
    let ext = check_specifier("./util.txt", Span::default()).expect_err("ext");
    assert_eq!(ext.message, "import path must end with '.mun', got \"./util.txt\"");
    let absolute = check_specifier("/etc/x.mun", Span::default()).expect_err("absolute");
    assert_eq!(absolute.phase, "parser");
}

#[test]
fn import_walk_detects_cycles_with_the_full_chain() {
    let mut walk = ImportWalk::new();
    assert!(matches!(walk.visit("/p/main.mun", "main.mun"), Visit::Fresh));
    walk.enter("/p/main.mun".to_string(), "main.mun".to_string());
    walk.enter("/p/a.mun".to_string(), "a.mun".to_string());
    walk.enter("/p/b.mun".to_string(), "b.mun".to_string());
    match walk.visit("/p/a.mun", "a.mun") {
        Visit::Cycle { message, importer } => {
            assert_eq!(message, "circular import: a.mun -> b.mun -> a.mun");
            assert_eq!(importer, "/p/b.mun");
        }
        other => panic!("expected a cycle, got {other:?}"),
    }
    walk.leave();
    walk.finish("/p/b.mun".to_string());
    assert!(matches!(walk.visit("/p/b.mun", "b.mun"), Visit::Done));
}

#[test]
fn blanking_imports_keeps_lines_and_bytes() {
    let source = "import \"./é.mun\";\nlet x: Int = 1;\n";
    let span = Span::range(1, 1, 0, 1, 18, 18);
    let body = blank_imports(source, &[span]);
    assert_eq!(body.len(), source.len());
    assert_eq!(body, format!("{}\nlet x: Int = 1;\n", " ".repeat(18)));
    // a span that ends inside a character is skipped
    let inside = Span::range(1, 1, 0, 1, 11, 11);
    assert_eq!(blank_imports(source, &[inside]), source);
}

#[test]
fn projects_combine_bodies_and_map_errors_back() {
    let files = vec![
        ProjectFile { path: "dep.mun".to_string(), source: "let a: Int = 1;".to_string() },
        ProjectFile { path: "main.mun".to_string(), source: "x\ny\n".to_string() },
    ];
    let bodies = vec!["let a: Int = 1;".to_string(), "x\ny\n".to_string()];
    let project = LoadedProject::assemble("main.mun".to_string(), files, &bodies);
    assert_eq!(project.combined, "let a: Int = 1;\nx\ny\n");
    assert_eq!(project.line_starts, vec![1, 2]);
    let error = MuninnError::new("type", "bad", Span::range(3, 1, 18, 3, 2, 19));
    let synthetic = MuninnError::new("vm", "late", Span::default());
    let mapped = project.map_errors(vec![error, synthetic]);
    assert_eq!(mapped.len(), 2);
    assert_eq!(mapped[0].path, "main.mun");
    assert_eq!(mapped[0].error.span.line, 2);
    assert_eq!(mapped[0].error.span.end_line, 2);
    assert_eq!(mapped[1].path, "dep.mun");
    assert_eq!(mapped[1].error.span.line, 0);
}

#[test]
fn file_diagnostics_render_with_their_path() {
    let diagnostic = FileDiagnostic {
        path: "lib.mun".to_string(),
        source: String::new(),
        error: MuninnError::new("parser", "boom", Span::default()),
    };
    assert_eq!(diagnostic.render(), "lib.mun: parser error at 0:0: boom");
}

#[test]
fn applies_incremental_insert() {
    let original = "let x = 1;\nlet y = 2;\n";
    let changes = vec![ContentChange {
        range: Some(Range {
            start: Position { line: 1, character: 9 },
            end: Position { line: 1, character: 9 },
        }),
        text: " + 3".to_string(),
    }];
    let updated = apply_content_changes(original, &changes).expect("updated");
    assert_eq!(updated, "let x = 1;\nlet y = 2 + 3;\n");
}

#[test]
fn applies_full_replace() {
    let original = "let x = 1;";
    let changes = vec![ContentChange { range: None, text: "let x = 10;".to_string() }];
    let updated = apply_content_changes(original, &changes).expect("updated");
    assert_eq!(updated, "let x = 10;");
}

#[test]
fn edits_past_the_last_line_or_backwards_are_refused() {
    let change = |sl, sc, el, ec| ContentChange {
        range: Some(Range {
            start: Position { line: sl, character: sc },
            end: Position { line: el, character: ec },
        }),
        text: String::new(),
    };
    assert!(apply_content_changes("ab\n", &[change(5, 0, 5, 0)]).is_none());
    assert!(apply_content_changes("abcd", &[change(0, 3, 0, 1)]).is_none());
    assert_eq!(apply_content_changes("abcd", &[change(0, 1, 0, 99)]).expect("clamped"), "a");
    assert_eq!(apply_content_changes("abc", &[]).expect("no change"), "abc");
}

#[test]
fn documents_find_cursor_offsets() {
    assert_eq!(compute_line_offsets("a\nbc\n"), vec![0, 2, 5]);
    let doc = DocumentState::new(3, "ab\ncd".to_string());
    assert_eq!(doc.offset_at(1, 1), 4);
    assert_eq!(doc.offset_at(1, 10), 5);
    assert_eq!(doc.offset_at(7, 0), 3);
    assert_eq!(doc.line_prefix_bounds(1, 1), (3, 4));
}

fn one_function_module(globals: Vec<GlobalSpec>) -> BytecodeModule {
    let mut chunk = Chunk::new();
    chunk.write_op(OpCode::Nil, Span::default());
    chunk.write_op(OpCode::Return, Span::default());
    BytecodeModule {
        functions: vec![FunctionBytecode {
            name: "entry".to_string(),
            arity: 0,
            local_count: 0,
            expects_return_value: false,
            chunk,
        }],
        entry_function: 0,
        globals,
    }
}

#[test]
fn reloads_keep_live_globals_and_their_kinds() {
    let next = one_function_module(vec![GlobalSpec { name: "count".to_string(), kind: GlobalValueKind::Int }]);
    let live = vec![("print".to_string(), ValueKind::Native), ("count".to_string(), ValueKind::Int)];
    assert!(check_reload_compatibility(&live, &next).is_ok());
    let retyped = vec![("count".to_string(), ValueKind::Float)];
    let error = check_reload_compatibility(&retyped, &next).expect_err("retyped");
    assert_eq!(error.message, "reload rejected: global 'count' changed kind from Float to Int");
    let dropped = vec![("total".to_string(), ValueKind::Bool)];
    let error = check_reload_compatibility(&dropped, &next).expect_err("dropped");
    assert_eq!(error.message, "reload rejected: global 'total' is missing in new module");
    let mut broken = one_function_module(Vec::new());
    broken.entry_function = 3;
    let error = check_reload_compatibility(&[], &broken).expect_err("entry");
    assert_eq!(error.message, "reload module is missing a valid entry function");
}

#[test]
fn safe_points_fuel_and_defaults() {
    assert_eq!(reload_status(false, 5), ReloadStatus::Idle);
    assert_eq!(reload_status(true, 1), ReloadStatus::Ready);
    assert_eq!(reload_status(true, 2), ReloadStatus::Pending);
    assert_eq!(charge_step(0, Some(1), Span::default()).expect("first"), 1);
    let error = charge_step(1, Some(1), Span::default()).expect_err("fuel");
    assert_eq!(error.message, "fuel exhausted after 2 instructions (max_steps 1)");
    assert_eq!(charge_step(41, None, Span::default()).expect("unbounded"), 42);
    let options = VmOptions::default();
    assert!(!options.jit_enabled);
    assert_eq!(options.hot_loop_threshold, 100);
    assert_eq!(GlobalCacheStats::default().hits, 0);
    let first = first_validation_error(vec![MuninnError::new("compiler", "stack underflow", Span::new(2, 1, 5))]);
    assert_eq!(first.phase, "vm");
    assert_eq!(first.message, "stack underflow");
    assert_eq!(first_validation_error(Vec::new()).message, "invalid bytecode module");
}
