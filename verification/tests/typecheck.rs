use muninn::ast::StmtKind;
use muninn::frontend::{analyze_document, check_document, references_to_target};
use muninn::parser::parse_document;
use muninn::project::is_rename_identifier;
use muninn::semantics::{SymbolKind, Ty};
use muninn::typecheck::{analyze_program, check_program};

#[test]
fn records_expression_types_by_node_id() {
    let program = parse_document("let x: Int = 1 + 2;").expect("program");
    let model = analyze_program(&program);
    let expr = match &program.statements[0].kind {
        StmtKind::Let { initializer, .. } => initializer,
        _ => panic!("expected let"),
    };
    assert_eq!(model.ty_for_expr(expr.id), Some(&Ty::Int));
}

#[test]
fn reports_mismatched_assignment() {
    let program = parse_document("let mut x: Int = 1; x = true;").expect("program");
    let model = analyze_program(&program);
    assert!(!model.diagnostics.is_empty());
}

#[test]
fn reports_missing_non_void_return() {
    let program = parse_document(
        "fn maybe(flag: Bool) -> Int { if (flag) { return 1; } } let out: Int = maybe(false);",
    )
    .expect("program");
    let model = analyze_program(&program);
    assert!(model
        .diagnostics
        .iter()
        .any(|error| error.message.contains("may fall through without returning Int")));
}

#[test]
fn validates_assert_builtin_argument_type() {
    let program = parse_document("assert(1);").expect("program");
    let model = analyze_program(&program);
    assert!(model
        .diagnostics
        .iter()
        .any(|error| error.message.contains("assert expects Bool")));
}

#[test]
fn flags_unreachable_statement_after_return() {
    let program = parse_document("fn main() -> Int { return 1; let x: Int = 2; }").expect("program");
    let model = analyze_program(&program);
    assert!(model
        .diagnostics
        .iter()
        .any(|error| error.message == "unreachable statement"));
}

#[test]
fn rejects_duplicate_bindings_in_same_scope() {
    let source = r#"
let x: Int = 1;
let x: Int = 2;
"#;

    let analysis = analyze_document(source);
    assert!(analysis
        .diagnostics
        .iter()
        .any(|error| error.message.contains("already defined in this scope")));
}

#[test]
fn rejects_builtin_shadowing_at_global_scope() {
    let source = r#"
let print: Int = 1;
"#;

    let analysis = analyze_document(source);
    assert!(analysis
        .diagnostics
        .iter()
        .any(|error| error.message.contains("already defined in this scope")));
}

#[test]
fn rejects_duplicate_function_parameters() {
    let source = r#"
fn bad(x: Int, x: Int) -> Int {
    return x;
}

bad(1, 2);
"#;

    let analysis = analyze_document(source);
    assert!(analysis
        .diagnostics
        .iter()
        .any(|error| error.message.contains("already defined in this scope")));
}

#[test]
fn rejects_assignment_to_function_name() {
    let source = r#"
fn value() -> Int {
    return 1;
}

value = 3;
"#;

    let analysis = analyze_document(source);
    assert!(analysis
        .diagnostics
        .iter()
        .any(|error| error.message.contains("cannot assign to 'value'")));
}

#[test]
fn rejects_assignment_to_builtin_name() {
    let source = r#"
print = 1;
"#;

    let analysis = analyze_document(source);
    assert!(analysis
        .diagnostics
        .iter()
        .any(|error| error.message.contains("cannot assign to 'print'")));
}

#[test]
fn assigning_to_function_reports_a_single_diagnostic() {
    let source = r#"
fn value() -> Int {
    return 1;
}

value = 3;
"#;

    let analysis = analyze_document(source);
    assert_eq!(analysis.diagnostics.len(), 1);
    assert!(analysis.diagnostics[0]
        .message
        .contains("cannot assign to 'value'"));
}

#[test]
fn flags_statements_after_top_level_infinite_loop() {
    let source = r#"
while (true) {
}
let y: Int = 1;
"#;

    let analysis = analyze_document(source);
    assert!(analysis
        .diagnostics
        .iter()
        .any(|error| error.message.contains("unreachable statement")));
}

#[test]
fn allows_code_after_top_level_conditional_loop() {
    let source = r#"
let mut done: Bool = false;
while (done) {
    done = true;
}
done;
"#;

    let analysis = analyze_document(source);
    assert!(analysis.diagnostics.is_empty());
}

#[test]
fn native_hint_names_shadowed_builtin_without_stray_space() {
    let source = r#"
fn f() -> Int {
    let print: Int = 1;
    print(2);
    return 0;
}
"#;

    let analysis = analyze_document(source);
    assert!(analysis.diagnostics.iter().any(|error| {
        error
            .message
            .contains("did you mean native function 'print'?)")
    }));
    assert!(analysis
        .diagnostics
        .iter()
        .all(|error| !error.message.contains("'? )")));
}

#[test]
fn symbol_lookup_at_file_start_ignores_synthetic_native_spans() {
    let source = "let alpha: Int = 1;\nalpha;\n";

    let analysis = analyze_document(source);
    assert!(analysis.diagnostics.is_empty());
    assert!(analysis.symbol_at_offset(0).is_none());

    let use_offset = source.find("alpha;").expect("use site") + 2;
    let symbol = analysis
        .definition_at_offset(use_offset)
        .expect("use site resolves");
    assert_eq!(symbol.name, "alpha");
}

#[test]
fn frontend_exposes_semantics_for_successful_programs() {
    let analysis = analyze_document(
        r#"
fn add(a: Int, b: Int) -> Int {
    return a + b;
}

let result: Int = add(1, 2);
"#,
    );
    assert!(analysis.is_ok());
    assert!(analysis.parsed.is_some());
    assert!(analysis.semantics.is_some());
}

#[test]
fn frontend_keeps_parse_tree_ids_stable_for_type_queries() {
    let program = parse_document("let x: Int = 1 + 2;").expect("program");
    let analysis = analyze_document("let x: Int = 1 + 2;");
    let semantics = analysis.semantics.expect("semantics");
    let expr_id = match &program.statements[0].kind {
        StmtKind::Let { initializer, .. } => initializer.id,
        _ => panic!("expected let"),
    };
    assert!(semantics.ty_for_expr(expr_id).is_some());
}

#[test]
fn frontend_exposes_symbol_queries_by_offset() {
    let source = "let value: Int = 1;\nvalue;\n";
    let analysis = analyze_document(source);
    assert!(!analysis.has_errors());

    let offset = source.find("value;\n").expect("value use");
    let symbol = analysis
        .definition_at_offset(offset)
        .expect("definition at offset");
    assert_eq!(symbol.name, "value");
}

#[test]
fn reference_index_distinguishes_same_named_locals_per_function() {
    let source = "fn first(value: Int) -> Int {\n    return value + 1;\n}\nfn second(value: Int) -> Int {\n    return value + 2;\n}\nfirst(1);\nsecond(2);\n";
    let analysis = analyze_document(source);
    assert!(analysis.is_ok());

    let first_use = source.find("value + 1").expect("first use");
    let first_id = analysis
        .definition_at_offset(first_use)
        .expect("first definition")
        .id;
    let first_spans = references_to_target(&analysis, first_id);
    assert_eq!(first_spans.len(), 2, "spans: {first_spans:?}");
    for span in &first_spans {
        assert!(
            source[span.offset..span.end_offset].contains("value"),
            "span covers the name: {span:?}"
        );
    }
    let second_use = source.find("value + 2").expect("second use");
    let second_id = analysis
        .definition_at_offset(second_use)
        .expect("second definition")
        .id;
    assert_ne!(first_id, second_id, "no text matching across functions");
    assert_eq!(references_to_target(&analysis, second_id).len(), 2);
}

#[test]
fn rename_identifier_validation_rejects_non_identifiers() {
    assert!(is_rename_identifier("total"));
    assert!(is_rename_identifier("_x1"));
    assert!(!is_rename_identifier("has space"));
    assert!(!is_rename_identifier("1abc"));
    assert!(!is_rename_identifier(""));
    assert!(!is_rename_identifier("a-b"));
}

#[test]
fn renders_golden_parser_error() {
    let source = "let x: Int = ;";
    let analysis = analyze_document(source);
    let error = analysis.diagnostics.first().expect("parser diagnostic");
    assert_eq!(error.phase, "parser");

    let rendered = error.render_with_source(source);
    let expected = "parser error: expected expression\n --> 1:14\n  |\n  1 | let x: Int = ;\n  |              ^";
    assert_eq!(rendered, expected);
}

#[test]
fn renders_golden_type_error() {
    let source = "let total: Int = true;";
    let analysis = analyze_document(source);
    let error = analysis.diagnostics.first().expect("typecheck diagnostic");
    assert_eq!(error.phase, "typecheck");

    let rendered = error.render_with_source(source);
    let expected = "typecheck error: expected initializer of type Int, got Bool\n --> 1:18\n  |\n  1 | let total: Int = true;\n  |                  ^^^^";
    assert_eq!(rendered, expected);
}

#[test]
fn renders_golden_lexer_error_for_invalid_integer_literal() {
    let source = "let x: Int = 9223372036854775808;";
    let analysis = analyze_document(source);
    let error = analysis.diagnostics.first().expect("lexer diagnostic");
    assert_eq!(error.phase, "lexer");

    let rendered = error.render_with_source(source);
    let expected = "lexer error: invalid integer literal '9223372036854775808'\n --> 1:14\n  |\n  1 | let x: Int = 9223372036854775808;\n  |              ^^^^^^^^^^^^^^^^^^^";
    assert_eq!(rendered, expected);
}

#[test]
fn rejects_type_mismatch() {
    let src = r#"
let x: Int = true;
"#;

    let analysis = analyze_document(src);
    assert!(!analysis.diagnostics.is_empty());
    assert!(analysis.diagnostics[0]
        .message
        .contains("expected initializer of type Int"));
}

#[test]
fn rejects_assignment_to_immutable_binding() {
    let src = r#"
let x: Int = 1;
x = 2;
"#;

    let analysis = analyze_document(src);
    assert!(analysis
        .diagnostics
        .iter()
        .any(|error| error.message.contains("not mutable")));
}

#[test]
fn rejects_missing_non_void_return_paths() {
    let src = r#"
fn maybe(flag: Bool) -> Int {
    if (flag) {
        return 1;
    }
}

let x: Int = maybe(false);
x + 1;
"#;

    let analysis = analyze_document(src);
    assert!(analysis.diagnostics.iter().any(|error| error
        .message
        .contains("may fall through without returning Int")));
}

#[test]
fn builtins_come_first_among_symbols() {
    let program = parse_document("let x: Int = 1;").expect("program");
    let model = analyze_program(&program);
    assert!(matches!(model.symbols[0].kind, SymbolKind::Builtin(_)));
    assert_eq!(model.symbols[0].name, "print");
    assert_eq!(model.symbols[1].name, "assert");
    assert_eq!(model.symbols[2].name, "x");
    assert_eq!(model.symbols[2].detail, "x: Int");
    for (index, symbol) in model.symbols.iter().enumerate() {
        assert_eq!(symbol.id, index);
    }
}

#[test]
fn clean_program_has_no_error_types() {
    let program = parse_document(
        "fn twice(n: Int) -> Int { return n * 2; } let s: String = \"a\" + \"b\"; print(twice(3) > 4 || false);",
    )
    .expect("program");
    let model = check_program(&program).expect("model");
    assert!(model.expr_types.iter().all(|(_, ty)| *ty != Ty::Error));
    let function = model.symbols.iter().find(|s| s.name == "twice").expect("function");
    assert_eq!(function.detail, "fn twice(n: Int) -> Int");
}

#[test]
fn unknown_name_is_typed_as_error_and_reported() {
    let program = parse_document("missing + 1;").expect("program");
    let errors = check_document(&program).expect_err("errors");
    assert_eq!(errors.len(), 1);
    assert_eq!(errors[0].message, "unknown name 'missing'");
    assert_eq!(errors[0].phase, "typecheck");
}

#[test]
fn operator_type_rules_are_reported_with_both_types() {
    let analysis = analyze_document("1 + true; 1.5 < 2; !3; -\"s\"; 1 == \"one\";");
    let messages: Vec<&str> = analysis.diagnostics.iter().map(|e| e.message.as_str()).collect();
    assert_eq!(
        messages,
        vec![
            "'+' expects Int/Int, Float/Float, or String/String, got Int and Bool",
            "ordering comparison expects Int/Int or Float/Float, got Float and Int",
            "unary '!' expects Bool",
            "unary '-' expects Int or Float",
            "comparison expects matching types, got Int and String",
        ]
    );
}

#[test]
fn call_arity_and_argument_types_are_checked() {
    let analysis = analyze_document(
        "fn f(a: Int, b: Bool) -> Void { } f(1); f(true, true); print(1, 2); 3(4);",
    );
    let messages: Vec<&str> = analysis.diagnostics.iter().map(|e| e.message.as_str()).collect();
    assert_eq!(
        messages,
        vec![
            "wrong argument count: expected 2, got 1",
            "argument 0 mismatch: expected Int, got Bool",
            "print expects exactly 1 argument",
            "value of type Int is not callable",
        ]
    );
}

#[test]
fn return_outside_function_and_bad_conditions_are_reported() {
    let analysis = analyze_document("return; while (1) { } if (\"s\") { }");
    let messages: Vec<&str> = analysis.diagnostics.iter().map(|e| e.message.as_str()).collect();
    assert_eq!(
        messages,
        vec![
            "return can only appear inside a function",
            "unreachable statement",
            "unreachable statement",
        ]
    );
}

#[test]
fn unparsable_document_has_no_model() {
    let analysis = analyze_document("let = 3;");
    assert!(analysis.parsed.is_none());
    assert!(analysis.semantics.is_none());
    assert!(analysis.has_errors());
    assert_eq!(analysis.diagnostics[0].phase, "parser");
}
