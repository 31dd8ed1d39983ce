use muninn::ast::{BinaryOp, Expr, ExprKind, Program, Stmt, StmtKind, TypeExpr, UnaryOp};
use muninn::lexer::Lexer;
use muninn::parser::{parse_document, Parser};

fn parse(src: &str) -> Program {
    let tokens = Lexer::new(src).lex().expect("tokens");
    let mut parser = Parser::new(tokens);
    parser.parse_program().expect("program")
}

fn single_expression(src: &str) -> Expr {
    let program = parse(src);
    assert_eq!(program.statements.len(), 1);
    match program.statements.into_iter().next().unwrap().kind {
        StmtKind::Expr(expr) => expr,
        other => panic!("expected an expression statement, got {:?}", other),
    }
}

fn collect_expr_ids(expr: &Expr, out: &mut Vec<u32>) {
    match &expr.kind {
        ExprKind::Grouping(inner) => collect_expr_ids(inner, out),
        ExprKind::Unary { expr: inner, .. } => collect_expr_ids(inner, out),
        ExprKind::Binary { left, right, .. } => {
            collect_expr_ids(left, out);
            collect_expr_ids(right, out);
        }
        ExprKind::Call { callee, args } => {
            collect_expr_ids(callee, out);
            for arg in args {
                collect_expr_ids(arg, out);
            }
        }
        _ => {}
    }
    out.push(expr.id.0);
}

fn collect_stmt_ids(stmt: &Stmt, out: &mut Vec<u32>) {
    match &stmt.kind {
        StmtKind::Let { initializer, .. } => collect_expr_ids(initializer, out),
        StmtKind::Function(decl) => {
            for param in &decl.params {
                out.push(param.id.0);
            }
            for inner in &decl.body.statements {
                collect_stmt_ids(inner, out);
            }
            out.push(decl.body.id.0);
            out.push(decl.id.0);
        }
        StmtKind::Return(Some(value)) => collect_expr_ids(value, out),
        StmtKind::While { condition, body } => {
            collect_expr_ids(condition, out);
            for inner in &body.statements {
                collect_stmt_ids(inner, out);
            }
            out.push(body.id.0);
        }
        StmtKind::Assign { value, .. } => collect_expr_ids(value, out),
        StmtKind::Expr(expr) => collect_expr_ids(expr, out),
        _ => {}
    }
    out.push(stmt.id.0);
}

#[test]
fn parses_function_and_loop() {
    let src = r#"
fn add(a: Int, b: Int) -> Int {
    return a + b;
}

let mut total: Int = 0;
while (total < 3) {
    total = add(total, 1);
}
"#;
    let tokens = Lexer::new(src).lex().expect("tokens");
    let mut parser = Parser::new(tokens);
    let program = parser.parse_program().expect("program");
    assert_eq!(program.statements.len(), 3);
    assert!(matches!(program.statements[0].kind, StmtKind::Function(_)));
}

#[test]
fn parses_call_expression_statement() {
    let src = "print(1 + 2);";
    let tokens = Lexer::new(src).lex().expect("tokens");
    let mut parser = Parser::new(tokens);
    let program = parser.parse_program().expect("program");
    let StmtKind::Expr(expr) = &program.statements[0].kind else {
        panic!("expected expr stmt");
    };
    assert!(matches!(expr.kind, ExprKind::Call { .. }));
}

#[test]
fn recovers_multiple_errors() {
    let src = "let x: Int = ; let y: String = ;";
    let tokens = Lexer::new(src).lex().expect("tokens");
    let mut parser = Parser::new(tokens);
    let errors = parser.parse_program().expect_err("errors");
    assert!(errors.len() >= 2);
}

#[test]
fn multiplication_binds_tighter_than_addition() {
    let expr = single_expression("1 + 2 * 3;");
    let ExprKind::Binary { left, op, right } = &expr.kind else {
        panic!("expected a binary expression");
    };
    assert_eq!(*op, BinaryOp::Add);
    assert!(matches!(left.kind, ExprKind::Int(1)));
    assert!(matches!(right.kind, ExprKind::Binary { op: BinaryOp::Multiply, .. }));
}

#[test]
fn subtraction_groups_to_the_left() {
    let expr = single_expression("7 - 2 - 1;");
    let ExprKind::Binary { left, op, right } = &expr.kind else {
        panic!("expected a binary expression");
    };
    assert_eq!(*op, BinaryOp::Subtract);
    assert!(matches!(right.kind, ExprKind::Int(1)));
    assert!(matches!(left.kind, ExprKind::Binary { op: BinaryOp::Subtract, .. }));
}

#[test]
fn or_binds_looser_than_and_and_comparison() {
    let expr = single_expression("a < b || c && d == e;");
    let ExprKind::Binary { left, op, right } = &expr.kind else {
        panic!("expected a binary expression");
    };
    assert_eq!(*op, BinaryOp::Or);
    assert!(matches!(left.kind, ExprKind::Binary { op: BinaryOp::Less, .. }));
    let ExprKind::Binary { op: and_op, right: and_right, .. } = &right.kind else {
        panic!("expected the right side to be a conjunction");
    };
    assert_eq!(*and_op, BinaryOp::And);
    assert!(matches!(and_right.kind, ExprKind::Binary { op: BinaryOp::Equal, .. }));
}

#[test]
fn prefix_operators_nest_and_grouping_is_kept() {
    let expr = single_expression("-!(x);");
    let ExprKind::Unary { op, expr: inner } = &expr.kind else {
        panic!("expected a unary expression");
    };
    assert_eq!(*op, UnaryOp::Negate);
    let ExprKind::Unary { op: inner_op, expr: operand } = &inner.kind else {
        panic!("expected a nested unary expression");
    };
    assert_eq!(*inner_op, UnaryOp::Not);
    assert!(matches!(operand.kind, ExprKind::Grouping(_)));
}

#[test]
fn calls_chain_and_take_arguments_in_order() {
    let expr = single_expression("f(1, \"two\", 3.5)(x);");
    let ExprKind::Call { callee, args } = &expr.kind else {
        panic!("expected a call");
    };
    assert_eq!(args.len(), 1);
    let ExprKind::Call { args: inner_args, .. } = &callee.kind else {
        panic!("expected a call as callee");
    };
    assert_eq!(inner_args.len(), 3);
    assert!(matches!(inner_args[0].kind, ExprKind::Int(1)));
    assert!(matches!(&inner_args[1].kind, ExprKind::String(s) if s == "two"));
    assert!(matches!(&inner_args[2].kind, ExprKind::Float(text) if text == "3.5"));
}

#[test]
fn parses_if_else_and_bare_return() {
    let program = parse("fn f(flag: Bool) -> Void { if (flag) { return; } else { g(); } }");
    let StmtKind::Function(decl) = &program.statements[0].kind else {
        panic!("expected a function");
    };
    assert_eq!(decl.name, "f");
    assert!(matches!(decl.return_type, TypeExpr::Void));
    assert!(matches!(decl.params[0].ty, TypeExpr::Bool));
    let StmtKind::If { then_branch, else_branch, .. } = &decl.body.statements[0].kind else {
        panic!("expected an if statement");
    };
    assert!(matches!(then_branch.statements[0].kind, StmtKind::Return(None)));
    assert!(else_branch.is_some());
    assert!(decl.body.value.is_none());
}

#[test]
fn node_ids_count_up_from_one_children_first() {
    let program = parse("fn add(a: Int, b: Int) -> Int { return a + b; } let x: Int = add(1, 2) * 3;");
    let mut ids = Vec::new();
    for stmt in &program.statements {
        collect_stmt_ids(stmt, &mut ids);
    }
    let expected: Vec<u32> = (1..=ids.len() as u32).collect();
    assert_eq!(ids, expected);
}

#[test]
fn logical_operator_span_starts_at_the_operator() {
    let expr = single_expression("a || b;");
    assert_eq!(expr.span.offset, 2);
    assert_eq!(expr.span.end_offset, 6);
    let sum = single_expression("a + b;");
    assert_eq!(sum.span.offset, 0);
}

#[test]
fn nested_function_is_refused() {
    let errors = parse_document("fn outer() -> Void { fn inner() -> Void { } }").expect_err("errors");
    assert_eq!(errors[0].message, "nested functions are not supported");
}

#[test]
fn missing_semicolon_is_reported() {
    let errors = parse_document("let x = 1").expect_err("errors");
    assert_eq!(errors.len(), 1);
    assert_eq!(errors[0].message, "expected ';' after let binding");
    assert_eq!(errors[0].phase, "parser");
}

#[test]
fn unknown_type_name_is_reported() {
    let errors = parse_document("let t: Matrix = x;").expect_err("errors");
    assert_eq!(errors[0].message, "expected type name");
}

#[test]
fn open_parenthesis_at_end_is_an_error() {
    let errors = parse_document("(").expect_err("errors");
    assert_eq!(errors[0].message, "expected expression");
    let errors = parse_document("f(").expect_err("errors");
    assert_eq!(errors[0].message, "expected expression");
}

#[test]
fn lexer_errors_come_before_parsing() {
    let errors = parse_document("let x = 1 & 2;").expect_err("errors");
    assert_eq!(errors[0].phase, "lexer");
}

#[test]
fn empty_document_is_an_empty_program() {
    let program = parse_document("  // nothing here\n").expect("program");
    assert!(program.statements.is_empty());
}

#[test]
fn assignment_is_told_from_comparison() {
    let program = parse("x = 1; x == 1;");
    assert!(matches!(program.statements[0].kind, StmtKind::Assign { .. }));
    assert!(matches!(program.statements[1].kind, StmtKind::Expr(_)));
}
