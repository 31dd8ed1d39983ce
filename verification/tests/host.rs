use muninn::autodiff::{AutodiffError, AutodiffErrorKind};
use muninn::ast::{NodeId, TypeExpr};
use muninn::builtins::{accepts_argument, builtin_by_name, builtins, return_type, BuiltinKind};
use muninn::error::MuninnError;
use muninn::natives::{
    check_env_allowed, check_scoped_path, check_shape_limit, format_native_overload, host_arg,
    native_by_name, native_name, native_type_name, parse_exit_code, positive_dim,
    registered_natives, NativeFunctionKind, NativeType,
};
use muninn::policy::HostPolicy;
use muninn::semantics::{
    display_ty, ty_from_type_expr, Reference, SemanticModel, Symbol, SymbolKind, Ty,
};
use muninn::shape::{
    broadcast_index, broadcast_shape, element_count, format_shape, strides, unravel_index,
    validate_shape,
};
use muninn::span::Span;

#[test]
fn every_native_has_a_name_that_finds_it_again() {
    let kinds = registered_natives();
    assert_eq!(kinds.len(), 18);
    for kind in kinds {
        assert_eq!(native_by_name(native_name(kind)), Some(kind));
    }
    assert_eq!(native_by_name("tensor_matmul"), Some(NativeFunctionKind::TensorMatmul));
    assert_eq!(native_by_name("nope"), None);
}

#[test]
fn overloads_are_written_with_type_names() {
    assert_eq!(
        format_native_overload("tensor_fill", &[NativeType::Int, NativeType::Float]),
        "tensor_fill(Int, Float)"
    );
    assert_eq!(format_native_overload("clock_ms", &[]), "clock_ms()");
    assert_eq!(native_type_name(&NativeType::Record), "Record");
}

#[test]
fn exit_codes_are_parsed_from_trap_messages() {
    assert_eq!(parse_exit_code("exit code 3"), Some(3));
    assert_eq!(parse_exit_code("exit code -12"), Some(-12));
    assert_eq!(parse_exit_code("exit code +4"), Some(4));
    assert_eq!(parse_exit_code("exit code 9223372036854775807"), Some(i64::MAX));
    assert_eq!(parse_exit_code("exit code 9223372036854775808"), None);
    assert_eq!(parse_exit_code("exit code "), None);
    assert_eq!(parse_exit_code("exit code 1x"), None);
    assert_eq!(parse_exit_code("division by zero"), None);
}

#[test]
fn scoped_paths_stay_under_the_root() {
    assert!(check_scoped_path("data/input.txt", Span::default()).is_ok());
    assert!(check_scoped_path("./a/../b", Span::default()).is_ok());
    let escape = check_scoped_path("a/../../etc", Span::default()).expect_err("escape");
    assert_eq!(escape.message, "path escapes the granted fs root: 'a/../../etc'");
    let absolute = check_scoped_path("/etc/passwd", Span::default()).expect_err("absolute");
    assert_eq!(
        absolute.message,
        "absolute paths are not allowed: '/etc/passwd' (use a path relative to the granted fs root)"
    );
    let empty = check_scoped_path("", Span::default()).expect_err("empty");
    assert_eq!(empty.message, "path must not be empty");
    let alias = check_scoped_path("@pkg/x", Span::default()).expect_err("alias");
    assert!(alias.message.starts_with("'@' prefixes are reserved"));
    assert!(check_scoped_path("..", Span::default()).is_err());
}

#[test]
fn tensor_dimensions_must_be_positive() {
    assert_eq!(positive_dim(4, Span::default()).expect("dim"), 4);
    let zero = positive_dim(0, Span::default()).expect_err("zero");
    assert_eq!(zero.message, "tensor dimensions must be positive, got 0");
    let negative = positive_dim(-3, Span::default()).expect_err("negative");
    assert_eq!(negative.message, "tensor dimensions must be positive, got -3");
}

#[test]
fn shape_limits_are_checked_before_allocation() {
    assert!(check_shape_limit(&[2, 3], 6, Span::default()).is_ok());
    let big = check_shape_limit(&[4, 4], 10, Span::default()).expect_err("cap");
    assert_eq!(big.message, "tensor has at least 16 elements, maximum is 10 for this host");
    let huge = check_shape_limit(&[i64::MAX, i64::MAX, 4], usize::MAX, Span::default())
        .expect_err("overflow");
    assert_eq!(huge.message, "tensor shape is too large");
    assert!(check_shape_limit(&[0, 1_000_000_000_000], 10, Span::default()).is_ok());
}

#[test]
fn env_and_argv_follow_the_policy() {
    let mut policy = HostPolicy::sandboxed();
    policy.allow_env("HOME");
    policy.set_argv(vec!["one".to_string(), "two".to_string()]);
    let caps = policy.host_caps();
    assert!(check_env_allowed(&caps, "HOME", Span::default()).is_ok());
    let denied = check_env_allowed(&caps, "PATH", Span::default()).expect_err("denied");
    assert_eq!(denied.message, "env 'PATH' is disabled by host policy");
    assert_eq!(host_arg(&caps, 1, Span::default()).expect("arg"), "two");
    let out = host_arg(&caps, 2, Span::default()).expect_err("range");
    assert_eq!(out.message, "argv index 2 out of range (argc 2)");
    let negative = host_arg(&caps, -1, Span::default()).expect_err("negative");
    assert_eq!(negative.message, "argv index -1 out of range (argc 2)");
}

#[test]
fn sandboxed_policy_denies_until_allowed() {
    let mut policy = HostPolicy::sandboxed();
    assert!(!policy.is_native_allowed(NativeFunctionKind::Print));
    policy.allow(NativeFunctionKind::Print);
    policy.allow(NativeFunctionKind::Print);
    assert!(policy.is_native_allowed(NativeFunctionKind::Print));
    assert!(!policy.is_native_allowed(NativeFunctionKind::FsRead));
    assert_eq!(policy.allowed_natives.as_ref().map(|v| v.len()), Some(1));
    policy.allow_all_natives();
    assert!(policy.is_native_allowed(NativeFunctionKind::FsRead));
    let open = HostPolicy::default();
    assert!(open.is_native_allowed(NativeFunctionKind::Exit));
    assert!(open.allowed_env.is_none());
    assert_eq!(HostPolicy::sandboxed().max_steps, Some(100_000));
}

#[test]
fn fs_root_can_be_granted_and_revoked() {
    let mut policy = HostPolicy::sandboxed();
    policy.set_fs_root("/tmp/data".to_string());
    assert_eq!(policy.host_caps().fs_root.as_deref(), Some("/tmp/data"));
    policy.revoke_fs();
    assert!(policy.host_caps().fs_root.is_none());
    policy.set_stdin("input".to_string());
    assert_eq!(policy.host_caps().stdin_data, "input");
}

#[test]
fn shapes_are_formatted_and_validated() {
    assert_eq!(format_shape(&[2, 3]), "[2, 3]");
    assert_eq!(format_shape(&[]), "[]");
    assert!(validate_shape(&[2, 3], Span::default()).is_ok());
    let error = validate_shape(&[2, 0, 0], Span::default()).expect_err("zero");
    assert_eq!(
        error.message,
        "tensor shape dimensions must be positive; axis 1 is zero in shape [2, 0, 0]"
    );
}

#[test]
fn element_counts_respect_the_cap() {
    assert_eq!(element_count(&[2, 3, 4], Span::default()).expect("count"), 24);
    assert_eq!(element_count(&[], Span::default()).expect("scalar"), 1);
    let big = element_count(&[10_000_001], Span::default()).expect_err("big");
    assert!(big.message.contains("maximum is 10000000"));
    let overflow = element_count(&[usize::MAX, 2], Span::default()).expect_err("overflow");
    assert!(overflow.message.contains("tensor shape is too large"));
}

#[test]
fn strides_and_unravel_are_row_major() {
    let st = strides(&[2, 3, 4], Span::default()).expect("strides");
    assert_eq!(st, vec![12, 4, 1]);
    assert_eq!(unravel_index(23, &[2, 3, 4], &st), vec![1, 2, 3]);
    assert_eq!(unravel_index(5, &[2, 3, 4], &st), vec![0, 1, 1]);
}

#[test]
fn broadcasting_aligns_trailing_dimensions() {
    assert_eq!(
        broadcast_shape(&[2, 1], &[1, 3], Span::default(), "add").expect("shape"),
        vec![2, 3]
    );
    assert_eq!(broadcast_shape(&[4], &[2, 4], Span::default(), "add").expect("shape"), vec![2, 4]);
    let error = broadcast_shape(&[2, 3], &[4], Span::default(), "mul").expect_err("mismatch");
    assert_eq!(error.message, "mul shape mismatch: left [2, 3] and right [4] cannot be broadcast");
    // operand [1, 3] seen from result index [1, 2]
    assert_eq!(broadcast_index(&[1, 2], &[2, 3], &[1, 3], &[3, 1]), 2);
    // operand [2, 1] seen from result index [1, 2]
    assert_eq!(broadcast_index(&[1, 2], &[2, 3], &[2, 1], &[1, 1]), 1);
}

#[test]
fn builtins_are_found_by_name() {
    let all = builtins();
    assert_eq!(all.len(), 2);
    assert_eq!(builtin_by_name("assert").map(|b| b.kind), Some(BuiltinKind::Assert));
    assert!(builtin_by_name("println").is_none());
    assert!(accepts_argument(BuiltinKind::Assert, &Ty::Bool));
    assert!(!accepts_argument(BuiltinKind::Assert, &Ty::Int));
    assert!(accepts_argument(BuiltinKind::Print, &Ty::Float));
    assert!(!accepts_argument(BuiltinKind::Print, &Ty::Tensor));
    assert!(matches!(return_type(BuiltinKind::Print), Ty::Void));
}

#[test]
fn types_display_as_written() {
    assert_eq!(display_ty(&Ty::Int), "Int");
    assert_eq!(display_ty(&Ty::Record("Point".to_string())), "Point");
    let f = Ty::Function(vec![Ty::Int, Ty::Bool], Box::new(Ty::Void));
    assert_eq!(display_ty(&f), "fn(Int, Bool) -> Void");
    assert_eq!(display_ty(&Ty::Builtin(BuiltinKind::Print)), "builtin print");
    assert!(matches!(ty_from_type_expr(TypeExpr::Record("P".to_string())), Ty::Record(n) if n == "P"));
}

fn symbol(id: usize, name: &str, span: Span) -> Symbol {
    Symbol {
        id,
        name: name.to_string(),
        kind: SymbolKind::Global,
        span,
        detail: String::new(),
        ty: Ty::Int,
        mutable: false,
    }
}

#[test]
fn semantic_queries_pick_the_narrowest_span() {
    let model = SemanticModel {
        diagnostics: Vec::new(),
        expr_types: vec![(NodeId(1), Ty::Int), (NodeId(2), Ty::Bool), (NodeId(1), Ty::String)],
        symbols: vec![
            symbol(0, "outer", Span::range(1, 1, 0, 1, 21, 20)),
            symbol(1, "inner", Span::range(1, 5, 4, 1, 10, 9)),
        ],
        references: vec![Reference { span: Span::range(1, 0, 30, 1, 5, 35), target: 1 }],
    };
    assert!(matches!(model.ty_for_expr(NodeId(1)), Some(Ty::String)));
    assert!(model.ty_for_expr(NodeId(9)).is_none());
    assert_eq!(model.symbol_at_offset(5).map(|s| s.name.as_str()), Some("inner"));
    assert_eq!(model.symbol_at_offset(15).map(|s| s.name.as_str()), Some("outer"));
    assert!(model.symbol_at_offset(25).is_none());
    assert_eq!(model.reference_at_offset(32).map(|r| r.target), Some(1));
    assert_eq!(model.definition_at_offset(32).map(|s| s.name.as_str()), Some("inner"));
    assert_eq!(model.definition_at_offset(2).map(|s| s.name.as_str()), Some("outer"));
    assert!(model.symbol_by_id(2).is_none());
    let builtin_only = SemanticModel {
        diagnostics: Vec::new(),
        expr_types: Vec::new(),
        symbols: vec![symbol(0, "print", Span::default())],
        references: Vec::new(),
    };
    assert!(builtin_only.symbol_at_offset(0).is_none());
}

#[test]
fn autodiff_errors_classify_shape_problems() {
    let shape = AutodiffError::from_runtime(MuninnError::new(
        "vm",
        "add shape mismatch: left [2] and right [3] cannot be broadcast",
        Span::default(),
    ));
    assert_eq!(shape.kind(), AutodiffErrorKind::ShapeMismatch);
    let other = AutodiffError::from_runtime(MuninnError::new("vm", "division by zero", Span::default()));
    assert_eq!(other.kind(), AutodiffErrorKind::Runtime);
    assert_eq!(other.describe(), "autodiff error: division by zero");
    let made = AutodiffError::new(AutodiffErrorKind::Runtime, "x");
    assert_eq!(made.message, "x");
}

#[test]
fn exit_messages_read_back_as_their_codes() {
    for code in [0i64, 3, 125, -1, 200, i64::MAX, i64::MIN] {
        assert_eq!(parse_exit_code(&format!("exit code {}", code)), Some(code));
    }
}
