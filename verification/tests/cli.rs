use muninn::cli::{
    clamp_exit_code, exit_code_from_joined, expect_single_path, failure_status, format_action,
    parse_build_args, parse_file_command, parse_fmt_args, parse_usize_text, project_digest,
    split_script_args, FormatAction, FsGrant,
};

fn strings(items: &[&str]) -> Vec<String> {
    items.iter().map(|s| s.to_string()).collect()
}

#[test]
fn file_commands_collect_options_entry_and_script_args() {
    let args = strings(&[
        "--jit",
        "--jit-threshold",
        "7",
        "--allow-env",
        "HOME",
        "--allow-fs",
        "/data",
        "main.mun",
        "extra",
        "--",
        "--verbose",
        "x",
    ]);
    let request = parse_file_command(&args, "run").expect("request");
    assert!(request.options.jit_enabled);
    assert_eq!(request.options.hot_loop_threshold, 7);
    assert_eq!(request.env_names, Some(vec!["HOME".to_string()]));
    assert!(matches!(request.fs, FsGrant::Root(ref r) if r == "/data"));
    assert_eq!(request.entry, "main.mun");
    assert_eq!(request.argv, strings(&["extra", "--verbose", "x"]));
}

#[test]
fn file_command_defaults_and_refusals() {
    let plain = parse_file_command(&strings(&["main.mun"]), "run").expect("plain");
    assert!(!plain.options.jit_enabled);
    assert_eq!(plain.options.hot_loop_threshold, 100);
    assert!(matches!(plain.fs, FsGrant::Default));
    assert!(plain.env_names.is_none());
    let denied = parse_file_command(&strings(&["--no-fs", "a.mubc"]), "run-bc").expect("deny");
    assert!(matches!(denied.fs, FsGrant::Deny));
    let errors = [
        (strings(&["--jit-threshold"]), "missing value for --jit-threshold"),
        (strings(&["--jit-threshold", "x", "m.mun"]), "invalid --jit-threshold value 'x'"),
        (strings(&["--allow-fs"]), "missing value for --allow-fs"),
        (strings(&["--allow-env"]), "missing value for --allow-env"),
        (strings(&["--fast", "m.mun"]), "unknown option '--fast' for command 'run'"),
        (strings(&["--jit"]), "missing source file for command 'run'"),
        (strings(&["--", "m.mun"]), "missing source file for command 'run'"),
    ];
    for (args, message) in errors {
        assert_eq!(parse_file_command(&args, "run").expect_err("refused"), message);
    }
}

#[test]
fn script_args_split_at_the_first_double_dash() {
    let (left, right) = split_script_args(&strings(&["a", "--", "b", "--", "c"]));
    assert_eq!(left, strings(&["a"]));
    assert_eq!(right, strings(&["b", "--", "c"]));
    let (all, none) = split_script_args(&strings(&["a", "b"]));
    assert_eq!(all, strings(&["a", "b"]));
    assert!(none.is_empty());
}

#[test]
fn usize_values_parse_like_std() {
    assert_eq!(parse_usize_text("42"), Some(42));
    assert_eq!(parse_usize_text("+5"), Some(5));
    assert_eq!(parse_usize_text("-5"), None);
    assert_eq!(parse_usize_text(""), None);
    assert_eq!(parse_usize_text("+"), None);
    assert_eq!(parse_usize_text("18446744073709551616"), None);
    assert_eq!(parse_usize_text("18446744073709551615"), Some(usize::MAX));
}

#[test]
fn exit_codes_are_found_and_clamped() {
    assert_eq!(exit_code_from_joined("vm error at 3:1: exit code 7"), Some(7));
    assert_eq!(exit_code_from_joined("x\nexit code 300 (more)"), Some(1));
    assert_eq!(exit_code_from_joined("exit code -2"), Some(1));
    assert_eq!(exit_code_from_joined("exit code x"), None);
    assert_eq!(exit_code_from_joined("division by zero"), None);
    assert_eq!(clamp_exit_code(125), 125);
    assert_eq!(clamp_exit_code(126), 1);
    assert_eq!(clamp_exit_code(0), 0);
}

#[test]
fn failures_in_source_phases_exit_with_two() {
    assert_eq!(failure_status(&["vm"]), 1);
    assert_eq!(failure_status(&["vm", "type"]), 2);
    assert_eq!(failure_status(&[]), 1);
}

#[test]
fn single_path_commands() {
    assert_eq!(expect_single_path(&strings(&["a.mun"]), "check").expect("path"), "a.mun");
    assert_eq!(
        expect_single_path(&strings(&[]), "check").expect_err("none"),
        "missing source file for command 'check'"
    );
}

#[test]
fn fmt_and_build_arguments() {
    assert_eq!(parse_fmt_args(&strings(&["--check", "a.mun"])).expect("fmt"), (true, "a.mun".to_string()));
    assert_eq!(parse_fmt_args(&strings(&["a.mun"])).expect("fmt"), (false, "a.mun".to_string()));
    assert_eq!(
        parse_fmt_args(&strings(&["--diff", "a.mun"])).expect_err("option"),
        "unknown option '--diff' for command 'fmt'"
    );
    assert_eq!(
        parse_fmt_args(&strings(&["a.mun", "b.mun"])).expect_err("two"),
        "missing source file for command 'fmt'"
    );
    assert_eq!(parse_build_args(&strings(&["a.mun"])).expect("build"), ("a.mun".to_string(), None));
    assert_eq!(
        parse_build_args(&strings(&["a.mun", "-o", "out.mubc"])).expect("build"),
        ("a.mun".to_string(), Some("out.mubc".to_string()))
    );
    assert_eq!(
        parse_build_args(&strings(&["a.mun", "-x", "out"])).expect_err("bad"),
        "invalid arguments for command 'build'"
    );
    assert_eq!(
        parse_build_args(&strings(&[])).expect_err("none"),
        "missing source file for command 'build'"
    );
}

#[test]
fn fmt_decides_between_nothing_check_and_rewrite() {
    assert!(matches!(format_action("let a: Int = 1;\n", false), FormatAction::AlreadyFormatted));
    assert!(matches!(format_action("let a: Int = 1;", true), FormatAction::WouldReformat));
    match format_action("let a: Int = 1;", false) {
        FormatAction::Rewrite(text) => assert_eq!(text, "let a: Int = 1;\n"),
        other => panic!("expected a rewrite, got {other:?}"),
    }
}

#[test]
fn project_digest_is_fnv1a_of_version_and_source() {
    // FNV-1a over [1, 0] followed by the bytes of "0.1.0" and "x"
    let mut expected: u64 = 0xcbf29ce484222325;
    for byte in [1u8, 0u8].iter().chain("0.1.0".as_bytes()).chain("x".as_bytes()) {
        expected ^= u64::from(*byte);
        expected = expected.wrapping_mul(0x100000001b3);
    }
    assert_eq!(project_digest("0.1.0", "x"), expected);
    assert_ne!(project_digest("0.1.0", "x"), project_digest("0.1.0", "y"));
}
