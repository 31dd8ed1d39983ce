use muninn::mubc::{decode_bytecode_module, encode_bytecode_module};
use muninn::bytecode::{BytecodeModule, Constant, GlobalValueKind, OpCode};
use muninn::compiler::{compile_program, compile_to_bytecode};
use muninn::parser::parse_document;
use muninn::validate::validate_module;

fn float_bits(text: &str) -> u64 {
    text.parse::<f64>().expect("float literal").to_bits()
}

fn compile(source: &str) -> BytecodeModule {
    let program = parse_document(source).expect("parses");
    compile_program(&program, &float_bits).expect("compiles")
}

fn op(o: OpCode) -> u8 {
    o.to_byte()
}

#[test]
fn validator_accepts_every_compiler_branch_shape() {
    let sources = [
        "let mut i: Int = 0;\nwhile (i < 10) {\n    i = i + 1;\n}\ni;\n",
        "fn f(x: Int) -> Int {\n    if (x > 0) {\n        return 1;\n    } else {\n        return 2;\n    }\n}\nf(3);\n",
        "fn f(x: Int) -> Int {\n    if (x > 0) {\n        return 1;\n    }\n    return 2;\n}\nf(0);\n",
        "let a: Bool = true && false;\nlet b: Bool = true || false;\na;\n",
        "fn inner(x: Int) -> Int {\n    return x * 2;\n}\nfn outer(y: Int) -> Int {\n    return inner(y) + 1;\n}\nouter(21);\n",
        "let t: Tensor = tensor_fill(2, 2, 1.0);\ntensor_sum(t);\n",
        "fn f() -> Int {\n    while (true) {\n        return 7;\n    }\n}\nf();\n",
    ];
    for source in sources {
        let program = parse_document(source).expect("parses");
        let module = compile_program(&program, &float_bits).expect("compiles");
        validate_module(&module).unwrap_or_else(|errors| {
            panic!("compiler output rejected for {source:?}: {errors:?}")
        });
    }
}

#[test]
fn final_expression_statement_is_the_entry_result() {
    let module = compile("1 + 2;");
    assert_eq!(module.functions.len(), 1);
    assert_eq!(module.entry_function, 0);
    let entry = &module.functions[0];
    assert_eq!(entry.name, "<entry>");
    assert_eq!(entry.arity, 0);
    assert!(!entry.expects_return_value);
    assert_eq!(
        entry.chunk.code,
        vec![op(OpCode::Constant), 0, 0, op(OpCode::Constant), 1, 0, op(OpCode::Add), op(OpCode::Return)]
    );
    assert_eq!(entry.chunk.spans.len(), entry.chunk.code.len());
    assert!(matches!(entry.chunk.constants[0], Constant::Int(1)));
    assert!(matches!(entry.chunk.constants[1], Constant::Int(2)));
}

#[test]
fn statements_without_final_expression_return_nil() {
    let module = compile("let x: Int = 5;");
    let entry = &module.functions[module.entry_function];
    assert_eq!(
        entry.chunk.code,
        vec![
            op(OpCode::Constant), 0, 0,
            op(OpCode::DefineGlobal), 1, 0,
            op(OpCode::Nil),
            op(OpCode::Return),
        ]
    );
    assert!(matches!(&entry.chunk.constants[1], Constant::String(name) if name == "x"));
}

#[test]
fn functions_come_first_with_parameters_in_their_slots() {
    let module = compile("fn add(a: Int, b: Int) -> Int { return a + b; } add(1, 2);");
    assert_eq!(module.functions.len(), 2);
    let add = &module.functions[0];
    assert_eq!(add.name, "add");
    assert_eq!(add.arity, 2);
    assert_eq!(add.local_count, 2);
    assert!(add.expects_return_value);
    assert_eq!(
        add.chunk.code,
        vec![
            op(OpCode::GetLocal), 0, 0,
            op(OpCode::GetLocal), 1, 0,
            op(OpCode::Add),
            op(OpCode::Return),
            op(OpCode::Nil),
            op(OpCode::Return),
        ]
    );
    assert_eq!(module.entry_function, 1);
    let entry = &module.functions[1];
    assert!(matches!(entry.chunk.constants[0], Constant::Function(0)));
    assert_eq!(entry.chunk.code[0], op(OpCode::Constant));
    assert_eq!(entry.chunk.code[3], op(OpCode::DefineGlobal));
    assert_eq!(*entry.chunk.code.last().unwrap(), op(OpCode::Return));
}

#[test]
fn forward_jumps_land_after_the_branch() {
    let module = compile("if (true) { 1; }");
    let code = &module.functions[0].chunk.code;
    assert_eq!(code[0], op(OpCode::True));
    assert_eq!(code[1], op(OpCode::JumpIfFalse));
    let distance = u16::from_le_bytes([code[2], code[3]]) as usize;
    let after_operand = 4;
    assert_eq!(code[after_operand + distance], op(OpCode::Pop));
    assert_eq!(code[after_operand + distance - 3], op(OpCode::Jump));
}

#[test]
fn loops_jump_back_to_the_condition() {
    let module = compile("let mut i: Int = 0; while (i < 3) { i = i + 1; }");
    let code = &module.functions[0].chunk.code;
    let loop_at = code.iter().position(|b| *b == op(OpCode::Loop)).expect("loop instruction");
    let back = u16::from_le_bytes([code[loop_at + 1], code[loop_at + 2]]) as usize;
    let target = loop_at + 3 - back;
    assert_eq!(code[target], op(OpCode::GetGlobal));
}

#[test]
fn block_locals_take_fresh_slots() {
    let module = compile("fn f() -> Void { if (true) { let a: Int = 1; let b: Int = a; } }");
    let f = &module.functions[0];
    assert_eq!(f.local_count, 2);
    assert!(f.chunk.code.windows(3).any(|w| w == [op(OpCode::SetLocal), 1, 0]));
    assert!(f.chunk.code.windows(3).any(|w| w == [op(OpCode::GetLocal), 0, 0]));
}

#[test]
fn not_equal_and_or_equal_compile_to_negations() {
    let module = compile("1 != 2; 1 >= 2; 1 <= 2;");
    let code = &module.functions[0].chunk.code;
    assert!(code.windows(2).any(|w| w == [op(OpCode::Equal), op(OpCode::Not)]));
    assert!(code.windows(2).any(|w| w == [op(OpCode::Less), op(OpCode::Not)]));
    assert!(code.windows(2).any(|w| w == [op(OpCode::Greater), op(OpCode::Not)]));
}

#[test]
fn float_literals_take_the_given_bits() {
    let module = compile("2.5;");
    assert!(matches!(module.functions[0].chunk.constants[0], Constant::Float(bits) if bits == 2.5f64.to_bits()));
}

#[test]
fn equal_literals_share_a_constant() {
    let module = compile("7; 7; 7;");
    assert_eq!(module.functions[0].chunk.constants.len(), 1);
}

#[test]
fn compile_to_bytecode_declares_globals_from_the_checked_program() {
    let module = compile_to_bytecode("fn f() -> Void { } let x: Int = 1; let s: String = \"a\"; x;", &float_bits)
        .expect("module");
    let globals: Vec<(&str, GlobalValueKind)> =
        module.globals.iter().map(|g| (g.name.as_str(), g.kind)).collect();
    assert_eq!(
        globals,
        vec![("f", GlobalValueKind::Function), ("x", GlobalValueKind::Int), ("s", GlobalValueKind::String)]
    );
    validate_module(&module).expect("valid");
}

#[test]
fn compile_to_bytecode_stops_at_type_errors() {
    let errors = compile_to_bytecode("let x: Int = true;", &float_bits).expect_err("type error");
    assert_eq!(errors[0].phase, "typecheck");
    let errors = compile_to_bytecode("let = 1;", &float_bits).expect_err("parse error");
    assert_eq!(errors[0].phase, "parser");
}

#[test]
fn if_without_else_pops_its_condition_once_on_each_path() {
    for source in [
        "let x: Int = 1; if (true) { 1; } x;",
        "fn f(b: Bool) -> Int { if (b) { let y: Int = 2; } return 3; } f(true);",
        "let mut n: Int = 0; while (n < 3) { if (n == 1) { n = n + 2; } else { n = n + 1; } } n;",
        "let a: Bool = (1 < 2) && (2 > 1) || !(1 == 1); if (a) { } a;",
    ] {
        let module = compile(source);
        validate_module(&module).unwrap_or_else(|errors| panic!("{source:?}: {errors:?}"));
    }
}

#[test]
fn encoded_modules_are_framed_exactly() {
    let module = compile_to_bytecode("fn f(n: Int) -> Int { return n * 2; } let x: Int = f(21); x;", &float_bits)
        .expect("compiles");
    let bytes = encode_bytecode_module(&module).expect("encodes");
    assert!(bytes.len() > 16);
    assert!(decode_bytecode_module(&bytes).is_ok());
    for end in [0, 4, 8, bytes.len() / 2, bytes.len() - 1] {
        assert!(decode_bytecode_module(&bytes[..end]).is_err(), "truncation at {end} fails");
    }
    let mut suffixed = bytes.clone();
    suffixed.push(0x00);
    assert!(decode_bytecode_module(&suffixed).is_err());
}
