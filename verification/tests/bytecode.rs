use muninn::bytecode::{
    BytecodeModule, Chunk, Constant, FunctionBytecode, GlobalSpec, GlobalValueKind, OpCode,
};
use muninn::mubc::{decode_bytecode_module, encode_bytecode_module};
use muninn::span::Span;
use muninn::validate::validate_module;

#[test]
fn deduplicates_identical_constants() {
    let mut chunk = Chunk::new();
    let first = chunk
        .add_constant(Constant::String("name".to_string()))
        .expect("first constant");
    let second = chunk
        .add_constant(Constant::String("name".to_string()))
        .expect("second constant");
    assert_eq!(first, second);
    assert_eq!(chunk.constants.len(), 1);
}

#[test]
fn float_constants_deduplicate_by_bits() {
    let mut chunk = Chunk::new();
    let a = chunk.add_constant(Constant::Float(1.5f64.to_bits())).expect("a");
    let b = chunk.add_constant(Constant::Float((-0.0f64).to_bits())).expect("b");
    let c = chunk.add_constant(Constant::Float(0.0f64.to_bits())).expect("c");
    let d = chunk.add_constant(Constant::Float(1.5f64.to_bits())).expect("d");
    assert_eq!((a, b, c, d), (0, 1, 2, 0));
    assert_eq!(chunk.constants.len(), 3);
}

#[test]
fn constant_pool_refuses_entry_past_the_limit() {
    let constants: Vec<Constant> = (0..65535u32).map(|v| Constant::Int(v as i64)).collect();
    let mut chunk = Chunk::from_parts(Vec::new(), Vec::new(), constants).expect("full pool");
    assert_eq!(chunk.add_constant(Constant::Int(7)), Ok(7));
    let error = chunk.add_constant(Constant::Nil).expect_err("overflow");
    assert_eq!(error, "constant pool overflow: maximum of 65535 entries");
}

#[test]
fn validator_rejects_local_slot_overflow() {
    let mut chunk = Chunk::new();
    chunk.write_op(OpCode::GetLocal, Span::default());
    chunk.write_u16(9, Span::default());
    chunk.write_op(OpCode::Return, Span::default());

    let module = BytecodeModule {
        functions: vec![FunctionBytecode {
            name: "bad".to_string(),
            arity: 0,
            local_count: 1,
            expects_return_value: false,
            chunk,
        }],
        entry_function: 0,
        globals: Vec::new(),
    };

    let errors = validate_module(&module).expect_err("validator errors");
    assert!(
        errors
            .iter()
            .any(|error| error.message.contains("local slot 9 out of bounds"))
    );
}

#[test]
fn round_trips_bytecode_module_through_mubc() {
    let mut chunk = Chunk::new();
    let name_index = chunk
        .add_constant(Constant::String("value".to_string()))
        .expect("name");
    chunk.write_op(OpCode::Constant, Span::range(1, 1, 0, 1, 2, 1));
    chunk.write_u16(name_index, Span::range(1, 1, 0, 1, 2, 1));
    chunk.write_op(OpCode::Return, Span::range(1, 1, 0, 1, 2, 1));

    let module = BytecodeModule {
        functions: vec![FunctionBytecode {
            name: "entry".to_string(),
            arity: 0,
            local_count: 0,
            expects_return_value: false,
            chunk,
        }],
        entry_function: 0,
        globals: vec![GlobalSpec {
            name: "counter".to_string(),
            kind: GlobalValueKind::Int,
        }],
    };

    let bytes = encode_bytecode_module(&module).expect("encode");
    let decoded = decode_bytecode_module(&bytes).expect("decode");

    assert_eq!(decoded.entry_function, module.entry_function);
    assert_eq!(decoded.globals, module.globals);
    assert_eq!(decoded.functions.len(), 1);
    assert_eq!(decoded.functions[0].name, module.functions[0].name);
    assert_eq!(decoded.functions[0].chunk.code, module.functions[0].chunk.code);
    assert_eq!(decoded.functions[0].chunk.spans, module.functions[0].chunk.spans);
    assert_eq!(decoded.functions[0].chunk.constants.len(), 1);
}

#[test]
fn encoding_has_the_documented_layout() {
    let module = module_with_code(vec![OpCode::Nil as u8, OpCode::Return as u8], 0, false);
    let bytes = encode_bytecode_module(&module).expect("encode");
    let mut expected = Vec::from(*b"MUBC");
    expected.extend_from_slice(&1u16.to_le_bytes());
    expected.extend_from_slice(&0u32.to_le_bytes());
    expected.extend_from_slice(&0u32.to_le_bytes());
    expected.extend_from_slice(&1u32.to_le_bytes());
    expected.extend_from_slice(&5u32.to_le_bytes());
    expected.extend_from_slice(b"entry");
    expected.extend_from_slice(&0u32.to_le_bytes());
    expected.extend_from_slice(&0u32.to_le_bytes());
    expected.push(0);
    expected.extend_from_slice(&2u32.to_le_bytes());
    expected.extend_from_slice(&[1, 23]);
    expected.extend_from_slice(&2u32.to_le_bytes());
    expected.extend_from_slice(&[0u8; 48]);
    expected.extend_from_slice(&0u32.to_le_bytes());
    assert_eq!(bytes, expected);
}

#[test]
fn rejects_invalid_magic() {
    let error = decode_bytecode_module(b"NOPE").expect_err("decode error");
    assert!(error.message.contains("magic"));
}

#[test]
fn rejects_short_header_as_unexpected_end() {
    let error = decode_bytecode_module(b"MU").expect_err("decode error");
    assert_eq!(error.message, "unexpected end of .mubc payload");
}

#[test]
fn rejects_unsupported_version() {
    let mut bytes = Vec::from(*b"MUBC");
    bytes.extend_from_slice(&999u16.to_le_bytes());
    bytes.extend_from_slice(&0u32.to_le_bytes());
    bytes.extend_from_slice(&0u32.to_le_bytes());
    bytes.extend_from_slice(&0u32.to_le_bytes());

    let error = decode_bytecode_module(&bytes).expect_err("decode error");
    assert!(error.message.contains("unsupported"));
    assert_eq!(error.message, "unsupported .mubc version 999 (expected 1)");
}

#[test]
fn rejects_truncated_payload() {
    let module = BytecodeModule::new();
    let mut bytes = encode_bytecode_module(&BytecodeModule {
        functions: vec![FunctionBytecode {
            name: "entry".to_string(),
            arity: 0,
            local_count: 0,
            expects_return_value: false,
            chunk: Chunk::from_parts(vec![OpCode::Return as u8], vec![Span::default()], Vec::new())
                .expect("chunk"),
        }],
        entry_function: 0,
        globals: module.globals,
    })
    .expect("encode");
    bytes.pop();

    let error = decode_bytecode_module(&bytes).expect_err("decode error");
    assert!(error.message.contains("unexpected end"));
}

#[test]
fn rejects_trailing_bytes() {
    let module = module_with_code(vec![OpCode::Nil as u8, OpCode::Return as u8], 0, false);
    let mut bytes = encode_bytecode_module(&module).expect("encode");
    bytes.push(0);
    let error = decode_bytecode_module(&bytes).expect_err("decode error");
    assert_eq!(error.message, "trailing bytes in .mubc payload");
}

#[test]
fn rejects_declared_counts_too_large_for_payload() {
    let mut bytes = Vec::from(*b"MUBC");
    bytes.extend_from_slice(&1u16.to_le_bytes());
    bytes.extend_from_slice(&0u32.to_le_bytes());
    bytes.extend_from_slice(&u32::MAX.to_le_bytes());

    let error = decode_bytecode_module(&bytes).expect_err("decode error");

    assert!(error.message.contains("declared globals count"));
}

#[test]
fn rejects_unknown_global_kind_and_constant_tags() {
    let mut bytes = Vec::from(*b"MUBC");
    bytes.extend_from_slice(&1u16.to_le_bytes());
    bytes.extend_from_slice(&0u32.to_le_bytes());
    bytes.extend_from_slice(&1u32.to_le_bytes());
    bytes.extend_from_slice(&1u32.to_le_bytes());
    bytes.push(b'g');
    bytes.push(9);
    let error = decode_bytecode_module(&bytes).expect_err("decode error");
    assert_eq!(error.message, "unknown global kind tag 9");

    let module = module_with_code(vec![OpCode::Nil as u8, OpCode::Return as u8], 0, false);
    let mut bytes = encode_bytecode_module(&module).expect("encode");
    let count_at = bytes.len() - 4;
    bytes[count_at] = 1;
    bytes.push(7);
    let error = decode_bytecode_module(&bytes).expect_err("decode error");
    assert_eq!(error.message, "unknown constant tag 7");
}

#[test]
fn rejects_invalid_utf8_names() {
    let mut bytes = Vec::from(*b"MUBC");
    bytes.extend_from_slice(&1u16.to_le_bytes());
    bytes.extend_from_slice(&0u32.to_le_bytes());
    bytes.extend_from_slice(&1u32.to_le_bytes());
    bytes.extend_from_slice(&1u32.to_le_bytes());
    bytes.push(0xff);
    bytes.push(0);
    let error = decode_bytecode_module(&bytes).expect_err("decode error");
    assert_eq!(error.message, "invalid UTF-8 string in .mubc payload");
}

#[test]
fn decode_reports_the_first_validation_problem() {
    let module = module_with_code(vec![OpCode::Add as u8, OpCode::Return as u8], 0, false);
    let bytes = encode_bytecode_module(&module).expect("encode");
    let error = decode_bytecode_module(&bytes).expect_err("decode error");
    assert_eq!(
        error.message,
        "compiler error at 0:0: stack underflow at byte 0 in function 'entry'"
    );
}

#[test]
fn decode_never_panics_on_random_input() {
    for seed in 0..100u64 {
        let bytes: Vec<u8> = (0..128)
            .map(|i| seed.wrapping_mul(17 + i as u64) as u8)
            .collect();
        let _ = decode_bytecode_module(&bytes);
    }
}

#[test]
fn decode_rejects_oversized_strings() {
    let module = valid_module_with_string("x".repeat(1_048_577));
    let bytes = encode_bytecode_module(&module).expect("encode");

    let error = decode_bytecode_module(&bytes).expect_err("decode error");
    assert!(error.message.contains("exceeds maximum"));
}

fn valid_module_with_string(s: String) -> BytecodeModule {
    let mut chunk = Chunk::new();
    let idx = chunk.add_constant(Constant::String(s)).expect("add constant");
    chunk.write_op(OpCode::Constant, Span::default());
    chunk.write_u16(idx, Span::default());
    chunk.write_op(OpCode::Return, Span::default());
    BytecodeModule {
        functions: vec![FunctionBytecode {
            name: "entry".to_string(),
            arity: 0,
            local_count: 0,
            expects_return_value: false,
            chunk,
        }],
        entry_function: 0,
        globals: Vec::new(),
    }
}

fn module_with_code(code: Vec<u8>, local_count: usize, expects_return_value: bool) -> BytecodeModule {
    let spans = vec![Span::default(); code.len()];
    BytecodeModule {
        functions: vec![FunctionBytecode {
            name: "entry".to_string(),
            arity: 0,
            local_count,
            expects_return_value,
            chunk: Chunk::from_parts(code, spans, Vec::new()).expect("chunk"),
        }],
        entry_function: 0,
        globals: Vec::new(),
    }
}

fn validator_messages(module: &BytecodeModule) -> Vec<String> {
    validate_module(module)
        .expect_err("validator errors")
        .into_iter()
        .map(|error| error.message)
        .collect()
}

#[test]
fn validator_rejects_jump_into_operand() {
    let module = module_with_code(
        vec![
            OpCode::True as u8,
            OpCode::JumpIfFalse as u8,
            1,
            0,
            OpCode::GetLocal as u8,
            0,
            0,
            OpCode::Return as u8,
        ],
        1,
        false,
    );

    let messages = validator_messages(&module);
    assert!(
        messages
            .iter()
            .any(|message| message.contains("not an instruction boundary")),
        "unexpected messages: {messages:?}"
    );
}

#[test]
fn validator_rejects_jump_to_end_of_code() {
    let module = module_with_code(
        vec![
            OpCode::True as u8,
            OpCode::JumpIfFalse as u8,
            2,
            0,
            OpCode::Pop as u8,
            OpCode::Return as u8,
        ],
        0,
        false,
    );

    let messages = validator_messages(&module);
    assert_eq!(messages.len(), 1);
    assert!(messages[0].contains("not an instruction boundary"));
}

#[test]
fn validator_rejects_loop_into_operand() {
    let module = module_with_code(
        vec![OpCode::Nil as u8, OpCode::Loop as u8, 2, 0, OpCode::Return as u8],
        0,
        false,
    );

    let messages = validator_messages(&module);
    assert!(
        messages
            .iter()
            .any(|message| message.contains("not an instruction boundary")),
        "unexpected messages: {messages:?}"
    );
}

#[test]
fn validator_rejects_stack_underflow() {
    let module = module_with_code(vec![OpCode::Add as u8, OpCode::Return as u8], 0, false);

    let messages = validator_messages(&module);
    assert_eq!(messages.len(), 1);
    assert!(messages[0].contains("stack underflow at byte 0"));
}

#[test]
fn validator_rejects_branch_height_mismatch() {
    let module = module_with_code(
        vec![
            OpCode::True as u8,
            OpCode::JumpIfFalse as u8,
            1,
            0,
            OpCode::Nil as u8,
            OpCode::Return as u8,
        ],
        0,
        false,
    );

    let messages = validator_messages(&module);
    assert_eq!(messages.len(), 1);
    assert!(messages[0].contains("stack height mismatch"));
}

#[test]
fn validator_rejects_call_needing_more_values() {
    let module = module_with_code(vec![OpCode::Call as u8, 0, OpCode::Return as u8], 0, false);

    let messages = validator_messages(&module);
    assert_eq!(messages.len(), 1);
    assert!(messages[0].contains("stack underflow"));
}

#[test]
fn validator_rejects_return_without_value_when_expected() {
    let module = module_with_code(vec![OpCode::Return as u8], 0, true);

    let messages = validator_messages(&module);
    assert_eq!(messages.len(), 1);
    assert!(messages[0].contains("return expects a value"));
}

#[test]
fn validator_rejects_empty_non_entry_function() {
    let mut entry = Chunk::new();
    entry.write_op(OpCode::Nil, Span::default());
    entry.write_op(OpCode::Return, Span::default());
    let module = BytecodeModule {
        functions: vec![
            FunctionBytecode {
                name: "entry".to_string(),
                arity: 0,
                local_count: 0,
                expects_return_value: false,
                chunk: entry,
            },
            FunctionBytecode {
                name: "empty".to_string(),
                arity: 0,
                local_count: 0,
                expects_return_value: false,
                chunk: Chunk::new(),
            },
        ],
        entry_function: 0,
        globals: Vec::new(),
    };

    let messages = validator_messages(&module);
    assert_eq!(messages.len(), 1);
    assert!(messages[0].contains("has empty bytecode"));
}

#[test]
fn validator_rejects_fall_off_end() {
    let module = module_with_code(vec![OpCode::Nil as u8], 0, false);

    let messages = validator_messages(&module);
    assert_eq!(messages.len(), 1);
    assert!(messages[0].contains("can fall off the end"));
}

#[test]
fn validator_accepts_loops_and_branches_that_agree() {
    // i = 0; while (i < 3) { i = i + 1; } return
    let mut chunk = Chunk::new();
    let zero = chunk.add_constant(Constant::Int(0)).expect("zero");
    let three = chunk.add_constant(Constant::Int(3)).expect("three");
    let one = chunk.add_constant(Constant::Int(1)).expect("one");
    let s = Span::default();
    chunk.write_op(OpCode::Constant, s);
    chunk.write_u16(zero, s);
    chunk.write_op(OpCode::SetLocal, s);
    chunk.write_u16(0, s);
    // loop header at byte 6
    chunk.write_op(OpCode::GetLocal, s);
    chunk.write_u16(0, s);
    chunk.write_op(OpCode::Constant, s);
    chunk.write_u16(three, s);
    chunk.write_op(OpCode::Less, s);
    chunk.write_op(OpCode::JumpIfFalse, s);
    chunk.write_u16(14, s);
    chunk.write_op(OpCode::Pop, s);
    chunk.write_op(OpCode::GetLocal, s);
    chunk.write_u16(0, s);
    chunk.write_op(OpCode::Constant, s);
    chunk.write_u16(one, s);
    chunk.write_op(OpCode::Add, s);
    chunk.write_op(OpCode::SetLocal, s);
    chunk.write_u16(0, s);
    chunk.write_op(OpCode::Loop, s);
    chunk.write_u16(24, s);
    chunk.write_op(OpCode::Pop, s);
    chunk.write_op(OpCode::Return, s);
    let module = BytecodeModule {
        functions: vec![FunctionBytecode {
            name: "entry".to_string(),
            arity: 0,
            local_count: 1,
            expects_return_value: false,
            chunk,
        }],
        entry_function: 0,
        globals: Vec::new(),
    };
    let stack_first = validate_module(&module);
    assert!(stack_first.is_ok(), "{stack_first:?}");
    let bytes = encode_bytecode_module(&module).expect("encode");
    let decoded = decode_bytecode_module(&bytes).expect("decode");
    assert_eq!(decoded.functions[0].chunk.code, module.functions[0].chunk.code);
}

#[test]
fn validator_reports_missing_function_and_entry() {
    let mut chunk = Chunk::new();
    chunk.add_constant(Constant::Function(4)).expect("function constant");
    chunk.write_op(OpCode::Nil, Span::default());
    chunk.write_op(OpCode::Return, Span::default());
    let module = BytecodeModule {
        functions: vec![FunctionBytecode {
            name: "main".to_string(),
            arity: 2,
            local_count: 1,
            expects_return_value: false,
            chunk,
        }],
        entry_function: 3,
        globals: Vec::new(),
    };
    let messages = validator_messages(&module);
    assert_eq!(
        messages,
        vec![
            "entry function 3 is out of bounds for 1 functions".to_string(),
            "function 'main' local_count 1 is smaller than arity 2".to_string(),
            "function 'main' references missing function id 4".to_string(),
        ]
    );
    assert_eq!(
        validator_messages(&BytecodeModule::new()),
        vec!["bytecode module has no functions".to_string()]
    );
}

#[test]
fn from_parts_rejects_oversized_constant_pool() {
    let constants: Vec<Constant> = (0..=u16::MAX as u32)
        .map(|value| Constant::Int(value as i64))
        .collect();

    let error = Chunk::from_parts(Vec::new(), Vec::new(), constants).expect_err("pool overflow");
    assert!(error.contains("too many constants"));
}

#[test]
fn encode_rejects_counts_beyond_u32() {
    let module = BytecodeModule {
        functions: vec![FunctionBytecode {
            name: "entry".to_string(),
            arity: u32::MAX as usize + 1,
            local_count: 0,
            expects_return_value: false,
            chunk: Chunk::new(),
        }],
        entry_function: 0,
        globals: Vec::new(),
    };

    let error = encode_bytecode_module(&module).expect_err("encode overflow");
    assert!(error.contains("exceeds u32"));
    assert_eq!(error, "arity count 4294967296 exceeds u32 range in .mubc payload");
}

#[test]
fn nan_payload_survives_encode_round_trip() {
    let mut chunk = Chunk::new();
    let index = chunk
        .add_constant(Constant::Float(f64::NAN.to_bits()))
        .expect("nan constant");
    chunk.write_op(OpCode::Constant, Span::default());
    chunk.write_u16(index, Span::default());
    chunk.write_op(OpCode::Return, Span::default());
    let module = BytecodeModule {
        functions: vec![FunctionBytecode {
            name: "entry".to_string(),
            arity: 0,
            local_count: 0,
            expects_return_value: false,
            chunk,
        }],
        entry_function: 0,
        globals: Vec::new(),
    };

    let bytes = encode_bytecode_module(&module).expect("encode");
    let decoded = decode_bytecode_module(&bytes).expect("decode");
    match &decoded.functions[0].chunk.constants[0] {
        Constant::Float(bits) => assert_eq!(
            *bits,
            f64::NAN.to_bits(),
            "NaN payload must round-trip bit-exactly"
        ),
        other => panic!("expected float constant, got {other:?}"),
    }
}

#[test]
fn opcodes_round_trip_through_bytes() {
    for byte in 0..=255u8 {
        match OpCode::from_byte(byte) {
            Some(op) => {
                assert!(byte < 24);
                assert_eq!(op.to_byte(), byte);
                assert_eq!(op as u8, byte);
            }
            None => assert!(byte >= 24),
        }
    }
    assert_eq!(OpCode::Call.width(), 2);
    assert_eq!(OpCode::Jump.width(), 3);
    assert_eq!(OpCode::Return.width(), 1);
}

#[test]
fn module_queries_globals_and_capacities() {
    let mut module = BytecodeModule::new();
    assert_eq!(module.estimated_stack_capacity(), 16);
    assert_eq!(module.estimated_frame_capacity(), 4);
    module.globals.push(GlobalSpec { name: "a".to_string(), kind: GlobalValueKind::Float });
    module.globals.push(GlobalSpec { name: "a".to_string(), kind: GlobalValueKind::Bool });
    assert_eq!(module.global_kind("a"), Some(GlobalValueKind::Float));
    assert_eq!(module.global_kind("b"), None);
    for _ in 0..5 {
        module.functions.push(FunctionBytecode {
            name: "f".to_string(),
            arity: 0,
            local_count: 4,
            expects_return_value: false,
            chunk: Chunk::new(),
        });
    }
    assert_eq!(module.estimated_stack_capacity(), 20);
    assert_eq!(module.estimated_frame_capacity(), 5);
}
