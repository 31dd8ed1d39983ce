use muninn::bytecode::{BytecodeModule, Chunk, Constant, FunctionBytecode, OpCode};
use muninn::compiler::compile_to_bytecode;
use muninn::error::MuninnError;
use muninn::interp::{reload, resume, start, step, show_value, CallFrame, Value, VmAction, VmState};
use muninn::natives::NativeFunctionKind;
use muninn::policy::HostPolicy;
use muninn::span::Span;

fn float_bits(text: &str) -> u64 {
    text.parse::<f64>().expect("float literal").to_bits()
}

/// Steps a module until it halts; host work is not expected here.
fn run_module(module: &BytecodeModule, policy: &HostPolicy) -> Result<Value, MuninnError> {
    let mut vm = start(module)?;
    loop {
        let (next, action) = step(module, vm, policy)?;
        vm = next;
        match action {
            VmAction::Continue => {}
            VmAction::Halt(value) => return Ok(value),
            VmAction::Native { kind: NativeFunctionKind::Assert, args } => match args.as_slice() {
                [Value::Bool(true)] => resume(&mut vm, Value::Nil),
                _ => return Err(MuninnError::new("vm", "assertion failed", Span::default())),
            },
            _ => panic!("host work in a test program"),
        }
    }
}

fn compile_and_run(source: &str) -> Result<Value, Vec<MuninnError>> {
    let module = compile_to_bytecode(source, &float_bits)?;
    run_module(&module, &HostPolicy::default()).map_err(|e| vec![e])
}

fn text(v: &Value) -> String {
    show_value(v)
}

fn module_of(code: Vec<u8>, constants: Vec<Constant>, local_count: usize) -> BytecodeModule {
    let spans = vec![Span::default(); code.len()];
    BytecodeModule {
        functions: vec![FunctionBytecode {
            name: "entry".to_string(),
            arity: 0,
            local_count,
            expects_return_value: false,
            chunk: Chunk { code, spans, constants },
        }],
        entry_function: 0,
        globals: vec![],
    }
}

fn op(o: OpCode) -> u8 {
    o as u8
}

#[test]
fn runs_small_typed_script() {
    let src = r#"
fn add(a: Int, b: Int) -> Int {
    return a + b;
}

let mut total: Int = 0;
while (total < 3) {
    total = add(total, 1);
}

total;
"#;

    let value = compile_and_run(src).expect("value");
    assert_eq!(text(&value), "3");
}

#[test]
fn reports_runtime_division_by_zero_for_ints() {
    let src = "1 / 0;";
    let errors = compile_and_run(src).expect_err("runtime error");
    assert_eq!(errors[0].phase, "vm");
    assert!(errors[0].message.contains("division by zero"));
}

#[test]
fn reports_runtime_integer_overflow_for_addition() {
    let src = r#"
let max: Int = 9223372036854775807;
max + 1;
"#;
    let errors = compile_and_run(src).expect_err("runtime error");
    assert_eq!(errors[0].phase, "vm");
    assert!(errors[0].message.contains("integer overflow in addition"));
}

#[test]
fn reports_runtime_integer_overflow_for_multiplication() {
    let src = r#"
let big: Int = 3037000500;
big * big;
"#;
    let errors = compile_and_run(src).expect_err("runtime error");
    assert_eq!(errors[0].phase, "vm");
    assert!(errors[0].message.contains("integer overflow in multiplication"));
}

#[test]
fn integer_division_rounds_toward_zero() {
    assert_eq!(text(&compile_and_run("-7 / 2;").expect("value")), "-3");
    assert_eq!(text(&compile_and_run("7 / -2;").expect("value")), "-3");
    assert_eq!(text(&compile_and_run("-7 / -2;").expect("value")), "3");
}

#[test]
fn strings_concatenate_and_compare() {
    assert_eq!(text(&compile_and_run("\"ab\" + \"cd\";").expect("value")), "abcd");
    assert_eq!(text(&compile_and_run("\"ab\" == \"ab\";").expect("value")), "true");
}

#[test]
fn asserts_reach_the_host_as_native_calls() {
    assert_eq!(text(&compile_and_run("assert(1 == 1);\n7;").expect("value")), "7");
    let errors = compile_and_run("assert(false);\n1;\n").expect_err("runtime error");
    assert_eq!(errors[0].message, "assertion failed");
}

#[test]
fn a_module_without_frames_halts_with_the_top_value() {
    let module = module_of(vec![], vec![], 0);
    let vm = VmState { stack: vec![Value::Int(5)], frames: vec![], globals: vec![], steps_used: 0, preserve_existing_globals: true };
    let (next, action) = step(&module, vm, &HostPolicy::default()).expect("halts");
    assert!(matches!(action, VmAction::Halt(Value::Int(5))));
    assert!(next.stack.is_empty());
    assert!(!next.preserve_existing_globals);
}

#[test]
fn fuel_exhaustion_traps_at_the_instruction() {
    let module = module_of(vec![op(OpCode::Nil), op(OpCode::Return)], vec![], 0);
    let mut policy = HostPolicy::default();
    policy.max_steps = Some(0);
    let vm = start(&module).expect("starts");
    let error = step(&module, vm, &policy).err().expect("traps");
    assert_eq!(error.phase, "vm");
    assert_eq!(error.message, "fuel exhausted after 1 instructions (max_steps 0)");
}

#[test]
fn constants_and_locals_move_through_the_stack() {
    let code = vec![op(OpCode::Constant), 0, 0, op(OpCode::SetLocal), 0, 0, op(OpCode::GetLocal), 0, 0, op(OpCode::Return)];
    let module = module_of(code, vec![Constant::Int(41)], 1);
    let value = run_module(&module, &HostPolicy::default()).expect("runs");
    assert!(matches!(value, Value::Int(41)));
}

#[test]
fn bad_local_slot_is_reported() {
    let code = vec![op(OpCode::GetLocal), 9, 0, op(OpCode::Return)];
    let module = module_of(code, vec![], 1);
    let error = run_module(&module, &HostPolicy::default()).expect_err("faults");
    assert_eq!(error.message, "invalid local slot 9");
}

#[test]
fn unknown_globals_and_bad_conditions_fault() {
    let code = vec![op(OpCode::GetGlobal), 0, 0, op(OpCode::Return)];
    let module = module_of(code, vec![Constant::String("missing".to_string())], 0);
    let error = run_module(&module, &HostPolicy::default()).expect_err("faults");
    assert_eq!(error.message, "unknown global 'missing'");

    let code = vec![op(OpCode::Nil), op(OpCode::JumpIfFalse), 0, 0, op(OpCode::Return)];
    let module = module_of(code, vec![], 0);
    let error = run_module(&module, &HostPolicy::default()).expect_err("faults");
    assert_eq!(error.message, "condition must be Bool, got nil");
}

#[test]
fn float_arithmetic_is_handed_to_the_host() {
    let code = vec![op(OpCode::Constant), 0, 0, op(OpCode::Constant), 0, 0, op(OpCode::Add), op(OpCode::Return)];
    let module = module_of(code, vec![Constant::Float(1.5f64.to_bits())], 0);
    let policy = HostPolicy::default();
    let mut vm = start(&module).expect("starts");
    for _ in 0..2 {
        let (next, action) = step(&module, vm, &policy).expect("steps");
        assert!(matches!(action, VmAction::Continue));
        vm = next;
    }
    let (next, action) = step(&module, vm, &policy).expect("steps");
    match action {
        VmAction::Host { op: OpCode::Add, left: Value::Float(a), right: Some(Value::Float(b)) } => {
            assert_eq!(a, 1.5f64.to_bits());
            assert_eq!(b, 1.5f64.to_bits());
        }
        _ => panic!("expected host work"),
    }
    assert!(next.stack.is_empty());
    assert_eq!(next.frames[0].ip, 7);
}

#[test]
fn sandboxed_policy_refuses_natives() {
    let src = "assert(true);\n1;";
    let module = compile_to_bytecode(src, &float_bits).expect("compiles");
    let error = run_module(&module, &HostPolicy::sandboxed()).expect_err("refused");
    assert_eq!(error.message, "native 'assert' is disabled by host policy");
}

#[test]
fn calls_push_a_frame_with_nil_locals() {
    let callee = FunctionBytecode {
        name: "f".to_string(),
        arity: 1,
        local_count: 3,
        expects_return_value: true,
        chunk: Chunk { code: vec![op(OpCode::GetLocal), 0, 0, op(OpCode::Return)], spans: vec![Span::default(); 4], constants: vec![] },
    };
    let entry = FunctionBytecode {
        name: "entry".to_string(),
        arity: 0,
        local_count: 0,
        expects_return_value: false,
        chunk: Chunk {
            code: vec![op(OpCode::Constant), 0, 0, op(OpCode::Constant), 1, 0, op(OpCode::Call), 1, op(OpCode::Return)],
            spans: vec![Span::default(); 9],
            constants: vec![Constant::Function(1), Constant::Int(8)],
        },
    };
    let module = BytecodeModule { functions: vec![entry, callee], entry_function: 0, globals: vec![] };
    let policy = HostPolicy::default();
    let mut vm = start(&module).expect("starts");
    for _ in 0..3 {
        vm = step(&module, vm, &policy).expect("steps").0;
    }
    assert_eq!(vm.frames.len(), 2);
    assert_eq!(vm.frames[1], CallFrame { function_id: 1, ip: 0, stack_base: 0 });
    assert_eq!(vm.stack.len(), 3);
    assert!(matches!(vm.stack[0], Value::Int(8)));
    assert!(matches!(vm.stack[2], Value::Nil));
    let value = run_rest(&module, vm, &policy);
    assert!(matches!(value, Value::Int(8)));
}

fn run_rest(module: &BytecodeModule, mut vm: VmState, policy: &HostPolicy) -> Value {
    loop {
        let (next, action) = step(module, vm, policy).expect("steps");
        vm = next;
        if let VmAction::Halt(v) = action {
            return v;
        }
    }
}

fn run_to_halt(module: &BytecodeModule, mut vm: VmState) -> (VmState, Value) {
    let policy = HostPolicy::default();
    loop {
        let (next, action) = step(module, vm, &policy).expect("steps");
        vm = next;
        if let VmAction::Halt(v) = action {
            return (vm, v);
        }
    }
}

fn global_of<'a>(vm: &'a VmState, name: &str) -> Option<&'a Value> {
    vm.globals.iter().rev().find(|(n, _)| n == name).map(|(_, v)| v)
}

#[test]
fn reload_keeps_globals_and_preserves_them() {
    let first = compile_to_bytecode("let x: Int = 1; x;", &float_bits).expect("compiles");
    let (vm, value) = run_to_halt(&first, start(&first).expect("starts"));
    assert!(matches!(value, Value::Int(1)));
    let second = compile_to_bytecode("let x: Int = 5; x + 1;", &float_bits).expect("compiles");
    let vm = reload(vm, &second).expect("reloads");
    assert!(vm.preserve_existing_globals);
    assert_eq!(vm.steps_used, 0);
    assert_eq!(vm.frames.len(), 1);
    let (vm, value) = run_to_halt(&second, vm);
    // The live global keeps its value across the reload.
    assert!(matches!(value, Value::Int(2)));
    assert!(matches!(global_of(&vm, "x"), Some(Value::Int(1))));
}

#[test]
fn reload_refuses_a_retyped_global() {
    let first = compile_to_bytecode("let x: Int = 1; x;", &float_bits).expect("compiles");
    let (vm, _) = run_to_halt(&first, start(&first).expect("starts"));
    let second = compile_to_bytecode("let x: Bool = true; x;", &float_bits).expect("compiles");
    let error = reload(vm, &second).err().expect("refused");
    assert_eq!(error.phase, "vm");
    assert_eq!(error.message, "reload rejected: global 'x' changed kind from Int to Bool");
}
