use muninn::bytecode::{BytecodeModule, Chunk, Constant, FunctionBytecode, OpCode};
use muninn::jit::{
    unknown_native_return_code_error, IntBinaryOp, Trace, TraceEngine, TraceKey, TraceOp,
    TraceOutcome, TraceRunResult,
};
use muninn::optim::{batches, shuffled_indices, SeedRng};
use muninn::span::Span;
use muninn::vm::GlobalCache;

fn counting_loop(limit: i64) -> BytecodeModule {
    loop_while(OpCode::Less, limit)
}

/// `local0 = 0; while local0 <compare> limit { local0 = local0 + 1; }`
fn loop_while(compare: OpCode, limit: i64) -> BytecodeModule {
    let s = Span::default();
    let mut chunk = Chunk::new();
    let zero = chunk.add_constant(Constant::Int(0)).expect("zero");
    let one = chunk.add_constant(Constant::Int(1)).expect("one");
    let bound = chunk.add_constant(Constant::Int(limit)).expect("limit");
    chunk.write_op(OpCode::Constant, s);
    chunk.write_u16(zero, s);
    chunk.write_op(OpCode::SetLocal, s);
    chunk.write_u16(0, s);
    // loop header at byte 6
    chunk.write_op(OpCode::GetLocal, s);
    chunk.write_u16(0, s);
    chunk.write_op(OpCode::Constant, s);
    chunk.write_u16(bound, s);
    chunk.write_op(compare, s);
    chunk.write_op(OpCode::JumpIfFalse, s);
    chunk.write_u16(14, s);
    chunk.write_op(OpCode::Pop, s);
    chunk.write_op(OpCode::GetLocal, s);
    chunk.write_u16(0, s);
    chunk.write_op(OpCode::Constant, s);
    chunk.write_u16(one, s);
    chunk.write_op(OpCode::Add, s);
    chunk.write_op(OpCode::SetLocal, s);
    chunk.write_u16(0, s);
    chunk.write_op(OpCode::Loop, s);
    chunk.write_u16(24, s);
    chunk.write_op(OpCode::Pop, s);
    chunk.write_op(OpCode::Return, s);
    BytecodeModule {
        functions: vec![FunctionBytecode {
            name: "entry".to_string(),
            arity: 0,
            local_count: 1,
            expects_return_value: false,
            chunk,
        }],
        entry_function: 0,
        globals: Vec::new(),
    }
}

const KEY: TraceKey = TraceKey { function_id: 0, loop_header_ip: 6 };

#[test]
fn unknown_native_return_code_is_vm_error() {
    let span = Span::range(2, 3, 4, 2, 8, 9);
    let error = unknown_native_return_code_error(99, span);

    assert_eq!(error.phase, "vm");
    assert_eq!(error.message, "unknown native trace return code 99");
    assert_eq!(error.span, span);
}

#[test]
fn unknown_negative_native_return_code_keeps_its_sign() {
    let error = unknown_native_return_code_error(-7, Span::default());
    assert_eq!(error.message, "unknown native trace return code -7");
}

#[test]
fn counting_loop_compiles_to_a_straight_trace() {
    let module = counting_loop(3);
    let trace = Trace::compile(&module, KEY).expect("trace");
    assert_eq!(trace.key, KEY);
    assert_eq!(trace.local_slots, vec![0]);
    assert_eq!(trace.ops.len(), 10);
    assert!(matches!(trace.ops[0], TraceOp::GetLocal { slot: 0, .. }));
    assert!(matches!(trace.ops[1], TraceOp::ConstInt(3)));
    assert!(matches!(trace.ops[3], TraceOp::JumpIfFalse { target_ip: 30, .. }));
    assert!(matches!(trace.ops[7], TraceOp::IntBinary { kind: IntBinaryOp::Add, .. }));
    assert!(matches!(trace.ops[9], TraceOp::Loop));
}

#[test]
fn loops_that_are_not_headers_are_refused() {
    let module = counting_loop(3);
    let wrong_header = TraceKey { function_id: 0, loop_header_ip: 0 };
    assert!(Trace::compile(&module, wrong_header).is_err());
    let missing_function = TraceKey { function_id: 4, loop_header_ip: 6 };
    assert!(Trace::compile(&module, missing_function).is_err());
}

#[test]
fn trace_runs_one_iteration_then_exits_on_false() {
    let module = counting_loop(2);
    let trace = Trace::compile(&module, KEY).expect("trace");
    let mut locals = vec![0i64];
    assert_eq!(trace.run_interpreted(&mut locals).expect("run"), TraceRunResult::LoopHeader);
    assert_eq!(locals, vec![1]);
    assert_eq!(trace.run_interpreted(&mut locals).expect("run"), TraceRunResult::LoopHeader);
    assert_eq!(locals, vec![2]);
    assert_eq!(
        trace.run_interpreted(&mut locals).expect("run"),
        TraceRunResult::ExitOnFalse { ip: 30 }
    );
    assert_eq!(locals, vec![2]);
}

#[test]
fn trace_interpreter_reports_overflow() {
    let module = loop_while(OpCode::Greater, 0);
    let trace = Trace::compile(&module, KEY).expect("trace");
    let mut locals = vec![i64::MAX - 1];
    assert_eq!(trace.run_interpreted(&mut locals).expect("run"), TraceRunResult::LoopHeader);
    assert_eq!(locals, vec![i64::MAX]);
    let error = trace.run_interpreted(&mut locals).expect_err("overflow");
    assert_eq!(error.phase, "vm");
    assert_eq!(error.message, "integer overflow in addition");
    assert_eq!(locals, vec![i64::MAX]);
}

#[test]
fn trace_interpreter_reports_missing_local() {
    let module = counting_loop(3);
    let trace = Trace::compile(&module, KEY).expect("trace");
    let mut locals: Vec<i64> = Vec::new();
    let error = trace.run_interpreted(&mut locals).expect_err("no slot");
    assert_eq!(error.phase, "vm");
    assert_eq!(error.message, "invalid local slot");
}

#[test]
fn engine_compiles_a_loop_once_it_is_hot() {
    let module = counting_loop(3);
    let mut engine = TraceEngine::new(2);
    engine.observe_loop(&module, KEY);
    assert!(engine.trace(KEY).is_none());
    engine.observe_loop(&module, KEY);
    assert!(engine.trace(KEY).is_some());
    let stats = engine.stats();
    assert_eq!(stats.hot_loops_seen, 2);
    assert_eq!(stats.traces_compiled, 1);
    assert_eq!(stats.traces_rejected, 0);
}

#[test]
fn engine_refuses_untraceable_loops_for_good() {
    let module = counting_loop(3);
    let bad = TraceKey { function_id: 0, loop_header_ip: 0 };
    let mut engine = TraceEngine::new(1);
    engine.observe_loop(&module, bad);
    engine.observe_loop(&module, bad);
    assert!(engine.trace(bad).is_none());
    let stats = engine.stats();
    assert_eq!(stats.traces_rejected, 1);
    assert_eq!(stats.traces_compiled, 0);
}

#[test]
fn engine_finish_run_reports_how_to_continue() {
    let module = counting_loop(3);
    let mut engine = TraceEngine::new(1);
    engine.observe_loop(&module, KEY);
    assert_eq!(engine.finish_run(KEY, TraceRunResult::LoopHeader), Some(TraceOutcome::Continue));
    assert_eq!(
        engine.finish_run(KEY, TraceRunResult::ExitOnFalse { ip: 30 }),
        Some(TraceOutcome::ExitToInterpreter { ip: 30 })
    );
    assert_eq!(engine.stats().interpreted_trace_runs, 2);
    // a run that stops at its own header cannot make progress
    assert_eq!(engine.finish_run(KEY, TraceRunResult::ExitToInterpreter { ip: 6 }), None);
    assert!(engine.trace(KEY).is_none());
}

#[test]
fn engine_clear_forgets_traces() {
    let module = counting_loop(3);
    let mut engine = TraceEngine::new(1);
    engine.observe_loop(&module, KEY);
    assert!(engine.trace(KEY).is_some());
    engine.clear();
    assert!(engine.trace(KEY).is_none());
    assert_eq!(engine.stats().traces_compiled, 1);
}

#[test]
fn shuffle_is_deterministic_per_seed() {
    let first = shuffled_indices(16, 7);
    let second = shuffled_indices(16, 7);
    let other = shuffled_indices(16, 8);
    assert_eq!(first, second);
    assert_ne!(first, other);
    let mut sorted = first.clone();
    sorted.sort_unstable();
    assert_eq!(sorted, (0..16).collect::<Vec<_>>());
}

#[test]
fn shuffle_of_nothing_is_empty() {
    assert!(shuffled_indices(0, 3).is_empty());
    assert_eq!(shuffled_indices(1, 3), vec![0]);
}

#[test]
fn seeded_rng_is_splitmix() {
    let mut rng = SeedRng::new(0);
    assert_eq!(rng.next_u64(), 0xE220_A839_7B1D_CDAF);
    let mut bounded = SeedRng::new(5);
    for _ in 0..20 {
        assert!(bounded.below(7) < 7);
    }
}

#[test]
fn batches_pack_without_dropping_a_tail() {
    let items: Vec<usize> = (0..5).collect();
    let packed = batches(&items, 2).expect("batches");
    assert_eq!(packed, vec![vec![0, 1], vec![2, 3], vec![4]]);
}

#[test]
fn batches_refuse_a_zero_size() {
    let items: Vec<usize> = (0..5).collect();
    let error = batches(&items, 0).expect_err("zero");
    assert_eq!(error.message, "batch_size must be positive");
    assert!(batches::<usize>(&[], 3).expect("empty").is_empty());
}

#[test]
fn global_cache_hits_after_a_miss_and_forgets_on_writes() {
    let mut cache: GlobalCache<i64> = GlobalCache::new();
    assert_eq!(cache.lookup("acc"), None);
    cache.insert("acc".to_string(), 5);
    cache.insert("val".to_string(), 7);
    assert_eq!(cache.lookup("acc"), Some(5));
    cache.evict("acc");
    assert_eq!(cache.lookup("acc"), None);
    assert_eq!(cache.lookup("val"), Some(7));
    cache.insert("val".to_string(), 8);
    assert_eq!(cache.lookup("val"), Some(8));
    cache.invalidate_all();
    assert_eq!(cache.lookup("val"), None);
    let stats = cache.stats();
    assert_eq!(stats.hits, 3);
    assert_eq!(stats.misses, 3);
    assert_eq!(stats.invalidations, 2);
}
