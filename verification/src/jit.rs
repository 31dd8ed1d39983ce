use vstd::prelude::*;

use crate::bytecode::{BytecodeModule, ChunkModel, Constant, ConstantModel, OpCode, decode_op, function_views};
use crate::error::MuninnError;
use crate::runtime::{vm_error, vm_error_owned};
use crate::span::Span;
use crate::text::{owned, push_str, signed_decimal, i64_text};

verus! {

/// A loop of a function, named by the position of its header.
#[derive(Debug, Clone, Copy, PartialEq, Eq, Structural, Hash)]
pub struct TraceKey {
    pub function_id: usize,
    pub loop_header_ip: usize,
}

/// How a trace last ran: by the trace interpreter, or as native code.
#[derive(Debug, Clone, Copy, PartialEq, Eq, Structural)]
pub enum TraceRunMode {
    Interpreted,
    Native,
}

/// Counters of the tracing tier.
#[derive(Debug, Clone, Copy, PartialEq, Eq, Structural)]
pub struct TraceStats {
    pub hot_loops_seen: usize,
    pub traces_compiled: usize,
    pub traces_rejected: usize,
    pub interpreted_trace_runs: usize,
    pub native_trace_runs: usize,
    pub native_trace_bailouts: usize,
}

impl TraceStats {
    pub open spec fn zero() -> TraceStats {
        TraceStats {
            hot_loops_seen: 0,
            traces_compiled: 0,
            traces_rejected: 0,
            interpreted_trace_runs: 0,
            native_trace_runs: 0,
            native_trace_bailouts: 0,
        }
    }
}

impl Default for TraceStats {
    fn default() -> (s: TraceStats)
        ensures
            s == TraceStats::zero(),
    {
        TraceStats {
            hot_loops_seen: 0,
            traces_compiled: 0,
            traces_rejected: 0,
            interpreted_trace_runs: 0,
            native_trace_runs: 0,
            native_trace_bailouts: 0,
        }
    }
}

/// What the interpreter does after a trace ran.
#[derive(Debug, Clone, Copy, PartialEq, Eq, Structural)]
pub enum TraceOutcome {
    Continue,
    ExitToInterpreter { ip: usize },
}

/// How one run of a trace ended: back at the loop header, at the exit of
/// a false loop condition (whose `false` the interpreter keeps on its
/// stack), or elsewhere without leaving a value.
#[derive(Debug, Clone, Copy, PartialEq, Eq, Structural)]
pub enum TraceRunResult {
    LoopHeader,
    ExitOnFalse { ip: usize },
    ExitToInterpreter { ip: usize },
}

#[derive(Debug, Clone, Copy, PartialEq, Eq, Structural)]
pub enum IntBinaryOp {
    Add,
    Subtract,
    Multiply,
    Divide,
}

#[derive(Debug, Clone, Copy, PartialEq, Eq, Structural)]
pub enum IntCompareOp {
    Equal,
    Greater,
    Less,
}

/// One straight-line operation of a loop trace over integer locals.
#[derive(Debug, Clone, Copy, PartialEq, Eq, Structural)]
pub enum TraceOp {
    ConstInt(i64),
    ConstBool(bool),
    GetLocal { slot: usize, span: Span },
    SetLocal { slot: usize, span: Span },
    IntBinary { kind: IntBinaryOp, span: Span },
    IntCompare { kind: IntCompareOp, span: Span },
    Pop { span: Span },
    JumpIfFalse { target_ip: usize, span: Span },
    Loop,
}

/// A value on the trace's own operand stack.
#[derive(Debug, Clone, Copy, PartialEq, Eq, Structural)]
pub enum TraceValue {
    Int(i64),
    Bool(bool),
}

/// Why a loop could not be traced.
#[derive(Debug, Clone, Copy, PartialEq, Eq, Structural)]
pub struct TraceBuildError;

/// A compiled loop trace.
#[derive(Debug, Clone)]
pub struct Trace {
    pub key: TraceKey,
    pub ops: Vec<TraceOp>,
    /// The local slots the trace reads or writes, ascending.
    pub local_slots: Vec<usize>,
    pub loop_span: Span,
}

// ----- building a trace -----

pub open spec fn span_of(c: ChunkModel, ip: int) -> Span {
    if 0 <= ip < c.spans.len() { c.spans[ip] } else { Span::synthetic() }
}

/// The 16-bit operand at `ip + 1`, when both bytes exist.
pub open spec fn operand_at(c: ChunkModel, ip: int) -> Option<usize> {
    if ip + 2 < c.code.len() {
        Some((c.code[ip + 1] as nat + 256 * (c.code[ip + 2] as nat)) as usize)
    } else {
        None
    }
}

/// Straight-line translation of the loop body from `ip`: each supported
/// instruction becomes a trace op, until a `Loop` back to `header` with
/// an empty stack closes the trace (which needs a loop exit on the way).
/// `None` where the loop cannot be traced.
pub open spec fn scan_trace(
    c: ChunkModel,
    header: int,
    ip: int,
    depth: int,
    ops: Seq<TraceOp>,
    has_exit: bool,
) -> Option<(Seq<TraceOp>, Span)>
    decreases c.code.len() - ip,
{
    if ip < 0 || ip >= c.code.len() {
        None
    } else {
        let span = span_of(c, ip);
        match decode_op(c.code[ip]) {
            Some(OpCode::Constant) => match operand_at(c, ip) {
                Some(index) => if index < c.constants.len() && c.constants[index as int] is Int {
                    scan_trace(c, header, ip + 3, depth + 1, ops.push(TraceOp::ConstInt(c.constants[index as int]->Int_0)), has_exit)
                } else {
                    None
                },
                None => None,
            },
            Some(OpCode::True) => scan_trace(c, header, ip + 1, depth + 1, ops.push(TraceOp::ConstBool(true)), has_exit),
            Some(OpCode::False) => scan_trace(c, header, ip + 1, depth + 1, ops.push(TraceOp::ConstBool(false)), has_exit),
            Some(OpCode::GetLocal) => match operand_at(c, ip) {
                Some(slot) => scan_trace(c, header, ip + 3, depth + 1, ops.push(TraceOp::GetLocal { slot, span }), has_exit),
                None => None,
            },
            Some(OpCode::SetLocal) => match operand_at(c, ip) {
                Some(slot) => scan_trace(c, header, ip + 3, depth - 1, ops.push(TraceOp::SetLocal { slot, span }), has_exit),
                None => None,
            },
            Some(OpCode::Add) => scan_trace(c, header, ip + 1, depth - 1, ops.push(TraceOp::IntBinary { kind: IntBinaryOp::Add, span }), has_exit),
            Some(OpCode::Subtract) => scan_trace(c, header, ip + 1, depth - 1, ops.push(TraceOp::IntBinary { kind: IntBinaryOp::Subtract, span }), has_exit),
            Some(OpCode::Multiply) => scan_trace(c, header, ip + 1, depth - 1, ops.push(TraceOp::IntBinary { kind: IntBinaryOp::Multiply, span }), has_exit),
            Some(OpCode::Divide) => scan_trace(c, header, ip + 1, depth - 1, ops.push(TraceOp::IntBinary { kind: IntBinaryOp::Divide, span }), has_exit),
            Some(OpCode::Equal) => scan_trace(c, header, ip + 1, depth - 1, ops.push(TraceOp::IntCompare { kind: IntCompareOp::Equal, span }), has_exit),
            Some(OpCode::Greater) => scan_trace(c, header, ip + 1, depth - 1, ops.push(TraceOp::IntCompare { kind: IntCompareOp::Greater, span }), has_exit),
            Some(OpCode::Less) => scan_trace(c, header, ip + 1, depth - 1, ops.push(TraceOp::IntCompare { kind: IntCompareOp::Less, span }), has_exit),
            Some(OpCode::Pop) => scan_trace(c, header, ip + 1, depth - 1, ops.push(TraceOp::Pop { span }), has_exit),
            Some(OpCode::JumpIfFalse) => match operand_at(c, ip) {
                Some(jump) => if ip + 3 + jump <= usize::MAX {
                    scan_trace(c, header, ip + 3, depth, ops.push(TraceOp::JumpIfFalse { target_ip: (ip + 3 + jump) as usize, span }), true)
                } else {
                    None
                },
                None => None,
            },
            Some(OpCode::Loop) => match operand_at(c, ip) {
                Some(jump) => {
                    let target = if ip + 3 >= jump { ip + 3 - jump } else { 0 };
                    if target != header || depth != 0 || !has_exit {
                        None
                    } else {
                        Some((ops.push(TraceOp::Loop), span))
                    }
                },
                None => None,
            },
            _ => None,
        }
    }
}

/// The local slot an op touches, if any.
pub open spec fn op_slot(op: TraceOp) -> Option<usize> {
    match op {
        TraceOp::GetLocal { slot, .. } => Some(slot),
        TraceOp::SetLocal { slot, .. } => Some(slot),
        _ => None,
    }
}

/// Whether some op of `ops` touches `slot`.
pub open spec fn touches(ops: Seq<TraceOp>, slot: usize) -> bool {
    exists|i: int| 0 <= i < ops.len() && op_slot(#[trigger] ops[i]) == Some(slot)
}

/// `slots` ascends strictly and holds exactly the slots `ops` touch.
pub open spec fn slots_of(slots: Seq<usize>, ops: Seq<TraceOp>) -> bool {
    &&& forall|i: int, j: int| 0 <= i < j < slots.len() ==> #[trigger] slots[i] < #[trigger] slots[j]
    &&& forall|s: usize| slots.contains(s) <==> touches(ops, s)
}

/// The trace of loop `key` in `module`, if the loop can be traced.
pub open spec fn trace_of(m: crate::bytecode::ModuleModel, key: TraceKey) -> Option<(Seq<TraceOp>, Span)> {
    if key.function_id < m.functions.len() {
        let c = m.functions[key.function_id as int].chunk;
        scan_trace(c, key.loop_header_ip as int, key.loop_header_ip as int, 0, seq![], false)
    } else {
        None
    }
}

/// Inserts `slot` into the ascending list `slots` unless present.
fn insert_slot(slots: &mut Vec<usize>, slot: usize)
    requires
        forall|i: int, j: int| 0 <= i < j < old(slots)@.len() ==> #[trigger] old(slots)@[i] < #[trigger] old(slots)@[j],
    ensures
        forall|i: int, j: int| 0 <= i < j < final(slots)@.len() ==> #[trigger] final(slots)@[i] < #[trigger] final(slots)@[j],
        forall|s: usize| final(slots)@.contains(s) <==> (old(slots)@.contains(s) || s == slot),
{
    let ghost before = slots@;
    let mut pos: usize = 0;
    while pos < slots.len() && slots[pos] < slot
        invariant
            pos <= slots@.len(),
            slots@ == before,
            forall|i: int| 0 <= i < pos ==> #[trigger] slots@[i] < slot,
        decreases slots@.len() - pos,
    {
        pos = pos + 1;
    }
    if pos < slots.len() && slots[pos] == slot {
        return;
    }
    slots.insert(pos, slot);
    proof {
        let after = slots@;
        assert forall|i: int, j: int| 0 <= i < j < after.len() implies #[trigger] after[i] < #[trigger] after[j] by {
            if j < pos {
                assert(after[i] == before[i] && after[j] == before[j]);
            } else if j == pos {
                assert(after[i] == before[i]);
            } else if i == pos {
                assert(after[j] == before[j - 1]);
                assert(before[pos as int] > slot);
                if j - 1 > pos {
                    assert(before[pos as int] < before[j - 1]);
                }
            } else if i < pos {
                assert(after[i] == before[i]);
                assert(after[j] == before[j - 1]);
                if j - 1 > pos {
                    assert(before[pos as int] < before[j - 1]);
                }
                assert(before[pos as int] > slot);
            } else {
                assert(after[i] == before[i - 1] && after[j] == before[j - 1]);
            }
        }
        assert forall|s: usize| after.contains(s) <==> (before.contains(s) || s == slot) by {
            if after.contains(s) {
                let k = choose|k: int| 0 <= k < after.len() && after[k] == s;
                if k < pos {
                    assert(before[k] == s);
                } else if k > pos {
                    assert(before[k - 1] == s);
                }
            }
            if before.contains(s) {
                let k = choose|k: int| 0 <= k < before.len() && before[k] == s;
                if k < pos {
                    assert(after[k] == s);
                } else {
                    assert(after[k + 1] == s);
                }
            }
            if s == slot {
                assert(after[pos as int] == s);
            }
        }
    }
}

/// The 16-bit operand after the opcode at `ip`, if both bytes exist.
fn operand_of(code: &Vec<u8>, ip: usize) -> (r: Option<usize>)
    ensures
        r == (if ip + 2 < code@.len() {
            Some((code@[ip + 1] as nat + 256 * (code@[ip + 2] as nat)) as usize)
        } else {
            None::<usize>
        }),
{
    if ip < code.len() && code.len() - ip > 2 {
        let lo: u8 = code[ip + 1];
        let hi: u8 = code[ip + 2];
        Some(lo as usize + 256 * (hi as usize))
    } else {
        None
    }
}

impl Trace {
    /// Translates the loop `key` into a straight-line integer trace: from
    /// the loop header, supported instructions (integer constants, booleans,
    /// local reads and writes, integer arithmetic and comparisons, pops and
    /// the loop-exit test) until the `Loop` that jumps back to the header
    /// with an empty operand stack. Anything else refuses the loop.
    pub fn compile(module: &BytecodeModule, key: TraceKey) -> (r: Result<Trace, TraceBuildError>)
        ensures
            match trace_of(module@, key) {
                None => r is Err,
                Some((ops, span)) => r matches Ok(t) && t.key == key && t.ops@ == ops && t.loop_span
                    == span && slots_of(t.local_slots@, ops),
            },
    {
        if key.function_id >= module.functions.len() {
            return Err(TraceBuildError);
        }
        let function = &module.functions[key.function_id];
        proof {
            assert(module@.functions[key.function_id as int] == function@);
        }
        let chunk = &function.chunk;
        let ghost c = chunk@;
        let header = key.loop_header_ip;
        let mut ip = header;
        let mut ops: Vec<TraceOp> = Vec::new();
        let mut slots: Vec<usize> = Vec::new();
        let mut depth: i128 = 0;
        let mut has_exit = false;
        let n = chunk.code.len();
        while ip < n
            invariant
                c == chunk@,
                n == c.code.len(),
                trace_of(module@, key) == scan_trace(c, header as int, ip as int, depth as int, ops@, has_exit),
                trace_of(module@, key) == scan_trace(c, header as int, header as int, 0, seq![], false),
                0 <= depth + ip,
                depth <= ip,
                forall|i: int, j: int| 0 <= i < j < slots@.len() ==> #[trigger] slots@[i] < #[trigger] slots@[j],
                forall|s: usize| slots@.contains(s) <==> touches(ops@, s),
            decreases n - ip,
        {
            let span = chunk.span_at(ip);
            let ghost before = ops@;
            let op = match OpCode::from_byte(chunk.code[ip]) {
                Some(op) => op,
                None => return Err(TraceBuildError),
            };
            let mut touched: Option<usize> = None;
            match op {
                OpCode::Constant => {
                    let index = match operand_of(&chunk.code, ip) {
                        Some(i) => i,
                        None => return Err(TraceBuildError),
                    };
                    if index >= chunk.constants.len() {
                        return Err(TraceBuildError);
                    }
                    proof {
                        assert(c.constants[index as int] == chunk.constants@[index as int]@);
                    }
                    match &chunk.constants[index] {
                        Constant::Int(v) => {
                            ops.push(TraceOp::ConstInt(*v));
                        },
                        _ => return Err(TraceBuildError),
                    }
                    depth = depth + 1;
                    ip = ip + 3;
                },
                OpCode::True => {
                    ops.push(TraceOp::ConstBool(true));
                    depth = depth + 1;
                    ip = ip + 1;
                },
                OpCode::False => {
                    ops.push(TraceOp::ConstBool(false));
                    depth = depth + 1;
                    ip = ip + 1;
                },
                OpCode::GetLocal => {
                    let slot = match operand_of(&chunk.code, ip) {
                        Some(s) => s,
                        None => return Err(TraceBuildError),
                    };
                    ops.push(TraceOp::GetLocal { slot, span });
                    touched = Some(slot);
                    depth = depth + 1;
                    ip = ip + 3;
                },
                OpCode::SetLocal => {
                    let slot = match operand_of(&chunk.code, ip) {
                        Some(s) => s,
                        None => return Err(TraceBuildError),
                    };
                    ops.push(TraceOp::SetLocal { slot, span });
                    touched = Some(slot);
                    depth = depth - 1;
                    ip = ip + 3;
                },
                OpCode::Add | OpCode::Subtract | OpCode::Multiply | OpCode::Divide => {
                    let kind = match op {
                        OpCode::Add => IntBinaryOp::Add,
                        OpCode::Subtract => IntBinaryOp::Subtract,
                        OpCode::Multiply => IntBinaryOp::Multiply,
                        _ => IntBinaryOp::Divide,
                    };
                    ops.push(TraceOp::IntBinary { kind, span });
                    depth = depth - 1;
                    ip = ip + 1;
                },
                OpCode::Equal | OpCode::Greater | OpCode::Less => {
                    let kind = match op {
                        OpCode::Equal => IntCompareOp::Equal,
                        OpCode::Greater => IntCompareOp::Greater,
                        _ => IntCompareOp::Less,
                    };
                    ops.push(TraceOp::IntCompare { kind, span });
                    depth = depth - 1;
                    ip = ip + 1;
                },
                OpCode::Pop => {
                    ops.push(TraceOp::Pop { span });
                    depth = depth - 1;
                    ip = ip + 1;
                },
                OpCode::JumpIfFalse => {
                    let jump = match operand_of(&chunk.code, ip) {
                        Some(j) => j,
                        None => return Err(TraceBuildError),
                    };
                    if jump > usize::MAX - (ip + 3) {
                        return Err(TraceBuildError);
                    }
                    ops.push(TraceOp::JumpIfFalse { target_ip: ip + 3 + jump, span });
                    has_exit = true;
                    ip = ip + 3;
                },
                OpCode::Loop => {
                    let jump = match operand_of(&chunk.code, ip) {
                        Some(j) => j,
                        None => return Err(TraceBuildError),
                    };
                    let target = if jump <= ip + 3 { ip + 3 - jump } else { 0 };
                    if target != header || depth != 0 || !has_exit {
                        return Err(TraceBuildError);
                    }
                    ops.push(TraceOp::Loop);
                    proof {
                        assert forall|s: usize| touches(ops@, s) <==> touches(before, s) by {
                            if touches(ops@, s) {
                                let i = choose|i: int| 0 <= i < ops@.len() && op_slot(#[trigger] ops@[i]) == Some(s);
                                assert(i < before.len());
                                assert(before[i] == ops@[i]);
                            }
                            if touches(before, s) {
                                let i = choose|i: int| 0 <= i < before.len() && op_slot(#[trigger] before[i]) == Some(s);
                                assert(ops@[i] == before[i]);
                            }
                        }
                    }
                    return Ok(Trace { key, ops, local_slots: slots, loop_span: span });
                },
                _ => return Err(TraceBuildError),
            }
            proof {
                assert forall|s: usize| touches(ops@, s) <==> (touches(before, s) || touched == Some(s)) by {
                    let last = ops@.len() - 1;
                    assert(op_slot(ops@[last]) == touched);
                    if touches(ops@, s) {
                        let i = choose|i: int| 0 <= i < ops@.len() && op_slot(#[trigger] ops@[i]) == Some(s);
                        if i < before.len() {
                            assert(before[i] == ops@[i]);
                        }
                    }
                    if touches(before, s) {
                        let i = choose|i: int| 0 <= i < before.len() && op_slot(#[trigger] before[i]) == Some(s);
                        assert(ops@[i] == before[i]);
                    }
                }
            }
            let ghost slots_before = slots@;
            if let Some(slot) = touched {
                insert_slot(&mut slots, slot);
            }
            proof {
                assert forall|s: usize| slots@.contains(s) <==> touches(ops@, s) by {
                    assert(slots_before.contains(s) <==> touches(before, s));
                    assert(touches(ops@, s) <==> (touches(before, s) || touched == Some(s)));
                }
            }
        }
        Err(TraceBuildError)
    }
}

// ----- running a trace -----

/// How a run of the trace ends: with a result and the locals, or with a
/// diagnostic at a span and the locals written so far.
pub enum RunEnd {
    Finished(TraceRunResult, Seq<i64>),
    Failed(Seq<char>, Span, Seq<i64>),
}

/// Pops an integer off the trace stack.
pub open spec fn pop_int(stack: Seq<TraceValue>) -> Result<(i64, Seq<TraceValue>), Seq<char>> {
    if stack.len() == 0 {
        Err("stack underflow"@)
    } else {
        match stack.last() {
            TraceValue::Int(v) => Ok((v, stack.drop_last())),
            TraceValue::Bool(_) => Err("trace expected Int, got Bool"@),
        }
    }
}

/// Checked integer arithmetic with Rust's truncating division.
pub open spec fn checked_binary(kind: IntBinaryOp, l: i64, r: i64) -> Result<i64, Seq<char>> {
    match kind {
        IntBinaryOp::Add => match l.checked_add(r) {
            Some(v) => Ok(v),
            None => Err("integer overflow in addition"@),
        },
        IntBinaryOp::Subtract => match l.checked_sub(r) {
            Some(v) => Ok(v),
            None => Err("integer overflow in subtraction"@),
        },
        IntBinaryOp::Multiply => match l.checked_mul(r) {
            Some(v) => Ok(v),
            None => Err("integer overflow in multiplication"@),
        },
        IntBinaryOp::Divide => if r == 0 {
            Err("division by zero"@)
        } else {
            match l.checked_div(r) {
                Some(v) => Ok(v),
                None => Err("integer overflow in division"@),
            }
        },
    }
}

pub open spec fn compare_int(kind: IntCompareOp, l: i64, r: i64) -> bool {
    match kind {
        IntCompareOp::Equal => l == r,
        IntCompareOp::Greater => l > r,
        IntCompareOp::Less => l < r,
    }
}

/// The trace from op `i` on, with its operand stack and the integer locals
/// by slot. Falling off the ops returns to the loop header.
pub open spec fn run_from(
    ops: Seq<TraceOp>,
    i: int,
    stack: Seq<TraceValue>,
    locals: Seq<i64>,
    header: usize,
) -> RunEnd
    decreases ops.len() - i,
{
    if i < 0 || i >= ops.len() {
        RunEnd::Finished(TraceRunResult::ExitToInterpreter { ip: header }, locals)
    } else {
        match ops[i] {
            TraceOp::ConstInt(v) => run_from(ops, i + 1, stack.push(TraceValue::Int(v)), locals, header),
            TraceOp::ConstBool(b) => run_from(ops, i + 1, stack.push(TraceValue::Bool(b)), locals, header),
            TraceOp::GetLocal { slot, span } => if slot < locals.len() {
                run_from(ops, i + 1, stack.push(TraceValue::Int(locals[slot as int])), locals, header)
            } else {
                RunEnd::Failed("invalid local slot"@, span, locals)
            },
            TraceOp::SetLocal { slot, span } => match pop_int(stack) {
                Err(m) => RunEnd::Failed(m, span, locals),
                Ok((v, rest)) => if slot < locals.len() {
                    run_from(ops, i + 1, rest, locals.update(slot as int, v), header)
                } else {
                    RunEnd::Failed("invalid local slot"@, span, locals)
                },
            },
            TraceOp::IntBinary { kind, span } => match pop_int(stack) {
                Err(m) => RunEnd::Failed(m, span, locals),
                Ok((r, s1)) => match pop_int(s1) {
                    Err(m) => RunEnd::Failed(m, span, locals),
                    Ok((l, s2)) => match checked_binary(kind, l, r) {
                        Err(m) => RunEnd::Failed(m, span, locals),
                        Ok(v) => run_from(ops, i + 1, s2.push(TraceValue::Int(v)), locals, header),
                    },
                },
            },
            TraceOp::IntCompare { kind, span } => match pop_int(stack) {
                Err(m) => RunEnd::Failed(m, span, locals),
                Ok((r, s1)) => match pop_int(s1) {
                    Err(m) => RunEnd::Failed(m, span, locals),
                    Ok((l, s2)) => run_from(ops, i + 1, s2.push(TraceValue::Bool(compare_int(kind, l, r))), locals, header),
                },
            },
            TraceOp::Pop { span } => if stack.len() == 0 {
                RunEnd::Failed("stack underflow"@, span, locals)
            } else {
                run_from(ops, i + 1, stack.drop_last(), locals, header)
            },
            TraceOp::JumpIfFalse { target_ip, span } => if stack.len() == 0 {
                RunEnd::Failed("stack underflow"@, span, locals)
            } else {
                match stack.last() {
                    TraceValue::Bool(false) => RunEnd::Finished(TraceRunResult::ExitOnFalse { ip: target_ip }, locals),
                    TraceValue::Bool(true) => run_from(ops, i + 1, stack, locals, header),
                    TraceValue::Int(_) => RunEnd::Failed("condition must be Bool, got Int"@, span, locals),
                }
            },
            TraceOp::Loop => RunEnd::Finished(TraceRunResult::LoopHeader, locals),
        }
    }
}

fn pop_trace_int(stack: &mut Vec<TraceValue>) -> (r: Result<i64, &'static str>)
    ensures
        match pop_int(old(stack)@) {
            Ok((v, rest)) => r == Ok::<i64, &'static str>(v) && final(stack)@ == rest,
            Err(m) => r matches Err(msg) && msg@ == m,
        },
{
    match stack.pop() {
        Some(TraceValue::Int(v)) => Ok(v),
        Some(TraceValue::Bool(_)) => Err("trace expected Int, got Bool"),
        None => Err("stack underflow"),
    }
}

fn int_binary(kind: IntBinaryOp, l: i64, r: i64) -> (res: Result<i64, &'static str>)
    ensures
        match checked_binary(kind, l, r) {
            Ok(v) => res == Ok::<i64, &'static str>(v),
            Err(m) => res matches Err(msg) && msg@ == m,
        },
{
    match kind {
        IntBinaryOp::Add => match l.checked_add(r) {
            Some(v) => Ok(v),
            None => Err("integer overflow in addition"),
        },
        IntBinaryOp::Subtract => match l.checked_sub(r) {
            Some(v) => Ok(v),
            None => Err("integer overflow in subtraction"),
        },
        IntBinaryOp::Multiply => match l.checked_mul(r) {
            Some(v) => Ok(v),
            None => Err("integer overflow in multiplication"),
        },
        IntBinaryOp::Divide => {
            if r == 0 {
                return Err("division by zero");
            }
            match l.checked_div(r) {
                Some(v) => Ok(v),
                None => Err("integer overflow in division"),
            }
        },
    }
}

impl Trace {
    /// Runs the trace once over the integer locals (indexed by slot), the
    /// way the trace interpreter does.
    pub fn run_interpreted(&self, locals: &mut Vec<i64>) -> (r: Result<TraceRunResult, MuninnError>)
        ensures
            match run_from(self.ops@, 0, seq![], old(locals)@, self.key.loop_header_ip) {
                RunEnd::Finished(res, ls) => r == Ok::<TraceRunResult, MuninnError>(res) && final(locals)@ == ls,
                RunEnd::Failed(m, span, ls) => r matches Err(e) && e.phase@ == "vm"@ && e.message@ == m
                    && e.span == span && final(locals)@ == ls,
            },
    {
        let ghost start = locals@;
        let header = self.key.loop_header_ip;
        let mut stack: Vec<TraceValue> = Vec::new();
        let mut i: usize = 0;
        while i < self.ops.len()
            invariant
                i <= self.ops@.len(),
                header == self.key.loop_header_ip,
                start == old(locals)@,
                run_from(self.ops@, 0, seq![], start, header) == run_from(self.ops@, i as int, stack@, locals@, header),
            decreases self.ops@.len() - i,
        {
            match self.ops[i] {
                TraceOp::ConstInt(v) => stack.push(TraceValue::Int(v)),
                TraceOp::ConstBool(b) => stack.push(TraceValue::Bool(b)),
                TraceOp::GetLocal { slot, span } => {
                    if slot >= locals.len() {
                        return Err(vm_error("invalid local slot", span));
                    }
                    stack.push(TraceValue::Int(locals[slot]));
                },
                TraceOp::SetLocal { slot, span } => {
                    let v = match pop_trace_int(&mut stack) {
                        Ok(v) => v,
                        Err(m) => return Err(vm_error(m, span)),
                    };
                    if slot >= locals.len() {
                        return Err(vm_error("invalid local slot", span));
                    }
                    locals.set(slot, v);
                },
                TraceOp::IntBinary { kind, span } => {
                    let r = match pop_trace_int(&mut stack) {
                        Ok(v) => v,
                        Err(m) => return Err(vm_error(m, span)),
                    };
                    let l = match pop_trace_int(&mut stack) {
                        Ok(v) => v,
                        Err(m) => return Err(vm_error(m, span)),
                    };
                    let v = match int_binary(kind, l, r) {
                        Ok(v) => v,
                        Err(m) => return Err(vm_error(m, span)),
                    };
                    stack.push(TraceValue::Int(v));
                },
                TraceOp::IntCompare { kind, span } => {
                    let r = match pop_trace_int(&mut stack) {
                        Ok(v) => v,
                        Err(m) => return Err(vm_error(m, span)),
                    };
                    let l = match pop_trace_int(&mut stack) {
                        Ok(v) => v,
                        Err(m) => return Err(vm_error(m, span)),
                    };
                    let b = match kind {
                        IntCompareOp::Equal => l == r,
                        IntCompareOp::Greater => l > r,
                        IntCompareOp::Less => l < r,
                    };
                    stack.push(TraceValue::Bool(b));
                },
                TraceOp::Pop { span } => {
                    if stack.len() == 0 {
                        return Err(vm_error("stack underflow", span));
                    }
                    stack.pop();
                },
                TraceOp::JumpIfFalse { target_ip, span } => {
                    if stack.len() == 0 {
                        return Err(vm_error("stack underflow", span));
                    }
                    match stack[stack.len() - 1] {
                        TraceValue::Bool(false) => {
                            return Ok(TraceRunResult::ExitOnFalse { ip: target_ip });
                        },
                        TraceValue::Bool(true) => {},
                        TraceValue::Int(_) => {
                            return Err(vm_error("condition must be Bool, got Int", span));
                        },
                    }
                },
                TraceOp::Loop => {
                    return Ok(TraceRunResult::LoopHeader);
                },
            }
            i = i + 1;
        }
        Ok(TraceRunResult::ExitToInterpreter { ip: header })
    }
}

/// The diagnostic for a native trace that returned a code the tier does
/// not know.
pub fn unknown_native_return_code_error(code: i32, span: Span) -> (e: MuninnError)
    ensures
        e.phase@ == "vm"@,
        e.message@ == "unknown native trace return code "@ + signed_decimal(code as int),
        e.span == span,
{
    let mut msg = owned("unknown native trace return code ");
    let digits = i64_text(code as i64);
    push_str(&mut msg, digits.as_str());
    vm_error_owned(msg, span)
}

// ----- the tracing tier -----

/// Counts hot loops, compiles a trace once a loop reaches the threshold,
/// and remembers loops that cannot be traced so they are never retried.
#[derive(Debug, Clone)]
pub struct TraceEngine {
    threshold: usize,
    counters: Vec<(TraceKey, usize)>,
    traces: Vec<Trace>,
    rejected: Vec<TraceKey>,
    stats: TraceStats,
}

/// How often `key` was observed.
pub open spec fn count_of(counters: Seq<(TraceKey, usize)>, key: TraceKey) -> nat
    decreases counters.len(),
{
    if counters.len() == 0 {
        0
    } else if counters.last().0 == key {
        counters.last().1 as nat
    } else {
        count_of(counters.drop_last(), key)
    }
}

/// Whether a trace for `key` is installed.
pub open spec fn has_trace(traces: Seq<Trace>, key: TraceKey) -> bool {
    exists|i: int| 0 <= i < traces.len() && (#[trigger] traces[i]).key == key
}

/// `v` plus one, stopping at `usize::MAX`.
pub open spec fn bump(v: usize) -> usize {
    if v < usize::MAX { (v + 1) as usize } else { v }
}

/// Adds one observation of `key`, returning the new count.
fn bump_counter(counters: &mut Vec<(TraceKey, usize)>, key: TraceKey) -> (n: usize)
    ensures
        n == bump(count_of(old(counters)@, key) as usize),
        count_of(final(counters)@, key) == n,
        forall|k: TraceKey| k != key ==> count_of(final(counters)@, k) == count_of(old(counters)@, k),
{
    proof {
        lemma_count_bounded(counters@, key);
    }
    let ghost before = counters@;
    let mut i: usize = counters.len();
    proof {
        assert(before.take(before.len() as int) =~= before);
    }
    while i > 0
        invariant
            i <= counters@.len(),
            counters@ == before,
            before == old(counters)@,
            forall|j: int| i <= j < before.len() ==> (#[trigger] before[j]).0 != key,
            count_of(before, key) == count_of(before.take(i as int), key),
        decreases i,
    {
        proof {
            assert(before.take(i as int).drop_last() =~= before.take(i - 1));
            assert(before.take(i as int).last() == before[i - 1]);
        }
        if counters[i - 1].0 == key {
            let n = counters[i - 1].1;
            let next = if n < usize::MAX { n + 1 } else { n };
            counters.set(i - 1, (key, next));
            proof {
                lemma_count_update(before, i - 1, key, next);
            }
            return next;
        }
        i = i - 1;
    }
    proof {
        assert(before.take(0) =~= Seq::<(TraceKey, usize)>::empty());
    }
    counters.push((key, 1));
    proof {
        assert(counters@.drop_last() =~= before);
    }
    1
}

impl TraceEngine {
    /// The keys of the installed traces hold no repeats.
    pub closed spec fn wf(&self) -> bool {
        &&& self.threshold >= 1
        &&& forall|i: int, j: int| 0 <= i < j < self.traces@.len() ==> (#[trigger] self.traces@[i]).key != (#[trigger] self.traces@[j]).key
    }

    pub closed spec fn spec_threshold(&self) -> usize {
        self.threshold
    }

    pub closed spec fn spec_stats(&self) -> TraceStats {
        self.stats
    }

    pub closed spec fn count(&self, key: TraceKey) -> nat {
        count_of(self.counters@, key)
    }

    pub closed spec fn installed(&self, key: TraceKey) -> bool {
        has_trace(self.traces@, key)
    }

    pub closed spec fn refused(&self, key: TraceKey) -> bool {
        self.rejected@.contains(key)
    }

    /// The ops of the trace installed for `key`.
    pub closed spec fn trace_ops(&self, key: TraceKey) -> Seq<TraceOp> {
        let i = choose|i: int| 0 <= i < self.traces@.len() && (#[trigger] self.traces@[i]).key == key;
        self.traces@[i].ops@
    }

    pub fn new(threshold: usize) -> (e: TraceEngine)
        ensures
            e.wf(),
            e.spec_threshold() == (if threshold >= 1 { threshold } else { 1 }),
            e.spec_stats() == TraceStats::zero(),
            forall|k: TraceKey| e.count(k) == 0 && !e.installed(k) && !e.refused(k),
    {
        TraceEngine {
            threshold: if threshold >= 1 { threshold } else { 1 },
            counters: Vec::new(),
            traces: Vec::new(),
            rejected: Vec::new(),
            stats: TraceStats::default(),
        }
    }

    pub fn stats(&self) -> (s: TraceStats)
        ensures
            s == self.spec_stats(),
    {
        self.stats
    }

    /// Forgets every counter, trace and refusal; the stats stay.
    pub fn clear(&mut self)
        requires
            old(self).wf(),
        ensures
            final(self).wf(),
            final(self).spec_threshold() == old(self).spec_threshold(),
            final(self).spec_stats() == old(self).spec_stats(),
            forall|k: TraceKey| final(self).count(k) == 0 && !final(self).installed(k) && !final(self).refused(k),
    {
        self.counters = Vec::new();
        self.traces = Vec::new();
        self.rejected = Vec::new();
    }

    fn find_trace(&self, key: TraceKey) -> (r: Option<usize>)
        ensures
            match r {
                Some(i) => i < self.traces@.len() && self.traces@[i as int].key == key,
                None => !has_trace(self.traces@, key),
            },
    {
        let mut i: usize = 0;
        while i < self.traces.len()
            invariant
                i <= self.traces@.len(),
                forall|j: int| 0 <= j < i ==> (#[trigger] self.traces@[j]).key != key,
            decreases self.traces@.len() - i,
        {
            if self.traces[i].key == key {
                return Some(i);
            }
            i = i + 1;
        }
        None
    }

    fn is_refused(&self, key: TraceKey) -> (r: bool)
        ensures
            r == self.rejected@.contains(key),
    {
        let mut i: usize = 0;
        while i < self.rejected.len()
            invariant
                i <= self.rejected@.len(),
                forall|j: int| 0 <= j < i ==> self.rejected@[j] != key,
            decreases self.rejected@.len() - i,
        {
            if self.rejected[i] == key {
                proof {
                    assert(self.rejected@[i as int] == key);
                }
                return true;
            }
            i = i + 1;
        }
        false
    }

    /// Records one more run of `key`'s loop header: once the count reaches
    /// the threshold, compiles the loop, installing the trace or refusing
    /// the loop for good. Loops already installed or refused are left
    /// alone.
    pub fn observe_loop(&mut self, module: &BytecodeModule, key: TraceKey)
        requires
            old(self).wf(),
        ensures
            final(self).wf(),
            final(self).spec_threshold() == old(self).spec_threshold(),
            old(self).installed(key) || old(self).refused(key) ==> *final(self) == *old(self),
            !old(self).installed(key) && !old(self).refused(key) ==> {
                let n = bump(old(self).count(key) as usize);
                &&& final(self).count(key) == n
                &&& forall|k: TraceKey| k != key ==> final(self).count(k) == old(self).count(k)
                    && final(self).installed(k) == old(self).installed(k)
                    && final(self).refused(k) == old(self).refused(k)
                &&& final(self).spec_stats().hot_loops_seen == bump(old(self).spec_stats().hot_loops_seen)
                &&& n < old(self).spec_threshold() ==> !final(self).installed(key) && !final(self).refused(key)
                    && final(self).spec_stats().traces_compiled == old(self).spec_stats().traces_compiled
                    && final(self).spec_stats().traces_rejected == old(self).spec_stats().traces_rejected
                &&& n >= old(self).spec_threshold() ==> match trace_of(module@, key) {
                    Some((ops, _)) => final(self).installed(key) && !final(self).refused(key)
                        && final(self).trace_ops(key) == ops
                        && final(self).spec_stats().traces_compiled == bump(old(self).spec_stats().traces_compiled)
                        && final(self).spec_stats().traces_rejected == old(self).spec_stats().traces_rejected,
                    None => !final(self).installed(key) && final(self).refused(key)
                        && final(self).spec_stats().traces_compiled == old(self).spec_stats().traces_compiled
                        && final(self).spec_stats().traces_rejected == bump(old(self).spec_stats().traces_rejected),
                }
            },
    {
        if self.find_trace(key).is_some() || self.is_refused(key) {
            return;
        }
        let n = bump_counter(&mut self.counters, key);
        self.stats.hot_loops_seen = if self.stats.hot_loops_seen < usize::MAX {
            self.stats.hot_loops_seen + 1
        } else {
            self.stats.hot_loops_seen
        };
        if n < self.threshold {
            return;
        }
        match Trace::compile(module, key) {
            Ok(trace) => {
                self.stats.traces_compiled = if self.stats.traces_compiled < usize::MAX {
                    self.stats.traces_compiled + 1
                } else {
                    self.stats.traces_compiled
                };
                let ghost before = self.traces@;
                self.traces.push(trace);
                proof {
                    let t = self.traces@;
                    assert(t[t.len() - 1].key == key);
                    assert(has_trace(t, key));
                    assert forall|i: int, j: int| 0 <= i < j < t.len() implies (#[trigger] t[i]).key != (#[trigger] t[j]).key by {
                        if j == t.len() - 1 {
                            assert(t[i] == before[i]);
                        } else {
                            assert(t[i] == before[i] && t[j] == before[j]);
                        }
                    }
                    let i = choose|i: int| 0 <= i < t.len() && (#[trigger] t[i]).key == key;
                    assert(i == t.len() - 1);
                    assert forall|k: TraceKey| k != key implies has_trace(t, k) == has_trace(before, k) by {
                        if has_trace(t, k) {
                            let i = choose|i: int| 0 <= i < t.len() && (#[trigger] t[i]).key == k;
                            assert(t[i] == before[i]);
                        }
                        if has_trace(before, k) {
                            let i = choose|i: int| 0 <= i < before.len() && (#[trigger] before[i]).key == k;
                            assert(t[i] == before[i]);
                        }
                    }
                }
            },
            Err(_) => {
                self.stats.traces_rejected = if self.stats.traces_rejected < usize::MAX {
                    self.stats.traces_rejected + 1
                } else {
                    self.stats.traces_rejected
                };
                let ghost before = self.rejected@;
                self.rejected.push(key);
                proof {
                    assert(self.rejected@[self.rejected@.len() - 1] == key);
                    assert forall|k: TraceKey| k != key implies self.rejected@.contains(k) == before.contains(k) by {
                        if self.rejected@.contains(k) {
                            let i = choose|i: int| 0 <= i < self.rejected@.len() && self.rejected@[i] == k;
                            assert(self.rejected@[i] == before[i]);
                        }
                        if before.contains(k) {
                            let i = choose|i: int| 0 <= i < before.len() && before[i] == k;
                            assert(self.rejected@[i] == before[i]);
                        }
                    }
                }
            },
        }
    }

    /// The trace installed for `key`, if any.
    pub fn trace(&self, key: TraceKey) -> (r: Option<&Trace>)
        requires
            self.wf(),
        ensures
            r is Some <==> self.installed(key),
            r matches Some(t) ==> t.key == key && t.ops@ == self.trace_ops(key),
    {
        match self.find_trace(key) {
            Some(i) => {
                proof {
                    let j = choose|j: int| 0 <= j < self.traces@.len() && (#[trigger] self.traces@[j]).key == key;
                    assert(j == i);
                }
                Some(&self.traces[i])
            },
            None => None,
        }
    }

    /// Accounts for one interpreted run of `key`'s trace that ended with
    /// `result`, and says how the interpreter goes on. A trace that ends
    /// back at its own header without completing the loop cannot make
    /// progress: it is dropped and the loop refused.
    pub fn finish_run(&mut self, key: TraceKey, result: TraceRunResult) -> (r: Option<TraceOutcome>)
        requires
            old(self).wf(),
        ensures
            final(self).wf(),
            final(self).spec_threshold() == old(self).spec_threshold(),
            final(self).spec_stats() == (TraceStats {
                interpreted_trace_runs: bump(old(self).spec_stats().interpreted_trace_runs),
                ..old(self).spec_stats()
            }),
            forall|k: TraceKey| final(self).count(k) == old(self).count(k),
            match result {
                TraceRunResult::LoopHeader => r == Some(TraceOutcome::Continue),
                TraceRunResult::ExitOnFalse { ip } | TraceRunResult::ExitToInterpreter { ip } => if ip
                    == key.loop_header_ip {
                    r is None && !final(self).installed(key) && final(self).refused(key)
                } else {
                    r == Some(TraceOutcome::ExitToInterpreter { ip })
                },
            },
            forall|k: TraceKey| k != key ==> final(self).installed(k) == old(self).installed(k)
                && final(self).refused(k) == old(self).refused(k),
    {
        self.stats.interpreted_trace_runs = if self.stats.interpreted_trace_runs < usize::MAX {
            self.stats.interpreted_trace_runs + 1
        } else {
            self.stats.interpreted_trace_runs
        };
        let ip = match result {
            TraceRunResult::LoopHeader => {
                return Some(TraceOutcome::Continue);
            },
            TraceRunResult::ExitOnFalse { ip } => ip,
            TraceRunResult::ExitToInterpreter { ip } => ip,
        };
        if ip != key.loop_header_ip {
            return Some(TraceOutcome::ExitToInterpreter { ip });
        }
        let ghost before = self.traces@;
        match self.find_trace(key) {
            Some(i) => {
                self.traces.remove(i);
                proof {
                    let t = self.traces@;
                    assert(t =~= before.remove(i as int));
                    assert forall|a: int, b: int| 0 <= a < b < t.len() implies (#[trigger] t[a]).key != (#[trigger] t[b]).key by {
                        let a2 = if a < i { a } else { a + 1 };
                        let b2 = if b < i { b } else { b + 1 };
                        assert(t[a] == before[a2] && t[b] == before[b2]);
                    }
                    assert(!has_trace(t, key)) by {
                        if has_trace(t, key) {
                            let c = choose|c: int| 0 <= c < t.len() && (#[trigger] t[c]).key == key;
                            let c2 = if c < i { c } else { c + 1 };
                            assert(t[c] == before[c2]);
                            if c2 < i {
                                assert(before[c2].key != before[i as int].key);
                            } else {
                                assert(before[i as int].key != before[c2].key);
                            }
                        }
                    }
                    assert forall|k: TraceKey| k != key implies has_trace(t, k) == has_trace(before, k) by {
                        if has_trace(t, k) {
                            let c = choose|c: int| 0 <= c < t.len() && (#[trigger] t[c]).key == k;
                            let c2 = if c < i { c } else { c + 1 };
                            assert(t[c] == before[c2]);
                        }
                        if has_trace(before, k) {
                            let c = choose|c: int| 0 <= c < before.len() && (#[trigger] before[c]).key == k;
                            assert(c != i);
                            let c2 = if c < i { c } else { c - 1 };
                            assert(t[c2] == before[c]);
                        }
                    }
                }
            },
            None => {},
        }
        if !self.is_refused(key) {
            self.rejected.push(key);
            proof {
                let r = self.rejected@;
                assert(r[r.len() - 1] == key);
                assert forall|k: TraceKey| k != key implies r.contains(k) == old(self).rejected@.contains(k) by {
                    if r.contains(k) {
                        let c = choose|c: int| 0 <= c < r.len() && r[c] == k;
                        assert(r[c] == old(self).rejected@[c]);
                    }
                    if old(self).rejected@.contains(k) {
                        let c = choose|c: int| 0 <= c < old(self).rejected@.len() && old(self).rejected@[c] == k;
                        assert(r[c] == old(self).rejected@[c]);
                    }
                }
            }
        }
        None
    }
}

impl Trace {
    /// A copy of the trace.
    pub fn clone_trace(&self) -> (t: Trace)
        ensures
            t.key == self.key,
            t.ops@ == self.ops@,
            t.local_slots@ == self.local_slots@,
            t.loop_span == self.loop_span,
    {
        let mut ops: Vec<TraceOp> = Vec::new();
        let mut i: usize = 0;
        while i < self.ops.len()
            invariant
                i <= self.ops@.len(),
                ops@ == self.ops@.take(i as int),
            decreases self.ops@.len() - i,
        {
            ops.push(self.ops[i]);
            proof {
                assert(self.ops@.take(i + 1) =~= self.ops@.take(i as int).push(self.ops@[i as int]));
            }
            i = i + 1;
        }
        let mut slots: Vec<usize> = Vec::new();
        let mut j: usize = 0;
        while j < self.local_slots.len()
            invariant
                j <= self.local_slots@.len(),
                slots@ == self.local_slots@.take(j as int),
            decreases self.local_slots@.len() - j,
        {
            slots.push(self.local_slots[j]);
            proof {
                assert(self.local_slots@.take(j + 1) =~= self.local_slots@.take(j as int).push(self.local_slots@[j as int]));
            }
            j = j + 1;
        }
        proof {
            assert(ops@ =~= self.ops@.take(self.ops@.len() as int));
            assert(slots@ =~= self.local_slots@.take(self.local_slots@.len() as int));
        }
        Trace { key: self.key, ops, local_slots: slots, loop_span: self.loop_span }
    }
}

proof fn lemma_count_bounded(counters: Seq<(TraceKey, usize)>, key: TraceKey)
    ensures
        count_of(counters, key) <= usize::MAX,
    decreases counters.len(),
{
    if counters.len() > 0 {
        lemma_count_bounded(counters.drop_last(), key);
    }
}

proof fn lemma_count_update(counters: Seq<(TraceKey, usize)>, i: int, key: TraceKey, v: usize)
    requires
        0 <= i < counters.len(),
        counters[i].0 == key,
        forall|j: int| i < j < counters.len() ==> (#[trigger] counters[j]).0 != key,
    ensures
        count_of(counters.update(i, (key, v)), key) == v,
        count_of(counters, key) == counters[i].1,
        forall|k: TraceKey| k != key ==> count_of(counters.update(i, (key, v)), k) == count_of(counters, k),
    decreases counters.len(),
{
    let u = counters.update(i, (key, v));
    if i == counters.len() - 1 {
        assert(u.drop_last() =~= counters.drop_last());
    } else {
        assert(u.drop_last() =~= counters.drop_last().update(i, (key, v)));
        lemma_count_update(counters.drop_last(), i, key, v);
    }
    assert forall|k: TraceKey| k != key implies count_of(u, k) == count_of(counters, k) by {
        lemma_count_other(counters, i, key, v, k);
    }
}

proof fn lemma_count_other(counters: Seq<(TraceKey, usize)>, i: int, key: TraceKey, v: usize, k: TraceKey)
    requires
        0 <= i < counters.len(),
        counters[i].0 == key,
        k != key,
    ensures
        count_of(counters.update(i, (key, v)), k) == count_of(counters, k),
    decreases counters.len(),
{
    let u = counters.update(i, (key, v));
    if i == counters.len() - 1 {
        assert(u.drop_last() =~= counters.drop_last());
    } else {
        assert(u.drop_last() =~= counters.drop_last().update(i, (key, v)));
        lemma_count_other(counters.drop_last(), i, key, v, k);
    }
}

} // verus!
