use vstd::prelude::*;

use crate::bytecode::{BytecodeModule, ConstantModel, Constant, ModuleModel, OpCode, decode_op, GlobalValueKind};
use crate::error::MuninnError;
use crate::natives::{NativeFunctionKind, kind_name, native_name, registered_natives, registration_order};
use crate::policy::{HostPolicy, allows_native};
use crate::runtime::{vm_error, vm_error_owned};
use crate::span::Span;
use crate::text::{decimal, signed_decimal, owned, push_str, i64_text, usize_text};
use crate::validate::{module_valid, validate_module};
use crate::vm::{ValueKind, charge_step, check_reload_compatibility, declared_kind, first_validation_error, live_views, reload_problem};

verus! {

// ----- values and machine state -----

/// A runtime value. Floats are kept by their bit pattern and tensors by a
/// handle that the host resolves; the interpreter never computes with
/// either, it hands such instructions to the host.
#[derive(Debug)]
pub enum Value {
    Int(i64),
    Float(u64),
    Bool(bool),
    Str(String),
    Tensor(u64),
    Function(usize),
    Native(NativeFunctionKind),
    Nil,
}

/// A runtime value with its text taken by characters.
pub enum ValueModel {
    Int(i64),
    Float(u64),
    Bool(bool),
    Str(Seq<char>),
    Tensor(u64),
    Function(usize),
    Native(NativeFunctionKind),
    Nil,
}

impl View for Value {
    type V = ValueModel;

    open spec fn view(&self) -> ValueModel {
        match self {
            Value::Int(v) => ValueModel::Int(*v),
            Value::Float(b) => ValueModel::Float(*b),
            Value::Bool(b) => ValueModel::Bool(*b),
            Value::Str(s) => ValueModel::Str(s@),
            Value::Tensor(h) => ValueModel::Tensor(*h),
            Value::Function(f) => ValueModel::Function(*f),
            Value::Native(k) => ValueModel::Native(*k),
            Value::Nil => ValueModel::Nil,
        }
    }
}

/// One activation: which function runs, where, and where its locals start.
#[derive(Debug, Clone, Copy, PartialEq, Eq, Structural)]
pub struct CallFrame {
    pub function_id: usize,
    pub ip: usize,
    pub stack_base: usize,
}

/// The interpreter's whole state between two instructions.
#[derive(Debug)]
pub struct VmState {
    pub stack: Vec<Value>,
    pub frames: Vec<CallFrame>,
    pub globals: Vec<(String, Value)>,
    pub steps_used: u64,
    pub preserve_existing_globals: bool,
}

/// The state taken by value.
pub struct VmModel {
    pub stack: Seq<ValueModel>,
    pub frames: Seq<CallFrame>,
    pub globals: Seq<(Seq<char>, ValueModel)>,
    pub steps_used: u64,
    pub preserve: bool,
}

pub open spec fn value_views(vs: Seq<Value>) -> Seq<ValueModel> {
    vs.map_values(|v: Value| v@)
}

pub open spec fn binding_views(gs: Seq<(String, Value)>) -> Seq<(Seq<char>, ValueModel)> {
    gs.map_values(|g: (String, Value)| (g.0@, g.1@))
}

impl View for VmState {
    type V = VmModel;

    open spec fn view(&self) -> VmModel {
        VmModel {
            stack: value_views(self.stack@),
            frames: self.frames@,
            globals: binding_views(self.globals@),
            steps_used: self.steps_used,
            preserve: self.preserve_existing_globals,
        }
    }
}

/// What the host does after a step.
#[derive(Debug)]
pub enum VmAction {
    /// Nothing: run the next step.
    Continue,
    /// The program finished with this value.
    Halt(Value),
    /// An instruction whose operands include a float or a tensor. Its
    /// operands are already off the stack; the host computes the result
    /// and pushes it, or faults. A conditional jump or a call on such a
    /// value always faults.
    Host { op: OpCode, left: Value, right: Option<Value> },
    /// A call of a native the policy allows. Callee and arguments are off
    /// the stack; the host runs the native and pushes its result.
    Native { kind: NativeFunctionKind, args: Vec<Value> },
}

pub enum ActionModel {
    Continue,
    Halt(ValueModel),
    Host(OpCode, ValueModel, Option<ValueModel>),
    Native(NativeFunctionKind, Seq<ValueModel>),
}

impl View for VmAction {
    type V = ActionModel;

    open spec fn view(&self) -> ActionModel {
        match self {
            VmAction::Continue => ActionModel::Continue,
            VmAction::Halt(v) => ActionModel::Halt(v@),
            VmAction::Host { op, left, right } => ActionModel::Host(
                *op,
                left@,
                match right {
                    Some(r) => Some(r@),
                    None => None,
                },
            ),
            VmAction::Native { kind, args } => ActionModel::Native(*kind, value_views(args@)),
        }
    }
}

/// The result of one step: a fault with its message, or the next state
/// and what the host must do.
pub enum Outcome {
    Fault(Seq<char>),
    Next(VmModel, ActionModel),
}

// ----- the semantics of one step -----

/// A float or a tensor: only the host computes with these.
pub open spec fn needs_host(v: ValueModel) -> bool {
    v is Float || v is Tensor
}

/// How a value is written in diagnostics (never asked of host values).
pub open spec fn value_text(v: ValueModel) -> Seq<char> {
    match v {
        ValueModel::Int(i) => signed_decimal(i as int),
        ValueModel::Bool(b) => if b { "true"@ } else { "false"@ },
        ValueModel::Str(s) => s,
        ValueModel::Function(_) => "<fn>"@,
        ValueModel::Native(_) => "<native fn>"@,
        ValueModel::Nil => "nil"@,
        _ => Seq::empty(),
    }
}

pub open spec fn constant_value(c: ConstantModel) -> ValueModel {
    match c {
        ConstantModel::Int(v) => ValueModel::Int(v),
        ConstantModel::Float(b) => ValueModel::Float(b),
        ConstantModel::Bool(b) => ValueModel::Bool(b),
        ConstantModel::Str(s) => ValueModel::Str(s),
        ConstantModel::Function(f) => ValueModel::Function(f),
        ConstantModel::Nil => ValueModel::Nil,
    }
}

/// The little-endian 16-bit operand at `at`, if the code holds it.
pub open spec fn read_short(code: Seq<u8>, at: int) -> Option<int> {
    if 0 <= at && at + 1 < code.len() {
        Some(code[at] + 256 * code[at + 1])
    } else {
        None
    }
}

/// The latest binding of `name` among the globals.
pub open spec fn global_slot(gs: Seq<(Seq<char>, ValueModel)>, name: Seq<char>) -> Option<int>
    decreases gs.len(),
{
    if gs.len() == 0 {
        None
    } else if gs.last().0 == name {
        Some(gs.len() - 1)
    } else {
        global_slot(gs.drop_last(), name)
    }
}

/// Binds `name` to `v`: the existing binding is overwritten, else one is added.
pub open spec fn bind_global(gs: Seq<(Seq<char>, ValueModel)>, name: Seq<char>, v: ValueModel) -> Seq<
    (Seq<char>, ValueModel),
> {
    match global_slot(gs, name) {
        Some(i) => gs.update(i, (name, v)),
        None => gs.push((name, v)),
    }
}

/// The state with the running frame's instruction pointer at `ip`.
pub open spec fn at_ip(s: VmModel, ip: int) -> VmModel {
    let fr = s.frames.last();
    VmModel {
        frames: s.frames.update(
            s.frames.len() - 1,
            CallFrame { function_id: fr.function_id, ip: ip as usize, stack_base: fr.stack_base },
        ),
        ..s
    }
}

pub open spec fn with_stack(s: VmModel, st: Seq<ValueModel>) -> VmModel {
    VmModel { stack: st, ..s }
}

pub open spec fn go(s: VmModel) -> Outcome {
    Outcome::Next(s, ActionModel::Continue)
}

pub open spec fn push_go(s: VmModel, v: ValueModel) -> Outcome {
    go(with_stack(s, s.stack.push(v)))
}

pub open spec fn underflow() -> Outcome {
    Outcome::Fault("stack underflow"@)
}

pub open spec fn ip_fault() -> Outcome {
    Outcome::Fault("instruction pointer out of range"@)
}

/// Whether two values are equal under `==` (floats excluded).
pub open spec fn values_equal(l: ValueModel, r: ValueModel) -> bool {
    match (l, r) {
        (ValueModel::Int(a), ValueModel::Int(b)) => a == b,
        (ValueModel::Bool(a), ValueModel::Bool(b)) => a == b,
        (ValueModel::Str(a), ValueModel::Str(b)) => a == b,
        (ValueModel::Nil, ValueModel::Nil) => true,
        _ => false,
    }
}

pub open spec fn in_i64(v: int) -> bool {
    i64::MIN <= v <= i64::MAX
}

/// `+ - * /`, `<`, `>` on two popped operands, with `s` already past them.
pub open spec fn binary_outcome(s: VmModel, op: OpCode, l: ValueModel, r: ValueModel) -> Outcome {
    if needs_host(l) || needs_host(r) {
        Outcome::Next(s, ActionModel::Host(op, l, Some(r)))
    } else {
        let mismatch = "numeric operation expects matching numeric or Tensor/Float types, got "@
            + value_text(l) + " and "@ + value_text(r);
        match (l, r) {
            (ValueModel::Int(a), ValueModel::Int(b)) => match op {
                OpCode::Add => if in_i64(a + b) {
                    push_go(s, ValueModel::Int((a + b) as i64))
                } else {
                    Outcome::Fault("integer overflow in addition"@)
                },
                OpCode::Subtract => if in_i64(a - b) {
                    push_go(s, ValueModel::Int((a - b) as i64))
                } else {
                    Outcome::Fault("integer overflow in subtraction"@)
                },
                OpCode::Multiply => if in_i64(a * b) {
                    push_go(s, ValueModel::Int((a * b) as i64))
                } else {
                    Outcome::Fault("integer overflow in multiplication"@)
                },
                OpCode::Divide => if b == 0 {
                    Outcome::Fault("division by zero"@)
                } else if a == i64::MIN && b == -1 {
                    Outcome::Fault("integer overflow in division"@)
                } else {
                    push_go(s, ValueModel::Int(truncated_quotient(a as int, b as int) as i64))
                },
                OpCode::Greater => push_go(s, ValueModel::Bool(a > b)),
                _ => push_go(s, ValueModel::Bool(a < b)),
            },
            (ValueModel::Str(a), ValueModel::Str(b)) => if op is Add {
                push_go(s, ValueModel::Str(a + b))
            } else if op is Greater || op is Less {
                Outcome::Fault(ordering_mismatch(l, r))
            } else {
                Outcome::Fault(mismatch)
            },
            _ => if op is Add {
                Outcome::Fault(
                    "'+' expects matching Int, Float, String, or Tensor operands, got "@ + value_text(l)
                        + " and "@ + value_text(r),
                )
            } else if op is Greater || op is Less {
                Outcome::Fault(ordering_mismatch(l, r))
            } else {
                Outcome::Fault(mismatch)
            },
        }
    }
}

pub open spec fn ordering_mismatch(l: ValueModel, r: ValueModel) -> Seq<char> {
    "ordering comparison expects matching numeric types, got "@ + value_text(l) + " and "@ + value_text(r)
}

pub open spec fn magnitude(a: int) -> int {
    if a < 0 { -a } else { a }
}

/// Division that rounds toward zero, as Rust's `/` on integers does.
pub open spec fn truncated_quotient(a: int, b: int) -> int {
    if (a < 0) == (b < 0) {
        magnitude(a) / magnitude(b)
    } else {
        -(magnitude(a) / magnitude(b))
    }
}


/// The string constant named by the 16-bit operand at `at`.
pub open spec fn name_operand(m: ModuleModel, fid: int, at: int) -> Result<Seq<char>, Seq<char>> {
    let chunk = m.functions[fid].chunk;
    match read_short(chunk.code, at) {
        None => Err("instruction pointer out of range"@),
        Some(k) => if k >= chunk.constants.len() {
            Err("invalid constant index "@ + decimal(k as nat))
        } else {
            match chunk.constants[k] {
                ConstantModel::Str(name) => Ok(name),
                _ => Err("expected string constant"@),
            }
        },
    }
}

/// A call with `argc` arguments, the running frame already past the operand.
pub open spec fn call_outcome(m: ModuleModel, s: VmModel, p: HostPolicy, argc: int) -> Outcome {
    let st = s.stack;
    let n = st.len() as int;
    if n < argc + 1 {
        underflow()
    } else {
        let ci = n - argc - 1;
        match st[ci] {
            ValueModel::Function(fid) => {
                let rest = st.remove(ci);
                if fid >= m.functions.len() {
                    Outcome::Fault("invalid function id "@ + decimal(fid as nat))
                } else {
                    let g = m.functions[fid as int];
                    if g.arity != argc {
                        Outcome::Fault(
                            "function '"@ + g.name + "' expects "@ + decimal(g.arity as nat) + " arguments, got "@
                                + decimal(argc as nat),
                        )
                    } else {
                        let extra: nat = if g.local_count > argc { (g.local_count - argc) as nat } else { 0 };
                        go(
                            VmModel {
                                stack: rest + Seq::new(extra, |k: int| ValueModel::Nil),
                                frames: s.frames.push(
                                    CallFrame { function_id: fid, ip: 0, stack_base: (n - 1 - argc) as usize },
                                ),
                                ..s
                            },
                        )
                    }
                }
            },
            ValueModel::Native(kind) => if !allows_native(p, kind) {
                Outcome::Fault("native '"@ + kind_name(kind) + "' is disabled by host policy"@)
            } else {
                Outcome::Next(with_stack(s, st.subrange(0, ci)), ActionModel::Native(kind, st.subrange(ci + 1, n)))
            },
            v => if needs_host(v) {
                Outcome::Next(with_stack(s, st.subrange(0, ci)), ActionModel::Host(OpCode::Call, v, None))
            } else {
                Outcome::Fault(value_text(v) + " is not callable"@)
            },
        }
    }
}

/// Leaving the running function.
pub open spec fn return_outcome(m: ModuleModel, s: VmModel) -> Outcome {
    let st = s.stack;
    let v = if st.len() > 0 { st.last() } else { ValueModel::Nil };
    let st1 = if st.len() > 0 { st.drop_last() } else { st };
    let fr = s.frames.last();
    let f = m.functions[fr.function_id as int];
    if f.expects_return_value && v is Nil {
        Outcome::Fault("function '"@ + f.name + "' fell through without returning a value"@)
    } else {
        let frames = s.frames.drop_last();
        let st2 = if fr.stack_base <= st1.len() { st1.subrange(0, fr.stack_base as int) } else { st1 };
        if frames.len() == 0 {
            Outcome::Next(VmModel { stack: st2, frames, preserve: false, ..s }, ActionModel::Halt(v))
        } else {
            go(VmModel { stack: st2.push(v), frames, ..s })
        }
    }
}

/// The jump target `to`, if it fits an instruction pointer.
pub open spec fn jump_to(s: VmModel, to: int) -> Outcome {
    if to <= usize::MAX {
        go(at_ip(s, to))
    } else {
        ip_fault()
    }
}

/// One decoded instruction `op`, whose operands start at `at`, run on `s`
/// (whose fuel is already charged).
pub open spec fn op_outcome(m: ModuleModel, s: VmModel, p: HostPolicy, op: OpCode, at: int) -> Outcome {
    let fr = s.frames.last();
    let fid = fr.function_id as int;
    let f = m.functions[fid];
    let code = f.chunk.code;
    let st = s.stack;
    let n = st.len() as int;
    match op {
        OpCode::Constant => match read_short(code, at) {
            None => ip_fault(),
            Some(k) => if k >= f.chunk.constants.len() {
                Outcome::Fault("invalid constant index "@ + decimal(k as nat))
            } else {
                push_go(at_ip(s, at + 2), constant_value(f.chunk.constants[k]))
            },
        },
        OpCode::Nil => push_go(at_ip(s, at), ValueModel::Nil),
        OpCode::True => push_go(at_ip(s, at), ValueModel::Bool(true)),
        OpCode::False => push_go(at_ip(s, at), ValueModel::Bool(false)),
        OpCode::Pop => go(with_stack(at_ip(s, at), if n > 0 { st.drop_last() } else { st })),
        OpCode::GetLocal => match read_short(code, at) {
            None => ip_fault(),
            Some(slot) => if slot >= f.local_count {
                Outcome::Fault("invalid local slot "@ + decimal(slot as nat))
            } else if fr.stack_base + slot >= n {
                underflow()
            } else {
                push_go(at_ip(s, at + 2), st[fr.stack_base + slot])
            },
        },
        OpCode::SetLocal => match read_short(code, at) {
            None => ip_fault(),
            Some(slot) => if n == 0 {
                underflow()
            } else if slot >= f.local_count {
                Outcome::Fault("invalid local slot "@ + decimal(slot as nat))
            } else if fr.stack_base + slot >= n - 1 {
                underflow()
            } else {
                go(with_stack(at_ip(s, at + 2), st.drop_last().update(fr.stack_base + slot, st.last())))
            },
        },
        OpCode::DefineGlobal => match name_operand(m, fid, at) {
            Err(e) => Outcome::Fault(e),
            Ok(name) => if n == 0 {
                underflow()
            } else {
                let s2 = with_stack(at_ip(s, at + 2), st.drop_last());
                if s.preserve && global_slot(s.globals, name) is Some && declared_kind(m.globals, name) != Some(
                    GlobalValueKind::Function,
                ) {
                    go(s2)
                } else {
                    go(VmModel { globals: bind_global(s.globals, name, st.last()), ..s2 })
                }
            },
        },
        OpCode::GetGlobal => match name_operand(m, fid, at) {
            Err(e) => Outcome::Fault(e),
            Ok(name) => match global_slot(s.globals, name) {
                None => Outcome::Fault("unknown global '"@ + name + "'"@),
                Some(i) => push_go(at_ip(s, at + 2), s.globals[i].1),
            },
        },
        OpCode::SetGlobal => match name_operand(m, fid, at) {
            Err(e) => Outcome::Fault(e),
            Ok(name) => if n == 0 {
                underflow()
            } else if global_slot(s.globals, name) is None {
                Outcome::Fault("unknown global '"@ + name + "'"@)
            } else if p.readonly_globals {
                Outcome::Fault("global '"@ + name + "' is readonly under this host policy"@)
            } else {
                go(
                    VmModel {
                        globals: bind_global(s.globals, name, st.last()),
                        ..with_stack(at_ip(s, at + 2), st.drop_last())
                    },
                )
            },
        },
        OpCode::Negate => if n == 0 {
            underflow()
        } else {
            let v = st.last();
            let s2 = with_stack(at_ip(s, at), st.drop_last());
            if needs_host(v) {
                Outcome::Next(s2, ActionModel::Host(op, v, None))
            } else {
                match v {
                    ValueModel::Int(i) => if i == i64::MIN {
                        Outcome::Fault("integer overflow in negation"@)
                    } else {
                        push_go(s2, ValueModel::Int((-i) as i64))
                    },
                    _ => Outcome::Fault("cannot negate "@ + value_text(v)),
                }
            }
        },
        OpCode::Not => if n == 0 {
            underflow()
        } else {
            let v = st.last();
            let s2 = with_stack(at_ip(s, at), st.drop_last());
            if needs_host(v) {
                Outcome::Next(s2, ActionModel::Host(op, v, None))
            } else {
                match v {
                    ValueModel::Bool(b) => push_go(s2, ValueModel::Bool(!b)),
                    _ => Outcome::Fault("cannot apply '!' to "@ + value_text(v)),
                }
            }
        },
        OpCode::Equal => if n < 2 {
            underflow()
        } else {
            let s2 = with_stack(at_ip(s, at), st.subrange(0, n - 2));
            if st[n - 2] is Float && st[n - 1] is Float {
                Outcome::Next(s2, ActionModel::Host(op, st[n - 2], Some(st[n - 1])))
            } else {
                push_go(s2, ValueModel::Bool(values_equal(st[n - 2], st[n - 1])))
            }
        },
        OpCode::JumpIfFalse => match read_short(code, at) {
            None => ip_fault(),
            Some(j) => if n == 0 {
                underflow()
            } else {
                let c = st.last();
                if needs_host(c) {
                    Outcome::Next(with_stack(at_ip(s, at + 2), st.drop_last()), ActionModel::Host(op, c, None))
                } else {
                    match c {
                        ValueModel::Bool(b) => if b { go(at_ip(s, at + 2)) } else { jump_to(s, at + 2 + j) },
                        _ => Outcome::Fault("condition must be Bool, got "@ + value_text(c)),
                    }
                }
            },
        },
        OpCode::Jump => match read_short(code, at) {
            None => ip_fault(),
            Some(j) => jump_to(s, at + 2 + j),
        },
        OpCode::Loop => match read_short(code, at) {
            None => ip_fault(),
            Some(j) => go(at_ip(s, if at + 2 >= j { at + 2 - j } else { 0 })),
        },
        OpCode::Call => if at >= code.len() {
            ip_fault()
        } else {
            call_outcome(m, at_ip(s, at + 1), p, code[at] as int)
        },
        OpCode::Return => return_outcome(m, s),
        _ => if n < 2 {
            underflow()
        } else {
            binary_outcome(with_stack(at_ip(s, at), st.subrange(0, n - 2)), op, st[n - 2], st[n - 1])
        },
    }
}

/// What one step of the interpreter does to `s` under module `m` and policy `p`.
pub open spec fn step_outcome(m: ModuleModel, s: VmModel, p: HostPolicy) -> Outcome {
    if s.frames.len() == 0 {
        let n = s.stack.len();
        Outcome::Next(
            VmModel { stack: if n > 0 { s.stack.drop_last() } else { s.stack }, preserve: false, ..s },
            ActionModel::Halt(if n > 0 { s.stack.last() } else { ValueModel::Nil }),
        )
    } else {
        let fr = s.frames.last();
        let code = m.functions[fr.function_id as int].chunk.code;
        let steps = s.steps_used + 1;
        if p.max_steps matches Some(max) && steps > max {
            Outcome::Fault(
                "fuel exhausted after "@ + decimal(steps as nat) + " instructions (max_steps "@ + decimal(
                    p.max_steps->0 as nat,
                ) + ")"@,
            )
        } else if fr.ip >= code.len() {
            ip_fault()
        } else {
            match decode_op(code[fr.ip as int]) {
                None => Outcome::Fault("invalid opcode "@ + decimal(code[fr.ip as int] as nat)),
                Some(op) => op_outcome(m, VmModel { steps_used: steps as u64, ..s }, p, op, fr.ip + 1),
            }
        }
    }
}

/// The source position a step reports faults at: that of the instruction.
pub open spec fn step_span(m: ModuleModel, s: VmModel) -> Span {
    let fr = s.frames.last();
    let spans = m.functions[fr.function_id as int].chunk.spans;
    if s.frames.len() > 0 && fr.ip < spans.len() {
        spans[fr.ip as int]
    } else {
        Span::synthetic()
    }
}

/// A state the interpreter can step: every frame runs a function of the
/// module, and the fuel counter can still count.
pub open spec fn vm_ready(m: ModuleModel, s: VmModel) -> bool {
    &&& forall|i: int| 0 <= i < s.frames.len() ==> (#[trigger] s.frames[i]).function_id < m.functions.len()
    &&& s.steps_used < u64::MAX
}

/// Whether `r` is what the semantics gives: the same next state and
/// action, or a vm fault with the same message at `span`.
pub open spec fn answers(r: Result<(VmState, VmAction), MuninnError>, o: Outcome, span: Span) -> bool {
    match r {
        Ok((s, a)) => o == Outcome::Next(s@, a@),
        Err(e) => o == Outcome::Fault(e.message@) && e.span == span && e.phase@ == "vm"@,
    }
}

// ----- view lemmas -----

proof fn lemma_views_push(vs: Seq<Value>, v: Value)
    ensures
        value_views(vs.push(v)) == value_views(vs).push(v@),
{
    assert(value_views(vs.push(v)) =~= value_views(vs).push(v@));
}

proof fn lemma_views_subrange(vs: Seq<Value>, i: int, j: int)
    requires
        0 <= i <= j <= vs.len(),
    ensures
        value_views(vs.subrange(i, j)) == value_views(vs).subrange(i, j),
{
    assert(value_views(vs.subrange(i, j)) =~= value_views(vs).subrange(i, j));
}

proof fn lemma_views_update(vs: Seq<Value>, i: int, v: Value)
    requires
        0 <= i < vs.len(),
    ensures
        value_views(vs.update(i, v)) == value_views(vs).update(i, v@),
{
    assert(value_views(vs.update(i, v)) =~= value_views(vs).update(i, v@));
}

proof fn lemma_views_remove(vs: Seq<Value>, i: int)
    requires
        0 <= i < vs.len(),
    ensures
        value_views(vs.remove(i)) == value_views(vs).remove(i),
{
    assert(value_views(vs.remove(i)) =~= value_views(vs).remove(i));
}

proof fn lemma_bindings_push(gs: Seq<(String, Value)>, g: (String, Value))
    ensures
        binding_views(gs.push(g)) == binding_views(gs).push((g.0@, g.1@)),
{
    assert(binding_views(gs.push(g)) =~= binding_views(gs).push((g.0@, g.1@)));
}

proof fn lemma_bindings_update(gs: Seq<(String, Value)>, i: int, g: (String, Value))
    requires
        0 <= i < gs.len(),
    ensures
        binding_views(gs.update(i, g)) == binding_views(gs).update(i, (g.0@, g.1@)),
{
    assert(binding_views(gs.update(i, g)) =~= binding_views(gs).update(i, (g.0@, g.1@)));
}

/// A binding found by name is in range and carries that name.
pub proof fn lemma_global_slot(gs: Seq<(Seq<char>, ValueModel)>, name: Seq<char>)
    ensures
        global_slot(gs, name) matches Some(i) ==> 0 <= i < gs.len() && gs[i].0 == name,
    decreases gs.len(),
{
    if gs.len() > 0 && gs.last().0 != name {
        lemma_global_slot(gs.drop_last(), name);
    }
}

// ----- small executable pieces -----

fn copy_value(v: &Value) -> (r: Value)
    ensures
        r@ == v@,
{
    match v {
        Value::Int(i) => Value::Int(*i),
        Value::Float(b) => Value::Float(*b),
        Value::Bool(b) => Value::Bool(*b),
        Value::Str(s) => Value::Str(s.clone()),
        Value::Tensor(h) => Value::Tensor(*h),
        Value::Function(f) => Value::Function(*f),
        Value::Native(k) => Value::Native(*k),
        Value::Nil => Value::Nil,
    }
}

fn is_host_value(v: &Value) -> (b: bool)
    ensures
        b == needs_host(v@),
{
    match v {
        Value::Float(_) | Value::Tensor(_) => true,
        _ => false,
    }
}

/// How a value is written in diagnostics.
pub fn show_value(v: &Value) -> (s: String)
    requires
        !needs_host(v@),
    ensures
        s@ == value_text(v@),
{
    match v {
        Value::Int(i) => i64_text(*i),
        Value::Bool(b) => if *b { owned("true") } else { owned("false") },
        Value::Str(t) => t.clone(),
        Value::Function(_) => owned("<fn>"),
        Value::Native(_) => owned("<native fn>"),
        _ => owned("nil"),
    }
}

fn constant_to_value(c: &Constant) -> (v: Value)
    ensures
        v@ == constant_value(c@),
{
    match c {
        Constant::Int(i) => Value::Int(*i),
        Constant::Float(b) => Value::Float(*b),
        Constant::Bool(b) => Value::Bool(*b),
        Constant::String(t) => Value::Str(t.clone()),
        Constant::Function(f) => Value::Function(*f),
        Constant::Nil => Value::Nil,
    }
}

fn read_short_at(code: &Vec<u8>, at: usize) -> (r: Option<usize>)
    ensures
        match read_short(code@, at as int) {
            Some(k) => r == Some(k as usize) && k < 65536,
            None => r is None,
        },
        r is Some <==> at + 1 < code@.len(),
{
    if at < code.len() && code.len() - at >= 2 {
        let low = code[at] as usize;
        let high = code[at + 1] as usize;
        Some(low + 256 * high)
    } else {
        None
    }
}

/// The declared kind of the first global named `name`.
fn module_kind(module: &BytecodeModule, name: &str) -> (r: Option<GlobalValueKind>)
    ensures
        r == declared_kind(module@.globals, name@),
{
    let mut i: usize = 0;
    proof {
        assert(module@.globals.subrange(0, module@.globals.len() as int) =~= module@.globals);
    }
    while i < module.globals.len()
        invariant
            i <= module@.globals.len(),
            module@.globals.len() == module.globals@.len(),
            declared_kind(module@.globals, name@) == declared_kind(
                module@.globals.subrange(i as int, module@.globals.len() as int),
                name@,
            ),
        decreases module.globals@.len() - i,
    {
        proof {
            let gs = module@.globals;
            assert(gs.subrange(i + 1, gs.len() as int) =~= gs.subrange(i as int, gs.len() as int).drop_first());
        }
        if same_name(&module.globals[i].name, name) {
            return Some(module.globals[i].kind);
        }
        i = i + 1;
    }
    None
}

fn same_name(a: &String, b: &str) -> (r: bool)
    ensures
        r == (a@ == b@),
{
    crate::text::same_text(a.as_str(), b)
}

/// The latest binding of `name`, searched from the end.
fn find_global(globals: &Vec<(String, Value)>, name: &str) -> (r: Option<usize>)
    ensures
        r matches Some(j) ==> global_slot(binding_views(globals@), name@) == Some(j as int) && j < globals@.len(),
        r is None ==> global_slot(binding_views(globals@), name@) is None,
{
    let ghost gs = binding_views(globals@);
    let mut i: usize = globals.len();
    proof {
        assert(gs.take(i as int) =~= gs);
    }
    while i > 0
        invariant
            i <= globals@.len(),
            gs == binding_views(globals@),
            global_slot(gs, name@) == global_slot(gs.take(i as int), name@),
        decreases i,
    {
        assert(gs.take(i as int).drop_last() =~= gs.take(i - 1));
        if same_name(&globals[i - 1].0, name) {
            return Some(i - 1);
        }
        i = i - 1;
    }
    None
}

/// Binds `name` to `v` in place.
fn set_global(globals: &mut Vec<(String, Value)>, name: String, v: Value)
    ensures
        binding_views(final(globals)@) == bind_global(binding_views(old(globals)@), name@, v@),
{
    proof {
        lemma_global_slot(binding_views(old(globals)@), name@);
    }
    match find_global(globals, name.as_str()) {
        Some(i) => {
            proof {
                lemma_bindings_update(globals@, i as int, (name, v));
            }
            let ghost old_views = binding_views(globals@);
            let ghost nv = name@;
            let ghost vv = v@;
            globals.set(i, (name, v));
            assert(global_slot(old_views, nv) == Some(i as int));
            assert(binding_views(globals@) == old_views.update(i as int, (nv, vv)));
        },
        None => {
            proof {
                lemma_bindings_push(globals@, (name, v));
            }
            globals.push((name, v));
        },
    }
}

// ----- the step -----

/// Whether `r`, with the state left behind in `s`, is what `o` says.
pub open spec fn answers_in(r: Result<VmAction, MuninnError>, s: VmModel, o: Outcome, span: Span) -> bool {
    match r {
        Ok(a) => o == Outcome::Next(s, a@),
        Err(e) => o == Outcome::Fault(e.message@) && e.span == span && e.phase@ == "vm"@,
    }
}

fn set_ip(vm: &mut VmState, ip: usize)
    requires
        old(vm).frames@.len() > 0,
    ensures
        final(vm)@ == at_ip(old(vm)@, ip as int),
{
    let last = vm.frames.len() - 1;
    let fr = vm.frames[last];
    vm.frames.set(last, CallFrame { function_id: fr.function_id, ip, stack_base: fr.stack_base });
    proof {
        assert(final(vm)@.frames =~= at_ip(old(vm)@, ip as int).frames);
    }
}

fn push_value(vm: &mut VmState, v: Value)
    ensures
        final(vm)@ == with_stack(old(vm)@, old(vm)@.stack.push(v@)),
{
    proof {
        lemma_views_push(vm.stack@, v);
    }
    vm.stack.push(v);
}

/// Pops the top value; the stack must not be empty.
fn pop_value(vm: &mut VmState) -> (v: Value)
    requires
        old(vm).stack@.len() > 0,
    ensures
        v@ == old(vm)@.stack.last(),
        final(vm)@ == with_stack(old(vm)@, old(vm)@.stack.drop_last()),
{
    proof {
        lemma_views_subrange(vm.stack@, 0, vm.stack@.len() - 1);
    }
    match vm.stack.pop() {
        Some(v) => v,
        None => Value::Nil,
    }
}

fn fault(message: &str, span: Span) -> (r: Result<VmAction, MuninnError>)
    ensures
        r matches Err(e) && e.message@ == message@ && e.span == span && e.phase@ == "vm"@,
{
    Err(vm_error(message, span))
}

fn fault_owned(message: String, span: Span) -> (r: Result<VmAction, MuninnError>)
    ensures
        r matches Err(e) && e.message@ == message@ && e.span == span && e.phase@ == "vm"@,
{
    Err(vm_error_owned(message, span))
}

/// Two texts with `" and "` between them, after `prefix`.
fn pair_message(prefix: &str, l: &Value, r: &Value) -> (m: String)
    requires
        !needs_host(l@),
        !needs_host(r@),
    ensures
        m@ == prefix@ + value_text(l@) + " and "@ + value_text(r@),
{
    let mut m = owned(prefix);
    let a = show_value(l);
    push_str(&mut m, a.as_str());
    push_str(&mut m, " and ");
    let b = show_value(r);
    push_str(&mut m, b.as_str());
    m
}

fn magnitude_of(a: i64) -> (m: u64)
    ensures
        m == magnitude(a as int),
{
    if a < 0 {
        if a == i64::MIN {
            9223372036854775808u64
        } else {
            (-a) as u64
        }
    } else {
        a as u64
    }
}

fn int_binary(vm: &mut VmState, op: OpCode, a: i64, b: i64, span: Span) -> (r: Result<VmAction, MuninnError>)
    requires
        !(op is Constant || op is Nil || op is True || op is False || op is Pop || op is GetLocal
            || op is SetLocal || op is DefineGlobal || op is GetGlobal || op is SetGlobal || op is Negate
            || op is Not || op is Equal || op is JumpIfFalse || op is Jump || op is Loop || op is Call
            || op is Return),
    ensures
        answers_in(r, final(vm)@, binary_outcome(old(vm)@, op, ValueModel::Int(a), ValueModel::Int(b)), span),
{
    match op {
        OpCode::Add => {
            let v: i128 = a as i128 + b as i128;
            if v < i64::MIN as i128 || v > i64::MAX as i128 {
                return fault("integer overflow in addition", span);
            }
            push_value(vm, Value::Int(v as i64));
        },
        OpCode::Subtract => {
            let v: i128 = a as i128 - b as i128;
            if v < i64::MIN as i128 || v > i64::MAX as i128 {
                return fault("integer overflow in subtraction", span);
            }
            push_value(vm, Value::Int(v as i64));
        },
        OpCode::Multiply => {
            assert(-0x8000_0000_0000_0000_0000_0000_0000_0000 <= (a as int) * (b as int) <= 0x7fff_ffff_ffff_ffff_ffff_ffff_ffff_ffff) by (nonlinear_arith)
                requires
                    i64::MIN <= a <= i64::MAX,
                    i64::MIN <= b <= i64::MAX,
            ;
            let v: i128 = a as i128 * b as i128;
            if v < i64::MIN as i128 || v > i64::MAX as i128 {
                return fault("integer overflow in multiplication", span);
            }
            push_value(vm, Value::Int(v as i64));
        },
        OpCode::Divide => {
            if b == 0 {
                return fault("division by zero", span);
            }
            if a == i64::MIN && b == -1 {
                return fault("integer overflow in division", span);
            }
            let ma = magnitude_of(a);
            let mb = magnitude_of(b);
            let q = ma / mb;
            assert(q <= ma) by (nonlinear_arith)
                requires
                    mb >= 1,
                    q == ma / mb,
            ;
            let same = (a < 0) == (b < 0);
            if same {
                if q > 9223372036854775807u64 {
                    proof {
                        assert(ma == 9223372036854775808u64) by (nonlinear_arith)
                            requires
                                ma <= 9223372036854775808u64,
                                mb >= 1,
                                q == ma / mb,
                                q > 9223372036854775807u64,
                        ;
                        assert(mb == 1) by (nonlinear_arith)
                            requires
                                ma == 9223372036854775808u64,
                                mb >= 1,
                                q == ma / mb,
                                q > 9223372036854775807u64,
                        ;
                    }
                    return fault("integer overflow in division", span);
                }
                push_value(vm, Value::Int(q as i64));
            } else {
                let v: i128 = -(q as i128);
                push_value(vm, Value::Int(v as i64));
            }
        },
        OpCode::Greater => {
            push_value(vm, Value::Bool(a > b));
        },
        _ => {
            push_value(vm, Value::Bool(a < b));
        },
    }
    Ok(VmAction::Continue)
}

pub open spec fn is_binary(op: OpCode) -> bool {
    op is Add || op is Subtract || op is Multiply || op is Divide || op is Greater || op is Less
}

/// `+ - * / > <` on the two popped operands.
fn binary(vm: &mut VmState, op: OpCode, l: Value, r: Value, span: Span) -> (res: Result<VmAction, MuninnError>)
    requires
        is_binary(op),
    ensures
        answers_in(res, final(vm)@, binary_outcome(old(vm)@, op, l@, r@), span),
{
    if is_host_value(&l) || is_host_value(&r) {
        return Ok(VmAction::Host { op, left: l, right: Some(r) });
    }
    let ordering = match op {
        OpCode::Greater | OpCode::Less => true,
        _ => false,
    };
    match (&l, &r) {
        (Value::Int(a), Value::Int(b)) => int_binary(vm, op, *a, *b, span),
        (Value::Str(a), Value::Str(b)) => {
            match op {
                OpCode::Add => {
                    let mut joined = a.clone();
                    push_str(&mut joined, b.as_str());
                    push_value(vm, Value::Str(joined));
                    Ok(VmAction::Continue)
                },
                _ => if ordering {
                    fault_owned(pair_message("ordering comparison expects matching numeric types, got ", &l, &r), span)
                } else {
                    fault_owned(
                        pair_message("numeric operation expects matching numeric or Tensor/Float types, got ", &l, &r),
                        span,
                    )
                },
            }
        },
        _ => match op {
            OpCode::Add => fault_owned(
                pair_message("'+' expects matching Int, Float, String, or Tensor operands, got ", &l, &r),
                span,
            ),
            _ => if ordering {
                fault_owned(pair_message("ordering comparison expects matching numeric types, got ", &l, &r), span)
            } else {
                fault_owned(
                    pair_message("numeric operation expects matching numeric or Tensor/Float types, got ", &l, &r),
                    span,
                )
            },
        },
    }
}

fn values_equal_exec(l: &Value, r: &Value) -> (b: bool)
    ensures
        b == values_equal(l@, r@),
{
    match (l, r) {
        (Value::Int(a), Value::Int(b)) => *a == *b,
        (Value::Bool(a), Value::Bool(b)) => *a == *b,
        (Value::Str(a), Value::Str(b)) => crate::text::same_text(a.as_str(), b.as_str()),
        (Value::Nil, Value::Nil) => true,
        _ => false,
    }
}

/// A call with `argc` arguments on the stack above the callee.
fn call(module: &BytecodeModule, vm: &mut VmState, policy: &HostPolicy, argc: usize, span: Span) -> (res: Result<
    VmAction,
    MuninnError,
>)
    requires
        argc < 256,
    ensures
        answers_in(res, final(vm)@, call_outcome(module@, old(vm)@, *policy, argc as int), span),
{
    let n = vm.stack.len();
    if n < argc + 1 {
        return fault("stack underflow", span);
    }
    let ci = n - argc - 1;
    let callee = copy_value(&vm.stack[ci]);
    match callee {
        Value::Function(fid) => {
            if fid >= module.functions.len() {
                let mut m = owned("invalid function id ");
                let t = usize_text(fid);
                push_str(&mut m, t.as_str());
                return fault_owned(m, span);
            }
            let g = &module.functions[fid];
            if g.arity != argc {
                let mut m = owned("function '");
                push_str(&mut m, g.name.as_str());
                push_str(&mut m, "' expects ");
                let t = usize_text(g.arity);
                push_str(&mut m, t.as_str());
                push_str(&mut m, " arguments, got ");
                let u = usize_text(argc);
                push_str(&mut m, u.as_str());
                return fault_owned(m, span);
            }
            let ghost st = old(vm)@.stack;
            proof {
                lemma_views_remove(vm.stack@, ci as int);
            }
            let _removed = vm.stack.remove(ci);
            let base = vm.stack.len() - argc;
            let ghost rest = vm@.stack;
            let mut k: usize = argc;
            while k < g.local_count
                invariant
                    argc <= k,
                    k <= g.local_count || k == argc,
                    vm@.stack == rest + Seq::new((k - argc) as nat, |j: int| ValueModel::Nil),
                    vm@.frames == old(vm)@.frames,
                    vm@.globals == old(vm)@.globals,
                    vm@.steps_used == old(vm)@.steps_used,
                    vm@.preserve == old(vm)@.preserve,
                decreases g.local_count - k,
            {
                push_value(vm, Value::Nil);
                k = k + 1;
                proof {
                    assert(vm@.stack =~= rest + Seq::new((k - argc) as nat, |j: int| ValueModel::Nil));
                }
            }
            vm.frames.push(CallFrame { function_id: fid, ip: 0, stack_base: base });
            proof {
                let extra: nat = if g.local_count > argc { (g.local_count - argc) as nat } else { 0 };
                assert(vm@.stack =~= rest + Seq::new(extra, |j: int| ValueModel::Nil));
            }
            Ok(VmAction::Continue)
        },
        Value::Native(kind) => {
            if !policy.is_native_allowed(kind) {
                let mut m = owned("native '");
                push_str(&mut m, native_name(kind));
                push_str(&mut m, "' is disabled by host policy");
                return fault_owned(m, span);
            }
            proof {
                lemma_views_subrange(vm.stack@, ci + 1, n as int);
                lemma_views_subrange(vm.stack@, 0, ci as int);
            }
            let args = vm.stack.split_off(ci + 1);
            vm.stack.truncate(ci);
            proof {
                assert(vm.stack@ =~= old(vm).stack@.subrange(0, ci as int));
            }
            Ok(VmAction::Native { kind, args })
        },
        other => {
            if is_host_value(&other) {
                proof {
                    lemma_views_subrange(vm.stack@, 0, ci as int);
                }
                vm.stack.truncate(ci);
                return Ok(VmAction::Host { op: OpCode::Call, left: other, right: None });
            }
            let mut m = show_value(&other);
            push_str(&mut m, " is not callable");
            fault_owned(m, span)
        },
    }
}

/// Leaves the running function.
fn leave(module: &BytecodeModule, vm: &mut VmState, span: Span) -> (res: Result<VmAction, MuninnError>)
    requires
        old(vm).frames@.len() > 0,
        old(vm).frames@.last().function_id < module@.functions.len(),
    ensures
        answers_in(res, final(vm)@, return_outcome(module@, old(vm)@), span),
{
    let v = if vm.stack.len() > 0 {
        pop_value(vm)
    } else {
        Value::Nil
    };
    let last = vm.frames.len() - 1;
    let fr = vm.frames[last];
    let f = &module.functions[fr.function_id];
    let is_nil = match v {
        Value::Nil => true,
        _ => false,
    };
    if f.expects_return_value && is_nil {
        let mut m = owned("function '");
        push_str(&mut m, f.name.as_str());
        push_str(&mut m, "' fell through without returning a value");
        return fault_owned(m, span);
    }
    let _ = vm.frames.pop();
    proof {
        if fr.stack_base <= vm.stack@.len() {
            lemma_views_subrange(vm.stack@, 0, fr.stack_base as int);
        }
    }
    vm.stack.truncate(fr.stack_base);
    if vm.frames.len() == 0 {
        vm.preserve_existing_globals = false;
        return Ok(VmAction::Halt(v));
    }
    push_value(vm, v);
    Ok(VmAction::Continue)
}

/// The string constant that the operand at `at` names.
fn read_name(module: &BytecodeModule, fid: usize, at: usize, span: Span) -> (r: Result<String, MuninnError>)
    requires
        fid < module@.functions.len(),
    ensures
        match name_operand(module@, fid as int, at as int) {
            Ok(name) => r matches Ok(t) && t@ == name,
            Err(m) => r matches Err(e) && e.message@ == m && e.span == span && e.phase@ == "vm"@,
        },
{
    let chunk = &module.functions[fid].chunk;
    match read_short_at(&chunk.code, at) {
        None => Err(vm_error("instruction pointer out of range", span)),
        Some(k) => {
            if k >= chunk.constants.len() {
                let mut m = owned("invalid constant index ");
                let t = usize_text(k);
                push_str(&mut m, t.as_str());
                return Err(vm_error_owned(m, span));
            }
            match &chunk.constants[k] {
                Constant::String(name) => Ok(name.clone()),
                _ => Err(vm_error("expected string constant", span)),
            }
        },
    }
}

/// A jump to `to`, if it fits an instruction pointer.
fn jump(vm: &mut VmState, from: usize, distance: usize, span: Span) -> (r: Result<VmAction, MuninnError>)
    requires
        old(vm).frames@.len() > 0,
    ensures
        answers_in(r, final(vm)@, jump_to(old(vm)@, from + distance), span),
{
    if distance > usize::MAX - from {
        return fault("instruction pointer out of range", span);
    }
    set_ip(vm, from + distance);
    Ok(VmAction::Continue)
}

#[verifier::rlimit(40)]
fn run_data(module: &BytecodeModule, vm: &mut VmState, policy: &HostPolicy, op: OpCode, at: usize, span: Span) -> (r:
    Result<VmAction, MuninnError>)
    requires
        old(vm).frames@.len() > 0,
        old(vm).frames@.last().function_id < module@.functions.len(),
        at <= module@.functions[old(vm).frames@.last().function_id as int].chunk.code.len(),
        op is Constant || op is Nil || op is True || op is False || op is Pop || op is GetLocal || op is SetLocal,
    ensures
        answers_in(r, final(vm)@, op_outcome(module@, old(vm)@, *policy, op, at as int), span),
{
    let last = vm.frames.len() - 1;
    let fr = vm.frames[last];
    let fid = fr.function_id;
    let function = &module.functions[fid];
    let code = &function.chunk.code;
    let _code_len = code.len();
    match op {
        OpCode::Constant => match read_short_at(code, at) {
            None => fault("instruction pointer out of range", span),
            Some(k) => {
                if k >= function.chunk.constants.len() {
                    let mut m = owned("invalid constant index ");
                    let t = usize_text(k);
                    push_str(&mut m, t.as_str());
                    return fault_owned(m, span);
                }
                let v = constant_to_value(&function.chunk.constants[k]);
                set_ip(vm, at + 2);
                push_value(vm, v);
                Ok(VmAction::Continue)
            },
        },
        OpCode::Nil | OpCode::True | OpCode::False => {
            let v = match op {
                OpCode::Nil => Value::Nil,
                OpCode::True => Value::Bool(true),
                _ => Value::Bool(false),
            };
            set_ip(vm, at);
            push_value(vm, v);
            Ok(VmAction::Continue)
        },
        OpCode::Pop => {
            set_ip(vm, at);
            if vm.stack.len() > 0 {
                let _ = pop_value(vm);
            }
            Ok(VmAction::Continue)
        },
        OpCode::GetLocal => match read_short_at(code, at) {
            None => fault("instruction pointer out of range", span),
            Some(slot) => {
                if slot >= function.local_count {
                    let mut m = owned("invalid local slot ");
                    let t = usize_text(slot);
                    push_str(&mut m, t.as_str());
                    return fault_owned(m, span);
                }
                if slot >= vm.stack.len() || fr.stack_base >= vm.stack.len() - slot {
                    return fault("stack underflow", span);
                }
                let v = copy_value(&vm.stack[fr.stack_base + slot]);
                set_ip(vm, at + 2);
                push_value(vm, v);
                Ok(VmAction::Continue)
            },
        },
        OpCode::SetLocal => match read_short_at(code, at) {
            None => fault("instruction pointer out of range", span),
            Some(slot) => {
                if vm.stack.len() == 0 {
                    return fault("stack underflow", span);
                }
                if slot >= function.local_count {
                    let mut m = owned("invalid local slot ");
                    let t = usize_text(slot);
                    push_str(&mut m, t.as_str());
                    return fault_owned(m, span);
                }
                if slot >= vm.stack.len() - 1 || fr.stack_base >= vm.stack.len() - 1 - slot {
                    return fault("stack underflow", span);
                }
                let v = pop_value(vm);
                let index = fr.stack_base + slot;
                proof {
                    lemma_views_update(vm.stack@, index as int, v);
                }
                vm.stack.set(index, v);
                set_ip(vm, at + 2);
                Ok(VmAction::Continue)
            },
        },
        _ => fault("instruction pointer out of range", span),
    }
}

#[verifier::rlimit(40)]
fn run_global(module: &BytecodeModule, vm: &mut VmState, policy: &HostPolicy, op: OpCode, at: usize, span: Span) -> (r:
    Result<VmAction, MuninnError>)
    requires
        old(vm).frames@.len() > 0,
        old(vm).frames@.last().function_id < module@.functions.len(),
        at <= module@.functions[old(vm).frames@.last().function_id as int].chunk.code.len(),
        op is DefineGlobal || op is GetGlobal || op is SetGlobal,
    ensures
        answers_in(r, final(vm)@, op_outcome(module@, old(vm)@, *policy, op, at as int), span),
{
    let last = vm.frames.len() - 1;
    let fr = vm.frames[last];
    let fid = fr.function_id;
    let function = &module.functions[fid];
    let code = &function.chunk.code;
    let _code_len = code.len();
    match op {
        OpCode::DefineGlobal => {
            let name = match read_name(module, fid, at, span) {
                Ok(name) => name,
                Err(e) => return Err(e),
            };
            if vm.stack.len() == 0 {
                return fault("stack underflow", span);
            }
            let v = pop_value(vm);
            set_ip(vm, at + 2);
            let preserve = vm.preserve_existing_globals && find_global(&vm.globals, name.as_str()).is_some() && match module_kind(
                module,
                name.as_str(),
            ) {
                Some(GlobalValueKind::Function) => false,
                _ => true,
            };
            if !preserve {
                set_global(&mut vm.globals, name, v);
            }
            Ok(VmAction::Continue)
        },
        OpCode::GetGlobal => {
            let name = match read_name(module, fid, at, span) {
                Ok(name) => name,
                Err(e) => return Err(e),
            };
            match find_global(&vm.globals, name.as_str()) {
                None => {
                    let mut m = owned("unknown global '");
                    push_str(&mut m, name.as_str());
                    push_str(&mut m, "'");
                    fault_owned(m, span)
                },
                Some(i) => {
                    proof {
                        lemma_global_slot(vm@.globals, name@);
                    }
                    let v = copy_value(&vm.globals[i].1);
                    set_ip(vm, at + 2);
                    push_value(vm, v);

                    Ok(VmAction::Continue)
                },
            }
        },
        OpCode::SetGlobal => {
            let name = match read_name(module, fid, at, span) {
                Ok(name) => name,
                Err(e) => return Err(e),
            };
            if vm.stack.len() == 0 {
                return fault("stack underflow", span);
            }
            if find_global(&vm.globals, name.as_str()).is_none() {
                let mut m = owned("unknown global '");
                push_str(&mut m, name.as_str());
                push_str(&mut m, "'");
                return fault_owned(m, span);
            }
            if policy.readonly_globals {
                let mut m = owned("global '");
                push_str(&mut m, name.as_str());
                push_str(&mut m, "' is readonly under this host policy");
                return fault_owned(m, span);
            }
            let v = pop_value(vm);
            set_ip(vm, at + 2);
            set_global(&mut vm.globals, name, v);
            Ok(VmAction::Continue)
        },
        _ => fault("instruction pointer out of range", span),
    }
}

#[verifier::rlimit(40)]
fn run_unary(module: &BytecodeModule, vm: &mut VmState, policy: &HostPolicy, op: OpCode, at: usize, span: Span) -> (r:
    Result<VmAction, MuninnError>)
    requires
        old(vm).frames@.len() > 0,
        old(vm).frames@.last().function_id < module@.functions.len(),
        at <= module@.functions[old(vm).frames@.last().function_id as int].chunk.code.len(),
        op is Negate || op is Not || op is Equal,
    ensures
        answers_in(r, final(vm)@, op_outcome(module@, old(vm)@, *policy, op, at as int), span),
{
    let last = vm.frames.len() - 1;
    let fr = vm.frames[last];
    let fid = fr.function_id;
    let function = &module.functions[fid];
    let code = &function.chunk.code;
    let _code_len = code.len();
    match op {
        OpCode::Negate => {
            if vm.stack.len() == 0 {
                return fault("stack underflow", span);
            }
            let v = pop_value(vm);
            set_ip(vm, at);
            if is_host_value(&v) {
                return Ok(VmAction::Host { op, left: v, right: None });
            }
            match v {
                Value::Int(i) => {
                    if i == i64::MIN {
                        return fault("integer overflow in negation", span);
                    }
                    push_value(vm, Value::Int(-i));
                    Ok(VmAction::Continue)
                },
                _ => {
                    let mut m = owned("cannot negate ");
                    let t = show_value(&v);
                    push_str(&mut m, t.as_str());
                    fault_owned(m, span)
                },
            }
        },
        OpCode::Not => {
            if vm.stack.len() == 0 {
                return fault("stack underflow", span);
            }
            let v = pop_value(vm);
            set_ip(vm, at);
            if is_host_value(&v) {
                return Ok(VmAction::Host { op, left: v, right: None });
            }
            match v {
                Value::Bool(b) => {
                    push_value(vm, Value::Bool(!b));
                    Ok(VmAction::Continue)
                },
                _ => {
                    let mut m = owned("cannot apply '!' to ");
                    let t = show_value(&v);
                    push_str(&mut m, t.as_str());
                    fault_owned(m, span)
                },
            }
        },
        OpCode::Equal => {
            if vm.stack.len() < 2 {
                return fault("stack underflow", span);
            }
            let r = pop_value(vm);
            let l = pop_value(vm);
            set_ip(vm, at);
            proof {
                assert(old(vm)@.stack.drop_last().drop_last() =~= old(vm)@.stack.subrange(
                    0,
                    old(vm)@.stack.len() - 2,
                ));
            }
            let both_float = match (&l, &r) {
                (Value::Float(_), Value::Float(_)) => true,
                _ => false,
            };
            if both_float {
                return Ok(VmAction::Host { op, left: l, right: Some(r) });
            }
            let same = values_equal_exec(&l, &r);
            push_value(vm, Value::Bool(same));
            Ok(VmAction::Continue)
        },
        _ => fault("instruction pointer out of range", span),
    }
}

#[verifier::rlimit(40)]
fn run_control(module: &BytecodeModule, vm: &mut VmState, policy: &HostPolicy, op: OpCode, at: usize, span: Span) -> (r:
    Result<VmAction, MuninnError>)
    requires
        old(vm).frames@.len() > 0,
        old(vm).frames@.last().function_id < module@.functions.len(),
        at <= module@.functions[old(vm).frames@.last().function_id as int].chunk.code.len(),
        op is JumpIfFalse || op is Jump || op is Loop || op is Call || op is Return,
    ensures
        answers_in(r, final(vm)@, op_outcome(module@, old(vm)@, *policy, op, at as int), span),
{
    let last = vm.frames.len() - 1;
    let fr = vm.frames[last];
    let fid = fr.function_id;
    let function = &module.functions[fid];
    let code = &function.chunk.code;
    let _code_len = code.len();
    match op {
        OpCode::JumpIfFalse => match read_short_at(code, at) {
            None => fault("instruction pointer out of range", span),
            Some(j) => {
                if vm.stack.len() == 0 {
                    return fault("stack underflow", span);
                }
                let c = copy_value(&vm.stack[vm.stack.len() - 1]);
                if is_host_value(&c) {
                    let _ = pop_value(vm);
                    set_ip(vm, at + 2);
                    return Ok(VmAction::Host { op, left: c, right: None });
                }
                match c {
                    Value::Bool(b) => {
                        if b {
                            set_ip(vm, at + 2);
                            Ok(VmAction::Continue)
                        } else {
                            jump(vm, at + 2, j, span)
                        }
                    },
                    _ => {
                        let mut m = owned("condition must be Bool, got ");
                        let t = show_value(&c);
                        push_str(&mut m, t.as_str());
                        fault_owned(m, span)
                    },
                }
            },
        },
        OpCode::Jump => match read_short_at(code, at) {
            None => fault("instruction pointer out of range", span),
            Some(j) => jump(vm, at + 2, j, span),
        },
        OpCode::Loop => match read_short_at(code, at) {
            None => fault("instruction pointer out of range", span),
            Some(j) => {
                let to = if at + 2 >= j {
                    at + 2 - j
                } else {
                    0
                };
                set_ip(vm, to);
                Ok(VmAction::Continue)
            },
        },
        OpCode::Call => {
            if at >= code.len() {
                return fault("instruction pointer out of range", span);
            }
            let argc = code[at] as usize;
            set_ip(vm, at + 1);
            call(module, vm, policy, argc, span)
        },
        OpCode::Return => leave(module, vm, span),
        _ => fault("instruction pointer out of range", span),
    }
}

#[verifier::rlimit(40)]
fn run_binary(module: &BytecodeModule, vm: &mut VmState, policy: &HostPolicy, op: OpCode, at: usize, span: Span) -> (r:
    Result<VmAction, MuninnError>)
    requires
        old(vm).frames@.len() > 0,
        old(vm).frames@.last().function_id < module@.functions.len(),
        at <= module@.functions[old(vm).frames@.last().function_id as int].chunk.code.len(),
        is_binary(op),
    ensures
        answers_in(r, final(vm)@, op_outcome(module@, old(vm)@, *policy, op, at as int), span),
{
    let last = vm.frames.len() - 1;
    let fr = vm.frames[last];
    let fid = fr.function_id;
    let function = &module.functions[fid];
    let code = &function.chunk.code;
    let _code_len = code.len();
    match op {
        _ => {
            if vm.stack.len() < 2 {
                return fault("stack underflow", span);
            }
            let r = pop_value(vm);
            let l = pop_value(vm);
            set_ip(vm, at);
            proof {
                assert(old(vm)@.stack.drop_last().drop_last() =~= old(vm)@.stack.subrange(
                    0,
                    old(vm)@.stack.len() - 2,
                ));
            }
            binary(vm, op, l, r, span)
        },

    }
}

/// Runs the decoded instruction `op`, whose operands start at `at`.
fn run_op(module: &BytecodeModule, vm: &mut VmState, policy: &HostPolicy, op: OpCode, at: usize, span: Span) -> (r:
    Result<VmAction, MuninnError>)
    requires
        old(vm).frames@.len() > 0,
        old(vm).frames@.last().function_id < module@.functions.len(),
        at <= module@.functions[old(vm).frames@.last().function_id as int].chunk.code.len(),
    ensures
        answers_in(r, final(vm)@, op_outcome(module@, old(vm)@, *policy, op, at as int), span),
{
    match op {
        OpCode::Constant | OpCode::Nil | OpCode::True | OpCode::False | OpCode::Pop | OpCode::GetLocal
        | OpCode::SetLocal => run_data(module, vm, policy, op, at, span),
        OpCode::DefineGlobal | OpCode::GetGlobal | OpCode::SetGlobal => run_global(module, vm, policy, op, at, span),
        OpCode::Negate | OpCode::Not | OpCode::Equal => run_unary(module, vm, policy, op, at, span),
        OpCode::JumpIfFalse | OpCode::Jump | OpCode::Loop | OpCode::Call | OpCode::Return => run_control(
            module,
            vm,
            policy,
            op,
            at,
            span,
        ),
        _ => run_binary(module, vm, policy, op, at, span),
    }
}

/// Runs one instruction of `vm` under `module` and `policy`: the next
/// state and what the host must do next, or the fault that stops the run.
pub fn step(module: &BytecodeModule, vm: VmState, policy: &HostPolicy) -> (r: Result<(VmState, VmAction), MuninnError>)
    requires
        vm_ready(module@, vm@),
    ensures
        answers(r, step_outcome(module@, vm@, *policy), step_span(module@, vm@)),
{
    let mut vm = vm;
    let ghost start = vm@;
    if vm.frames.len() == 0 {
        vm.preserve_existing_globals = false;
        let v = if vm.stack.len() > 0 {
            pop_value(&mut vm)
        } else {
            Value::Nil
        };
        return Ok((vm, VmAction::Halt(v)));
    }
    let last = vm.frames.len() - 1;
    let fr = vm.frames[last];
    let function = &module.functions[fr.function_id];
    let span = function.chunk.span_at(fr.ip);
    let steps = match charge_step(vm.steps_used, policy.max_steps, span) {
        Ok(steps) => steps,
        Err(e) => return Err(e),
    };
    if fr.ip >= function.chunk.code.len() {
        return Err(vm_error("instruction pointer out of range", span));
    }
    let byte = function.chunk.code[fr.ip];
    let op = match OpCode::from_byte(byte) {
        Some(op) => op,
        None => {
            let mut m = owned("invalid opcode ");
            let t = usize_text(byte as usize);
            push_str(&mut m, t.as_str());
            return Err(vm_error_owned(m, span));
        },
    };
    vm.steps_used = steps;
    let result = run_op(module, &mut vm, policy, op, fr.ip + 1, span);
    match result {
        Ok(action) => Ok((vm, action)),
        Err(e) => Err(e),
    }
}

// ----- starting and resuming -----

/// The globals after binding each native of `ks`, in order, to its name.
pub open spec fn native_globals(ks: Seq<NativeFunctionKind>) -> Seq<(Seq<char>, ValueModel)>
    decreases ks.len(),
{
    if ks.len() == 0 {
        Seq::empty()
    } else {
        bind_global(native_globals(ks.drop_last()), kind_name(ks.last()), ValueModel::Native(ks.last()))
    }
}

/// The state a run of `m` starts from: the natives bound as globals and
/// the entry function called with no arguments, or why it cannot start.
pub open spec fn start_state(m: ModuleModel) -> Result<VmModel, Seq<char>> {
    let e = m.entry_function;
    if e >= m.functions.len() {
        Err("invalid function id "@ + decimal(e as nat))
    } else if m.functions[e as int].arity != 0 {
        Err(
            "function '"@ + m.functions[e as int].name + "' expects "@ + decimal(m.functions[e as int].arity as nat)
                + " arguments, got 0"@,
        )
    } else {
        Ok(
            VmModel {
                stack: Seq::new(m.functions[e as int].local_count as nat, |k: int| ValueModel::Nil),
                frames: seq![CallFrame { function_id: e, ip: 0, stack_base: 0 }],
                globals: native_globals(registration_order()),
                steps_used: 0,
                preserve: false,
            },
        )
    }
}

/// A fresh interpreter state for `module`, positioned at the first
/// instruction of its entry function.
pub fn start(module: &BytecodeModule) -> (r: Result<VmState, MuninnError>)
    ensures
        match start_state(module@) {
            Ok(s) => r matches Ok(vm) && vm@ == s && vm_ready(module@, vm@),
            Err(m) => r matches Err(e) && e.message@ == m && e.phase@ == "vm"@ && e.span == Span::synthetic(),
        },
{
    let e = module.entry_function;
    if e >= module.functions.len() {
        let mut m = owned("invalid function id ");
        let t = usize_text(e);
        push_str(&mut m, t.as_str());
        return Err(vm_error_owned(m, Span::default()));
    }
    let f = &module.functions[e];
    if f.arity != 0 {
        let mut m = owned("function '");
        push_str(&mut m, f.name.as_str());
        push_str(&mut m, "' expects ");
        let t = usize_text(f.arity);
        push_str(&mut m, t.as_str());
        push_str(&mut m, " arguments, got 0");
        return Err(vm_error_owned(m, Span::default()));
    }
    let kinds = registered_natives();
    let mut globals: Vec<(String, Value)> = Vec::new();
    let mut i: usize = 0;
    while i < kinds.len()
        invariant
            i <= kinds@.len(),
            kinds@ == registration_order(),
            binding_views(globals@) == native_globals(kinds@.take(i as int)),
        decreases kinds@.len() - i,
    {
        let kind = kinds[i];
        proof {
            assert(kinds@.take(i + 1).drop_last() =~= kinds@.take(i as int));
        }
        set_global(&mut globals, owned(native_name(kind)), Value::Native(kind));
        i = i + 1;
    }
    proof {
        assert(kinds@.take(i as int) =~= kinds@);
    }
    let mut stack: Vec<Value> = Vec::new();
    let mut k: usize = 0;
    while k < f.local_count
        invariant
            k <= f.local_count,
            value_views(stack@) == Seq::new(k as nat, |j: int| ValueModel::Nil),
        decreases f.local_count - k,
    {
        proof {
            lemma_views_push(stack@, Value::Nil);
        }
        stack.push(Value::Nil);
        k = k + 1;
        proof {
            assert(value_views(stack@) =~= Seq::new(k as nat, |j: int| ValueModel::Nil));
        }
    }
    let mut frames: Vec<CallFrame> = Vec::new();
    frames.push(CallFrame { function_id: e, ip: 0, stack_base: 0 });
    let vm = VmState { stack, frames, globals, steps_used: 0, preserve_existing_globals: false };
    proof {
        assert(vm@.frames =~= seq![CallFrame { function_id: e, ip: 0, stack_base: 0 }]);
    }
    Ok(vm)
}

/// Hands the host's result of a `Host` or `Native` action back to the
/// interpreter: it goes on top of the stack.
pub fn resume(vm: &mut VmState, v: Value)
    ensures
        final(vm)@ == with_stack(old(vm)@, old(vm)@.stack.push(v@)),
{
    push_value(vm, v);
}

// ----- reloading at a safe point -----

pub open spec fn kind_of_value(v: ValueModel) -> ValueKind {
    match v {
        ValueModel::Int(_) => ValueKind::Int,
        ValueModel::Float(_) => ValueKind::Float,
        ValueModel::Bool(_) => ValueKind::Bool,
        ValueModel::Str(_) => ValueKind::String,
        ValueModel::Tensor(_) => ValueKind::Tensor,
        ValueModel::Function(_) => ValueKind::Function,
        ValueModel::Native(_) => ValueKind::Native,
        ValueModel::Nil => ValueKind::Nil,
    }
}

/// The live globals by name and kind, in order.
pub open spec fn live_kinds(gs: Seq<(Seq<char>, ValueModel)>) -> Seq<(Seq<char>, ValueKind)> {
    gs.map_values(|g: (Seq<char>, ValueModel)| (g.0, kind_of_value(g.1)))
}

/// Swapping in module `next` for a run in state `s`: refused away from a
/// safe point (inside a call), or when a live global is dropped or
/// retyped; otherwise the run starts over at `next`'s entry, keeping the
/// globals and marking them to be preserved against redefinition.
pub open spec fn reload_outcome(s: VmModel, next: ModuleModel) -> Result<VmModel, Seq<char>> {
    if s.frames.len() > 1 {
        Err("reload is only allowed at a safe point"@)
    } else {
        match reload_problem(live_kinds(s.globals), next) {
            Some(m) => Err(m),
            None => {
                let e = next.entry_function;
                let f = next.functions[e as int];
                if f.arity != 0 {
                    Err("function '"@ + f.name + "' expects "@ + decimal(f.arity as nat) + " arguments, got 0"@)
                } else {
                    Ok(
                        VmModel {
                            stack: Seq::new(f.local_count as nat, |k: int| ValueModel::Nil),
                            frames: seq![CallFrame { function_id: e, ip: 0, stack_base: 0 }],
                            globals: s.globals,
                            steps_used: 0,
                            preserve: true,
                        },
                    )
                }
            },
        }
    }
}

fn value_kind(v: &Value) -> (k: ValueKind)
    ensures
        k == kind_of_value(v@),
{
    match v {
        Value::Int(_) => ValueKind::Int,
        Value::Float(_) => ValueKind::Float,
        Value::Bool(_) => ValueKind::Bool,
        Value::Str(_) => ValueKind::String,
        Value::Tensor(_) => ValueKind::Tensor,
        Value::Function(_) => ValueKind::Function,
        Value::Native(_) => ValueKind::Native,
        Value::Nil => ValueKind::Nil,
    }
}

/// Replaces the running module by `next` at a safe point: `next` must
/// validate, no call may be in progress, and every live global must keep
/// its kind; then the run restarts at `next`'s entry with the globals kept.
pub fn reload(vm: VmState, next: &BytecodeModule) -> (r: Result<VmState, MuninnError>)
    ensures
        !module_valid(next@) ==> (r matches Err(e) && e.phase@ == "vm"@),
        module_valid(next@) ==> match reload_outcome(vm@, next@) {
            Ok(t) => r matches Ok(v) && v@ == t && vm_ready(next@, v@),
            Err(m) => r matches Err(e) && e.message@ == m && e.phase@ == "vm"@,
        },
{
    if let Err(errors) = validate_module(next) {
        return Err(first_validation_error(errors));
    }
    if vm.frames.len() > 1 {
        return Err(vm_error("reload is only allowed at a safe point", Span::default()));
    }
    let mut live: Vec<(String, ValueKind)> = Vec::new();
    let mut i: usize = 0;
    while i < vm.globals.len()
        invariant
            i <= vm.globals@.len(),
            live_views(live@) == live_kinds(binding_views(vm.globals@)).take(i as int),
        decreases vm.globals@.len() - i,
    {
        let k = value_kind(&vm.globals[i].1);
        let name = vm.globals[i].0.clone();
        let ghost before = live@;
        let ghost name_v = name@;
        live.push((name, k));
        proof {
            assert(binding_views(vm.globals@).len() == vm.globals@.len());
            assert(live_kinds(binding_views(vm.globals@)).len() == vm.globals@.len());
            assert(live_views(before).len() == before.len());
            assert(before.len() == i);
            assert(live@[i as int].0@ == name_v && live@[i as int].1 == k);
            let all = live_kinds(binding_views(vm.globals@));
            assert(binding_views(vm.globals@)[i as int] == (vm.globals@[i as int].0@, vm.globals@[i as int].1@));
            assert(all[i as int] == (vm.globals@[i as int].0@, k));
            assert(live_views(live@)[i as int] == (name_v, k));
            assert(live_views(live@).drop_last() =~= live_views(before));
            assert(live_views(live@) =~= all.take(i + 1));
        }
        i = i + 1;
    }
    proof {
        assert(live_kinds(binding_views(vm.globals@)).take(i as int) =~= live_kinds(binding_views(vm.globals@)));
    }
    match check_reload_compatibility(live.as_slice(), next) {
        Ok(()) => {},
        Err(e) => return Err(e),
    }
    let e = next.entry_function;
    let f = &next.functions[e];
    if f.arity != 0 {
        let mut m = owned("function '");
        push_str(&mut m, f.name.as_str());
        push_str(&mut m, "' expects ");
        let t = usize_text(f.arity);
        push_str(&mut m, t.as_str());
        push_str(&mut m, " arguments, got 0");
        return Err(vm_error_owned(m, Span::default()));
    }
    let mut stack: Vec<Value> = Vec::new();
    let mut k: usize = 0;
    while k < f.local_count
        invariant
            k <= f.local_count,
            value_views(stack@) == Seq::new(k as nat, |j: int| ValueModel::Nil),
        decreases f.local_count - k,
    {
        proof {
            lemma_views_push(stack@, Value::Nil);
        }
        stack.push(Value::Nil);
        k = k + 1;
        proof {
            assert(value_views(stack@) =~= Seq::new(k as nat, |j: int| ValueModel::Nil));
        }
    }
    let mut frames: Vec<CallFrame> = Vec::new();
    frames.push(CallFrame { function_id: e, ip: 0, stack_base: 0 });
    let next_vm = VmState { stack, frames, globals: vm.globals, steps_used: 0, preserve_existing_globals: true };
    proof {
        assert(next_vm@.frames =~= seq![CallFrame { function_id: e, ip: 0, stack_base: 0 }]);
    }
    Ok(next_vm)
}

// ----- laws -----

/// The state pushed `v` onto `base` and carries on.
pub open spec fn pushed(o: Outcome, base: Seq<ValueModel>, v: ValueModel) -> bool {
    o matches Outcome::Next(t, a) && a is Continue && t.stack == base.push(v)
}

/// Integer instructions compute what their names say. When the running
/// instruction is `op`, fuel remains, and the stack ends with `Int(a)`,
/// `Int(b)`, one step replaces the two by: `a > b` for `Greater`, `a < b`
/// for `Less`, `a == b` for `Equal`; `a + b`, `a - b`, `a * b` for `Add`,
/// `Subtract`, `Multiply` when the value fits an `i64`; and for `Divide`
/// the quotient rounded toward zero, or the division-by-zero fault.
pub proof fn law_integer_instructions(m: ModuleModel, s: VmModel, p: HostPolicy, op: OpCode, a: i64, b: i64)
    requires
        vm_ready(m, s),
        s.frames.len() > 0,
        s.frames.last().ip < m.functions[s.frames.last().function_id as int].chunk.code.len(),
        decode_op(m.functions[s.frames.last().function_id as int].chunk.code[s.frames.last().ip as int])
            == Some(op),
        p.max_steps matches Some(max) ==> s.steps_used + 1 <= max,
        s.stack.len() >= 2,
        s.stack[s.stack.len() - 2] == ValueModel::Int(a),
        s.stack[s.stack.len() - 1] == ValueModel::Int(b),
    ensures
        ({
            let base = s.stack.subrange(0, s.stack.len() - 2);
            let o = step_outcome(m, s, p);
            &&& op == OpCode::Greater ==> pushed(o, base, ValueModel::Bool(a > b))
            &&& op == OpCode::Less ==> pushed(o, base, ValueModel::Bool(a < b))
            &&& op == OpCode::Add && i64::MIN <= a + b <= i64::MAX ==> pushed(o, base, ValueModel::Int((a + b) as i64))
            &&& op == OpCode::Subtract && i64::MIN <= a - b <= i64::MAX ==> pushed(o, base, ValueModel::Int((a - b) as i64))
            &&& op == OpCode::Multiply && i64::MIN <= a * b <= i64::MAX ==> pushed(o, base, ValueModel::Int((a * b) as i64))
            &&& op == OpCode::Divide && a >= 0 && b > 0 ==> pushed(o, base, ValueModel::Int((a / b) as i64))
            &&& op == OpCode::Divide && a < 0 && a != i64::MIN && b > 0 ==> pushed(
                o,
                base,
                ValueModel::Int((-((-(a as int)) / (b as int))) as i64),
            )
            &&& op == OpCode::Divide && b == 0 ==> o == Outcome::Fault("division by zero"@)
            &&& op == OpCode::Equal ==> pushed(o, base, ValueModel::Bool(a == b))
        }),
{
    let base = s.stack.subrange(0, s.stack.len() - 2);
    assert(s.stack.subrange(0, s.stack.len() - 2) =~= base);
    if op == OpCode::Divide && b > 0 {
        if a >= 0 {
            assert(a / b <= a) by (nonlinear_arith)
                requires
                    a >= 0,
                    b > 0,
            ;
        } else if a != i64::MIN {
            assert((-(a as int)) / (b as int) <= -(a as int)) by (nonlinear_arith)
                requires
                    a < 0,
                    b > 0,
            ;
        }
    }
}

/// The running instruction of `s` is `op`, and its fuel can be charged.
pub open spec fn about_to_run(m: ModuleModel, s: VmModel, p: HostPolicy, op: OpCode) -> bool {
    &&& vm_ready(m, s)
    &&& s.frames.len() > 0
    &&& s.frames.last().ip < m.functions[s.frames.last().function_id as int].chunk.code.len()
    &&& decode_op(m.functions[s.frames.last().function_id as int].chunk.code[s.frames.last().ip as int]) == Some(op)
    &&& (p.max_steps matches Some(max) ==> s.steps_used + 1 <= max)
}

/// The little-endian operand right after the running instruction.
pub open spec fn operand_after(m: ModuleModel, s: VmModel) -> int {
    let code = m.functions[s.frames.last().function_id as int].chunk.code;
    let ip = s.frames.last().ip as int;
    code[ip + 1] + 256 * code[ip + 2]
}

/// The step went on at instruction `ip` with the stack `st`.
pub open spec fn continued_at(o: Outcome, st: Seq<ValueModel>, ip: int) -> bool {
    o matches Outcome::Next(t, a) && a is Continue && t.stack == st && t.frames.last().ip == ip
}

/// `Negate` turns `Int(a)` into `Int(-a)`, `Not` turns `Bool(x)` into
/// `Bool(!x)`; `JumpIfFalse` with operand `j` at `ip` goes on at
/// `ip + 3 + j` on `false` and at `ip + 3` on `true`, leaving the
/// condition on the stack; `Jump` goes to `ip + 3 + j` and `Loop` back to
/// `ip + 3 - j`.
pub proof fn law_unary_and_jump_instructions(m: ModuleModel, s: VmModel, p: HostPolicy, op: OpCode)
    requires
        about_to_run(m, s, p, op),
    ensures
        ({
            let o = step_outcome(m, s, p);
            let n = s.stack.len();
            let ip = s.frames.last().ip as int;
            let has_operand = ip + 2 < m.functions[s.frames.last().function_id as int].chunk.code.len() && ip + 3
                <= usize::MAX;
            let j = operand_after(m, s);
            &&& op == OpCode::Negate && n > 0 && s.stack.last() is Int && s.stack.last()->Int_0 != i64::MIN
                ==> pushed(o, s.stack.drop_last(), ValueModel::Int((-(s.stack.last()->Int_0)) as i64))
            &&& op == OpCode::Not && n > 0 && s.stack.last() is Bool ==> pushed(
                o,
                s.stack.drop_last(),
                ValueModel::Bool(!(s.stack.last()->Bool_0)),
            )
            &&& op == OpCode::JumpIfFalse && has_operand && n > 0 && s.stack.last() == ValueModel::Bool(false)
                && ip + 3 + j <= usize::MAX ==> continued_at(o, s.stack, ip + 3 + j)
            &&& op == OpCode::JumpIfFalse && has_operand && n > 0 && s.stack.last() == ValueModel::Bool(true)
                ==> continued_at(o, s.stack, ip + 3)
            &&& op == OpCode::Jump && has_operand && ip + 3 + j <= usize::MAX ==> continued_at(o, s.stack, ip + 3 + j)
            &&& op == OpCode::Loop && has_operand && ip + 3 >= j ==> continued_at(o, s.stack, ip + 3 - j)
        }),
{
}

/// The value a name is bound to among the globals, if any.
pub open spec fn global_value(gs: Seq<(Seq<char>, ValueModel)>, name: Seq<char>) -> Option<ValueModel> {
    match global_slot(gs, name) {
        Some(i) => Some(gs[i].1),
        None => None,
    }
}

/// Binding a global is read back by name, and leaves every other name
/// as it was.
pub proof fn law_global_read_after_write(
    gs: Seq<(Seq<char>, ValueModel)>,
    name: Seq<char>,
    other: Seq<char>,
    v: ValueModel,
)
    ensures
        global_value(bind_global(gs, name, v), name) == Some(v),
        other != name ==> global_value(bind_global(gs, name, v), other) == global_value(gs, other),
{
    lemma_global_slot(gs, name);
    lemma_global_slot(gs, other);
    match global_slot(gs, name) {
        Some(i) => {
            lemma_slot_after_update(gs, name, i, v, name);
            if other != name {
                lemma_slot_after_update(gs, name, i, v, other);
            }
        },
        None => {
            let g2 = gs.push((name, v));
            assert(g2.drop_last() =~= gs);
        },
    }
}

/// Overwriting the binding at `i` (the latest one of `name`) moves no
/// other name's latest binding.
proof fn lemma_slot_after_update(
    gs: Seq<(Seq<char>, ValueModel)>,
    name: Seq<char>,
    i: int,
    v: ValueModel,
    other: Seq<char>,
)
    requires
        0 <= i < gs.len(),
        gs[i].0 == name,
    ensures
        global_slot(gs.update(i, (name, v)), other) == global_slot(gs, other),
    decreases gs.len(),
{
    let g2 = gs.update(i, (name, v));
    if gs.len() > 0 {
        if i < gs.len() - 1 {
            assert(g2.drop_last() =~= gs.drop_last().update(i, (name, v)));
            assert(g2.last() == gs.last());
            lemma_slot_after_update(gs.drop_last(), name, i, v, other);
        } else {
            assert(g2.drop_last() =~= gs.drop_last());
        }
    }
}

/// `GetLocal` with operand `k` pushes the frame's local `k`, the stack
/// entry at `stack_base + k`; `SetLocal` with operand `k` pops the top and
/// stores it there.
pub proof fn law_local_instructions(m: ModuleModel, s: VmModel, p: HostPolicy, op: OpCode)
    requires
        about_to_run(m, s, p, op),
    ensures
        ({
            let o = step_outcome(m, s, p);
            let f = m.functions[s.frames.last().function_id as int];
            let ip = s.frames.last().ip as int;
            let base = s.frames.last().stack_base as int;
            let k = operand_after(m, s);
            let n = s.stack.len() as int;
            let ready = ip + 2 < f.chunk.code.len() && ip + 3 <= usize::MAX && k < f.local_count;
            &&& op == OpCode::GetLocal && ready && base + k < n ==> continued_at(o, s.stack.push(s.stack[base + k]), ip + 3)
            &&& op == OpCode::SetLocal && ready && base + k < n - 1 ==> continued_at(
                o,
                s.stack.drop_last().update(base + k, s.stack.last()),
                ip + 3,
            )
        }),
{
}

/// A step that does not fault leaves every frame running a function of the
/// module, and charges at most one unit of fuel: the state stays steppable
/// while fuel remains.
pub proof fn law_step_keeps_frames(m: ModuleModel, s: VmModel, p: HostPolicy)
    requires
        vm_ready(m, s),
    ensures
        step_outcome(m, s, p) matches Outcome::Next(t, _) ==> {
            &&& forall|i: int| 0 <= i < t.frames.len() ==> (#[trigger] t.frames[i]).function_id < m.functions.len()
            &&& t.steps_used <= s.steps_used + 1
        },
{
    if s.frames.len() > 0 {
        let fr = s.frames.last();
        let code = m.functions[fr.function_id as int].chunk.code;
        if fr.ip < code.len() {
            if let Some(op) = decode_op(code[fr.ip as int]) {
                let s1 = VmModel { steps_used: (s.steps_used + 1) as u64, ..s };
                let at = fr.ip + 1;
                assert forall|ip: int, i: int| 0 <= i < at_ip(s1, ip).frames.len() implies (#[trigger] at_ip(
                    s1,
                    ip,
                ).frames[i]).function_id < m.functions.len() by {
                    if i != s1.frames.len() - 1 {
                        assert(at_ip(s1, ip).frames[i] == s1.frames[i]);
                    }
                }
            }
        }
    }
}

} // verus!
