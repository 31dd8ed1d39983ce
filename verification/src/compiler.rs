use vstd::prelude::*;

use crate::ast::{BinaryOp, Block, Expr, ExprKind, FunctionDecl, Program, Stmt, StmtKind, TypeExpr, UnaryOp};
use crate::bytecode::{
    BytecodeModule, Chunk, Constant, ConstantModel, FunctionBytecode, FunctionModel, GlobalSpec, GlobalValueKind,
    OpCode,
};
use crate::bytes::le16;
use crate::error::MuninnError;
use crate::growth::{
    appended_end, appended_heights, appended_pending, lemma_append_valid, lemma_header_grows, lemma_le16_value,
    lemma_finished_valid, lemma_op_effect, lemma_patch_valid, op_fall, op_needs, open_valid, patched_end, targets_inside,
};
use crate::lexer::{lemma_lex_from_tokens, lex_from, lexed, Lexeme};
use crate::parser::{
    block_tokens, params_tokens, parse_document, program_tokens, stmt_tokens, stmts_tokens, surface_args,
    surface_block, surface_expr, surface_program, surface_stmt, surface_stmts, MAX_PARSE_TOKENS,
};
use crate::project::{FileDiagnostic, LoadedProject};
use crate::semantics::{SemanticModel, Symbol, SymbolKind, Ty};
use crate::typecheck::check_program;
use crate::validate::{decodes_from, fits_at, function_refs_ok, function_valid, module_valid, is_start, lemma_start_bounds, local_operand_ok, operand};
use crate::interp::{ValueModel, binary_outcome, pushed, VmModel};
use crate::span::Span;
use crate::text::{owned, same_text};

verus! {

// ----- which instructions an operator compiles to -----

/// The instructions a binary operator compiles to, after its operands:
/// the negated comparisons add a `Not`.
pub open spec fn binary_ops(op: BinaryOp) -> Seq<OpCode> {
    match op {
        BinaryOp::Add => seq![OpCode::Add],
        BinaryOp::Subtract => seq![OpCode::Subtract],
        BinaryOp::Multiply => seq![OpCode::Multiply],
        BinaryOp::Equal => seq![OpCode::Equal],
        BinaryOp::NotEqual => seq![OpCode::Equal, OpCode::Not],
        BinaryOp::Greater => seq![OpCode::Greater],
        BinaryOp::LessEqual => seq![OpCode::Greater, OpCode::Not],
        BinaryOp::Less => seq![OpCode::Less],
        BinaryOp::GreaterEqual => seq![OpCode::Less, OpCode::Not],
        _ => seq![OpCode::Divide],
    }
}

/// The instruction a unary operator compiles to, after its operand.
pub open spec fn unary_ops(op: UnaryOp) -> Seq<OpCode> {
    match op {
        UnaryOp::Negate => seq![OpCode::Negate],
        UnaryOp::Not => seq![OpCode::Not],
    }
}

/// `code` ends with the bytes of `ops`, in order.
#[verifier::opaque]
pub open spec fn ends_with_ops(code: Seq<u8>, ops: Seq<OpCode>) -> bool {
    &&& code.len() >= ops.len()
    &&& forall|i: int| 0 <= i < ops.len() ==> code[code.len() - ops.len() + i] == (#[trigger] ops[i]).spec_byte()
}

/// An arithmetic or comparison operator compiles to the instruction that
/// computes it: on `Int` operands `a` and `b` the interpreter runs the
/// compiled instruction to `a + b`, `a - b`, `a * b`, `a / b` (for
/// non-negative `a` and positive `b`), `a > b`, `a < b`, `a == b`; `>=`,
/// `<=` and `!=` compile as `<`, `>` and `==` followed by `Not`.
pub proof fn law_operators_compile_to_their_instructions(op: BinaryOp, s: VmModel, a: i64, b: i64)
    ensures
        ({
            let c = binary_ops(op)[0];
            let o = binary_outcome(s, c, ValueModel::Int(a), ValueModel::Int(b));
            &&& op == BinaryOp::Add && i64::MIN <= a + b <= i64::MAX ==> binary_ops(op).len() == 1 && pushed(
                o,
                s.stack,
                ValueModel::Int((a + b) as i64),
            )
            &&& op == BinaryOp::Subtract && i64::MIN <= a - b <= i64::MAX ==> binary_ops(op).len() == 1 && pushed(
                o,
                s.stack,
                ValueModel::Int((a - b) as i64),
            )
            &&& op == BinaryOp::Multiply && i64::MIN <= a * b <= i64::MAX ==> binary_ops(op).len() == 1 && pushed(
                o,
                s.stack,
                ValueModel::Int((a * b) as i64),
            )
            &&& op == BinaryOp::Divide && a >= 0 && b > 0 ==> binary_ops(op).len() == 1 && pushed(
                o,
                s.stack,
                ValueModel::Int((a / b) as i64),
            )
            &&& op == BinaryOp::Greater ==> binary_ops(op).len() == 1 && pushed(o, s.stack, ValueModel::Bool(a > b))
            &&& op == BinaryOp::Less ==> binary_ops(op).len() == 1 && pushed(o, s.stack, ValueModel::Bool(a < b))
            &&& op == BinaryOp::Equal ==> binary_ops(op) == seq![OpCode::Equal]
            &&& op == BinaryOp::GreaterEqual ==> binary_ops(op) == binary_ops(BinaryOp::Less).push(OpCode::Not)
            &&& op == BinaryOp::LessEqual ==> binary_ops(op) == binary_ops(BinaryOp::Greater).push(OpCode::Not)
            &&& op == BinaryOp::NotEqual ==> binary_ops(op) == binary_ops(BinaryOp::Equal).push(OpCode::Not)
        }),
{
    if op == BinaryOp::Divide && a >= 0 && b > 0 {
        assert(a / b <= a) by (nonlinear_arith)
            requires
                a >= 0,
                b > 0,
        ;
    }
    assert(seq![OpCode::Less, OpCode::Not] =~= seq![OpCode::Less].push(OpCode::Not));
    assert(seq![OpCode::Greater, OpCode::Not] =~= seq![OpCode::Greater].push(OpCode::Not));
    assert(seq![OpCode::Equal, OpCode::Not] =~= seq![OpCode::Equal].push(OpCode::Not));
}

/// Negation compiles to `Negate` and logical not to `Not`: the
/// instructions the interpreter runs as `-a` on integers and `!x` on
/// booleans.
pub proof fn law_unary_operators_compile_to_their_instructions()
    ensures
        unary_ops(UnaryOp::Negate) == seq![OpCode::Negate],
        unary_ops(UnaryOp::Not) == seq![OpCode::Not],
{
}

// ----- how many slots a program needs -----

/// The local slots a statement may claim: one per `let`, nested blocks
/// included (functions get their own frames).
pub open spec fn stmt_locals(s: Stmt) -> nat
    decreases s,
{
    match s.kind {
        StmtKind::Let { .. } => 1,
        StmtKind::While { body, .. } => block_locals(body),
        StmtKind::If { then_branch, else_branch, .. } => block_locals(then_branch) + match else_branch {
            Some(b) => block_locals(b),
            None => 0,
        },
        _ => 0,
    }
}

pub open spec fn block_locals(b: Block) -> nat
    decreases b,
{
    stmts_locals(b.statements@)
}

pub open spec fn stmts_locals(ss: Seq<Stmt>) -> nat
    decreases ss,
{
    if ss.len() == 0 {
        0
    } else {
        stmts_locals(ss.drop_last()) + stmt_locals(ss.last())
    }
}

/// The slots of every frame can be counted in a `usize`: the entry code's,
/// and each function's parameters and locals.
pub open spec fn slots_fit(p: Program) -> bool {
    &&& stmts_locals(p.statements@) < usize::MAX
    &&& forall|i: int|
        0 <= i < p.statements@.len() ==> match (#[trigger] p.statements@[i]).kind {
            StmtKind::Function(d) => d.params@.len() + block_locals(d.body) < usize::MAX,
            _ => true,
        }
}

// ----- one function's code -----

struct Local {
    name: String,
    depth: usize,
    slot: usize,
}

struct FunctionCompiler {
    name: String,
    arity: usize,
    expects_return_value: bool,
    chunk: Chunk,
    locals: Vec<Local>,
    next_slot: usize,
    max_slot: usize,
    scope_depth: usize,
    /// Stack heights of the reachable instructions written so far.
    heights: Ghost<Map<int, nat>>,
    /// The stack height at the end of the code, when the end is reachable.
    end_height: Ghost<Option<nat>>,
    /// Where the forward jumps whose operand is not patched yet start.
    pending: Ghost<Set<int>>,
    /// `Function` constants name functions below this id.
    ref_bound: Ghost<nat>,
}

/// One span per code byte, every local below the next free slot, a scope
/// depth no deeper than the code is long (each scope opens after a jump
/// has been written), and function constants below the bound.
spec fn fc_wf(c: FunctionCompiler) -> bool {
    &&& c.chunk.code@.len() == c.chunk.spans@.len()
    &&& c.next_slot <= c.max_slot
    &&& c.scope_depth <= c.chunk.code@.len()
    &&& forall|i: int| 0 <= i < c.locals@.len() ==> (#[trigger] c.locals@[i]).slot < c.next_slot
    &&& function_refs_ok(c.chunk@.constants, c.ref_bound@)
}

/// A step of code generation: written code is only ever extended, and the
/// function's identity stays.
spec fn fc_step(a: FunctionCompiler, b: FunctionCompiler) -> bool {
    &&& fc_wf(b)
    &&& a.chunk.code@.len() <= b.chunk.code@.len()
    &&& a.chunk.spans@.len() <= b.chunk.spans@.len()
    &&& b.chunk.code@.subrange(0, a.chunk.code@.len() as int) == a.chunk.code@
    &&& b.chunk.spans@.subrange(0, a.chunk.spans@.len() as int) == a.chunk.spans@
    &&& b.name == a.name
    &&& b.arity == a.arity
    &&& b.expects_return_value == a.expects_return_value
    &&& a.next_slot <= b.next_slot
    &&& a.max_slot <= b.max_slot
    &&& b.ref_bound@ == a.ref_bound@
}

/// The function as far as it is written.
spec fn fc_model(c: FunctionCompiler) -> FunctionModel {
    FunctionModel {
        name: c.name@,
        arity: c.arity,
        local_count: c.max_slot,
        expects_return_value: c.expects_return_value,
        chunk: c.chunk@,
    }
}

/// The code written so far is valid as far as it goes.
spec fn fc_valid(c: FunctionCompiler) -> bool {
    open_valid(fc_model(c), c.heights@, c.end_height@, c.pending@)
}

/// Valid code grows: its starts, and its end once written over, stay
/// starts, and the recorded heights stay.
spec fn grown(a: FunctionCompiler, b: FunctionCompiler) -> bool {
    &&& forall|p: int|
        #![trigger is_start(b.chunk.code@, p)]
        (is_start(a.chunk.code@, p) || p == a.chunk.code@.len()) && p < b.chunk.code@.len() ==> is_start(
            b.chunk.code@,
            p,
        )
    &&& a.heights@.submap_of(b.heights@)
    &&& forall|k: int| #[trigger]
        b.heights@.contains_key(k) && k < a.chunk.code@.len() ==> a.heights@.contains_key(k)
}

/// A step that keeps valid code valid and lets it grow.
spec fn valid_step(a: FunctionCompiler, b: FunctionCompiler) -> bool {
    fc_valid(a) ==> fc_valid(b) && grown(a, b)
}

/// Clean code that changes the stack by `delta`: valid code stays valid and
/// grows, no jump is left pending, a reachable end of height `x` becomes
/// one of height `x + delta`, with the first instruction written at height
/// `x`, and an unreachable end stays so.
spec fn emitted(a: FunctionCompiler, b: FunctionCompiler, delta: int) -> bool {
    fc_valid(a) ==> {
        &&& fc_valid(b)
        &&& grown(a, b)
        &&& a.chunk.code@.len() < b.chunk.code@.len()
        &&& b.pending@ == a.pending@
        &&& match a.end_height@ {
            Some(x) => {
                &&& x + delta >= 0
                &&& b.end_height@ == Some((x + delta) as nat)
                &&& b.heights@.contains_key(a.chunk.code@.len() as int)
                &&& b.heights@[a.chunk.code@.len() as int] == x
            },
            None => b.end_height@ is None,
        }
    }
}

/// How much an instruction that falls through changes the stack.
spec fn op_delta(op: OpCode, argc: nat) -> int {
    match op {
        OpCode::Constant | OpCode::Nil | OpCode::True | OpCode::False | OpCode::GetLocal
        | OpCode::GetGlobal => 1,
        OpCode::Pop | OpCode::SetLocal | OpCode::SetGlobal | OpCode::DefineGlobal | OpCode::Add
        | OpCode::Subtract | OpCode::Multiply | OpCode::Divide | OpCode::Equal | OpCode::Greater
        | OpCode::Less => -1,
        OpCode::Call => -argc,
        _ => 0,
    }
}

/// Two pieces of clean code in a row.
proof fn lemma_emitted_then(a: FunctionCompiler, b: FunctionCompiler, c: FunctionCompiler, d1: int, d2: int)
    requires
        fc_step(a, b),
        fc_step(b, c),
        emitted(a, b, d1),
        emitted(b, c, d2),
    ensures
        emitted(a, c, d1 + d2),
{
    lemma_fc_step_trans(a, b, c);
    if fc_valid(a) {
        lemma_grown_trans(a, b, c);
        if a.end_height@ is Some {
            lemma_submap_at(b.heights@, c.heights@, a.chunk.code@.len() as int);
        }
    }
}

/// The height at the end after an instruction with opcode `op` is appended.
spec fn end_after(end: Option<nat>, op: OpCode, argc: nat) -> Option<nat> {
    match end {
        Some(x) => op_fall(op, argc, x),
        None => None,
    }
}

/// A backward jump to `t` from the end of the code lands on a start that
/// has the height of the end.
spec fn loop_ok(c: FunctionCompiler, t: int) -> bool {
    &&& 0 <= t < c.chunk.code@.len()
    &&& is_start(c.chunk.code@, t)
    &&& (c.end_height@ matches Some(x) ==> c.heights@.contains_key(t) && c.heights@[t] == x)
}

/// The bytes of one instruction: the opcode, then a one-byte or a
/// little-endian two-byte operand where it takes one.
spec fn instr_bytes(op: OpCode, arg: u16) -> Seq<u8> {
    if op.spec_width() == 1 {
        seq![op.spec_byte()]
    } else if op.spec_width() == 2 {
        seq![op.spec_byte(), arg as u8]
    } else {
        seq![op.spec_byte()] + le16(arg)
    }
}

/// The binding of `name` among the locals, the latest first.
spec fn local_find(locals: Seq<Local>, name: Seq<char>) -> Option<usize>
    decreases locals.len(),
{
    if locals.len() == 0 {
        None
    } else if locals.last().name@ == name {
        Some(locals.last().slot)
    } else {
        local_find(locals.drop_last(), name)
    }
}

proof fn lemma_local_find_below(locals: Seq<Local>, name: Seq<char>, bound: usize)
    requires
        forall|i: int| 0 <= i < locals.len() ==> (#[trigger] locals[i]).slot < bound,
    ensures
        local_find(locals, name) matches Some(s) ==> s < bound,
    decreases locals.len(),
{
    if locals.len() > 0 {
        lemma_local_find_below(locals.drop_last(), name, bound);
    }
}

proof fn lemma_fc_step_trans(a: FunctionCompiler, b: FunctionCompiler, c: FunctionCompiler)
    requires
        fc_step(a, b),
        fc_step(b, c),
    ensures
        fc_step(a, c),
        valid_step(a, b) && valid_step(b, c) ==> valid_step(a, c),
{
    assert(c.chunk.code@.subrange(0, a.chunk.code@.len() as int) =~= c.chunk.code@.subrange(
        0,
        b.chunk.code@.len() as int,
    ).subrange(0, a.chunk.code@.len() as int));
    assert(c.chunk.spans@.subrange(0, a.chunk.spans@.len() as int) =~= c.chunk.spans@.subrange(
        0,
        b.chunk.spans@.len() as int,
    ).subrange(0, a.chunk.spans@.len() as int));
    if valid_step(a, b) && valid_step(b, c) && fc_valid(a) {
        assert forall|p: int|
            #![trigger is_start(c.chunk.code@, p)]
            (is_start(a.chunk.code@, p) || p == a.chunk.code@.len()) && p < c.chunk.code@.len() implies is_start(
            c.chunk.code@,
            p,
        ) by {
            if is_start(a.chunk.code@, p) {
                lemma_start_bounds(a.chunk.code@, 0, p);
            }
            if p < b.chunk.code@.len() {
                assert(is_start(b.chunk.code@, p));
            } else {
                assert(p == b.chunk.code@.len());
            }
        }
        vstd::map_lib::lemma_submap_of_trans(a.heights@, b.heights@, c.heights@);
        assert forall|k: int| #[trigger]
            c.heights@.contains_key(k) && k < a.chunk.code@.len() implies a.heights@.contains_key(k) by {
            assert(b.heights@.contains_key(k));
        }
    }
}

proof fn lemma_submap_at(m1: Map<int, nat>, m2: Map<int, nat>, k: int)
    requires
        m1.submap_of(m2),
        m1.contains_key(k),
    ensures
        m2.contains_key(k),
        m2[k] == m1[k],
{
    assert(m1.dom().contains(k) && (m2.dom().contains(k) || !m2.dom().contains(k)));
    assert(m1.dom().contains(k) ==> m2.dom().contains(k) && m1[k] == m2[k]);
}

proof fn lemma_grown_trans(a: FunctionCompiler, b: FunctionCompiler, c: FunctionCompiler)
    requires
        grown(a, b),
        grown(b, c),
        a.chunk.code@.len() <= b.chunk.code@.len(),
    ensures
        grown(a, c),
{
    assert forall|p: int|
        #![trigger is_start(c.chunk.code@, p)]
        (is_start(a.chunk.code@, p) || p == a.chunk.code@.len()) && p < c.chunk.code@.len() implies is_start(
        c.chunk.code@,
        p,
    ) by {
        if is_start(a.chunk.code@, p) {
            lemma_start_bounds(a.chunk.code@, 0, p);
        }
        if p < b.chunk.code@.len() {
            assert(is_start(b.chunk.code@, p));
        } else {
            assert(p == b.chunk.code@.len());
        }
    }
    vstd::map_lib::lemma_submap_of_trans(a.heights@, b.heights@, c.heights@);
    assert forall|k: int| #[trigger]
        c.heights@.contains_key(k) && k < a.chunk.code@.len() implies a.heights@.contains_key(k) by {
        assert(b.heights@.contains_key(k));
    }
}

/// A step that writes no code keeps valid code valid, when the constants
/// and slots only grow.
proof fn lemma_same_code(a: FunctionCompiler, b: FunctionCompiler)
    requires
        b.chunk.code@ == a.chunk.code@,
        a.chunk@.constants.len() <= b.chunk@.constants.len(),
        forall|i: int| 0 <= i < a.chunk@.constants.len() ==> b.chunk@.constants[i] == a.chunk@.constants[i],
        a.max_slot <= b.max_slot,
        b.expects_return_value == a.expects_return_value,
        b.heights == a.heights,
        b.end_height == a.end_height,
        b.pending == a.pending,
    ensures
        valid_step(a, b),
{
    if fc_valid(a) {
        lemma_header_grows(fc_model(a), a.heights@, a.end_height@, a.pending@, fc_model(b));
        assert forall|p: int|
            #![trigger is_start(b.chunk.code@, p)]
            (is_start(a.chunk.code@, p) || p == a.chunk.code@.len()) && p < b.chunk.code@.len() implies is_start(
            b.chunk.code@,
            p,
        ) by {}
    }
}

impl FunctionCompiler {
    fn new(name: String, arity: usize, expects_return_value: bool, Ghost(ref_bound): Ghost<nat>) -> (c: FunctionCompiler)
        ensures
            fc_wf(c),
            fc_valid(c),
            c.name == name,
            c.arity == arity,
            c.expects_return_value == expects_return_value,
            c.chunk.code@.len() == 0,
            c.chunk@.constants.len() == 0,
            c.locals@.len() == 0,
            c.next_slot == 0,
            c.max_slot == 0,
            c.scope_depth == 0,
            c.pending@ == Set::<int>::empty(),
            c.end_height@ == Some(0nat),
            c.ref_bound@ == ref_bound,
    {
        let c = FunctionCompiler {
            name,
            arity,
            expects_return_value,
            chunk: Chunk::new(),
            locals: Vec::new(),
            next_slot: 0,
            max_slot: 0,
            scope_depth: 0,
            heights: Ghost(Map::empty()),
            end_height: Ghost(Some(0nat)),
            pending: Ghost(Set::empty()),
            ref_bound: Ghost(ref_bound),
        };
        proof {
            assert(decodes_from(c.chunk.code@, 0));
            assert forall|ip: int| #[trigger] is_start(c.chunk.code@, ip) implies false by {}
        }
        c
    }

    fn finish(self) -> (f: FunctionBytecode)
        ensures
            f.name == self.name,
            f.arity == self.arity,
            f.local_count == self.max_slot,
            f.expects_return_value == self.expects_return_value,
            f.chunk == self.chunk,
            f@ == fc_model(self),
    {
        FunctionBytecode {
            name: self.name,
            arity: self.arity,
            local_count: self.max_slot,
            expects_return_value: self.expects_return_value,
            chunk: self.chunk,
        }
    }

    /// Claims the next slot for a name at the current depth.
    fn define_local(&mut self, name: String) -> (slot: usize)
        requires
            fc_wf(*old(self)),
            old(self).next_slot < usize::MAX,
        ensures
            fc_step(*old(self), *final(self)),
            valid_step(*old(self), *final(self)),
            slot == old(self).next_slot,
            final(self).next_slot == old(self).next_slot + 1,
            final(self).chunk == old(self).chunk,
            final(self).scope_depth == old(self).scope_depth,
            final(self).heights == old(self).heights,
            final(self).end_height == old(self).end_height,
            final(self).pending == old(self).pending,
            final(self).locals@.len() == old(self).locals@.len() + 1,
            final(self).locals@.last().slot == slot,
            final(self).locals@.last().name == name,
    {
        let slot = self.next_slot;
        self.next_slot = self.next_slot + 1;
        if self.max_slot < self.next_slot {
            self.max_slot = self.next_slot;
        }
        self.locals.push(Local { name, depth: self.scope_depth, slot });
        proof {
            assert(self.chunk.code@.subrange(0, self.chunk.code@.len() as int) =~= self.chunk.code@);
            assert(self.chunk.spans@.subrange(0, self.chunk.spans@.len() as int) =~= self.chunk.spans@);
            lemma_same_code(*old(self), *self);
        }
        slot
    }

    /// The slot of the latest local called `name`, if any.
    fn resolve_local(&self, name: &str) -> (r: Option<usize>)
        requires
            fc_wf(*self),
        ensures
            r == local_find(self.locals@, name@),
            r matches Some(slot) ==> slot < self.next_slot,
    {
        proof {
            lemma_local_find_below(self.locals@, name@, self.next_slot);
            assert(self.locals@.take(self.locals@.len() as int) =~= self.locals@);
        }
        let mut i: usize = self.locals.len();
        while i > 0
            invariant
                i <= self.locals@.len(),
                fc_wf(*self),
                local_find(self.locals@, name@) == local_find(self.locals@.take(i as int), name@),
            decreases i,
        {
            proof {
                assert(self.locals@.take(i as int).drop_last() =~= self.locals@.take(i - 1));
            }
            if same_text(self.locals[i - 1].name.as_str(), name) {
                return Some(self.locals[i - 1].slot);
            }
            i = i - 1;
        }
        None
    }

    fn enter_scope(&mut self)
        requires
            fc_wf(*old(self)),
            old(self).scope_depth < old(self).chunk.code@.len(),
        ensures
            fc_step(*old(self), *final(self)),
            valid_step(*old(self), *final(self)),
            final(self).scope_depth == old(self).scope_depth + 1,
            final(self).chunk == old(self).chunk,
            final(self).locals == old(self).locals,
            final(self).next_slot == old(self).next_slot,
            final(self).heights == old(self).heights,
            final(self).end_height == old(self).end_height,
            final(self).pending == old(self).pending,
    {
        let _ = self.current_offset();
        self.scope_depth = self.scope_depth + 1;
        proof {
            assert(self.chunk.code@.subrange(0, self.chunk.code@.len() as int) =~= self.chunk.code@);
            assert(self.chunk.spans@.subrange(0, self.chunk.spans@.len() as int) =~= self.chunk.spans@);
            lemma_same_code(*old(self), *self);
        }
    }

    /// Drops the locals of the innermost scope and leaves it.
    fn exit_scope(&mut self)
        requires
            fc_wf(*old(self)),
        ensures
            fc_step(*old(self), *final(self)),
            valid_step(*old(self), *final(self)),
            final(self).scope_depth == if old(self).scope_depth > 0 {
                old(self).scope_depth - 1
            } else {
                0
            },
            final(self).chunk == old(self).chunk,
            final(self).next_slot == old(self).next_slot,
            final(self).heights == old(self).heights,
            final(self).end_height == old(self).end_height,
            final(self).pending == old(self).pending,
            final(self).locals@.len() <= old(self).locals@.len(),
            final(self).locals@ == old(self).locals@.take(final(self).locals@.len() as int),
    {
        while self.locals.len() > 0 && self.locals[self.locals.len() - 1].depth == self.scope_depth
            invariant
                fc_wf(*self),
                self.chunk == old(self).chunk,
                self.next_slot == old(self).next_slot,
                self.max_slot == old(self).max_slot,
                self.scope_depth == old(self).scope_depth,
                self.name == old(self).name,
                self.arity == old(self).arity,
                self.expects_return_value == old(self).expects_return_value,
                self.heights == old(self).heights,
                self.end_height == old(self).end_height,
                self.pending == old(self).pending,
                self.ref_bound == old(self).ref_bound,
                self.locals@.len() <= old(self).locals@.len(),
                self.locals@ == old(self).locals@.take(self.locals@.len() as int),
            decreases self.locals@.len(),
        {
            let _ = self.locals.pop();
        }
        if self.scope_depth > 0 {
            self.scope_depth = self.scope_depth - 1;
        }
        proof {
            assert(self.chunk.code@.subrange(0, self.chunk.code@.len() as int) =~= self.chunk.code@);
            assert(self.chunk.spans@.subrange(0, self.chunk.spans@.len() as int) =~= self.chunk.spans@);
            lemma_same_code(*old(self), *self);
        }
    }

    fn current_offset(&self) -> (n: usize)
        ensures
            n == self.chunk.code@.len(),
    {
        self.chunk.code.len()
    }

    /// Writes one whole instruction and carries the record of stack heights
    /// over it. When the code was valid, the operand is in range, a
    /// backward jump lands well, and a reachable instruction finds enough
    /// on the stack, the code stays valid.
    fn append_instr(&mut self, op: OpCode, arg: u16, span: Span)
        requires
            fc_wf(*old(self)),
            op.spec_width() == 2 ==> arg < 256,
        ensures
            fc_step(*old(self), *final(self)),
            final(self).chunk.code@ == old(self).chunk.code@ + instr_bytes(op, arg),
            final(self).chunk@.constants == old(self).chunk@.constants,
            final(self).locals == old(self).locals,
            final(self).next_slot == old(self).next_slot,
            final(self).max_slot == old(self).max_slot,
            final(self).scope_depth == old(self).scope_depth,
            final(self).heights@ == appended_heights(
                old(self).heights@,
                old(self).end_height@,
                old(self).chunk.code@.len() as int,
            ),
            final(self).end_height@ == end_after(old(self).end_height@, op, arg as nat),
            final(self).pending@ == if op == OpCode::Jump || op == OpCode::JumpIfFalse {
                old(self).pending@.insert(old(self).chunk.code@.len() as int)
            } else {
                old(self).pending@
            },
            ({
                let at = old(self).chunk.code@.len() as int;
                (fc_valid(*old(self)) && local_operand_ok(fc_model(*final(self)), at) && (op == OpCode::Loop
                    ==> loop_ok(*old(self), at + 3 - arg)) && (old(self).end_height@ matches Some(x)
                    ==> x >= op_needs(op, arg as nat) && !(op == OpCode::Return
                    && old(self).expects_return_value && x < 1))) ==> fc_valid(*final(self)) && grown(
                    *old(self),
                    *final(self),
                ) && targets_inside(final(self).chunk.code@, final(self).pending@) && (!(op == OpCode::Jump
                    || op == OpCode::JumpIfFalse || op == OpCode::Loop || op == OpCode::Return) ==> emitted(
                    *old(self),
                    *final(self),
                    op_delta(op, arg as nat),
                ))
            }),
    {
        let ghost before = *self;
        let ghost at = before.chunk.code@.len() as int;
        self.chunk.write_op(op, span);
        let width = op.width();
        if width == 2 {
            self.chunk.write_u8(arg as u8, span);
        } else if width == 3 {
            self.chunk.write_u16(arg, span);
        }
        self.heights = Ghost(appended_heights(before.heights@, before.end_height@, at));
        self.end_height = Ghost(end_after(before.end_height@, op, arg as nat));
        self.pending = Ghost(
            if op == OpCode::Jump || op == OpCode::JumpIfFalse {
                before.pending@.insert(at)
            } else {
                before.pending@
            },
        );
        proof {
            assert(self.chunk.code@ =~= before.chunk.code@ + instr_bytes(op, arg));
            assert(self.chunk.code@.subrange(0, at) =~= before.chunk.code@);
            assert(self.chunk.spans@.subrange(0, before.chunk.spans@.len() as int) =~= before.chunk.spans@);
            let f = fc_model(before);
            let f2 = fc_model(*self);
            let code2 = self.chunk.code@;
            lemma_op_effect(f2, at, op, arg as nat);
            if fc_valid(before) && local_operand_ok(f2, at) && (op == OpCode::Loop ==> loop_ok(
                before,
                at + 3 - arg,
            )) && (before.end_height@ matches Some(x) ==> x >= op_needs(op, arg as nat) && !(op
                == OpCode::Return && before.expects_return_value && x < 1)) {
                if op == OpCode::Loop {
                    lemma_le16_value(arg);
                    assert(operand(code2, at) == arg);
                }
                assert(fits_at(code2, at));
                lemma_append_valid(f, before.heights@, before.end_height@, before.pending@, f2);
                assert(appended_end(f2, before.end_height@, at) == self.end_height@);
                assert(appended_pending(before.pending@, code2, at) == self.pending@);
                assert forall|k: int| #[trigger] before.heights@.contains_key(k) implies k != at by {
                    assert(is_start(before.chunk.code@, k));
                    lemma_start_bounds(before.chunk.code@, 0, k);
                }
                assert(before.heights@.submap_of(self.heights@));
                assert(grown(before, *self));
            }
        }
    }

    /// A one-byte instruction.
    fn emit_op(&mut self, op: OpCode, span: Span)
        requires
            fc_wf(*old(self)),
            op.spec_width() == 1,
        ensures
            fc_step(*old(self), *final(self)),
            final(self).chunk.code@ == old(self).chunk.code@.push(op.spec_byte()),
            final(self).locals == old(self).locals,
            final(self).next_slot == old(self).next_slot,
            final(self).max_slot == old(self).max_slot,
            final(self).scope_depth == old(self).scope_depth,
            final(self).end_height@ == end_after(old(self).end_height@, op, 0),
            final(self).pending@ == old(self).pending@,
            (old(self).end_height@ matches Some(x) ==> x >= op_needs(op, 0) && !(op == OpCode::Return
                && old(self).expects_return_value && x < 1)) ==> valid_step(*old(self), *final(self)) && (
            fc_valid(*old(self)) ==> targets_inside(final(self).chunk.code@, final(self).pending@)),
            op != OpCode::Return && (old(self).end_height@ matches Some(x) ==> x >= op_needs(op, 0)) ==> emitted(
                *old(self),
                *final(self),
                op_delta(op, 0),
            ),
            old(self).end_height@ matches Some(x) ==> final(self).heights@.contains_key(
                old(self).chunk.code@.len() as int,
            ) && final(self).heights@[old(self).chunk.code@.len() as int] == x,
    {
        self.append_instr(op, 0, span);
        proof {
            assert(instr_bytes(op, 0) =~= seq![op.spec_byte()]);
        }
    }

    /// A `Call` of `argc` arguments.
    fn emit_call(&mut self, argc: u8, span: Span)
        requires
            fc_wf(*old(self)),
        ensures
            fc_step(*old(self), *final(self)),
            final(self).locals == old(self).locals,
            final(self).next_slot == old(self).next_slot,
            final(self).max_slot == old(self).max_slot,
            final(self).scope_depth == old(self).scope_depth,
            final(self).end_height@ == end_after(old(self).end_height@, OpCode::Call, argc as nat),
            final(self).pending@ == old(self).pending@,
            (old(self).end_height@ matches Some(x) ==> x >= argc + 1) ==> valid_step(*old(self), *final(self))
                && emitted(*old(self), *final(self), -(argc as int)),
            old(self).end_height@ matches Some(x) ==> final(self).heights@.contains_key(
                old(self).chunk.code@.len() as int,
            ) && final(self).heights@[old(self).chunk.code@.len() as int] == x,
    {
        self.append_instr(OpCode::Call, argc as u16, span);
    }

    /// An instruction with a slot operand; a slot beyond 16 bits is refused.
    fn emit_slot_op(&mut self, op: OpCode, slot: usize, span: Span) -> (r: Result<(), MuninnError>)
        requires
            fc_wf(*old(self)),
            op == OpCode::GetLocal || op == OpCode::SetLocal,
        ensures
            fc_step(*old(self), *final(self)),
            slot <= 0xffff ==> r is Ok && final(self).chunk.code@ == old(self).chunk.code@.push(op.spec_byte()) + le16(
                slot as u16,
            ),
            slot > 0xffff ==> r is Err && final(self).chunk.code@ == old(self).chunk.code@,
            final(self).locals == old(self).locals,
            final(self).next_slot == old(self).next_slot,
            final(self).max_slot == old(self).max_slot,
            final(self).scope_depth == old(self).scope_depth,
            r is Ok ==> final(self).end_height@ == end_after(old(self).end_height@, op, 0),
            final(self).pending@ == old(self).pending@,
            r is Ok && slot < old(self).max_slot && (old(self).end_height@ matches Some(x) ==> x >= op_needs(op, 0))
                ==> valid_step(*old(self), *final(self)) && emitted(*old(self), *final(self), op_delta(op, 0)),
            r is Ok ==> (old(self).end_height@ matches Some(x) ==> final(self).heights@.contains_key(
                old(self).chunk.code@.len() as int,
            ) && final(self).heights@[old(self).chunk.code@.len() as int] == x),
    {
        if slot > 0xffff {
            proof {
                assert(self.chunk.code@.subrange(0, self.chunk.code@.len() as int) =~= self.chunk.code@);
                assert(self.chunk.spans@.subrange(0, self.chunk.spans@.len() as int) =~= self.chunk.spans@);
            }
            return Err(MuninnError::new("compiler", "local slot overflow", span));
        }
        self.append_instr(op, slot as u16, span);
        proof {
            assert(instr_bytes(op, slot as u16) =~= seq![op.spec_byte()] + le16(slot as u16));
            lemma_le16_value(slot as u16);
            assert(operand(self.chunk.code@, old(self).chunk.code@.len() as int) == slot);
        }
        Ok(())
    }

    /// An instruction whose operand indexes `name` in the constant pool.
    fn emit_named_op(&mut self, op: OpCode, name: &str, span: Span) -> (r: Result<(), MuninnError>)
        requires
            fc_wf(*old(self)),
            op == OpCode::DefineGlobal || op == OpCode::GetGlobal || op == OpCode::SetGlobal,
        ensures
            fc_step(*old(self), *final(self)),
            r is Ok ==> final(self).chunk.code@.len() == old(self).chunk.code@.len() + 3,
            r is Err ==> final(self).chunk.code@ == old(self).chunk.code@,
            final(self).locals == old(self).locals,
            final(self).next_slot == old(self).next_slot,
            final(self).max_slot == old(self).max_slot,
            final(self).scope_depth == old(self).scope_depth,
            r is Ok ==> final(self).end_height@ == end_after(old(self).end_height@, op, 0),
            final(self).pending@ == old(self).pending@,
            r is Ok && (old(self).end_height@ matches Some(x) ==> x >= op_needs(op, 0)) ==> valid_step(
                *old(self),
                *final(self),
            ) && emitted(*old(self), *final(self), op_delta(op, 0)),
            r is Ok ==> (old(self).end_height@ matches Some(x) ==> final(self).heights@.contains_key(
                old(self).chunk.code@.len() as int,
            ) && final(self).heights@[old(self).chunk.code@.len() as int] == x),
    {
        let index = match self.chunk.add_constant(Constant::String(owned(name))) {
            Ok(index) => index,
            Err(message) => {
                proof {
                    assert(self.chunk.code@.subrange(0, old(self).chunk.code@.len() as int) =~= old(self).chunk.code@);
                    assert(self.chunk.spans@.subrange(0, old(self).chunk.spans@.len() as int) =~= old(self).chunk.spans@);
                }
                return Err(MuninnError::from_string("compiler", message, span));
            },
        };
        let ghost added = *self;
        proof {
            assert(self.chunk.code@.subrange(0, old(self).chunk.code@.len() as int) =~= old(self).chunk.code@);
            assert(self.chunk.spans@.subrange(0, old(self).chunk.spans@.len() as int) =~= old(self).chunk.spans@);
            lemma_same_code(*old(self), added);
            assert(index < self.chunk@.constants.len());
            assert(self.chunk@.constants[index as int] is Str);
        }
        self.append_instr(op, index, span);
        proof {
            lemma_le16_value(index);
            assert(self.chunk.code@ =~= added.chunk.code@ + (seq![op.spec_byte()] + le16(index)));
            assert(operand(self.chunk.code@, old(self).chunk.code@.len() as int) == index);
            lemma_fc_step_trans(*old(self), added, *self);
        }
        Ok(())
    }

    /// A `Constant` instruction loading `constant` from the pool.
    fn emit_constant(&mut self, constant: Constant, span: Span) -> (r: Result<(), MuninnError>)
        requires
            fc_wf(*old(self)),
            constant@ matches ConstantModel::Function(id) ==> id < old(self).ref_bound@,
        ensures
            fc_step(*old(self), *final(self)),
            r is Ok ==> final(self).chunk.code@.len() == old(self).chunk.code@.len() + 3,
            r is Err ==> final(self).chunk.code@ == old(self).chunk.code@,
            final(self).locals == old(self).locals,
            final(self).next_slot == old(self).next_slot,
            final(self).max_slot == old(self).max_slot,
            final(self).scope_depth == old(self).scope_depth,
            r is Ok ==> final(self).end_height@ == end_after(old(self).end_height@, OpCode::Constant, 0),
            final(self).pending@ == old(self).pending@,
            r is Ok ==> valid_step(*old(self), *final(self)) && emitted(*old(self), *final(self), 1),
            r is Ok ==> (old(self).end_height@ matches Some(x) ==> final(self).heights@.contains_key(
                old(self).chunk.code@.len() as int,
            ) && final(self).heights@[old(self).chunk.code@.len() as int] == x),
    {
        let ghost value = constant@;
        let index = match self.chunk.add_constant(constant) {
            Ok(index) => index,
            Err(message) => {
                proof {
                    assert(self.chunk.code@.subrange(0, old(self).chunk.code@.len() as int) =~= old(self).chunk.code@);
                    assert(self.chunk.spans@.subrange(0, old(self).chunk.spans@.len() as int) =~= old(self).chunk.spans@);
                }
                return Err(MuninnError::from_string("compiler", message, span));
            },
        };
        let ghost added = *self;
        proof {
            assert(self.chunk.code@.subrange(0, old(self).chunk.code@.len() as int) =~= old(self).chunk.code@);
            assert(self.chunk.spans@.subrange(0, old(self).chunk.spans@.len() as int) =~= old(self).chunk.spans@);
            assert forall|i: int| 0 <= i < self.chunk@.constants.len() implies (
            #[trigger] self.chunk@.constants[i] matches ConstantModel::Function(t) ==> t < self.ref_bound@) by {
                if i < old(self).chunk@.constants.len() {
                    assert(self.chunk@.constants[i] == old(self).chunk@.constants[i]);
                } else {
                    assert(self.chunk@.constants[i] == value);
                }
            }
            lemma_same_code(*old(self), added);
            assert(index < self.chunk@.constants.len());
        }
        self.append_instr(OpCode::Constant, index, span);
        proof {
            lemma_le16_value(index);
            assert(self.chunk.code@ =~= added.chunk.code@ + (seq![OpCode::Constant.spec_byte()] + le16(index)));
            assert(operand(self.chunk.code@, old(self).chunk.code@.len() as int) == index);
            lemma_fc_step_trans(*old(self), added, *self);
        }
        Ok(())
    }

    /// A jump whose two operand bytes are patched later; gives where they are.
    fn emit_jump(&mut self, op: OpCode, span: Span) -> (patch_at: usize)
        requires
            fc_wf(*old(self)),
            op == OpCode::Jump || op == OpCode::JumpIfFalse,
        ensures
            fc_step(*old(self), *final(self)),
            patch_at == old(self).chunk.code@.len() + 1,
            final(self).chunk.code@ == old(self).chunk.code@.push(op.spec_byte()) + le16(0xffff),
            final(self).locals == old(self).locals,
            final(self).next_slot == old(self).next_slot,
            final(self).max_slot == old(self).max_slot,
            final(self).scope_depth == old(self).scope_depth,
            final(self).end_height@ == end_after(old(self).end_height@, op, 0),
            final(self).pending@ == old(self).pending@.insert(old(self).chunk.code@.len() as int),
            final(self).heights@ == appended_heights(
                old(self).heights@,
                old(self).end_height@,
                old(self).chunk.code@.len() as int,
            ),
            (old(self).end_height@ matches Some(x) ==> x >= op_needs(op, 0)) ==> valid_step(
                *old(self),
                *final(self),
            ),
    {
        self.append_instr(op, 0xffff, span);
        let patch_at = self.current_offset() - 2;
        proof {
            assert(instr_bytes(op, 0xffff) =~= seq![op.spec_byte()] + le16(0xffff));
            assert(self.chunk.code@ =~= old(self).chunk.code@.push(op.spec_byte()) + le16(0xffff));
        }
        patch_at
    }

    /// Points the jump whose operand is at `patch_at` at the end of the
    /// code written so far, or reports a distance beyond 16 bits.
    fn patch_jump(&mut self, patch_at: usize, span: Span, errors: &mut Vec<MuninnError>)
        requires
            fc_wf(*old(self)),
            patch_at + 2 <= old(self).chunk.code@.len(),
            1 <= patch_at,
        ensures
            fc_wf(*final(self)),
            final(self).chunk.spans == old(self).chunk.spans,
            final(self).chunk.constants == old(self).chunk.constants,
            final(self).locals == old(self).locals,
            final(self).next_slot == old(self).next_slot,
            final(self).max_slot == old(self).max_slot,
            final(self).scope_depth == old(self).scope_depth,
            final(self).name == old(self).name,
            final(self).arity == old(self).arity,
            final(self).expects_return_value == old(self).expects_return_value,
            final(self).ref_bound == old(self).ref_bound,
            final(self).heights == old(self).heights,
            final(self).chunk.code@.len() == old(self).chunk.code@.len(),
            ({
                let distance = old(self).chunk.code@.len() - (patch_at + 2);
                if distance <= u16::MAX {
                    &&& final(self).chunk.code@ == old(self).chunk.code@.update(
                        patch_at as int,
                        le16(distance as u16)[0],
                    ).update(patch_at + 1, le16(distance as u16)[1])
                    &&& final(errors)@ == old(errors)@
                } else {
                    &&& final(self).chunk.code@ == old(self).chunk.code@
                    &&& final(errors)@.len() == old(errors)@.len() + 1
                }
            }),
            final(self).end_height@ == patched_end(old(self).heights@, old(self).end_height@, patch_at - 1),
            final(self).pending@ == old(self).pending@.remove(patch_at - 1),
            final(errors)@.len() == old(errors)@.len() && fc_valid(*old(self)) && old(self).pending@.contains(
                patch_at - 1,
            ) && (old(self).heights@.contains_key(patch_at - 1) ==> (old(self).end_height@ is None
                || old(self).end_height@ == Some(old(self).heights@[patch_at - 1]))) ==> fc_valid(*final(self))
                && grown(*old(self), *final(self)),
    {
        let ghost before = *self;
        let ghost ip = patch_at - 1;
        self.end_height = Ghost(patched_end(before.heights@, before.end_height@, ip));
        self.pending = Ghost(before.pending@.remove(ip));
        let jump = self.current_offset() - (patch_at + 2);
        if jump > 0xffff {
            errors.push(MuninnError::new("compiler", "jump offset overflow", span));
            return;
        }
        let value = jump as u16;
        self.chunk.code.set(patch_at, (value & 0xff) as u8);
        self.chunk.code.set(patch_at + 1, ((value >> 8u16) & 0xff) as u8);
        proof {
            let code = before.chunk.code@;
            let code2 = self.chunk.code@;
            assert(code2[patch_at as int] == le16(value)[0]);
            assert(code2[patch_at + 1] == le16(value)[1]);
            if fc_valid(before) && before.pending@.contains(ip) && (before.heights@.contains_key(ip)
                ==> (before.end_height@ is None || before.end_height@ == Some(before.heights@[ip]))) {
                lemma_le16_value(value);
                assert(operand(code2, ip) == value);
                lemma_patch_valid(fc_model(before), before.heights@, before.end_height@, before.pending@, fc_model(*self), ip);
                assert forall|p: int|
                    #![trigger is_start(code2, p)]
                    (is_start(code, p) || p == code.len()) && p < code2.len() implies is_start(code2, p) by {}
            }
        }
    }

    /// A backward jump to `loop_start`; a distance beyond 16 bits is refused.
    fn emit_loop(&mut self, loop_start: usize, span: Span) -> (r: Result<(), MuninnError>)
        requires
            fc_wf(*old(self)),
            loop_start <= old(self).chunk.code@.len(),
        ensures
            fc_step(*old(self), *final(self)),
            ({
                let distance = old(self).chunk.code@.len() + 3 - loop_start;
                if distance <= 0xffff {
                    &&& r is Ok
                    &&& final(self).chunk.code@ == old(self).chunk.code@.push(OpCode::Loop.spec_byte()) + le16(
                        distance as u16,
                    )
                } else {
                    r is Err && final(self).chunk.code@ == old(self).chunk.code@
                }
            }),
            final(self).locals == old(self).locals,
            final(self).next_slot == old(self).next_slot,
            final(self).max_slot == old(self).max_slot,
            final(self).scope_depth == old(self).scope_depth,
            r is Ok ==> final(self).end_height@ is None,
            final(self).pending@ == old(self).pending@,
            r is Ok && loop_ok(*old(self), loop_start as int) ==> valid_step(*old(self), *final(self)),
    {
        let distance = self.current_offset() - loop_start;
        if distance > 0xffff - 3 {
            proof {
                assert(self.chunk.code@.subrange(0, self.chunk.code@.len() as int) =~= self.chunk.code@);
                assert(self.chunk.spans@.subrange(0, self.chunk.spans@.len() as int) =~= self.chunk.spans@);
            }
            return Err(MuninnError::new("compiler", "loop offset overflow", span));
        }
        let offset = (distance + 3) as u16;
        self.append_instr(OpCode::Loop, offset, span);
        proof {
            assert(instr_bytes(OpCode::Loop, offset) =~= seq![OpCode::Loop.spec_byte()] + le16(offset));
            assert(self.chunk.code@ =~= old(self).chunk.code@.push(OpCode::Loop.spec_byte()) + le16(offset));
            lemma_le16_value(offset);
            assert(operand(self.chunk.code@, old(self).chunk.code@.len() as int) == offset);
        }
        Ok(())
    }
}

/// Writing a jump operand into code written since `a` keeps the step from `a`.
proof fn lemma_patched_step(a: FunctionCompiler, b: FunctionCompiler, c: FunctionCompiler, patch_at: int)
    requires
        fc_step(a, b),
        fc_wf(c),
        a.chunk.code@.len() <= patch_at,
        c.chunk.code@.len() == b.chunk.code@.len(),
        forall|i: int| 0 <= i < patch_at ==> c.chunk.code@[i] == b.chunk.code@[i],
        c.chunk.spans == b.chunk.spans,
        c.name == b.name,
        c.arity == b.arity,
        c.expects_return_value == b.expects_return_value,
        c.next_slot == b.next_slot,
        c.max_slot == b.max_slot,
        c.ref_bound == b.ref_bound,
    ensures
        fc_step(a, c),
{
    assert(c.chunk.code@.subrange(0, a.chunk.code@.len() as int) =~= a.chunk.code@) by {
        assert forall|i: int| 0 <= i < a.chunk.code@.len() implies c.chunk.code@[i] == a.chunk.code@[i] by {
            assert(b.chunk.code@.subrange(0, a.chunk.code@.len() as int)[i] == b.chunk.code@[i]);
        }
    }
}

/// A statement that may stand in a block may stand at the top level.
proof fn lemma_surface_top_level(st: Stmt)
    requires
        surface_stmt(st, false),
    ensures
        surface_stmt(st, true),
{
}

proof fn lemma_surface_stmt_in(ss: Seq<Stmt>, top: bool, i: int)
    requires
        surface_stmts(ss, top),
        0 <= i < ss.len(),
    ensures
        surface_stmt(ss[i], top),
    decreases ss.len(),
{
    if i < ss.len() - 1 {
        lemma_surface_stmt_in(ss.drop_last(), top, i);
    }
}

proof fn lemma_surface_arg_in(args: Seq<Expr>, i: int)
    requires
        surface_args(args),
        0 <= i < args.len(),
    ensures
        surface_expr(args[i]),
    decreases args.len(),
{
    if i < args.len() - 1 {
        lemma_surface_arg_in(args.drop_last(), i);
    }
}

/// Slots claimed by a prefix of statements, one more statement at a time.
proof fn lemma_locals_prefix(ss: Seq<Stmt>, i: int)
    requires
        0 <= i < ss.len(),
    ensures
        stmts_locals(ss.take(i + 1)) == stmts_locals(ss.take(i)) + stmt_locals(ss[i]),
        stmts_locals(ss.take(i)) + stmt_locals(ss[i]) <= stmts_locals(ss),
    decreases ss.len(),
{
    assert(ss.take(i + 1).drop_last() =~= ss.take(i));
    if i < ss.len() - 1 {
        lemma_locals_prefix(ss.drop_last(), i);
        assert(ss.drop_last().take(i) =~= ss.take(i));
    } else {
        assert(ss.take(i + 1) =~= ss);
    }
}

/// A compiled function: one span per byte, ending in `Return`, with a slot
/// for every parameter.
pub open spec fn function_ok(f: FunctionBytecode) -> bool {
    &&& f.chunk.code@.len() == f.chunk.spans@.len()
    &&& f.chunk.code@.len() > 0
    &&& f.chunk.code@.last() == OpCode::Return.spec_byte()
    &&& f.local_count >= f.arity
}

/// The id recorded for `name` among the pairs, the latest record first.
pub open spec fn id_find(ids: Seq<(String, usize)>, name: Seq<char>) -> Option<usize>
    decreases ids.len(),
{
    if ids.len() == 0 {
        None
    } else if ids.last().0@ == name {
        Some(ids.last().1)
    } else {
        id_find(ids.drop_last(), name)
    }
}

proof fn lemma_id_find_in(ids: Seq<(String, usize)>, name: Seq<char>)
    ensures
        id_find(ids, name) matches Some(id) ==> exists|k: int| 0 <= k < ids.len() && #[trigger] ids[k].1 == id,
    decreases ids.len(),
{
    if ids.len() > 0 && ids.last().0@ != name {
        lemma_id_find_in(ids.drop_last(), name);
        if id_find(ids.drop_last(), name) is Some {
            let rest = ids.drop_last();
            let k = choose|k: int| 0 <= k < rest.len() && #[trigger] rest[k].1 == id_find(rest, name)->Some_0;
            assert(ids[k] == rest[k]);
        }
    } else if ids.len() > 0 {
        assert(ids[ids.len() - 1].1 == ids.last().1);
    }
}

/// Name, arity and whether a value is returned, of each function declared
/// among the statements, in order.
pub open spec fn declared_functions(ss: Seq<Stmt>) -> Seq<(Seq<char>, usize, bool)>
    decreases ss.len(),
{
    if ss.len() == 0 {
        Seq::empty()
    } else {
        let rest = declared_functions(ss.drop_last());
        match ss.last().kind {
            StmtKind::Function(d) => rest.push((d.name@, d.params@.len() as usize, !(d.return_type is Void))),
            _ => rest,
        }
    }
}

pub open spec fn function_signature(f: FunctionBytecode) -> (Seq<char>, usize, bool) {
    (f.name@, f.arity, f.expects_return_value)
}

// ----- the module -----

struct ModuleCompiler {
    module: BytecodeModule,
    function_ids: Vec<(String, usize)>,
    errors: Vec<MuninnError>,
}

/// A step that only adds diagnostics.
spec fn errors_only(a: ModuleCompiler, b: ModuleCompiler) -> bool {
    &&& b.module == a.module
    &&& b.function_ids == a.function_ids
    &&& a.errors@.len() <= b.errors@.len()
}

/// Clean code for an expression: it pushes one value.
spec fn expr_emitted(a: FunctionCompiler, b: FunctionCompiler) -> bool {
    emitted(a, b, 1)
}

/// Clean code for a statement: valid code stays valid and grows, no jump
/// is left pending, and the stack is as high as before where the end is
/// still reachable.
spec fn stmt_emitted(a: FunctionCompiler, b: FunctionCompiler) -> bool {
    fc_valid(a) ==> {
        &&& fc_valid(b)
        &&& grown(a, b)
        &&& b.pending@ == a.pending@
        &&& (b.end_height@ matches Some(y) ==> a.end_height@ == Some(y))
    }
}

/// Valid code has nothing recorded at its end yet.
proof fn lemma_fresh_end(c: FunctionCompiler)
    requires
        fc_valid(c),
    ensures
        !c.heights@.contains_key(c.chunk.code@.len() as int),
        !c.pending@.contains(c.chunk.code@.len() as int),
        forall|k: int| #[trigger] c.heights@.contains_key(k) ==> 0 <= k < c.chunk.code@.len() && is_start(c.chunk.code@, k),
{
    let len = c.chunk.code@.len() as int;
    assert forall|k: int| #[trigger] c.heights@.contains_key(k) implies 0 <= k < len && is_start(c.chunk.code@, k) by {
        lemma_start_bounds(c.chunk.code@, 0, k);
    }
    if c.pending@.contains(len) {
        lemma_start_bounds(c.chunk.code@, 0, len);
    }
}

/// Two statements in a row.
proof fn lemma_stmt_then(a: FunctionCompiler, b: FunctionCompiler, c: FunctionCompiler)
    requires
        fc_step(a, b),
        fc_step(b, c),
        stmt_emitted(a, b),
        stmt_emitted(b, c),
    ensures
        stmt_emitted(a, c),
{
    lemma_fc_step_trans(a, b, c);
}

/// A step that writes no code and keeps the record of heights.
proof fn lemma_idle_stmt(a: FunctionCompiler, b: FunctionCompiler)
    requires
        fc_step(a, b),
        valid_step(a, b),
        b.chunk.code@ == a.chunk.code@,
        b.end_height == a.end_height,
        b.pending == a.pending,
    ensures
        stmt_emitted(a, b),
{
}

/// Clean code followed by a step that writes no code.
proof fn lemma_emitted_idle(a: FunctionCompiler, b: FunctionCompiler, c: FunctionCompiler, d: int)
    requires
        emitted(a, b, d),
        fc_step(b, c),
        valid_step(b, c),
        c.chunk.code@ == b.chunk.code@,
        c.heights == b.heights,
        c.end_height == b.end_height,
        c.pending == b.pending,
    ensures
        emitted(a, c, d),
{
    if fc_valid(a) {
        lemma_grown_trans(a, b, c);
    }
}

/// After a conditional jump written at the end of valid code reached with
/// height `x`, the jump is pending with height `x`, and so is the end.
proof fn lemma_jif_emitted(s1: FunctionCompiler, s2: FunctionCompiler)
    requires
        fc_valid(s1),
        fc_step(s1, s2),
        s2.pending@ == s1.pending@.insert(s1.chunk.code@.len() as int),
        s2.heights@ == appended_heights(s1.heights@, s1.end_height@, s1.chunk.code@.len() as int),
        s2.end_height@ == end_after(s1.end_height@, OpCode::JumpIfFalse, 0),
        s1.end_height@ matches Some(x) ==> x >= 1,
        valid_step(s1, s2),
    ensures
        fc_valid(s2),
        grown(s1, s2),
        s2.end_height@ == s1.end_height@,
        !s1.pending@.contains(s1.chunk.code@.len() as int),
        s1.end_height@ is Some <==> s2.heights@.contains_key(s1.chunk.code@.len() as int),
        s1.end_height@ matches Some(x) ==> s2.heights@[s1.chunk.code@.len() as int] == x,
{
    lemma_fresh_end(s1);
}

/// A function closed by a `Return`, with nothing pending: its code is valid.
proof fn lemma_closed_valid(c: FunctionCompiler, n: nat)
    requires
        fc_wf(c),
        fc_valid(c),
        c.end_height@ is None,
        c.pending@ == Set::<int>::empty(),
        targets_inside(c.chunk.code@, c.pending@),
        c.chunk.code@.len() > 0,
        c.max_slot >= c.arity,
        function_refs_ok(c.chunk@.constants, n),
    ensures
        function_valid(fc_model(c), n),
{
    lemma_finished_valid(fc_model(c), c.heights@, n);
}

/// The entry function: clean statements from `b`, a value pushed, and a
/// `Return`; it is valid in a module of `n + 1` functions.
proof fn lemma_entry_closed(b: FunctionCompiler, s0: FunctionCompiler, s1: FunctionCompiler, c: FunctionCompiler, n: nat)
    requires
        fc_valid(b),
        b.pending@ == Set::<int>::empty(),
        stmt_emitted(b, s0),
        fc_step(b, s0),
        fc_step(s0, s1),
        fc_step(s1, c),
        emitted(s0, s1, 1),
        valid_step(s1, c),
        fc_valid(s1) ==> targets_inside(c.chunk.code@, c.pending@),
        c.pending@ == s1.pending@,
        c.end_height@ is None,
        c.chunk.code@.len() > s1.chunk.code@.len(),
        c.arity == 0,
        c.ref_bound@ == n,
    ensures
        function_valid(fc_model(c), n + 1),
{
    assert forall|i: int| 0 <= i < c.chunk@.constants.len() implies (#[trigger] c.chunk@.constants[i] matches ConstantModel::Function(t) ==> t < n + 1) by {
        assert(function_refs_ok(c.chunk@.constants, n));
    }
    lemma_closed_valid(c, n + 1);
}

impl ModuleCompiler {
    fn compile_expr<F: Fn(&str) -> u64>(&mut self, compiler: &mut FunctionCompiler, expr: &Expr, float_bits: &F)
        requires
            fc_wf(*old(compiler)),
            surface_expr(*expr),
            forall|text: &str| float_bits.requires((text,)),
        ensures
            fc_step(*old(compiler), *final(compiler)),
            final(compiler).locals == old(compiler).locals,
            final(compiler).next_slot == old(compiler).next_slot,
            final(compiler).scope_depth == old(compiler).scope_depth,
            errors_only(*old(self), *final(self)),
            final(self).errors@.len() == old(self).errors@.len() ==> expr_emitted(*old(compiler), *final(compiler)),
            expr.kind matches ExprKind::Unary { op, .. } ==> ends_with_ops(final(compiler).chunk.code@, unary_ops(op)),
            expr.kind matches ExprKind::Binary { op, .. } ==> (op is And || op is Or || ends_with_ops(
                final(compiler).chunk.code@,
                binary_ops(op),
            )),
        decreases expr, 1nat,
    {
        let ghost start = *compiler;
        proof {
            if fc_valid(start) {
                lemma_fresh_end(start);
            }
        }
        match &expr.kind {
            ExprKind::Grouping(inner) => self.compile_expr(compiler, inner, float_bits),
            ExprKind::Unary { op, expr: inner } => {
                self.compile_expr(compiler, inner, float_bits);
                let ghost middle = *compiler;
                match op {
                    UnaryOp::Negate => compiler.emit_op(OpCode::Negate, expr.span),
                    UnaryOp::Not => compiler.emit_op(OpCode::Not, expr.span),
                }
                proof {
                    reveal(ends_with_ops);
                    lemma_fc_step_trans(start, middle, *compiler);
                    if fc_valid(start) && self.errors@.len() == old(self).errors@.len() {
                        lemma_emitted_then(start, middle, *compiler, 1, 0);
                    }
                }
            },
            ExprKind::Binary { op, .. } => {
                if matches!(op, BinaryOp::And) {
                    self.compile_and(compiler, expr, float_bits);
                } else if matches!(op, BinaryOp::Or) {
                    self.compile_or(compiler, expr, float_bits);
                } else {
                    self.compile_arithmetic(compiler, expr, float_bits);
                }
            },
            ExprKind::Call { .. } => self.compile_call(compiler, expr, float_bits),
            _ => self.compile_atom(compiler, expr, float_bits),
        }
    }

    fn compile_atom<F: Fn(&str) -> u64>(&mut self, compiler: &mut FunctionCompiler, expr: &Expr, float_bits: &F)
        requires
            fc_wf(*old(compiler)),
            surface_expr(*expr),
            !(expr.kind is Grouping || expr.kind is Unary || expr.kind is Binary || expr.kind is Call),
            forall|text: &str| float_bits.requires((text,)),
        ensures
            fc_step(*old(compiler), *final(compiler)),
            final(compiler).locals == old(compiler).locals,
            final(compiler).next_slot == old(compiler).next_slot,
            final(compiler).scope_depth == old(compiler).scope_depth,
            errors_only(*old(self), *final(self)),
            final(self).errors@.len() == old(self).errors@.len() ==> expr_emitted(*old(compiler), *final(compiler)),
        decreases expr, 0nat,
    {
        let ghost start = *compiler;
        proof {
            if fc_valid(start) {
                lemma_fresh_end(start);
            }
        }
        match &expr.kind {
            ExprKind::Int(value) => {
                match compiler.emit_constant(Constant::Int(*value), expr.span) {
                    Ok(()) => {},
                    Err(error) => self.errors.push(error),
                }
            },
            ExprKind::Float(text) => {
                let bits = float_bits(text.as_str());
                match compiler.emit_constant(Constant::Float(bits), expr.span) {
                    Ok(()) => {},
                    Err(error) => self.errors.push(error),
                }
            },
            ExprKind::Bool(value) => {
                compiler.emit_op(
                    if *value {
                        OpCode::True
                    } else {
                        OpCode::False
                    },
                    expr.span,
                );
            },
            ExprKind::String(value) => {
                match compiler.emit_constant(Constant::String(value.clone()), expr.span) {
                    Ok(()) => {},
                    Err(error) => self.errors.push(error),
                }
            },
            ExprKind::Variable(name) => {
                match compiler.resolve_local(name.as_str()) {
                    Some(slot) => match compiler.emit_slot_op(OpCode::GetLocal, slot, expr.span) {
                        Ok(()) => {},
                        Err(error) => self.errors.push(error),
                    },
                    None => match compiler.emit_named_op(OpCode::GetGlobal, name.as_str(), expr.span) {
                        Ok(()) => {},
                        Err(error) => self.errors.push(error),
                    },
                }
            },
            _ => {},
        }
    }

    #[verifier::spinoff_prover]
    fn compile_and<F: Fn(&str) -> u64>(&mut self, compiler: &mut FunctionCompiler, expr: &Expr, float_bits: &F)
        requires
            fc_wf(*old(compiler)),
            surface_expr(*expr),
            expr.kind matches ExprKind::Binary { op, .. } && op is And,
            forall|text: &str| float_bits.requires((text,)),
        ensures
            fc_step(*old(compiler), *final(compiler)),
            final(compiler).locals == old(compiler).locals,
            final(compiler).next_slot == old(compiler).next_slot,
            final(compiler).scope_depth == old(compiler).scope_depth,
            errors_only(*old(self), *final(self)),
            final(self).errors@.len() == old(self).errors@.len() ==> expr_emitted(*old(compiler), *final(compiler)),
        decreases expr, 0nat,
    {
        let ghost start = *compiler;
        proof {
            if fc_valid(start) {
                lemma_fresh_end(start);
            }
        }
        match &expr.kind {
            ExprKind::Binary { left, op, right } => {
                proof {
                    assert(decreases_to!(*expr => expr.kind));
                }
                self.compile_expr(compiler, left, float_bits);
                let ghost s1 = *compiler;
                let ghost clean1 = self.errors@.len() == old(self).errors@.len();
                // A false left operand skips the right one and stays the value.
                let skip_jump = compiler.emit_jump(OpCode::JumpIfFalse, expr.span);
                let ghost s2 = *compiler;
                proof {
                    lemma_fc_step_trans(start, s1, s2);
                    if fc_valid(start) && clean1 {
                        lemma_fresh_end(s1);
                        lemma_grown_trans(start, s1, s2);
                    }
                }
                compiler.emit_op(OpCode::Pop, expr.span);
                let ghost s3 = *compiler;
                self.compile_expr(compiler, right, float_bits);
                let ghost s4 = *compiler;
                proof {
                    lemma_fc_step_trans(start, s2, s3);
                    lemma_fc_step_trans(start, s3, s4);
                    if fc_valid(start) && self.errors@.len() == old(self).errors@.len() {
                        lemma_emitted_then(s2, s3, s4, -1, 1);
                        lemma_grown_trans(start, s2, s4);
                        assert(s4.pending@.contains(skip_jump - 1));
                        if start.end_height@ is None {
                            assert(!s4.heights@.contains_key(skip_jump - 1));
                        }
                    }
                }
                compiler.patch_jump(skip_jump, expr.span, &mut self.errors);
                proof {
                    lemma_patched_step(start, s4, *compiler, skip_jump as int);
                    if fc_valid(start) && self.errors@.len() == old(self).errors@.len() {
                        let at = skip_jump - 1;
                        assert(fc_valid(s2));
                        assert(fc_valid(s4));
                        assert(fc_valid(*compiler));
                        lemma_grown_trans(start, s4, *compiler);
                        assert(compiler.pending@ =~= start.pending@);
                        match start.end_height@ {
                            Some(x) => {
                                assert(s1.end_height@ == Some(x + 1));
                                assert(s2.end_height@ == Some(x + 1));
                                assert(s2.heights@.contains_key(at));
                                assert(s2.heights@[at] == x + 1);
                                assert(s4.end_height@ == Some(x + 1));
                                assert(s2.heights@.submap_of(s4.heights@));
                                assert(s4.heights@.contains_key(at));
                                assert(s4.heights@[at] == x + 1);
                                assert(compiler.end_height@ == Some(x + 1));
                                assert(s1.heights@.contains_key(start.chunk.code@.len() as int));
                                assert(start.heights@.submap_of(compiler.heights@));
                                assert(s1.heights@.submap_of(compiler.heights@)) by {
                                    lemma_grown_trans(s1, s2, s4);
                                    lemma_grown_trans(s1, s4, *compiler);
                                }
                                assert(compiler.heights@.contains_key(start.chunk.code@.len() as int));
                            },
                            None => {
                                assert(compiler.end_height@ is None);
                            },
                        }
                    }
                }
            },
            _ => {},
        }
    }

    #[verifier::rlimit(50)]
    #[verifier::spinoff_prover]
    fn compile_or<F: Fn(&str) -> u64>(&mut self, compiler: &mut FunctionCompiler, expr: &Expr, float_bits: &F)
        requires
            fc_wf(*old(compiler)),
            surface_expr(*expr),
            expr.kind matches ExprKind::Binary { op, .. } && op is Or,
            forall|text: &str| float_bits.requires((text,)),
        ensures
            fc_step(*old(compiler), *final(compiler)),
            final(compiler).locals == old(compiler).locals,
            final(compiler).next_slot == old(compiler).next_slot,
            final(compiler).scope_depth == old(compiler).scope_depth,
            errors_only(*old(self), *final(self)),
            final(self).errors@.len() == old(self).errors@.len() ==> expr_emitted(*old(compiler), *final(compiler)),
        decreases expr, 0nat,
    {
        let ghost start = *compiler;
        proof {
            if fc_valid(start) {
                lemma_fresh_end(start);
            }
        }
        match &expr.kind {
            ExprKind::Binary { left, op, right } => {
                proof {
                    assert(decreases_to!(*expr => expr.kind));
                }
                self.compile_expr(compiler, left, float_bits);
                let ghost s1 = *compiler;
                let ghost clean1 = self.errors@.len() == old(self).errors@.len();
                // A false left operand jumps to the right one; a true one
                // jumps over it and stays the value.
                let skip_jump = compiler.emit_jump(OpCode::JumpIfFalse, expr.span);
                let ghost s2 = *compiler;
                proof {
                    lemma_fc_step_trans(start, s1, s2);
                    if fc_valid(start) && clean1 {
                        lemma_fresh_end(s1);
                        lemma_grown_trans(start, s1, s2);
                    }
                }
                let end_jump = compiler.emit_jump(OpCode::Jump, expr.span);
                let ghost s3 = *compiler;
                proof {
                    lemma_fc_step_trans(start, s2, s3);
                    if fc_valid(start) && clean1 {
                        lemma_fresh_end(s2);
                        lemma_grown_trans(start, s2, s3);
                        assert(s3.pending@.contains(skip_jump - 1));
                        assert(s3.end_height@ is None);
                        match start.end_height@ {
                            Some(x) => {
                                assert(s2.heights@.contains_key(skip_jump - 1));
                                assert(s3.heights@.contains_key(skip_jump - 1));
                                assert(s3.heights@[skip_jump - 1] == x + 1);
                                assert(s3.heights@.contains_key(end_jump - 1));
                                assert(s3.heights@[end_jump - 1] == x + 1);
                            },
                            None => {
                                assert(!s3.heights@.contains_key(skip_jump - 1));
                                assert(!s3.heights@.contains_key(end_jump - 1));
                            },
                        }
                    }
                }
                compiler.patch_jump(skip_jump, expr.span, &mut self.errors);
                let ghost s4 = *compiler;
                let ghost clean4 = self.errors@.len() == old(self).errors@.len();
                proof {
                    lemma_patched_step(start, s3, s4, skip_jump as int);
                    if fc_valid(start) && clean4 {
                        lemma_grown_trans(start, s3, s4);
                        assert(s4.pending@ =~= start.pending@.insert(end_jump - 1));
                        assert(s4.heights@ == s3.heights@);
                        match start.end_height@ {
                            Some(x) => {
                                assert(s4.end_height@ == Some((x + 1) as nat));
                                assert(s4.heights@.contains_key(end_jump - 1));
                                assert(s4.heights@[end_jump - 1] == x + 1);
                            },
                            None => {
                                assert(s4.end_height@ is None);
                                assert(!s4.heights@.contains_key(end_jump - 1));
                            },
                        }
                    }
                }
                compiler.emit_op(OpCode::Pop, expr.span);
                let ghost s5 = *compiler;
                self.compile_expr(compiler, right, float_bits);
                let ghost s6 = *compiler;
                proof {
                    lemma_fc_step_trans(start, s4, s5);
                    lemma_fc_step_trans(start, s5, s6);
                    if fc_valid(start) && self.errors@.len() == old(self).errors@.len() {
                        lemma_emitted_then(s4, s5, s6, -1, 1);
                        lemma_grown_trans(start, s4, s6);
                        assert(s6.pending@.contains(end_jump - 1));
                        match start.end_height@ {
                            Some(x) => {
                                assert(s4.heights@.contains_key(end_jump - 1));
                                assert(s4.heights@[end_jump - 1] == x + 1);
                                assert(s4.heights@.submap_of(s6.heights@));
                                lemma_submap_at(s4.heights@, s6.heights@, end_jump - 1);
                                assert(s6.heights@[end_jump - 1] == x + 1);
                                assert(s6.end_height@ == Some((x + 1) as nat));
                            },
                            None => {
                                assert(!s6.heights@.contains_key(end_jump - 1));
                                assert(s6.end_height@ is None);
                            },
                        }
                    }
                }
                compiler.patch_jump(end_jump, expr.span, &mut self.errors);
                proof {
                    lemma_patched_step(start, s6, *compiler, end_jump as int);
                    if fc_valid(start) && self.errors@.len() == old(self).errors@.len() {
                        lemma_grown_trans(start, s6, *compiler);
                        assert(compiler.pending@ =~= start.pending@);
                        assert(fc_valid(s6));
                        assert(fc_valid(*compiler));
                        assert(start.chunk.code@.len() < compiler.chunk.code@.len());
                        match start.end_height@ {
                            Some(x) => {
                                assert(s6.heights@.contains_key(end_jump - 1));
                                assert(s6.heights@[end_jump - 1] == x + 1);
                                assert(compiler.end_height@ == Some((x + 1) as nat));
                            },
                            None => {
                                assert(compiler.end_height@ is None);
                            },
                        }
                        if start.end_height@ is Some {
                            assert(s1.heights@.contains_key(start.chunk.code@.len() as int));
                            lemma_grown_trans(s1, s2, s3);
                            lemma_grown_trans(s1, s3, s4);
                            lemma_grown_trans(s1, s4, s6);
                            lemma_grown_trans(s1, s6, *compiler);
                            lemma_submap_at(s1.heights@, compiler.heights@, start.chunk.code@.len() as int);
                        }
                    }
                }
                        },
            _ => {},
        }
    }

    fn compile_arithmetic<F: Fn(&str) -> u64>(&mut self, compiler: &mut FunctionCompiler, expr: &Expr, float_bits: &F)
        requires
            fc_wf(*old(compiler)),
            surface_expr(*expr),
            expr.kind matches ExprKind::Binary { op, .. } && !(op is And || op is Or),
            forall|text: &str| float_bits.requires((text,)),
        ensures
            fc_step(*old(compiler), *final(compiler)),
            final(compiler).locals == old(compiler).locals,
            final(compiler).next_slot == old(compiler).next_slot,
            final(compiler).scope_depth == old(compiler).scope_depth,
            errors_only(*old(self), *final(self)),
            final(self).errors@.len() == old(self).errors@.len() ==> expr_emitted(*old(compiler), *final(compiler)),
            expr.kind matches ExprKind::Binary { op, .. } ==> ends_with_ops(final(compiler).chunk.code@, binary_ops(op)),
        decreases expr, 0nat,
    {
        let ghost start = *compiler;
        proof {
            if fc_valid(start) {
                lemma_fresh_end(start);
            }
        }
        match &expr.kind {
            ExprKind::Binary { left, op, right } => {
                proof {
                    assert(decreases_to!(*expr => expr.kind));
                }
                self.compile_expr(compiler, left, float_bits);
                let ghost s1 = *compiler;
                self.compile_expr(compiler, right, float_bits);
                let ghost s2 = *compiler;
                proof {
                    lemma_fc_step_trans(start, s1, s2);
                    if fc_valid(start) && self.errors@.len() == old(self).errors@.len() {
                        lemma_emitted_then(start, s1, s2, 1, 1);
                    }
                }
                let first = match op {
                    BinaryOp::NotEqual | BinaryOp::Equal => OpCode::Equal,
                    BinaryOp::GreaterEqual | BinaryOp::Less => OpCode::Less,
                    BinaryOp::LessEqual | BinaryOp::Greater => OpCode::Greater,
                    BinaryOp::Add => OpCode::Add,
                    BinaryOp::Subtract => OpCode::Subtract,
                    BinaryOp::Multiply => OpCode::Multiply,
                    _ => OpCode::Divide,
                };
                compiler.emit_op(first, expr.span);
                let ghost s3 = *compiler;
                proof {
                    lemma_fc_step_trans(start, s2, s3);
                    if fc_valid(start) && self.errors@.len() == old(self).errors@.len() {
                        lemma_emitted_then(start, s2, s3, 2, -1);
                    }
                }
                proof {
                    reveal(ends_with_ops);
                    assert(first == binary_ops(*op)[0]);
                    assert(compiler.chunk.code@.last() == first.spec_byte());
                }
                if matches!(op, BinaryOp::NotEqual | BinaryOp::GreaterEqual | BinaryOp::LessEqual) {
                    compiler.emit_op(OpCode::Not, expr.span);
                    proof {
                        lemma_fc_step_trans(start, s3, *compiler);
                        if fc_valid(start) && self.errors@.len() == old(self).errors@.len() {
                            lemma_emitted_then(start, s3, *compiler, 1, 0);
                        }
                        let code = compiler.chunk.code@;
                        assert(binary_ops(*op).len() == 2 && binary_ops(*op)[1] == OpCode::Not);
                        assert(code[code.len() - 2] == s3.chunk.code@.last());
                    }
                } else {
                    proof {
                        assert(binary_ops(*op).len() == 1);
                    }
                }
            },
            _ => {},
        }
    }

    #[verifier::rlimit(100)]
    #[verifier::spinoff_prover]
    fn compile_call<F: Fn(&str) -> u64>(&mut self, compiler: &mut FunctionCompiler, expr: &Expr, float_bits: &F)
        requires
            fc_wf(*old(compiler)),
            surface_expr(*expr),
            expr.kind is Call,
            forall|text: &str| float_bits.requires((text,)),
        ensures
            fc_step(*old(compiler), *final(compiler)),
            final(compiler).locals == old(compiler).locals,
            final(compiler).next_slot == old(compiler).next_slot,
            final(compiler).scope_depth == old(compiler).scope_depth,
            errors_only(*old(self), *final(self)),
            final(self).errors@.len() == old(self).errors@.len() ==> expr_emitted(*old(compiler), *final(compiler)),
        decreases expr, 0nat,
    {
        let ghost start = *compiler;
        proof {
            if fc_valid(start) {
                lemma_fresh_end(start);
            }
        }
        match &expr.kind {
            ExprKind::Call { callee, args } => {
                self.compile_expr(compiler, callee, float_bits);
                let ghost after_callee = *compiler;
                proof {
                    assert(compiler.chunk.code@.subrange(0, compiler.chunk.code@.len() as int) =~= compiler.chunk.code@);
                    assert(compiler.chunk.spans@.subrange(0, compiler.chunk.spans@.len() as int) =~= compiler.chunk.spans@);
                    if fc_valid(start) && self.errors@.len() == old(self).errors@.len() {
                        lemma_same_code(after_callee, after_callee);
                    }
                }
                let mut i: usize = 0;
                while i < args.len()
                    invariant
                        i <= args@.len(),
                        expr.kind is Call,
                        expr.kind->Call_args == *args,
                        surface_args(args@),
                        forall|text: &str| float_bits.requires((text,)),
                        fc_step(start, *compiler),
                        fc_step(after_callee, *compiler),
                        compiler.locals == start.locals,
                        compiler.next_slot == start.next_slot,
                        compiler.scope_depth == start.scope_depth,
                        errors_only(*old(self), *self),
                        self.errors@.len() == old(self).errors@.len() ==> expr_emitted(start, after_callee),
                        self.errors@.len() == old(self).errors@.len() && fc_valid(start) ==> {
                            &&& fc_valid(*compiler)
                            &&& grown(after_callee, *compiler)
                            &&& compiler.pending@ == start.pending@
                            &&& match after_callee.end_height@ {
                                Some(y) => compiler.end_height@ == Some((y + i) as nat),
                                None => compiler.end_height@ is None,
                            }
                        },
                    decreases args@.len() - i,
                {
                    proof {
                        assert(decreases_to!(*expr => expr.kind));
                        assert(decreases_to!(expr.kind => expr.kind->Call_args));
                        assert(decreases_to!(*args => args@));
                        assert(decreases_to!(args@ => args@[i as int]));
                        lemma_surface_arg_in(args@, i as int);
                    }
                    let ghost before = *compiler;
                    self.compile_expr(compiler, &args[i], float_bits);
                    proof {
                        lemma_fc_step_trans(start, before, *compiler);
                        lemma_fc_step_trans(after_callee, before, *compiler);
                        if self.errors@.len() == old(self).errors@.len() && fc_valid(start) {
                            assert(valid_step(after_callee, before));
                            assert(valid_step(before, *compiler));
                        }
                    }
                    i = i + 1;
                }
                if args.len() > 0xff {
                    self.errors.push(MuninnError::new("compiler", "argument count overflow", expr.span));
                } else {
                    let ghost s1 = *compiler;
                    compiler.emit_call(args.len() as u8, expr.span);
                    proof {
                        lemma_fc_step_trans(start, s1, *compiler);
                        lemma_fc_step_trans(after_callee, s1, *compiler);
                        if self.errors@.len() == old(self).errors@.len() && fc_valid(start) {
                            assert(valid_step(after_callee, s1));
                            assert(valid_step(s1, *compiler));
                            assert(valid_step(start, after_callee));
                            lemma_fc_step_trans(start, after_callee, *compiler);
                        }
                    }
                }
            },
            _ => {},
        }
    }
}

impl ModuleCompiler {
    /// Compiles the statements of a block inside a fresh scope.
    fn compile_scoped_block<F: Fn(&str) -> u64>(&mut self, compiler: &mut FunctionCompiler, block: &Block, float_bits: &F)
        requires
            fc_wf(*old(compiler)),
            old(compiler).scope_depth < old(compiler).chunk.code@.len(),
            surface_block(*block),
            old(compiler).next_slot + block_locals(*block) <= usize::MAX,
            forall|text: &str| float_bits.requires((text,)),
        ensures
            fc_step(*old(compiler), *final(compiler)),
            final(compiler).scope_depth == old(compiler).scope_depth,
            final(compiler).next_slot <= old(compiler).next_slot + block_locals(*block),
            errors_only(*old(self), *final(self)),
            final(self).errors@.len() == old(self).errors@.len() ==> stmt_emitted(*old(compiler), *final(compiler)),
        decreases block, 0nat,
    {
        let ghost start = *compiler;
        compiler.enter_scope();
        let ghost entered = *compiler;
        let mut i: usize = 0;
        proof {
            assert(block.statements@.take(0) =~= Seq::<Stmt>::empty());
            lemma_idle_stmt(start, entered);
        }
        while i < block.statements.len()
            invariant
                i <= block.statements@.len(),
                surface_stmts(block.statements@, false),
                forall|text: &str| float_bits.requires((text,)),
                fc_step(start, *compiler),
                compiler.scope_depth == start.scope_depth + 1,
                compiler.next_slot <= start.next_slot + stmts_locals(block.statements@.take(i as int)),
                start.next_slot + block_locals(*block) <= usize::MAX,
                errors_only(*old(self), *self),
                self.errors@.len() == old(self).errors@.len() ==> stmt_emitted(start, *compiler),
            decreases block.statements@.len() - i,
        {
            proof {
                assert(decreases_to!(*block => block.statements));
                assert(decreases_to!(block.statements => block.statements@));
                assert(decreases_to!(block.statements@ => block.statements@[i as int]));
                lemma_surface_stmt_in(block.statements@, false, i as int);
                lemma_surface_top_level(block.statements@[i as int]);
                lemma_locals_prefix(block.statements@, i as int);
            }
            let ghost before = *compiler;
            self.compile_stmt(compiler, &block.statements[i], float_bits);
            proof {
                lemma_fc_step_trans(start, before, *compiler);
                if self.errors@.len() == old(self).errors@.len() {
                    lemma_stmt_then(start, before, *compiler);
                }
            }
            i = i + 1;
        }
        proof {
            assert(block.statements@.take(i as int) =~= block.statements@);
        }
        let ghost body_done = *compiler;
        compiler.exit_scope();
        proof {
            lemma_fc_step_trans(start, body_done, *compiler);
            if self.errors@.len() == old(self).errors@.len() {
                lemma_idle_stmt(body_done, *compiler);
                lemma_stmt_then(start, body_done, *compiler);
            }
        }
    }

    fn compile_stmt<F: Fn(&str) -> u64>(&mut self, compiler: &mut FunctionCompiler, stmt: &Stmt, float_bits: &F)
        requires
            fc_wf(*old(compiler)),
            surface_stmt(*stmt, true),
            old(compiler).next_slot + stmt_locals(*stmt) <= usize::MAX,
            forall|text: &str| float_bits.requires((text,)),
        ensures
            fc_step(*old(compiler), *final(compiler)),
            final(compiler).scope_depth == old(compiler).scope_depth,
            final(compiler).next_slot <= old(compiler).next_slot + stmt_locals(*stmt),
            errors_only(*old(self), *final(self)),
            final(self).errors@.len() == old(self).errors@.len() ==> stmt_emitted(*old(compiler), *final(compiler)),
        decreases stmt, 1nat,
    {
        let ghost start = *compiler;
        match &stmt.kind {
            StmtKind::Let { name, initializer, .. } => {
                self.compile_expr(compiler, initializer, float_bits);
                let ghost s1 = *compiler;
                if compiler.scope_depth == 0 {
                    match compiler.emit_named_op(OpCode::DefineGlobal, name.as_str(), stmt.span) {
                        Ok(()) => {},
                        Err(error) => self.errors.push(error),
                    }
                    proof {
                        lemma_fc_step_trans(start, s1, *compiler);
                        if fc_valid(start) && self.errors@.len() == old(self).errors@.len() {
                            lemma_emitted_then(start, s1, *compiler, 1, -1);
                        }
                    }
                } else {
                    let slot = compiler.define_local(name.clone());
                    let ghost s2 = *compiler;
                    match compiler.emit_slot_op(OpCode::SetLocal, slot, stmt.span) {
                        Ok(()) => {},
                        Err(error) => self.errors.push(error),
                    }
                    proof {
                        lemma_fc_step_trans(start, s1, s2);
                        lemma_fc_step_trans(start, s2, *compiler);
                        if fc_valid(start) && self.errors@.len() == old(self).errors@.len() {
                            lemma_emitted_idle(start, s1, s2, 1);
                            lemma_emitted_then(start, s2, *compiler, 1, -1);
                        }
                    }
                }
            },
            StmtKind::Function(_) => {
                proof {
                    assert(compiler.chunk.code@.subrange(0, compiler.chunk.code@.len() as int) =~= compiler.chunk.code@);
                    assert(compiler.chunk.spans@.subrange(0, compiler.chunk.spans@.len() as int) =~= compiler.chunk.spans@);
                    lemma_idle_stmt(start, start);
                }
            },
            StmtKind::Return(value) => {
                match value {
                    Some(value) => self.compile_expr(compiler, value, float_bits),
                    None => compiler.emit_op(OpCode::Nil, stmt.span),
                }
                let ghost s1 = *compiler;
                compiler.emit_op(OpCode::Return, stmt.span);
                proof {
                    lemma_fc_step_trans(start, s1, *compiler);
                    if fc_valid(start) && self.errors@.len() == old(self).errors@.len() {
                        assert(valid_step(s1, *compiler));
                        lemma_grown_trans(start, s1, *compiler);
                    }
                }
            },
            StmtKind::While { .. } => self.compile_while(compiler, stmt, float_bits),
            StmtKind::If { .. } => self.compile_if(compiler, stmt, float_bits),
            StmtKind::Assign { name, value, .. } => {
                self.compile_expr(compiler, value, float_bits);
                let ghost s1 = *compiler;
                match compiler.resolve_local(name.as_str()) {
                    Some(slot) => match compiler.emit_slot_op(OpCode::SetLocal, slot, stmt.span) {
                        Ok(()) => {},
                        Err(error) => self.errors.push(error),
                    },
                    None => match compiler.emit_named_op(OpCode::SetGlobal, name.as_str(), stmt.span) {
                        Ok(()) => {},
                        Err(error) => self.errors.push(error),
                    },
                }
                proof {
                    lemma_fc_step_trans(start, s1, *compiler);
                    if fc_valid(start) && self.errors@.len() == old(self).errors@.len() {
                        lemma_emitted_then(start, s1, *compiler, 1, -1);
                    }
                }
            },
            StmtKind::Expr(expr) => {
                self.compile_expr(compiler, expr, float_bits);
                let ghost s1 = *compiler;
                compiler.emit_op(OpCode::Pop, stmt.span);
                proof {
                    lemma_fc_step_trans(start, s1, *compiler);
                    if fc_valid(start) && self.errors@.len() == old(self).errors@.len() {
                        lemma_emitted_then(start, s1, *compiler, 1, -1);
                    }
                }
            },
            StmtKind::Record(_) => {
                proof {
                    assert(compiler.chunk.code@.subrange(0, compiler.chunk.code@.len() as int) =~= compiler.chunk.code@);
                    assert(compiler.chunk.spans@.subrange(0, compiler.chunk.spans@.len() as int) =~= compiler.chunk.spans@);
                    lemma_idle_stmt(start, start);
                }
            },
        }
    }

    /// `while`: the condition, a jump out when it is false, the body, and a
    /// jump back to the condition.
    #[verifier::rlimit(50)]
    #[verifier::spinoff_prover]
    fn compile_while<F: Fn(&str) -> u64>(&mut self, compiler: &mut FunctionCompiler, stmt: &Stmt, float_bits: &F)
        requires
            fc_wf(*old(compiler)),
            surface_stmt(*stmt, true),
            stmt.kind is While,
            old(compiler).next_slot + stmt_locals(*stmt) <= usize::MAX,
            forall|text: &str| float_bits.requires((text,)),
        ensures
            fc_step(*old(compiler), *final(compiler)),
            final(compiler).scope_depth == old(compiler).scope_depth,
            final(compiler).next_slot <= old(compiler).next_slot + stmt_locals(*stmt),
            errors_only(*old(self), *final(self)),
            final(self).errors@.len() == old(self).errors@.len() ==> stmt_emitted(*old(compiler), *final(compiler)),
        decreases stmt, 0nat,
    {
        let ghost start = *compiler;
        match &stmt.kind {
            StmtKind::While { condition, body } => {
                let loop_start = compiler.current_offset();
                self.compile_expr(compiler, condition, float_bits);
                let ghost s1 = *compiler;
                let ghost clean1 = self.errors@.len() == old(self).errors@.len();
                let exit_jump = compiler.emit_jump(OpCode::JumpIfFalse, stmt.span);
                let ghost s2 = *compiler;
                compiler.emit_op(OpCode::Pop, stmt.span);
                let ghost s3 = *compiler;
                proof {
                    lemma_fc_step_trans(start, s1, s2);
                    lemma_fc_step_trans(start, s2, s3);
                    assert(decreases_to!(*stmt => stmt.kind));
                    if fc_valid(start) && clean1 {
                        lemma_fresh_end(start);
                        lemma_fresh_end(s1);
                        lemma_grown_trans(start, s1, s2);
                        lemma_jif_emitted(s1, s2);
                    }
                }
                self.compile_scoped_block(compiler, body, float_bits);
                let ghost s4 = *compiler;
                proof {
                    lemma_fc_step_trans(start, s3, s4);
                    if fc_valid(start) && self.errors@.len() == old(self).errors@.len() {
                        lemma_grown_trans(s2, s3, s4);
                        lemma_grown_trans(start, s2, s4);
                        assert(is_start(s4.chunk.code@, loop_start as int));
                        if start.end_height@ is Some {
                            lemma_grown_trans(s1, s2, s4);
                            lemma_submap_at(s1.heights@, s4.heights@, loop_start as int);
                        }
                    }
                }
                match compiler.emit_loop(loop_start, stmt.span) {
                    Ok(()) => {},
                    Err(error) => self.errors.push(error),
                }
                let ghost s5 = *compiler;
                proof {
                    lemma_fc_step_trans(start, s4, s5);
                    if fc_valid(start) && self.errors@.len() == old(self).errors@.len() {
                        lemma_grown_trans(start, s4, s5);
                        lemma_grown_trans(s2, s4, s5);
                        assert(s5.pending@.contains(exit_jump - 1));
                        if start.end_height@ is None {
                            assert(!s5.heights@.contains_key(exit_jump - 1));
                        }
                    }
                }
                compiler.patch_jump(exit_jump, stmt.span, &mut self.errors);
                let ghost s6 = *compiler;
                proof {
                    lemma_patched_step(start, s5, s6, exit_jump as int);
                    if fc_valid(start) && self.errors@.len() == old(self).errors@.len() {
                        lemma_grown_trans(start, s5, s6);
                        if start.end_height@ is Some {
                            lemma_submap_at(s2.heights@, s5.heights@, exit_jump - 1);
                        }
                    }
                }
                compiler.emit_op(OpCode::Pop, stmt.span);
                proof {
                    lemma_fc_step_trans(start, s6, *compiler);
                    if fc_valid(start) && self.errors@.len() == old(self).errors@.len() {
                        assert(valid_step(s6, *compiler));
                        lemma_grown_trans(start, s6, *compiler);
                        assert(compiler.pending@ =~= start.pending@);
                    }
                }
            },
            _ => {},
        }
    }

    /// `if`: the condition, a jump to the `else` part when it is false, the
    /// `then` part and a jump over the `else` part; each path pops the
    /// condition once.
    #[verifier::rlimit(50)]
    #[verifier::spinoff_prover]
    fn compile_if<F: Fn(&str) -> u64>(&mut self, compiler: &mut FunctionCompiler, stmt: &Stmt, float_bits: &F)
        requires
            fc_wf(*old(compiler)),
            surface_stmt(*stmt, true),
            stmt.kind is If,
            old(compiler).next_slot + stmt_locals(*stmt) <= usize::MAX,
            forall|text: &str| float_bits.requires((text,)),
        ensures
            fc_step(*old(compiler), *final(compiler)),
            final(compiler).scope_depth == old(compiler).scope_depth,
            final(compiler).next_slot <= old(compiler).next_slot + stmt_locals(*stmt),
            errors_only(*old(self), *final(self)),
            final(self).errors@.len() == old(self).errors@.len() ==> stmt_emitted(*old(compiler), *final(compiler)),
        decreases stmt, 0nat,
    {
        let ghost start = *compiler;
        match &stmt.kind {
            StmtKind::If { condition, then_branch, else_branch } => {
                self.compile_expr(compiler, condition, float_bits);
                let ghost s1 = *compiler;
                let ghost clean1 = self.errors@.len() == old(self).errors@.len();
                let else_jump = compiler.emit_jump(OpCode::JumpIfFalse, stmt.span);
                let ghost s2 = *compiler;
                compiler.emit_op(OpCode::Pop, stmt.span);
                let ghost s3 = *compiler;
                proof {
                    lemma_fc_step_trans(start, s1, s2);
                    lemma_fc_step_trans(start, s2, s3);
                    assert(decreases_to!(*stmt => stmt.kind));
                    if fc_valid(start) && clean1 {
                        lemma_fresh_end(s1);
                        lemma_grown_trans(start, s1, s2);
                        lemma_jif_emitted(s1, s2);
                    }
                }
                self.compile_scoped_block(compiler, then_branch, float_bits);
                let ghost s4 = *compiler;
                let ghost clean4 = self.errors@.len() == old(self).errors@.len();
                proof {
                    lemma_fc_step_trans(start, s3, s4);
                    if fc_valid(start) && clean4 {
                        lemma_grown_trans(s2, s3, s4);
                        lemma_fresh_end(s4);
                        assert(s4.pending@ == s2.pending@);
                        match start.end_height@ {
                            Some(x) => {
                                assert(s2.heights@[else_jump - 1] == x + 1);
                                lemma_submap_at(s2.heights@, s4.heights@, else_jump - 1);
                                assert(s4.end_height@ matches Some(y) ==> y == x);
                            },
                            None => {
                                assert(!s2.heights@.contains_key(else_jump - 1));
                                assert(!s4.heights@.contains_key(else_jump - 1));
                                assert(s4.end_height@ is None);
                            },
                        }
                    }
                }
                let end_jump = compiler.emit_jump(OpCode::Jump, stmt.span);
                let ghost s5 = *compiler;
                proof {
                    lemma_fc_step_trans(start, s4, s5);
                    if fc_valid(start) && clean4 {
                        lemma_grown_trans(s2, s4, s5);
                        assert(s5.end_height@ is None);
                        assert(s5.pending@.contains(else_jump - 1));
                        if start.end_height@ is None {
                            assert(!s5.heights@.contains_key(else_jump - 1));
                        }
                    }
                }
                compiler.patch_jump(else_jump, stmt.span, &mut self.errors);
                let ghost s6 = *compiler;
                proof {
                    lemma_patched_step(start, s5, s6, else_jump as int);
                    if fc_valid(start) && self.errors@.len() == old(self).errors@.len() {
                        lemma_grown_trans(s2, s5, s6);
                        assert(s6.pending@ =~= start.pending@.insert(end_jump - 1));
                        match start.end_height@ {
                            Some(x) => {
                                assert(s5.heights@[else_jump - 1] == x + 1);
                                assert(s6.end_height@ == Some((x + 1) as nat));
                                assert(s5.heights@.contains_key(end_jump - 1) ==> s5.heights@[end_jump - 1] == x);
                            },
                            None => {
                                assert(s6.end_height@ is None);
                                assert(!s5.heights@.contains_key(end_jump - 1));
                            },
                        }
                    }
                }
                compiler.emit_op(OpCode::Pop, stmt.span);
                let ghost s7 = *compiler;
                proof {
                    lemma_fc_step_trans(start, s6, s7);
                    if fc_valid(start) && self.errors@.len() == old(self).errors@.len() {
                        assert(emitted(s6, s7, -1));
                        match start.end_height@ {
                            Some(x) => assert(s7.end_height@ == Some(x)),
                            None => assert(s7.end_height@ is None),
                        }
                    }
                }
                match else_branch {
                    Some(block) => {
                        self.compile_scoped_block(compiler, block, float_bits);
                        proof {
                            lemma_fc_step_trans(start, s7, *compiler);
                        }
                    },
                    None => {
                        proof {
                            assert(compiler.chunk.code@.subrange(0, compiler.chunk.code@.len() as int) =~= compiler.chunk.code@);
                            assert(compiler.chunk.spans@.subrange(0, compiler.chunk.spans@.len() as int) =~= compiler.chunk.spans@);
                            lemma_idle_stmt(s7, s7);
                        }
                    },
                }
                let ghost s8 = *compiler;
                proof {
                    if fc_valid(start) && self.errors@.len() == old(self).errors@.len() {
                        assert(valid_step(s6, s7));
                        lemma_grown_trans(s6, s7, s8);
                        lemma_grown_trans(s5, s6, s8);
                        assert(s8.pending@.contains(end_jump - 1));
                        if s5.heights@.contains_key(end_jump - 1) {
                            lemma_submap_at(s5.heights@, s8.heights@, end_jump - 1);
                            assert(s8.end_height@ matches Some(y) ==> Some(y) == start.end_height@);
                        } else {
                            assert(!s8.heights@.contains_key(end_jump - 1));
                        }
                    }
                }
                compiler.patch_jump(end_jump, stmt.span, &mut self.errors);
                proof {
                    lemma_patched_step(start, s8, *compiler, end_jump as int);
                    if fc_valid(start) && self.errors@.len() == old(self).errors@.len() {
                        lemma_grown_trans(s2, s5, s8);
                        lemma_grown_trans(s2, s8, *compiler);
                        lemma_grown_trans(start, s2, *compiler);
                        assert(compiler.pending@ =~= start.pending@);
                    }
                }
            },
            _ => {},
        }
    }
}

impl ModuleCompiler {
    fn push_function(&mut self, function: FunctionBytecode) -> (id: usize)
        ensures
            final(self).module.functions@ == old(self).module.functions@.push(function),
            final(self).module.entry_function == old(self).module.entry_function,
            final(self).module.globals == old(self).module.globals,
            final(self).function_ids == old(self).function_ids,
            final(self).errors == old(self).errors,
            id == old(self).module.functions@.len(),
    {
        self.module.functions.push(function);
        self.module.functions.len() - 1
    }

    /// Compiles a function into a frame of its own: parameters take the
    /// first slots, and the body ends with an implicit `return nil`.
    fn compile_function<F: Fn(&str) -> u64>(&mut self, function: &FunctionDecl, float_bits: &F) -> (id: usize)
        requires
            surface_block(function.body),
            function.params@.len() + block_locals(function.body) < usize::MAX,
            forall|text: &str| float_bits.requires((text,)),
        ensures
            final(self).module.functions@.len() == old(self).module.functions@.len() + 1,
            final(self).module.functions@.drop_last() == old(self).module.functions@,
            function_ok(final(self).module.functions@.last()),
            function_signature(final(self).module.functions@.last()) == (
                function.name@,
                function.params@.len() as usize,
                !(function.return_type is Void),
            ),
            final(self).module.entry_function == old(self).module.entry_function,
            final(self).module.globals == old(self).module.globals,
            final(self).function_ids == old(self).function_ids,
            old(self).errors@.len() <= final(self).errors@.len(),
            id == old(self).module.functions@.len(),
            final(self).errors@.len() == old(self).errors@.len() ==> forall|n: nat|
                #[trigger] function_valid(final(self).module.functions@.last()@, n),
    {
        let expects_return_value = !matches!(function.return_type, TypeExpr::Void);
        let mut compiler = FunctionCompiler::new(
            function.name.clone(),
            function.params.len(),
            expects_return_value,
            Ghost(0),
        );
        let mut p: usize = 0;
        while p < function.params.len()
            invariant
                p <= function.params@.len(),
                fc_wf(compiler),
                compiler.next_slot == p,
                compiler.max_slot >= compiler.next_slot,
                compiler.scope_depth == 0,
                compiler.name@ == function.name@,
                compiler.arity == function.params@.len(),
                compiler.expects_return_value == expects_return_value,
                compiler.chunk.code@.len() == 0,
                compiler.chunk@.constants.len() == 0,
                compiler.end_height@ == Some(0nat),
                compiler.pending@ == Set::<int>::empty(),
                compiler.ref_bound@ == 0,
                fc_valid(compiler),
            decreases function.params@.len() - p,
        {
            compiler.define_local(function.params[p].name.clone());
            p = p + 1;
        }
        let ghost params_done = compiler;
        let mut i: usize = 0;
        proof {
            assert(function.body.statements@.take(0) =~= Seq::<Stmt>::empty());
            assert(compiler.chunk.code@.subrange(0, compiler.chunk.code@.len() as int) =~= compiler.chunk.code@);
            assert(compiler.chunk.spans@.subrange(0, compiler.chunk.spans@.len() as int) =~= compiler.chunk.spans@);
        }
        while i < function.body.statements.len()
            invariant
                i <= function.body.statements@.len(),
                surface_block(function.body),
                forall|text: &str| float_bits.requires((text,)),
                fc_step(params_done, compiler),
                params_done.next_slot == function.params@.len(),
                compiler.scope_depth == 0,
                compiler.next_slot <= params_done.next_slot + stmts_locals(function.body.statements@.take(i as int)),
                function.params@.len() + block_locals(function.body) < usize::MAX,
                errors_only(*old(self), *self),
                fc_valid(params_done),
                params_done.pending@ == Set::<int>::empty(),
                params_done.max_slot >= params_done.arity,
                self.errors@.len() == old(self).errors@.len() ==> stmt_emitted(params_done, compiler),
            decreases function.body.statements@.len() - i,
        {
            proof {
                lemma_surface_stmt_in(function.body.statements@, false, i as int);
                lemma_surface_top_level(function.body.statements@[i as int]);
                lemma_locals_prefix(function.body.statements@, i as int);
            }
            let ghost before = compiler;
            self.compile_stmt(&mut compiler, &function.body.statements[i], float_bits);
            proof {
                lemma_fc_step_trans(params_done, before, compiler);
                if self.errors@.len() == old(self).errors@.len() {
                    lemma_stmt_then(params_done, before, compiler);
                }
            }
            i = i + 1;
        }
        let ghost body_done = compiler;
        compiler.emit_op(OpCode::Nil, function.span);
        let ghost nil_done = compiler;
        compiler.emit_op(OpCode::Return, function.span);
        proof {
            lemma_fc_step_trans(params_done, body_done, nil_done);
            lemma_fc_step_trans(params_done, nil_done, compiler);
            if self.errors@.len() == old(self).errors@.len() {
                assert(valid_step(body_done, nil_done));
                assert(valid_step(nil_done, compiler));
                assert forall|n: nat| #[trigger] function_refs_ok(compiler.chunk@.constants, n) by {
                    assert(function_refs_ok(compiler.chunk@.constants, 0));
                }
                assert forall|n: nat| #[trigger] function_valid(fc_model(compiler), n) by {
                    lemma_closed_valid(compiler, n);
                }
            }
        }
        let compiled = compiler.finish();
        self.push_function(compiled)
    }

    /// The id recorded for a function name (the latest record wins).
    fn function_id(&self, name: &str) -> (r: Option<usize>)
        ensures
            r == id_find(self.function_ids@, name@),
            r matches Some(id) ==> exists|k: int| 0 <= k < self.function_ids@.len() && #[trigger] self.function_ids@[k].1 == id,
    {
        let mut i: usize = self.function_ids.len();
        proof {
            assert(self.function_ids@.take(i as int) =~= self.function_ids@);
        }
        while i > 0
            invariant
                i <= self.function_ids@.len(),
                id_find(self.function_ids@, name@) == id_find(self.function_ids@.take(i as int), name@),
            decreases i,
        {
            proof {
                assert(self.function_ids@.take(i as int).drop_last() =~= self.function_ids@.take(i - 1));
                lemma_id_find_in(self.function_ids@.take(i as int), name@);
            }
            if same_text(self.function_ids[i - 1].0.as_str(), name) {
                return Some(self.function_ids[i - 1].1);
            }
            i = i - 1;
        }
        None
    }
}

pub open spec fn signatures(fs: Seq<FunctionBytecode>) -> Seq<(Seq<char>, usize, bool)> {
    fs.map_values(|f: FunctionBytecode| function_signature(f))
}

impl ModuleCompiler {
    /// Compiles every function, then the entry code: it binds each
    /// function to a global, runs the other top-level statements in order,
    /// and returns the value of a final expression statement (else nil).
    fn compile<F: Fn(&str) -> u64>(&mut self, program: &Program, float_bits: &F)
        requires
            surface_program(*program),
            slots_fit(*program),
            forall|text: &str| float_bits.requires((text,)),
            old(self).module.functions@.len() == 0,
            old(self).function_ids@.len() == 0,
        ensures
            signatures(final(self).module.functions@) == declared_functions(program.statements@).push(
                ("<entry>"@, 0usize, false),
            ),
            forall|k: int| 0 <= k < final(self).module.functions@.len() ==> function_ok(
                #[trigger] final(self).module.functions@[k],
            ),
            final(self).module.entry_function + 1 == final(self).module.functions@.len(),
            final(self).module.globals == old(self).module.globals,
            old(self).errors@.len() <= final(self).errors@.len(),
            final(self).errors@.len() == old(self).errors@.len() ==> forall|k: int|
                0 <= k < final(self).module.functions@.len() ==> function_valid(
                    #[trigger] final(self).module.functions@[k]@,
                    final(self).module.functions@.len() as nat,
                ),
    {
        let mut i: usize = 0;
        proof {
            assert(program.statements@.take(0) =~= Seq::<Stmt>::empty());
            assert(signatures(self.module.functions@) =~= declared_functions(program.statements@.take(0)));
        }
        while i < program.statements.len()
            invariant
                i <= program.statements@.len(),
                surface_program(*program),
                slots_fit(*program),
                forall|text: &str| float_bits.requires((text,)),
                signatures(self.module.functions@) == declared_functions(program.statements@.take(i as int)),
                forall|k: int| 0 <= k < self.module.functions@.len() ==> function_ok(#[trigger] self.module.functions@[k]),
                forall|k: int| 0 <= k < self.function_ids@.len() ==> #[trigger] self.function_ids@[k].1 < self.module.functions@.len(),
                self.module.globals == old(self).module.globals,
                old(self).errors@.len() <= self.errors@.len(),
                self.errors@.len() == old(self).errors@.len() ==> forall|k: int, n: nat|
                    0 <= k < self.module.functions@.len() ==> #[trigger] function_valid(self.module.functions@[k]@, n),
            decreases program.statements@.len() - i,
        {
            proof {
                assert(program.statements@.take(i + 1).drop_last() =~= program.statements@.take(i as int));
                lemma_surface_stmt_in(program.statements@, true, i as int);
            }
            match &program.statements[i].kind {
                StmtKind::Function(function) => {
                    let ghost previous = self.module.functions@;
                    let id = self.compile_function(function, float_bits);
                    self.function_ids.push((function.name.clone(), id));
                    proof {
                        assert(signatures(self.module.functions@) =~= signatures(previous).push(
                            function_signature(self.module.functions@.last()),
                        ));
                        assert forall|k: int| 0 <= k < self.module.functions@.len() implies function_ok(
                            #[trigger] self.module.functions@[k],
                        ) by {
                            if k < previous.len() {
                                assert(self.module.functions@[k] == self.module.functions@.drop_last()[k]);
                            }
                        }
                        if self.errors@.len() == old(self).errors@.len() {
                            assert forall|k: int, n: nat|
                                0 <= k < self.module.functions@.len() implies #[trigger] function_valid(
                                self.module.functions@[k]@,
                                n,
                            ) by {
                                if k < previous.len() {
                                    assert(self.module.functions@[k] == self.module.functions@.drop_last()[k]);
                                }
                            }
                        }
                    }
                },
                _ => {},
            }
            i = i + 1;
        }
        proof {
            assert(program.statements@.take(i as int) =~= program.statements@);
        }
        let ghost declared = self.module.functions@;
        let mut entry = FunctionCompiler::new(owned("<entry>"), 0, false, Ghost(declared.len()));
        let mut j: usize = 0;
        while j < program.statements.len()
            invariant
                j <= program.statements@.len(),
                fc_wf(entry),
                entry.scope_depth == 0,
                entry.next_slot == 0,
                entry.name@ == "<entry>"@,
                entry.arity == 0,
                entry.expects_return_value == false,
                self.module.functions@ == declared,
                signatures(declared) == declared_functions(program.statements@),
                forall|q: int| 0 <= q < declared.len() ==> function_ok(#[trigger] declared[q]),
                forall|k: int| 0 <= k < self.function_ids@.len() ==> #[trigger] self.function_ids@[k].1 < declared.len(),
                entry.ref_bound@ == declared.len(),
                self.module.globals == old(self).module.globals,
                old(self).errors@.len() <= self.errors@.len(),
                self.errors@.len() == old(self).errors@.len() ==> forall|k: int, n: nat|
                    0 <= k < declared.len() ==> #[trigger] function_valid(declared[k]@, n),
                self.errors@.len() == old(self).errors@.len() ==> {
                    &&& fc_valid(entry)
                    &&& entry.pending@ == Set::<int>::empty()
                    &&& entry.end_height@ == Some(0nat)
                },
            decreases program.statements@.len() - j,
        {
            match &program.statements[j].kind {
                StmtKind::Function(function) => {
                    match self.function_id(function.name.as_str()) {
                        Some(function_id) => {
                            let ghost b0 = entry;
                            match entry.emit_constant(Constant::Function(function_id), function.span) {
                                Ok(()) => {},
                                Err(error) => self.errors.push(error),
                            }
                            let ghost b1 = entry;
                            match entry.emit_named_op(OpCode::DefineGlobal, function.name.as_str(), function.span) {
                                Ok(()) => {},
                                Err(error) => self.errors.push(error),
                            }
                            proof {
                                if self.errors@.len() == old(self).errors@.len() {
                                    assert(emitted(b0, b1, 1));
                                    assert(emitted(b1, entry, -1));
                                }
                            }
                        },
                        None => {},
                    }
                },
                _ => {},
            }
            j = j + 1;
        }
        let mut runtime_count: usize = 0;
        let mut k: usize = 0;
        while k < program.statements.len()
            invariant
                k <= program.statements@.len(),
                runtime_count <= k,
            decreases program.statements@.len() - k,
        {
            if !matches!(program.statements[k].kind, StmtKind::Function(_)) {
                runtime_count = runtime_count + 1;
            }
            k = k + 1;
        }
        let ghost before_runtime = entry;
        let mut seen: usize = 0;
        let mut n: usize = 0;
        proof {
            assert(program.statements@.take(0) =~= Seq::<Stmt>::empty());
            assert(entry.chunk.code@.subrange(0, entry.chunk.code@.len() as int) =~= entry.chunk.code@);
            assert(entry.chunk.spans@.subrange(0, entry.chunk.spans@.len() as int) =~= entry.chunk.spans@);
            lemma_same_code(entry, entry);
            lemma_idle_stmt(entry, entry);
        }
        while n < program.statements.len()
            invariant
                n <= program.statements@.len(),
                seen <= n,
                surface_program(*program),
                slots_fit(*program),
                forall|text: &str| float_bits.requires((text,)),
                fc_step(before_runtime, entry),
                before_runtime.name@ == "<entry>"@,
                before_runtime.arity == 0,
                before_runtime.expects_return_value == false,
                before_runtime.next_slot == 0,
                entry.scope_depth == 0,
                entry.next_slot <= stmts_locals(program.statements@.take(n as int)),
                self.module.functions@ == declared,
                signatures(declared) == declared_functions(program.statements@),
                forall|q: int| 0 <= q < declared.len() ==> function_ok(#[trigger] declared[q]),
                self.module.globals == old(self).module.globals,
                old(self).errors@.len() <= self.errors@.len(),
                entry.ref_bound@ == declared.len(),
                self.errors@.len() == old(self).errors@.len() ==> {
                    &&& forall|k: int, n: nat| 0 <= k < declared.len() ==> #[trigger] function_valid(declared[k]@, n)
                    &&& fc_valid(before_runtime)
                    &&& before_runtime.pending@ == Set::<int>::empty()
                    &&& stmt_emitted(before_runtime, entry)
                },
            decreases program.statements@.len() - n,
        {
            proof {
                lemma_locals_prefix(program.statements@, n as int);
                lemma_surface_stmt_in(program.statements@, true, n as int);
            }
            let is_function = matches!(program.statements[n].kind, StmtKind::Function(_));
            if !is_function {
                seen = seen + 1;
                if seen == runtime_count {
                    match &program.statements[n].kind {
                        StmtKind::Expr(expr) => {
                            let ghost s0 = entry;
                            self.compile_expr(&mut entry, expr, float_bits);
                            let ghost s1 = entry;
                            entry.emit_op(OpCode::Return, program.statements[n].span);
                            proof {
                                lemma_fc_step_trans(before_runtime, s0, s1);
                                lemma_fc_step_trans(before_runtime, s1, entry);
                                if self.errors@.len() == old(self).errors@.len() {
                                    lemma_entry_closed(before_runtime, s0, s1, entry, declared.len() as nat);
                                }
                            }
                            let ghost entry_done = entry;
                            let id = self.push_function(entry.finish());
                            self.module.entry_function = id;
                            proof {
                                assert(signatures(self.module.functions@) =~= signatures(declared).push(
                                    function_signature(self.module.functions@.last()),
                                ));
                                assert(self.module.functions@.last().name@ == "<entry>"@);
                                assert forall|q: int| 0 <= q < self.module.functions@.len() implies function_ok(
                                    #[trigger] self.module.functions@[q],
                                ) by {
                                    if q < declared.len() {
                                        assert(self.module.functions@[q] == declared[q]);
                                    }
                                }
                                if self.errors@.len() == old(self).errors@.len() {
                                    assert forall|q: int| 0 <= q < self.module.functions@.len() implies function_valid(
                                        #[trigger] self.module.functions@[q]@,
                                        self.module.functions@.len() as nat,
                                    ) by {
                                        if q < declared.len() {
                                            assert(self.module.functions@[q] == declared[q]);
                                        }
                                    }
                                }
                            }
                            return;
                        },
                        _ => {},
                    }
                }
            }
            let ghost s0 = entry;
            self.compile_stmt(&mut entry, &program.statements[n], float_bits);
            proof {
                lemma_fc_step_trans(before_runtime, s0, entry);
                if self.errors@.len() == old(self).errors@.len() {
                    lemma_stmt_then(before_runtime, s0, entry);
                }
            }
            n = n + 1;
        }
        let ghost s0 = entry;
        entry.emit_op(OpCode::Nil, Span::default());
        let ghost s1 = entry;
        entry.emit_op(OpCode::Return, Span::default());
        proof {
            lemma_fc_step_trans(before_runtime, s0, s1);
            lemma_fc_step_trans(before_runtime, s1, entry);
            if self.errors@.len() == old(self).errors@.len() {
                lemma_entry_closed(before_runtime, s0, s1, entry, declared.len() as nat);
            }
        }
        let id = self.push_function(entry.finish());
        self.module.entry_function = id;
        proof {
            if self.errors@.len() == old(self).errors@.len() {
                assert forall|q: int| 0 <= q < self.module.functions@.len() implies function_valid(
                    #[trigger] self.module.functions@[q]@,
                    self.module.functions@.len() as nat,
                ) by {
                    if q < declared.len() {
                        assert(self.module.functions@[q] == declared[q]);
                    }
                }
            }
            assert(signatures(self.module.functions@) =~= signatures(declared).push(
                function_signature(self.module.functions@.last()),
            ));
            assert forall|q: int| 0 <= q < self.module.functions@.len() implies function_ok(
                #[trigger] self.module.functions@[q],
            ) by {
                if q < declared.len() {
                    assert(self.module.functions@[q] == declared[q]);
                }
            }
        }
    }
}

/// Compiles a checked program to bytecode. Float literals become the bit
/// patterns `float_bits` gives for their text. Every function (the entry
/// last) keeps one span per code byte, ends in `Return`, and has a slot
/// for each parameter; the declared functions come first, in order. The
/// module passes the validator: every function decodes, keeps its operands
/// in range, jumps only to instruction starts and keeps the operand stack
/// consistent on every path.
pub fn compile_program<F: Fn(&str) -> u64>(program: &Program, float_bits: &F) -> (r: Result<BytecodeModule, Vec<MuninnError>>)
    requires
        surface_program(*program),
        slots_fit(*program),
        forall|text: &str| float_bits.requires((text,)),
    ensures
        r matches Ok(m) ==> {
            &&& signatures(m.functions@) == declared_functions(program.statements@).push(
                ("<entry>"@, 0usize, false),
            )
            &&& forall|k: int| 0 <= k < m.functions@.len() ==> function_ok(#[trigger] m.functions@[k])
            &&& m.entry_function + 1 == m.functions@.len()
            &&& m.globals@.len() == 0
            &&& module_valid(m@)
        },
        r matches Err(errors) ==> errors@.len() > 0,
{
    let mut compiler = ModuleCompiler {
        module: BytecodeModule::new(),
        function_ids: Vec::new(),
        errors: Vec::new(),
    };
    compiler.compile(program, float_bits);
    proof {
        let m = compiler.module;
        if compiler.errors@.len() == 0 {
            assert forall|i: int| 0 <= i < m@.functions.len() implies function_valid(
                #[trigger] m@.functions[i],
                m@.functions.len(),
            ) by {
                assert(m@.functions[i] == m.functions@[i]@);
            }
        }
    }
    if compiler.errors.len() == 0 {
        Ok(compiler.module)
    } else {
        Err(compiler.errors)
    }
}

// ----- from source to module -----

proof fn lemma_params_tokens_len(ps: Seq<crate::ast::Param>)
    ensures
        params_tokens(ps).len() >= ps.len(),
    decreases ps.len(),
{
    if ps.len() > 1 {
        lemma_params_tokens_len(ps.drop_last());
    }
}

/// A statement claims no more slots than it has tokens.
proof fn lemma_stmt_locals_bounded(st: Stmt, top: bool)
    requires
        surface_stmt(st, top),
    ensures
        stmt_locals(st) <= stmt_tokens(st).len(),
    decreases st, 1nat,
{
    match st.kind {
        StmtKind::While { body, .. } => lemma_block_locals_bounded(body),
        StmtKind::If { then_branch, else_branch, .. } => {
            lemma_block_locals_bounded(then_branch);
            match else_branch {
                Some(b) => lemma_block_locals_bounded(b),
                None => {},
            }
        },
        _ => {},
    }
}

proof fn lemma_block_locals_bounded(b: Block)
    requires
        surface_block(b),
    ensures
        block_locals(b) <= block_tokens(b).len(),
    decreases b, 2nat,
{
    lemma_stmts_locals_bounded(b.statements@, false);
}

proof fn lemma_stmts_locals_bounded(ss: Seq<Stmt>, top: bool)
    requires
        surface_stmts(ss, top),
    ensures
        stmts_locals(ss) <= stmts_tokens(ss).len(),
    decreases ss, 0nat,
{
    if ss.len() > 0 {
        lemma_stmts_locals_bounded(ss.drop_last(), top);
        lemma_stmt_locals_bounded(ss.last(), top);
    }
}

/// One statement's tokens are among its list's.
proof fn lemma_stmt_tokens_within(ss: Seq<Stmt>, i: int)
    requires
        0 <= i < ss.len(),
    ensures
        stmt_tokens(ss[i]).len() <= stmts_tokens(ss).len(),
    decreases ss.len(),
{
    if i < ss.len() - 1 {
        lemma_stmt_tokens_within(ss.drop_last(), i);
    }
}

/// A program written with fewer tokens than a `usize` counts fits its slots.
proof fn lemma_slots_fit(p: Program)
    requires
        surface_program(p),
        program_tokens(p).len() < usize::MAX,
    ensures
        slots_fit(p),
{
    lemma_stmts_locals_bounded(p.statements@, true);
    assert forall|i: int| 0 <= i < p.statements@.len() implies match (#[trigger] p.statements@[i]).kind {
        StmtKind::Function(d) => d.params@.len() + block_locals(d.body) < usize::MAX,
        _ => true,
    } by {
        match p.statements@[i].kind {
            StmtKind::Function(d) => {
                lemma_surface_stmt_in(p.statements@, true, i);
                lemma_block_locals_bounded(d.body);
                lemma_params_tokens_len(d.params@);
                lemma_stmt_tokens_within(p.statements@, i);
            },
            _ => {},
        }
    }
}

/// The global slot a symbol declares: top-level bindings of a storable
/// type and functions.
pub open spec fn symbol_global(s: Symbol) -> Option<GlobalValueKind> {
    match s.kind {
        SymbolKind::Global => match s.ty {
            Ty::Int => Some(GlobalValueKind::Int),
            Ty::Float => Some(GlobalValueKind::Float),
            Ty::Bool => Some(GlobalValueKind::Bool),
            Ty::String => Some(GlobalValueKind::String),
            Ty::Tensor => Some(GlobalValueKind::Tensor),
            _ => None,
        },
        SymbolKind::Function => Some(GlobalValueKind::Function),
        _ => None,
    }
}

/// The globals the symbols declare, in order.
pub open spec fn declared_globals(symbols: Seq<Symbol>) -> Seq<(Seq<char>, GlobalValueKind)>
    decreases symbols.len(),
{
    if symbols.len() == 0 {
        Seq::empty()
    } else {
        let rest = declared_globals(symbols.drop_last());
        match symbol_global(symbols.last()) {
            Some(kind) => rest.push((symbols.last().name@, kind)),
            None => rest,
        }
    }
}

pub open spec fn global_pairs(gs: Seq<GlobalSpec>) -> Seq<(Seq<char>, GlobalValueKind)> {
    gs.map_values(|g: GlobalSpec| (g.name@, g.kind))
}

fn global_kind_from_ty(ty: &Ty) -> (r: Option<GlobalValueKind>)
    ensures
        r == match *ty {
            Ty::Int => Some(GlobalValueKind::Int),
            Ty::Float => Some(GlobalValueKind::Float),
            Ty::Bool => Some(GlobalValueKind::Bool),
            Ty::String => Some(GlobalValueKind::String),
            Ty::Tensor => Some(GlobalValueKind::Tensor),
            _ => None::<GlobalValueKind>,
        },
{
    match ty {
        Ty::Int => Some(GlobalValueKind::Int),
        Ty::Float => Some(GlobalValueKind::Float),
        Ty::Bool => Some(GlobalValueKind::Bool),
        Ty::String => Some(GlobalValueKind::String),
        Ty::Tensor => Some(GlobalValueKind::Tensor),
        _ => None,
    }
}

fn globals_from_semantics(semantics: &SemanticModel) -> (globals: Vec<GlobalSpec>)
    ensures
        global_pairs(globals@) == declared_globals(semantics.symbols@),
{
    let mut globals: Vec<GlobalSpec> = Vec::new();
    let mut i: usize = 0;
    proof {
        assert(semantics.symbols@.take(0) =~= Seq::<Symbol>::empty());
        assert(global_pairs(globals@) =~= Seq::<(Seq<char>, GlobalValueKind)>::empty());
    }
    while i < semantics.symbols.len()
        invariant
            i <= semantics.symbols@.len(),
            global_pairs(globals@) == declared_globals(semantics.symbols@.take(i as int)),
        decreases semantics.symbols@.len() - i,
    {
        proof {
            assert(semantics.symbols@.take(i + 1).drop_last() =~= semantics.symbols@.take(i as int));
        }
        let symbol = &semantics.symbols[i];
        let kind = match symbol.kind {
            SymbolKind::Global => global_kind_from_ty(&symbol.ty),
            SymbolKind::Function => Some(GlobalValueKind::Function),
            _ => None,
        };
        match kind {
            Some(kind) => {
                let ghost previous = globals@;
                globals.push(GlobalSpec { name: symbol.name.clone(), kind });
                proof {
                    assert(global_pairs(globals@) =~= global_pairs(previous).push((symbol.name@, kind)));
                }
            },
            None => {},
        }
        i = i + 1;
    }
    proof {
        assert(semantics.symbols@.take(i as int) =~= semantics.symbols@);
    }
    globals
}

/// Parses, checks and compiles a document; the module's globals are those
/// the checked program declares. Float literals become the bit patterns
/// `float_bits` gives for their text.
pub fn compile_to_bytecode<F: Fn(&str) -> u64>(source: &str, float_bits: &F) -> (r: Result<BytecodeModule, Vec<MuninnError>>)
    requires
        source@.len() < MAX_PARSE_TOKENS,
        forall|text: &str| float_bits.requires((text,)),
    ensures
        lexed(source@) is Err ==> r is Err,
        r matches Ok(m) ==> {
            &&& forall|k: int| 0 <= k < m.functions@.len() ==> function_ok(#[trigger] m.functions@[k])
            &&& m.entry_function + 1 == m.functions@.len()
            &&& module_valid(m@)
        },
        r matches Err(errors) ==> errors@.len() > 0,
{
    let program = parse_document(source)?;
    proof {
        lemma_lex_from_tokens(source@, 0);
        lemma_slots_fit(program);
    }
    let semantics = check_program(&program)?;
    let mut module = compile_program(&program, float_bits)?;
    module.globals = globals_from_semantics(&semantics);
    Ok(module)
}

/// Compiles an already loaded project; diagnostics name the file that owns
/// each span.
pub fn compile_loaded_project<F: Fn(&str) -> u64>(project: &LoadedProject, float_bits: &F) -> (r: Result<BytecodeModule, Vec<FileDiagnostic>>)
    requires
        project.combined@.len() < MAX_PARSE_TOKENS,
        project.starts_positive(),
        forall|text: &str| float_bits.requires((text,)),
    ensures
        r matches Ok(m) ==> {
            &&& forall|k: int| 0 <= k < m.functions@.len() ==> function_ok(#[trigger] m.functions@[k])
            &&& m.entry_function + 1 == m.functions@.len()
            &&& module_valid(m@)
        },
        r matches Err(diagnostics) ==> diagnostics@.len() > 0,
{
    let program = match parse_document(project.combined.as_str()) {
        Ok(program) => program,
        Err(errors) => return Err(project.map_errors(errors)),
    };
    proof {
        lemma_lex_from_tokens(project.combined@, 0);
        lemma_slots_fit(program);
    }
    let semantics = match check_program(&program) {
        Ok(semantics) => semantics,
        Err(errors) => return Err(project.map_errors(errors)),
    };
    let mut module = match compile_program(&program, float_bits) {
        Ok(module) => module,
        Err(errors) => return Err(project.map_errors(errors)),
    };
    module.globals = globals_from_semantics(&semantics);
    Ok(module)
}

} // verus!
