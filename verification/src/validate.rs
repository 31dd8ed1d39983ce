use vstd::prelude::*;

use crate::bytecode::{
    BytecodeModule, Constant, ConstantModel, FunctionBytecode, FunctionModel, ModuleModel, OpCode,
    constant_views, decode_op, function_views,
};
use crate::error::MuninnError;
use crate::span::Span;
use crate::text::{decimal, owned, push_str, usize_text};

verus! {

// ----- the shape of valid bytecode -----

/// The little-endian 16-bit operand that follows the opcode at `ip`.
pub open spec fn operand(code: Seq<u8>, ip: int) -> nat {
    code[ip + 1] as nat + 256 * (code[ip + 2] as nat)
}

/// Width of the instruction at `ip`, when its opcode is known.
pub open spec fn width_at(code: Seq<u8>, ip: int) -> nat {
    match decode_op(code[ip]) {
        Some(op) => op.spec_width(),
        None => 0,
    }
}

/// Whether the instruction at `ip` has a known opcode and fits in the code.
pub open spec fn fits_at(code: Seq<u8>, ip: int) -> bool {
    0 <= ip < code.len() && decode_op(code[ip]) is Some && ip + width_at(code, ip) <= code.len()
}

/// Whether the instructions from `ip` on all decode and fit, back to back,
/// up to the end of the code.
pub open spec fn decodes_from(code: Seq<u8>, ip: int) -> bool
    decreases code.len() - ip,
{
    if ip < 0 || ip >= code.len() {
        true
    } else if !fits_at(code, ip) {
        false
    } else {
        decodes_from(code, ip + width_at(code, ip))
    }
}

/// Whether `p` is where an instruction starts, walking from `ip`.
pub open spec fn start_from(code: Seq<u8>, ip: int, p: int) -> bool
    decreases code.len() - ip,
{
    if ip < 0 || ip >= code.len() || !fits_at(code, ip) {
        false
    } else {
        p == ip || start_from(code, ip + width_at(code, ip), p)
    }
}

/// Whether an instruction starts at `p`.
pub open spec fn is_start(code: Seq<u8>, p: int) -> bool {
    start_from(code, 0, p)
}

/// Where the jump at `ip` lands, if the instruction there jumps and the
/// target does not fall before the code.
pub open spec fn jump_target(code: Seq<u8>, ip: int) -> Option<int> {
    match decode_op(code[ip]) {
        Some(OpCode::Jump) | Some(OpCode::JumpIfFalse) => Some(ip + 3 + operand(code, ip)),
        Some(OpCode::Loop) => if ip + 3 >= operand(code, ip) {
            Some(ip + 3 - operand(code, ip))
        } else {
            None
        },
        _ => None,
    }
}

/// `s` followed by ` in function '<name>'`.
pub open spec fn named(s: Seq<char>, f: FunctionModel) -> Seq<char> {
    s + " in function '"@ + f.name + "'"@
}

/// The diagnostic the operand checks give the instruction at `ip`, if any.
pub open spec fn local_operand_problem(f: FunctionModel, ip: int) -> Option<Seq<char>> {
    let code = f.chunk.code;
    let pool = f.chunk.constants;
    let k = operand(code, ip);
    match decode_op(code[ip]) {
        Some(OpCode::Constant) => if k < pool.len() {
            None
        } else {
            Some(named("constant index "@ + decimal(k) + " out of bounds"@, f))
        },
        Some(OpCode::DefineGlobal) | Some(OpCode::GetGlobal) | Some(OpCode::SetGlobal) => if k >= pool.len() {
            Some(named("global name constant index "@ + decimal(k) + " out of bounds"@, f))
        } else if pool[k as int] is Str {
            None
        } else {
            Some(named("global name constant at index "@ + decimal(k) + " is not a string"@, f))
        },
        Some(OpCode::GetLocal) | Some(OpCode::SetLocal) => if k < f.local_count {
            None
        } else {
            Some(
                named(
                    "local slot "@ + decimal(k) + " out of bounds (local_count "@ + decimal(f.local_count as nat)
                        + ")"@,
                    f,
                ),
            )
        },
        Some(OpCode::Loop) => if ip + 3 >= k {
            None
        } else {
            Some(named("backward loop jump "@ + decimal(k) + " underflows instruction pointer"@, f))
        },
        _ => None,
    }
}

/// The diagnostic for a jump whose target `t` is not an instruction start.
pub open spec fn jump_problem(f: FunctionModel, t: int) -> Seq<char> {
    named("jump target "@ + decimal(t as nat) + " is not an instruction boundary"@, f)
}

/// Some diagnostic from index `from` on carries the message `m`.
pub open spec fn reported(errors: Seq<MuninnError>, from: int, m: Seq<char>) -> bool {
    exists|j: int| from <= j < errors.len() && (#[trigger] errors[j]).message@ == m
}

proof fn lemma_reported_kept(a: Seq<MuninnError>, b: Seq<MuninnError>, from: int, to: int, m: Seq<char>)
    requires
        kept_prefix(a, b),
        reported(a, from, m),
        0 <= to <= from,
    ensures
        reported(b, to, m),
{
    let j = choose|j: int| from <= j < a.len() && (#[trigger] a[j]).message@ == m;
    assert(b[j] == a[j]);
}

/// The operand checks that need nothing beyond the instruction itself.
pub open spec fn local_operand_ok(f: FunctionModel, ip: int) -> bool {
    let code = f.chunk.code;
    let pool = f.chunk.constants;
    match decode_op(code[ip]) {
        Some(OpCode::Constant) => operand(code, ip) < pool.len(),
        Some(OpCode::DefineGlobal) | Some(OpCode::GetGlobal) | Some(OpCode::SetGlobal) => operand(
            code,
            ip,
        ) < pool.len() && pool[operand(code, ip) as int] is Str,
        Some(OpCode::GetLocal) | Some(OpCode::SetLocal) => operand(code, ip) < f.local_count,
        Some(OpCode::Loop) => ip + 3 >= operand(code, ip),
        _ => true,
    }
}

/// All operand checks of the instruction at `ip`, jump targets included.
pub open spec fn operand_ok(f: FunctionModel, ip: int) -> bool {
    &&& local_operand_ok(f, ip)
    &&& (jump_target(f.chunk.code, ip) matches Some(t) ==> is_start(f.chunk.code, t))
}

/// Stack effect of the instruction at `ip` entered with height `x`:
/// whether it underflows, the height it falls through with (if it falls
/// through), and whether a `Return` lacks its promised value.
pub open spec fn underflows(f: FunctionModel, ip: int, x: nat) -> bool {
    let code = f.chunk.code;
    match decode_op(code[ip]) {
        Some(OpCode::Pop) | Some(OpCode::SetLocal) | Some(OpCode::SetGlobal) | Some(
            OpCode::DefineGlobal,
        ) | Some(OpCode::Negate) | Some(OpCode::Not) | Some(OpCode::JumpIfFalse) => x < 1,
        Some(OpCode::Add) | Some(OpCode::Subtract) | Some(OpCode::Multiply) | Some(OpCode::Divide)
        | Some(OpCode::Equal) | Some(OpCode::Greater) | Some(OpCode::Less) => x < 2,
        Some(OpCode::Call) => x < code[ip + 1] as nat + 1,
        _ => false,
    }
}

pub open spec fn fall_height(f: FunctionModel, ip: int, x: nat) -> Option<nat> {
    let code = f.chunk.code;
    match decode_op(code[ip]) {
        Some(OpCode::Constant) | Some(OpCode::Nil) | Some(OpCode::True) | Some(OpCode::False)
        | Some(OpCode::GetLocal) | Some(OpCode::GetGlobal) => Some(x + 1),
        Some(OpCode::Pop) | Some(OpCode::SetLocal) | Some(OpCode::SetGlobal) | Some(
            OpCode::DefineGlobal,
        ) | Some(OpCode::Add) | Some(OpCode::Subtract) | Some(OpCode::Multiply) | Some(
            OpCode::Divide,
        ) | Some(OpCode::Equal) | Some(OpCode::Greater) | Some(OpCode::Less) => Some(
            (x - 1) as nat,
        ),
        Some(OpCode::Negate) | Some(OpCode::Not) | Some(OpCode::JumpIfFalse) => Some(x),
        Some(OpCode::Call) => Some((x - code[ip + 1] as nat) as nat),
        _ => None,
    }
}

pub open spec fn return_lacks_value(f: FunctionModel, ip: int, x: nat) -> bool {
    decode_op(f.chunk.code[ip]) == Some(OpCode::Return) && f.expects_return_value && x < 1
}

/// The jump edge the stack walk follows from `ip`: only targets that are
/// instruction starts.
pub open spec fn followed_jump(code: Seq<u8>, ip: int) -> Option<int> {
    match jump_target(code, ip) {
        Some(t) => if is_start(code, t) { Some(t) } else { None },
        None => None,
    }
}

/// Whether `h` assigns the instruction at `ip` a height that is consistent
/// with its successors.
pub open spec fn step_consistent(f: FunctionModel, h: Map<int, nat>, ip: int) -> bool {
    let code = f.chunk.code;
    let x = h[ip];
    let next = ip + width_at(code, ip);
    &&& !underflows(f, ip, x)
    &&& !return_lacks_value(f, ip, x)
    &&& (fall_height(f, ip, x) matches Some(y) ==> next < code.len() && h.contains_key(next)
        && h[next] == y)
    &&& (followed_jump(code, ip) matches Some(t) ==> h.contains_key(t) && h[t] == x)
}

/// `h` gives the operand-stack height on entry to every instruction it
/// covers: the entry point starts empty and every covered instruction
/// neither underflows nor falls off the end, and agrees with its successors.
pub open spec fn heights_consistent(f: FunctionModel, h: Map<int, nat>) -> bool {
    &&& h.contains_key(0)
    &&& h[0] == 0
    &&& forall|ip: int| #[trigger]
        h.contains_key(ip) ==> is_start(f.chunk.code, ip) && step_consistent(f, h, ip)
}

/// Some assignment of stack heights makes every reachable path agree.
pub open spec fn stack_ok(f: FunctionModel) -> bool {
    exists|h: Map<int, nat>| heights_consistent(f, h)
}

/// Every `Function` constant names one of the module's `n` functions.
pub open spec fn function_refs_ok(pool: Seq<ConstantModel>, n: nat) -> bool {
    forall|i: int| 0 <= i < pool.len() ==> (#[trigger] pool[i] matches ConstantModel::Function(t) ==> t < n)
}

/// A function of a module with `n` functions that the VM can run safely.
pub open spec fn function_valid(f: FunctionModel, n: nat) -> bool {
    let code = f.chunk.code;
    &&& f.local_count >= f.arity
    &&& code.len() == f.chunk.spans.len()
    &&& function_refs_ok(f.chunk.constants, n)
    &&& decodes_from(code, 0)
    &&& (forall|ip: int| #[trigger] is_start(code, ip) ==> operand_ok(f, ip))
    &&& code.len() > 0
    &&& stack_ok(f)
}

/// A module the VM can load: it has functions, its entry exists, and every
/// function is valid.
pub open spec fn module_valid(m: ModuleModel) -> bool {
    &&& m.functions.len() > 0
    &&& m.entry_function < m.functions.len()
    &&& forall|i: int| 0 <= i < m.functions.len() ==> function_valid(#[trigger] m.functions[i], m.functions.len())
}

// ----- facts about the walk -----

pub proof fn lemma_start_bounds(code: Seq<u8>, ip: int, p: int)
    requires
        start_from(code, ip, p),
    ensures
        ip <= p < code.len(),
        fits_at(code, p),
    decreases code.len() - ip,
{
    if p != ip {
        lemma_start_bounds(code, ip + width_at(code, ip), p);
    }
}

/// Walking on from a start that fits: the starts from `ip` are `ip` and
/// the starts after it.
pub proof fn lemma_start_step(code: Seq<u8>, ip: int, p: int)
    requires
        fits_at(code, ip),
    ensures
        start_from(code, ip, p) == (p == ip || start_from(code, ip + width_at(code, ip), p)),
{
}


/// In code that decodes to the end, the instruction after a start is a
/// start too, unless it lies past the end.
pub proof fn lemma_next_start(code: Seq<u8>, p: int)
    requires
        decodes_from(code, 0),
        is_start(code, p),
        p + width_at(code, p) < code.len(),
    ensures
        is_start(code, p + width_at(code, p)),
{
    lemma_next_start_from(code, 0, p);
}

proof fn lemma_next_start_from(code: Seq<u8>, q: int, p: int)
    requires
        decodes_from(code, q),
        start_from(code, q, p),
        p + width_at(code, p) < code.len(),
    ensures
        start_from(code, q, p + width_at(code, p)),
    decreases code.len() - q,
{
    let nq = q + width_at(code, q);
    if p == q {
        assert(decodes_from(code, nq));
        assert(fits_at(code, nq));
        lemma_start_step(code, nq, nq);
    } else {
        lemma_next_start_from(code, nq, p);
    }
}

// ----- diagnostics -----

/// `b` starts with `a`: diagnostics are only ever appended.
pub open spec fn kept_prefix(a: Seq<MuninnError>, b: Seq<MuninnError>) -> bool {
    &&& a.len() <= b.len()
    &&& forall|i: int| 0 <= i < a.len() ==> b[i] == a[i]
}

/// `a`, the decimal digits of `n`, then `b`.
fn text_num(a: &str, n: usize, b: &str) -> (s: String)
    ensures
        s@ == a@ + decimal(n as nat) + b@,
{
    let mut s = owned(a);
    let digits = usize_text(n);
    push_str(&mut s, digits.as_str());
    push_str(&mut s, b);
    s
}

/// Appends ` in function '<name>'`.
fn in_function(mut s: String, name: &str) -> (r: String)
    ensures
        r@ == s@ + " in function '"@ + name@ + "'"@,
{
    let ghost start = s@;
    push_str(&mut s, " in function '");
    push_str(&mut s, name);
    push_str(&mut s, "'");
    proof {
        assert(s@ =~= start + " in function '"@ + name@ + "'"@);
    }
    s
}

fn report(errors: &mut Vec<MuninnError>, message: String, span: Span)
    ensures
        final(errors)@.len() == old(errors)@.len() + 1,
        kept_prefix(old(errors)@, final(errors)@),
        final(errors)@.last().message == message,
{
    errors.push(MuninnError::from_string("compiler", message, span));
}

// ----- the linear walk -----

/// The 16-bit operand after the opcode at `ip`.
fn read_operand(code: &Vec<u8>, ip: usize) -> (v: usize)
    requires
        ip + 2 < code.len(),
    ensures
        v == operand(code@, ip as int),
{
    let lo: u8 = code[ip + 1];
    let hi: u8 = code[ip + 2];
    lo as usize + 256 * (hi as usize)
}

/// Where a jump lands, saturated at `usize::MAX` (past any code).
fn saturating_target(ip: usize, width: usize, jump: usize) -> (t: usize)
    requires
        ip + width <= usize::MAX,
    ensures
        ip + width + jump <= usize::MAX ==> t == ip + width + jump,
        ip + width + jump > usize::MAX ==> t == usize::MAX,
{
    if jump <= usize::MAX - (ip + width) {
        ip + width + jump
    } else {
        usize::MAX
    }
}

/// The per-instruction checks that need nothing but the instruction:
/// pool indices, global-name constants, local slots and backward jumps.
fn check_local_operand(
    f: &FunctionBytecode,
    ip: usize,
    op: OpCode,
    errors: &mut Vec<MuninnError>,
)
    requires
        fits_at(f@.chunk.code, ip as int),
        decode_op(f@.chunk.code[ip as int]) == Some(op),
    ensures
        (final(errors)@.len() == old(errors)@.len()) == local_operand_ok(f@, ip as int),
        final(errors)@.len() >= old(errors)@.len(),
        kept_prefix(old(errors)@, final(errors)@),
        local_operand_ok(f@, ip as int) <==> local_operand_problem(f@, ip as int) is None,
        local_operand_problem(f@, ip as int) matches Some(m) ==> final(errors)@.last().message@ == m,
{
    proof {
        reveal_strlit("");
    }
    let code = &f.chunk.code;
    let pool = &f.chunk.constants;
    let span = f.chunk.span_at(ip);
    match op {
        OpCode::Constant => {
            let index = read_operand(code, ip);
            if index >= pool.len() {
                report(errors, in_function(text_num("constant index ", index, " out of bounds"), f.name.as_str()), span);
            }
        },
        OpCode::DefineGlobal | OpCode::GetGlobal | OpCode::SetGlobal => {
            let index = read_operand(code, ip);
            if index < pool.len() {
                proof {
                    assert(constant_views(pool@)[index as int] == pool@[index as int]@);
                }
                match &pool[index] {
                    Constant::String(_) => {},
                    _ => {
                        report(errors, in_function(text_num("global name constant at index ", index, " is not a string"), f.name.as_str()), span);
                    },
                }
            } else {
                report(errors, in_function(text_num("global name constant index ", index, " out of bounds"), f.name.as_str()), span);
            }
        },
        OpCode::GetLocal | OpCode::SetLocal => {
            let slot = read_operand(code, ip);
            if slot >= f.local_count {
                let mut msg = text_num("local slot ", slot, " out of bounds (local_count ");
                let lc = usize_text(f.local_count);
                push_str(&mut msg, lc.as_str());
                push_str(&mut msg, ")");
                report(errors, in_function(msg, f.name.as_str()), span);
            }
        },
        OpCode::Loop => {
            let jump = read_operand(code, ip);
            if ip < jump && jump - ip > 3 {
                report(errors, in_function(text_num("backward loop jump ", jump, " underflows instruction pointer"), f.name.as_str()), span);
            }
        },
        _ => {},
    }
}

/// Whether a jump recorded as `(site, target)` stands for the jump at `site`.
pub open spec fn jump_recorded(code: Seq<u8>, site: int, target: int) -> bool {
    &&& is_start(code, site)
    &&& jump_target(code, site) matches Some(t)
    &&& is_start(code, target) == is_start(code, t)
    &&& target == (if t <= usize::MAX { t } else { usize::MAX as int })
}

/// Walks the instructions of `f` in order. Reports undecodable or
/// truncated instructions (and stops there) and bad local operands; returns
/// whether the walk reached the end, which bytes start instructions, and
/// every jump with its target.
fn walk_function(f: &FunctionBytecode, errors: &mut Vec<MuninnError>) -> (r: (
    bool,
    Vec<bool>,
    Vec<(usize, usize)>,
))
    ensures
        r.0 == decodes_from(f@.chunk.code, 0),
        r.1@.len() == f@.chunk.code.len(),
        r.0 ==> forall|p: int| 0 <= p < f@.chunk.code.len() ==> r.1@[p] == is_start(f@.chunk.code, p),
        r.0 ==> forall|k: int|
            0 <= k < r.2@.len() ==> jump_recorded(f@.chunk.code, r.2@[k].0 as int, r.2@[k].1 as int),
        r.0 ==> forall|p: int|
            is_start(f@.chunk.code, p) && jump_target(f@.chunk.code, p) is Some ==> exists|k: int|
                0 <= k < r.2@.len() && r.2@[k].0 == p,
        (final(errors)@.len() == old(errors)@.len()) == (decodes_from(f@.chunk.code, 0) && forall|
            p: int,
        | is_start(f@.chunk.code, p) ==> local_operand_ok(f@, p)),
        final(errors)@.len() >= old(errors)@.len(),
        kept_prefix(old(errors)@, final(errors)@),
        decodes_from(f@.chunk.code, 0) ==> forall|p: int|
            is_start(f@.chunk.code, p) && #[trigger] local_operand_problem(f@, p) is Some ==> reported(
                final(errors)@,
                old(errors)@.len() as int,
                local_operand_problem(f@, p)->0,
            ),
{
    let code = &f.chunk.code;
    let len = code.len();
    let ghost c = code@;
    let ghost base = errors@.len();
    let mut starts: Vec<bool> = Vec::new();
    let mut k: usize = 0;
    while k < len
        invariant
            k <= len,
            starts@.len() == k,
            forall|p: int| 0 <= p < k ==> !starts@[p],
        decreases len - k,
    {
        starts.push(false);
        k = k + 1;
    }
    let mut jumps: Vec<(usize, usize)> = Vec::new();
    let mut ip: usize = 0;
    let mut ok = true;
    while ok && ip < len
        invariant
            c == f@.chunk.code,
            code@ == c,
            len == c.len(),
            ip <= len,
            starts@.len() == len,
            errors@.len() >= base,
            kept_prefix(old(errors)@, errors@),
            ok ==> decodes_from(c, 0) == decodes_from(c, ip as int),
            !ok ==> !decodes_from(c, 0),
            !ok ==> errors@.len() > base,
            ok ==> forall|p: int| 0 <= p < ip ==> starts@[p] == is_start(c, p),
            ok ==> forall|p: int| p >= ip ==> is_start(c, p) == start_from(c, ip as int, p),
            forall|p: int| ip <= p < len ==> !starts@[p],
            ok ==> forall|j: int|
                0 <= j < jumps@.len() ==> jumps@[j].0 < ip && jump_recorded(
                    c,
                    jumps@[j].0 as int,
                    jumps@[j].1 as int,
                ),
            ok ==> forall|p: int|
                0 <= p < ip && is_start(c, p) && jump_target(c, p) is Some ==> exists|j: int|
                    0 <= j < jumps@.len() && jumps@[j].0 == p,
            ok ==> ((errors@.len() == base) == forall|p: int|
                0 <= p < ip && is_start(c, p) ==> local_operand_ok(f@, p)),
            ok ==> forall|p: int|
                0 <= p < ip && is_start(c, p) && #[trigger] local_operand_problem(f@, p) is Some ==> reported(
                    errors@,
                    base as int,
                    local_operand_problem(f@, p)->0,
                ),
        decreases len - ip, (if ok { 1int } else { 0int }),
    {
        let byte = code[ip];
        let span = f.chunk.span_at(ip);
        match OpCode::from_byte(byte) {
            None => {
                report(errors, in_function(text_num("invalid opcode ", byte as usize, ""), f.name.as_str()), span);
                ok = false;
            },
            Some(op) => {
                let width = op.width();
                if width > len - ip {
                    let mut msg = owned("truncated ");
                    push_str(&mut msg, op.name());
                    let rest = text_num(" instruction at byte ", ip, "");
                    push_str(&mut msg, rest.as_str());
                    report(errors, in_function(msg, f.name.as_str()), span);
                    ok = false;
                } else {
                    proof {
                        assert(fits_at(c, ip as int));
                        assert forall|p: int| p >= ip + width implies is_start(c, p) == start_from(
                            c,
                            ip + width,
                            p,
                        ) by {
                            lemma_start_step(c, ip as int, p);
                        }
                        assert forall|p: int| ip < p < ip + width implies !is_start(c, p) by {
                            lemma_start_step(c, ip as int, p);
                            if start_from(c, ip + width, p) {
                                lemma_start_bounds(c, ip + width, p);
                            }
                        }
                        lemma_start_step(c, ip as int, ip as int);
                    }
                    starts.set(ip, true);
                    let ghost before = errors@.len();
                    let ghost errors_before = errors@;
                    let ghost jumps_before = jumps@;
                    check_local_operand(f, ip, op, errors);
                    proof {
                        assert forall|p: int|
                            0 <= p < ip + width && is_start(c, p) && #[trigger] local_operand_problem(f@, p) is Some
                            implies reported(errors@, base as int, local_operand_problem(f@, p)->0) by {
                            if p < ip {
                                lemma_reported_kept(errors_before, errors@, base as int, base as int, local_operand_problem(f@, p)->0);
                            } else if p == ip {
                                assert(errors@[errors@.len() - 1].message@ == local_operand_problem(f@, p)->0);
                            } else {
                                lemma_start_step(c, ip as int, p);
                                lemma_start_bounds(c, ip + width, p);
                            }
                        }
                    }
                    match op {
                        OpCode::Jump | OpCode::JumpIfFalse => {
                            let jump = read_operand(code, ip);
                            let target = saturating_target(ip, width, jump);
                            proof {
                                if target == usize::MAX {
                                    if is_start(c, usize::MAX as int) {
                                        lemma_start_bounds(c, 0, usize::MAX as int);
                                    }
                                    if is_start(c, ip + width + jump) {
                                        lemma_start_bounds(c, 0, ip + width + jump);
                                    }
                                }
                            }
                            jumps.push((ip, target));
                        },
                        OpCode::Loop => {
                            let jump = read_operand(code, ip);
                            if jump <= ip + width {
                                jumps.push((ip, ip + width - jump));
                            }
                        },
                        _ => {},
                    }
                    proof {
                        assert forall|p: int|
                            0 <= p < ip + width && is_start(c, p) && jump_target(c, p) is Some implies exists|j: int|
                            0 <= j < jumps@.len() && jumps@[j].0 == p by {
                            if p == ip {
                                assert(jumps@[jumps@.len() - 1].0 == p);
                            } else {
                                assert(p < ip) by {
                                    if p > ip {
                                        lemma_start_step(c, ip as int, p);
                                        lemma_start_bounds(c, ip + width, p);
                                    }
                                }
                                let j = choose|j: int| 0 <= j < jumps_before.len() && jumps_before[j].0 == p;
                                assert(jumps@[j] == jumps_before[j]);
                            }
                        }
                        let ghost after_ok = forall|p: int|
                            0 <= p < ip + width && is_start(c, p) ==> local_operand_ok(f@, p);
                        let ghost before_ok = forall|p: int|
                            0 <= p < ip && is_start(c, p) ==> local_operand_ok(f@, p);
                        assert(after_ok == (before_ok && local_operand_ok(f@, ip as int))) by {
                            assert(is_start(c, ip as int));
                            if before_ok && local_operand_ok(f@, ip as int) {
                                assert forall|p: int|
                                    0 <= p < ip + width && is_start(c, p) implies local_operand_ok(f@, p) by {
                                    if p > ip {
                                        lemma_start_step(c, ip as int, p);
                                        lemma_start_bounds(c, ip + width, p);
                                    }
                                }
                            }
                        }
                        assert((errors@.len() == base) == after_ok);
                    }
                    ip = ip + width;
                }
            },
        }
    }
    proof {
        if ok {
            assert forall|p: int| is_start(c, p) implies 0 <= p < len by {
                lemma_start_bounds(c, 0, p);
            }
            assert forall|p: int|
                is_start(f@.chunk.code, p) && jump_target(f@.chunk.code, p) is Some implies exists|k: int|
                0 <= k < jumps@.len() && jumps@[k].0 == p by {
                lemma_start_bounds(c, 0, p);
                assert(0 <= p < ip);
                let j = choose|j: int| 0 <= j < jumps@.len() && jumps@[j].0 == p;
                assert(0 <= j < jumps@.len() && jumps@[j].0 == p);
            }
            assert((errors@.len() == base) == forall|p: int|
                is_start(c, p) ==> local_operand_ok(f@, p)) by {
                if errors@.len() == base {
                    assert forall|p: int| is_start(c, p) implies local_operand_ok(f@, p) by {
                        lemma_start_bounds(c, 0, p);
                    }
                }
            }
        }
    }
    let ghost js = jumps@;
    let result = (ok, starts, jumps);
    proof {
        assert(result.2@ == js);
        if ok {
            assert forall|p: int|
                is_start(f@.chunk.code, p) && jump_target(f@.chunk.code, p) is Some implies exists|k: int|
                0 <= k < result.2@.len() && result.2@[k].0 == p by {
                let k = choose|k: int| 0 <= k < js.len() && js[k].0 == p;
                assert(result.2@[k] == js[k]);
            }
        }
    }
    result
}


/// Reports every recorded jump whose target is not an instruction start.
fn check_jumps(
    f: &FunctionBytecode,
    starts: &Vec<bool>,
    jumps: &Vec<(usize, usize)>,
    errors: &mut Vec<MuninnError>,
)
    requires
        starts@.len() == f@.chunk.code.len(),
        forall|p: int| 0 <= p < f@.chunk.code.len() ==> starts@[p] == is_start(f@.chunk.code, p),
    ensures
        (final(errors)@.len() == old(errors)@.len()) == forall|k: int|
            0 <= k < jumps@.len() ==> is_start(f@.chunk.code, #[trigger] jumps@[k].1 as int),
        final(errors)@.len() >= old(errors)@.len(),
        kept_prefix(old(errors)@, final(errors)@),
        forall|k: int|
            0 <= k < jumps@.len() && !is_start(f@.chunk.code, #[trigger] jumps@[k].1 as int) ==> reported(
                final(errors)@,
                old(errors)@.len() as int,
                jump_problem(f@, jumps@[k].1 as int),
            ),
{
    let ghost base = errors@.len();
    let len = f.chunk.code.len();
    let mut k: usize = 0;
    while k < jumps.len()
        invariant
            k <= jumps@.len(),
            len == f@.chunk.code.len(),
            starts@.len() == len,
            forall|p: int| 0 <= p < len ==> starts@[p] == is_start(f@.chunk.code, p),
            errors@.len() >= base,
            kept_prefix(old(errors)@, errors@),
            (errors@.len() == base) == forall|j: int|
                0 <= j < k ==> is_start(f@.chunk.code, #[trigger] jumps@[j].1 as int),
            forall|j: int|
                0 <= j < k && !is_start(f@.chunk.code, #[trigger] jumps@[j].1 as int) ==> reported(
                    errors@,
                    base as int,
                    jump_problem(f@, jumps@[j].1 as int),
                ),
        decreases jumps@.len() - k,
    {
        let (site, target) = jumps[k];
        let ghost errors_before = errors@;
        if target >= len || !starts[target] {
            proof {
                if is_start(f@.chunk.code, target as int) {
                    lemma_start_bounds(f@.chunk.code, 0, target as int);
                }
            }
            report(
                errors,
                in_function(text_num("jump target ", target, " is not an instruction boundary"), f.name.as_str()),
                f.chunk.span_at(site),
            );
        }
        proof {
            assert forall|j: int|
                0 <= j < k + 1 && !is_start(f@.chunk.code, #[trigger] jumps@[j].1 as int) implies reported(
                errors@,
                base as int,
                jump_problem(f@, jumps@[j].1 as int),
            ) by {
                if j < k {
                    lemma_reported_kept(errors_before, errors@, base as int, base as int, jump_problem(f@, jumps@[j].1 as int));
                } else {
                    if is_start(f@.chunk.code, target as int) {
                        lemma_start_bounds(f@.chunk.code, 0, target as int);
                    }
                    assert(errors@[errors@.len() - 1].message@ == jump_problem(f@, target as int));
                }
            }
        }
        k = k + 1;
    }
}

// ----- operand-stack heights -----

/// Number of recorded entries.
pub open spec fn count_some(s: Seq<Option<usize>>) -> nat
    decreases s.len(),
{
    if s.len() == 0 {
        0
    } else {
        count_some(s.drop_last()) + if s.last() is Some { 1nat } else { 0nat }
    }
}

proof fn lemma_count_some_bound(s: Seq<Option<usize>>, i: int)
    requires
        0 <= i < s.len(),
    ensures
        count_some(s) <= s.len(),
        s[i] is None ==> count_some(s) < s.len(),
    decreases s.len(),
{
    let t = s.drop_last();
    if i < s.len() - 1 {
        lemma_count_some_bound(t, i);
    } else if t.len() > 0 {
        lemma_count_some_bound(t, 0);
    } else {
        assert(count_some(t) == 0);
    }
}

proof fn lemma_count_some_set(s: Seq<Option<usize>>, i: int, v: usize)
    requires
        0 <= i < s.len(),
        s[i] is None,
    ensures
        count_some(s.update(i, Some(v))) == count_some(s) + 1,
    decreases s.len(),
{
    if i < s.len() - 1 {
        assert(s.update(i, Some(v)).drop_last() =~= s.drop_last().update(i, Some(v)));
        lemma_count_some_set(s.drop_last(), i, v);
    } else {
        assert(s.update(i, Some(v)).drop_last() =~= s.drop_last());
    }
}

/// `(s, y)` is accounted for: recorded with height `y`, or waiting in the
/// worklist with it.
pub open spec fn covered(hts: Seq<Option<usize>>, wl: Seq<(usize, usize)>, s: int, y: nat) -> bool {
    ||| (0 <= s < hts.len() && hts[s] == Some(y as usize) && y <= usize::MAX)
    ||| exists|k: int| 0 <= k < wl.len() && wl[k].0 == s && wl[k].1 == y
}

/// The instruction at `ip`, entered with height `x`, is fine and each of
/// its successors is accounted for.
pub open spec fn step_covered(
    f: FunctionModel,
    hts: Seq<Option<usize>>,
    wl: Seq<(usize, usize)>,
    ip: int,
    x: nat,
) -> bool {
    let code = f.chunk.code;
    let next = ip + width_at(code, ip);
    &&& !underflows(f, ip, x)
    &&& !return_lacks_value(f, ip, x)
    &&& (fall_height(f, ip, x) matches Some(y) ==> next < code.len() && covered(hts, wl, next, y))
    &&& (followed_jump(code, ip) matches Some(t) ==> covered(hts, wl, t, x))
}

/// What was accounted for stays so once the popped item is recorded and
/// more items are pushed.
proof fn lemma_covered_kept(
    hts: Seq<Option<usize>>,
    wl: Seq<(usize, usize)>,
    hts2: Seq<Option<usize>>,
    wl2: Seq<(usize, usize)>,
    a: int,
    b: nat,
)
    requires
        wl.len() > 0,
        hts2.len() == hts.len(),
        forall|i: int| 0 <= i < hts.len() && hts[i] is Some ==> hts2[i] == hts[i],
        0 <= wl.last().0 < hts.len(),
        hts2[wl.last().0 as int] == Some(wl.last().1),
        wl2.len() >= wl.len() - 1,
        forall|k: int| 0 <= k < wl.len() - 1 ==> wl2[k] == wl[k],
        covered(hts, wl, a, b),
    ensures
        covered(hts2, wl2, a, b),
{
    if !(0 <= a < hts.len() && hts[a] == Some(b as usize) && b <= usize::MAX) {
        let k = choose|k: int| 0 <= k < wl.len() && wl[k].0 == a && wl[k].1 == b;
        if k < wl.len() - 1 {
            assert(wl2[k] == wl[k]);
        }
    }
}

proof fn lemma_step_covered_kept(
    f: FunctionModel,
    hts: Seq<Option<usize>>,
    wl: Seq<(usize, usize)>,
    hts2: Seq<Option<usize>>,
    wl2: Seq<(usize, usize)>,
    ip: int,
    x: nat,
)
    requires
        wl.len() > 0,
        hts2.len() == hts.len(),
        forall|i: int| 0 <= i < hts.len() && hts[i] is Some ==> hts2[i] == hts[i],
        0 <= wl.last().0 < hts.len(),
        hts2[wl.last().0 as int] == Some(wl.last().1),
        wl2.len() >= wl.len() - 1,
        forall|k: int| 0 <= k < wl.len() - 1 ==> wl2[k] == wl[k],
        step_covered(f, hts, wl, ip, x),
    ensures
        step_covered(f, hts2, wl2, ip, x),
{
    let code = f.chunk.code;
    let next = ip + width_at(code, ip);
    if let Some(y) = fall_height(f, ip, x) {
        lemma_covered_kept(hts, wl, hts2, wl2, next, y);
    }
    if let Some(t) = followed_jump(code, ip) {
        lemma_covered_kept(hts, wl, hts2, wl2, t, x);
    }
}

/// Stack effect of the instruction at `ip` entered with `x` values:
/// whether it underflows and, if not, the height it falls through with.
fn stack_effect(f: &FunctionBytecode, op: OpCode, ip: usize, x: usize) -> (r: (bool, Option<usize>))
    requires
        fits_at(f@.chunk.code, ip as int),
        decode_op(f@.chunk.code[ip as int]) == Some(op),
        x < usize::MAX,
    ensures
        r.0 == underflows(f@, ip as int, x as nat),
        !r.0 ==> match fall_height(f@, ip as int, x as nat) {
            Some(y) => r.1 == Some(y as usize) && y <= usize::MAX,
            None => r.1 is None,
        },
{
    match op {
        OpCode::Constant | OpCode::Nil | OpCode::True | OpCode::False | OpCode::GetLocal
        | OpCode::GetGlobal => (false, Some(x + 1)),
        OpCode::Pop | OpCode::SetLocal | OpCode::SetGlobal | OpCode::DefineGlobal => {
            if x < 1 {
                (true, None)
            } else {
                (false, Some(x - 1))
            }
        },
        OpCode::Add | OpCode::Subtract | OpCode::Multiply | OpCode::Divide | OpCode::Equal
        | OpCode::Greater | OpCode::Less => {
            if x < 2 {
                (true, None)
            } else {
                (false, Some(x - 1))
            }
        },
        OpCode::Negate | OpCode::Not | OpCode::JumpIfFalse => {
            if x < 1 {
                (true, None)
            } else {
                (false, Some(x))
            }
        },
        OpCode::Call => {
            let n = f.chunk.code.len();
            assert(ip + 1 < n);
            let argc = f.chunk.code[ip + 1] as usize;
            if x < argc + 1 {
                (true, None)
            } else {
                (false, Some(x - argc))
            }
        },
        _ => (false, None),
    }
}

/// The jump target the stack walk follows from `ip`, if any.
fn follow_jump(f: &FunctionBytecode, starts: &Vec<bool>, op: OpCode, ip: usize) -> (r: Option<
    usize,
>)
    requires
        fits_at(f@.chunk.code, ip as int),
        decode_op(f@.chunk.code[ip as int]) == Some(op),
        starts@.len() == f@.chunk.code.len(),
        forall|p: int| 0 <= p < f@.chunk.code.len() ==> starts@[p] == is_start(f@.chunk.code, p),
    ensures
        match followed_jump(f@.chunk.code, ip as int) {
            Some(t) => r == Some(t as usize) && 0 <= t < f@.chunk.code.len(),
            None => r is None,
        },
{
    let code = &f.chunk.code;
    let len = code.len();
    match op {
        OpCode::Jump | OpCode::JumpIfFalse => {
            let jump = read_operand(code, ip);
            let target = saturating_target(ip, 3, jump);
            proof {
                if is_start(code@, ip + 3 + jump) {
                    lemma_start_bounds(code@, 0, ip + 3 + jump);
                }
            }
            if target < len && starts[target] {
                Some(target)
            } else {
                None
            }
        },
        OpCode::Loop => {
            let jump = read_operand(code, ip);
            if jump <= ip + 3 {
                let target = ip + 3 - jump;
                proof {
                    if is_start(code@, target as int) {
                        lemma_start_bounds(code@, 0, target as int);
                    }
                }
                if target < len && starts[target] {
                    Some(target)
                } else {
                    None
                }
            } else {
                None
            }
        },
        _ => None,
    }
}

/// Follows every reachable path of the function from its entry with the
/// operand-stack height, reporting underflows, falls off the end, returns
/// without a promised value and joins whose heights disagree. Reports
/// nothing exactly when a consistent assignment of heights exists.
fn check_function_stack(f: &FunctionBytecode, starts: &Vec<bool>, errors: &mut Vec<MuninnError>)
    requires
        decodes_from(f@.chunk.code, 0),
        f@.chunk.code.len() > 0,
        starts@.len() == f@.chunk.code.len(),
        forall|p: int| 0 <= p < f@.chunk.code.len() ==> starts@[p] == is_start(f@.chunk.code, p),
    ensures
        (final(errors)@.len() == old(errors)@.len()) == stack_ok(f@),
        final(errors)@.len() >= old(errors)@.len(),
        kept_prefix(old(errors)@, final(errors)@),
{
    let code = &f.chunk.code;
    let len = code.len();
    let ghost c = code@;
    let ghost fm = f@;
    let ghost base = errors@.len();
    let ghost hs = choose|h: Map<int, nat>| heights_consistent(fm, h);
    let mut heights: Vec<Option<usize>> = Vec::new();
    let mut n: usize = 0;
    while n < len
        invariant
            n <= len,
            heights@.len() == n,
            forall|i: int| 0 <= i < n ==> heights@[i] is None,
            count_some(heights@) == 0,
        decreases len - n,
    {
        proof {
            assert(heights@.push(None).drop_last() =~= heights@);
        }
        heights.push(None);
        n = n + 1;
    }
    proof {
        assert(fits_at(c, 0));
        lemma_start_step(c, 0, 0);
    }
    let mut worklist: Vec<(usize, usize)> = Vec::new();
    worklist.push((0, 0));
    proof {
        assert(worklist@[0] == (0usize, 0usize));
    }
    let ghost mut recorded: nat = 0;
    while worklist.len() > 0
        invariant
            c == code@,
            c == fm.chunk.code,
            fm == f@,
            decodes_from(c, 0),
            len == c.len(),
            starts@.len() == len,
            forall|p: int| 0 <= p < len ==> starts@[p] == is_start(c, p),
            heights@.len() == len,
            recorded == count_some(heights@),
            recorded <= len,
            forall|k: int| 0 <= k < worklist@.len() ==> #[trigger] worklist@[k].0 < len,
            forall|k: int| 0 <= k < worklist@.len() ==> is_start(c, #[trigger] worklist@[k].0 as int),
            forall|k: int| 0 <= k < worklist@.len() ==> #[trigger] worklist@[k].1 <= recorded,
            forall|i: int| 0 <= i < len && #[trigger] heights@[i] is Some ==> is_start(c, i),
            errors@.len() >= base,
            kept_prefix(old(errors)@, errors@),
            errors@.len() == base ==> covered(heights@, worklist@, 0, 0),
            errors@.len() == base ==> forall|i: int|
                0 <= i < len && #[trigger] heights@[i] is Some ==> step_covered(
                    fm,
                    heights@,
                    worklist@,
                    i,
                    heights@[i].unwrap() as nat,
                ),
            heights_consistent(fm, hs) ==> errors@.len() == base,
            heights_consistent(fm, hs) ==> forall|k: int|
                0 <= k < worklist@.len() ==> hs.contains_key(#[trigger] worklist@[k].0 as int)
                    && hs[worklist@[k].0 as int] == worklist@[k].1,
            heights_consistent(fm, hs) ==> forall|i: int|
                0 <= i < len && #[trigger] heights@[i] is Some ==> hs.contains_key(i) && hs[i]
                    == heights@[i].unwrap(),
        decreases len - recorded, worklist@.len(),
    {
        let ghost wl0 = worklist@;
        let ghost h0 = heights@;
        let (ip, x) = worklist.pop().unwrap();
        proof {
            assert(wl0[wl0.len() - 1] == (ip, x));
            assert forall|k: int| 0 <= k < worklist@.len() implies 0 <= #[trigger] worklist@[k].0 < len
                && is_start(c, worklist@[k].0 as int) && worklist@[k].1 <= recorded by {
                assert(worklist@[k] == wl0[k]);
            }
        }
        match heights[ip] {
            Some(r) => {
                if r != x {
                    let mut msg = in_function(text_num("stack height mismatch at byte ", ip, ""), f.name.as_str());
                    let tail = text_num(" (expected ", r, "");
                    push_str(&mut msg, tail.as_str());
                    let tail2 = text_num(", found ", x, ")");
                    push_str(&mut msg, tail2.as_str());
                    report(errors, msg, f.chunk.span_at(ip));
                } else {
                    proof {
                        if errors@.len() == base {
                            assert forall|i: int|
                                0 <= i < len && #[trigger] heights@[i] is Some implies step_covered(
                                fm,
                                heights@,
                                worklist@,
                                i,
                                heights@[i].unwrap() as nat,
                            ) by {
                                lemma_step_covered_kept(fm, h0, wl0, heights@, worklist@, i, heights@[i].unwrap() as nat);
                            }
                            lemma_covered_kept(h0, wl0, heights@, worklist@, 0, 0);
                        }
                    }
                }
                                continue;
            },
            None => {},
        }
        proof {
            lemma_count_some_bound(heights@, ip as int);
            lemma_count_some_set(heights@, ip as int, x);
            lemma_start_bounds(c, 0, ip as int);
        }
        heights.set(ip, Some(x));
        proof {
            recorded = recorded + 1;
        }
        let ghost h1 = heights@;
        let ghost wl1 = worklist@;
        let op = OpCode::from_byte(code[ip]).unwrap();
        let width = op.width();
        let (under, fall) = stack_effect(f, op, ip, x);
        if under {
            report(errors, in_function(text_num("stack underflow at byte ", ip, ""), f.name.as_str()), f.chunk.span_at(ip));
                        continue;
        }
        if op == OpCode::Return {
            if f.expects_return_value && x < 1 {
                report(errors, in_function(owned("return expects a value on the stack"), f.name.as_str()), f.chunk.span_at(ip));
            }
        }
        let jump = follow_jump(f, starts, op, ip);
        if let Some(t) = jump {
            worklist.push((t, x));
        }
        let next = ip + width;
        if let Some(y) = fall {
            if next < len {
                worklist.push((next, y));
            } else {
                let at = if next >= 1 { next - 1 } else { 0 };
                let mut msg = owned("function '");
                push_str(&mut msg, f.name.as_str());
                push_str(&mut msg, "' can fall off the end of its bytecode");
                report(errors, msg, f.chunk.span_at(at));
            }
        }
        proof {
            let wl2 = worklist@;
            assert(forall|k: int| 0 <= k < wl1.len() ==> wl2[k] == wl1[k]);
            if fall is Some && next < len {
                lemma_next_start(c, ip as int);
            }
            assert forall|k: int| 0 <= k < wl2.len() implies 0 <= #[trigger] wl2[k].0 < len && is_start(
                c,
                wl2[k].0 as int,
            ) && wl2[k].1 <= recorded by {
                if k < wl1.len() {
                    assert(wl1[k] == wl0[k]);
                }
            }
            if jump is Some {
                assert(wl2[wl1.len() as int] == (jump.unwrap(), x));
            }
            if errors@.len() == base {
                assert forall|i: int|
                    0 <= i < len && #[trigger] heights@[i] is Some implies step_covered(
                    fm,
                    heights@,
                    worklist@,
                    i,
                    heights@[i].unwrap() as nat,
                ) by {
                    if i != ip {
                        assert(h0[i] is Some);
                        lemma_step_covered_kept(fm, h0, wl0, heights@, worklist@, i, heights@[i].unwrap() as nat);
                    } else {
                        if let Some(t) = followed_jump(c, ip as int) {
                            assert(wl2[wl1.len() as int].0 == t && wl2[wl1.len() as int].1 == x);
                        }
                        if let Some(y) = fall_height(fm, ip as int, x as nat) {
                            let k = wl2.len() - 1;
                            assert(wl2[k].0 == next && wl2[k].1 == y);
                        }
                    }
                }
                lemma_covered_kept(h0, wl0, heights@, worklist@, 0, 0);
            }
        }
    }
    proof {
        if errors@.len() == base {
            let h = Map::new(
                |i: int| 0 <= i < len && heights@[i] is Some,
                |i: int| heights@[i].unwrap() as nat,
            );
            assert forall|ip: int| #[trigger] h.contains_key(ip) implies is_start(c, ip)
                && step_consistent(fm, h, ip) by {
                assert(heights@[ip] is Some);
                assert(step_covered(fm, heights@, worklist@, ip, heights@[ip].unwrap() as nat));
            }
            assert(heights_consistent(fm, h));
        }
    }
}


// ----- functions and modules -----

/// Checks one function of a module with `n` functions, appending a
/// diagnostic for each problem found; appends nothing exactly when the
/// function is valid.
fn check_function(f: &FunctionBytecode, n: usize, is_entry: bool, errors: &mut Vec<MuninnError>)
    ensures
        (final(errors)@.len() == old(errors)@.len()) == function_valid(f@, n as nat),
        final(errors)@.len() >= old(errors)@.len(),
        kept_prefix(old(errors)@, final(errors)@),
        f@.chunk.code.len() == f@.chunk.spans.len() && decodes_from(f@.chunk.code, 0) ==> forall|p: int|
            is_start(f@.chunk.code, p) && #[trigger] local_operand_problem(f@, p) is Some ==> reported(
                final(errors)@,
                old(errors)@.len() as int,
                local_operand_problem(f@, p)->0,
            ),
        f@.chunk.code.len() == f@.chunk.spans.len() && decodes_from(f@.chunk.code, 0) ==> forall|p: int|
            is_start(f@.chunk.code, p) && #[trigger] jump_target(f@.chunk.code, p) is Some && jump_target(
                f@.chunk.code,
                p,
            )->0 <= usize::MAX && !is_start(f@.chunk.code, jump_target(f@.chunk.code, p)->0) ==> reported(
                final(errors)@,
                old(errors)@.len() as int,
                jump_problem(f@, jump_target(f@.chunk.code, p)->0),
            ),
{
    let ghost base = errors@.len();
    let name = f.name.as_str();
    if f.local_count < f.arity {
        let mut msg = owned("function '");
        push_str(&mut msg, name);
        let a = text_num("' local_count ", f.local_count, " is smaller than arity ");
        push_str(&mut msg, a.as_str());
        let b = usize_text(f.arity);
        push_str(&mut msg, b.as_str());
        report(errors, msg, Span::default());
    }
    let code_len = f.chunk.code.len();
    let span_len = f.chunk.spans.len();
    if code_len != span_len {
        let mut msg = owned("function '");
        push_str(&mut msg, name);
        let a = text_num("' has ", code_len, " op bytes but ");
        push_str(&mut msg, a.as_str());
        let b = text_num("", span_len, " span entries");
        push_str(&mut msg, b.as_str());
        report(errors, msg, Span::default());
        return;
    }
    let ghost after_header = errors@.len();
    let pool = &f.chunk.constants;
    let mut i: usize = 0;
    while i < pool.len()
        invariant
            i <= pool@.len(),
            errors@.len() >= after_header,
            kept_prefix(old(errors)@, errors@),
            (errors@.len() == after_header) == forall|j: int|
                0 <= j < i ==> (#[trigger] constant_views(pool@)[j] matches ConstantModel::Function(
                    t,
                ) ==> t < n),
        decreases pool@.len() - i,
    {
        proof {
            assert(constant_views(pool@)[i as int] == pool@[i as int]@);
        }
        match &pool[i] {
            Constant::Function(target) => {
                if *target >= n {
                    let mut msg = owned("function '");
                    push_str(&mut msg, name);
                    let a = text_num("' references missing function id ", *target, "");
                    push_str(&mut msg, a.as_str());
                    report(errors, msg, Span::default());
                }
            },
            _ => {},
        }
        i = i + 1;
    }
    let ghost after_refs = errors@.len();
    let (walk_ok, starts, jumps) = walk_function(f, errors);
    let ghost after_walk = errors@.len();
    let ghost walked = errors@;
    if walk_ok {
        check_jumps(f, &starts, &jumps, errors);
    }
    let ghost jumped = errors@;
    let ghost after_jumps = errors@.len();
    if code_len == 0 {
        if is_entry {
            report(errors, owned("entry function has empty bytecode"), Span::default());
        } else {
            let mut msg = owned("function '");
            push_str(&mut msg, name);
            push_str(&mut msg, "' has empty bytecode");
            report(errors, msg, Span::default());
        }
    }
    let ghost after_empty = errors@.len();
    if walk_ok && code_len > 0 {
        check_function_stack(f, &starts, errors);
    }
    proof {
        let c = f@.chunk.code;
        if walk_ok {
            let all_targets = forall|k: int|
                0 <= k < jumps@.len() ==> is_start(c, #[trigger] jumps@[k].1 as int);
            let all_ops = forall|ip: int| #[trigger] is_start(c, ip) ==> operand_ok(f@, ip);
            let all_local = forall|p: int| is_start(c, p) ==> local_operand_ok(f@, p);
            assert((after_walk == after_refs) == all_local);
            assert((all_local && all_targets) == all_ops) by {
                if all_local && all_targets {
                    assert forall|ip: int| #[trigger] is_start(c, ip) implies operand_ok(f@, ip) by {
                        if jump_target(c, ip) is Some {
                            let k = choose|k: int| 0 <= k < jumps@.len() && jumps@[k].0 == ip;
                            assert(jump_recorded(c, jumps@[k].0 as int, jumps@[k].1 as int));
                            assert(is_start(c, jumps@[k].1 as int));
                        }
                    }
                }
                if all_ops {
                    assert forall|k: int| 0 <= k < jumps@.len() implies is_start(c, #[trigger] jumps@[k].1 as int) by {
                        assert(jump_recorded(c, jumps@[k].0 as int, jumps@[k].1 as int));
                        assert(operand_ok(f@, jumps@[k].0 as int));
                    }
                }
            }
        }
        if walk_ok {
            assert forall|p: int|
                is_start(f@.chunk.code, p) && #[trigger] jump_target(f@.chunk.code, p) is Some && jump_target(
                    f@.chunk.code,
                    p,
                )->0 <= usize::MAX && !is_start(f@.chunk.code, jump_target(f@.chunk.code, p)->0) implies reported(
                errors@,
                base as int,
                jump_problem(f@, jump_target(f@.chunk.code, p)->0),
            ) by {
                let k = choose|k: int| 0 <= k < jumps@.len() && jumps@[k].0 == p;
                assert(jump_recorded(f@.chunk.code, jumps@[k].0 as int, jumps@[k].1 as int));
                assert(!is_start(f@.chunk.code, jumps@[k].1 as int));
                lemma_reported_kept(jumped, errors@, after_walk as int, base as int, jump_problem(f@, jumps@[k].1 as int));
            }
            assert forall|p: int|
                is_start(f@.chunk.code, p) && #[trigger] local_operand_problem(f@, p) is Some implies reported(
                errors@,
                base as int,
                local_operand_problem(f@, p)->0,
            ) by {
                lemma_reported_kept(walked, errors@, after_refs as int, base as int, local_operand_problem(f@, p)->0);
            }
        }
        assert(function_refs_ok(f@.chunk.constants, n as nat) == forall|j: int|
            0 <= j < pool@.len() ==> (#[trigger] constant_views(pool@)[j] matches ConstantModel::Function(
                t,
            ) ==> t < n));
    }
}

/// Checks that `module` is safe to run: it has functions and an entry that
/// exists, and every function decodes, keeps its operands in range, jumps
/// only to instruction starts and keeps the operand stack consistent.
/// Returns every problem found, in order, when there is any.
/// Diagnostics are only ever appended; a module without functions gets
/// exactly one, a bad entry index is named first, and in a function that
/// decodes every operand out of range and every jump to a byte where no
/// instruction starts is named, with its function.
pub fn validate_module(module: &BytecodeModule) -> (r: Result<(), Vec<MuninnError>>)
    ensures
        r is Ok <==> module_valid(module@),
        r matches Err(errors) ==> errors@.len() > 0,
        module@.functions.len() == 0 ==> (r matches Err(errors) && errors@.len() == 1
            && errors@[0].message@ == "bytecode module has no functions"@),
        module@.functions.len() > 0 && module@.entry_function >= module@.functions.len() ==> (r matches Err(
            errors,
        ) && errors@[0].message@ == "entry function "@ + decimal(module@.entry_function as nat)
            + " is out of bounds for "@ + decimal(module@.functions.len() as nat) + " functions"@),
        forall|k: int, p: int|
            0 <= k < module@.functions.len() && module@.functions[k].chunk.code.len()
                == module@.functions[k].chunk.spans.len() && decodes_from(module@.functions[k].chunk.code, 0)
                && is_start(module@.functions[k].chunk.code, p) && #[trigger] local_operand_problem(
                module@.functions[k],
                p,
            ) is Some ==> (r matches Err(errors) && reported(
                errors@,
                0,
                local_operand_problem(module@.functions[k], p)->0,
            )),
        forall|k: int, p: int|
            0 <= k < module@.functions.len() && module@.functions[k].chunk.code.len()
                == module@.functions[k].chunk.spans.len() && decodes_from(module@.functions[k].chunk.code, 0)
                && is_start(module@.functions[k].chunk.code, p) && #[trigger] jump_target(
                module@.functions[k].chunk.code,
                p,
            ) is Some && jump_target(module@.functions[k].chunk.code, p)->0 <= usize::MAX && !is_start(
                module@.functions[k].chunk.code,
                jump_target(module@.functions[k].chunk.code, p)->0,
            ) ==> (r matches Err(errors) && reported(
                errors@,
                0,
                jump_problem(module@.functions[k], jump_target(module@.functions[k].chunk.code, p)->0),
            )),
{
    let mut errors: Vec<MuninnError> = Vec::new();
    let n = module.functions.len();
    if n == 0 {
        report(&mut errors, owned("bytecode module has no functions"), Span::default());
        return Err(errors);
    }
    if module.entry_function >= n {
        let mut msg = text_num("entry function ", module.entry_function, " is out of bounds for ");
        let count = text_num("", n, " functions");
        push_str(&mut msg, count.as_str());
        proof {
            reveal_strlit("");
            assert(msg@ =~= "entry function "@ + decimal(module@.entry_function as nat) + " is out of bounds for "@
                + decimal(n as nat) + " functions"@);
        }
        report(&mut errors, msg, Span::default());
    }
    let ghost base = errors@.len();
    let ghost start_errors = errors@;
    let ghost fs = function_views(module.functions@);
    let mut i: usize = 0;
    while i < n
        invariant
            i <= n,
            n == module.functions@.len(),
            fs == function_views(module.functions@),
            errors@.len() >= base,
            kept_prefix(start_errors, errors@),
            forall|k: int, p: int|
                0 <= k < i && fs[k].chunk.code.len() == fs[k].chunk.spans.len() && decodes_from(fs[k].chunk.code, 0)
                    && is_start(fs[k].chunk.code, p) && #[trigger] local_operand_problem(fs[k], p) is Some
                    ==> reported(errors@, 0, local_operand_problem(fs[k], p)->0),
            forall|k: int, p: int|
                0 <= k < i && fs[k].chunk.code.len() == fs[k].chunk.spans.len() && decodes_from(fs[k].chunk.code, 0)
                    && is_start(fs[k].chunk.code, p) && #[trigger] jump_target(fs[k].chunk.code, p) is Some
                    && jump_target(fs[k].chunk.code, p)->0 <= usize::MAX && !is_start(
                    fs[k].chunk.code,
                    jump_target(fs[k].chunk.code, p)->0,
                ) ==> reported(errors@, 0, jump_problem(fs[k], jump_target(fs[k].chunk.code, p)->0)),
            (errors@.len() == base) == forall|j: int| 0 <= j < i ==> function_valid(#[trigger] fs[j], n as nat),
        decreases n - i,
    {
        let ghost errors_before = errors@;
        check_function(&module.functions[i], n, i == module.entry_function, &mut errors);
        proof {
            assert(fs[i as int] == module.functions@[i as int]@);
            assert forall|k: int, p: int|
                0 <= k < i + 1 && fs[k].chunk.code.len() == fs[k].chunk.spans.len() && decodes_from(
                    fs[k].chunk.code,
                    0,
                ) && is_start(fs[k].chunk.code, p) && #[trigger] local_operand_problem(fs[k], p) is Some implies reported(
                errors@,
                0,
                local_operand_problem(fs[k], p)->0,
            ) by {
                if k < i {
                    lemma_reported_kept(errors_before, errors@, 0, 0, local_operand_problem(fs[k], p)->0);
                } else {
                    lemma_reported_kept(errors@, errors@, errors_before.len() as int, 0, local_operand_problem(fs[k], p)->0);
                }
            }
            assert forall|k: int, p: int|
                0 <= k < i + 1 && fs[k].chunk.code.len() == fs[k].chunk.spans.len() && decodes_from(
                    fs[k].chunk.code,
                    0,
                ) && is_start(fs[k].chunk.code, p) && #[trigger] jump_target(fs[k].chunk.code, p) is Some
                    && jump_target(fs[k].chunk.code, p)->0 <= usize::MAX && !is_start(
                    fs[k].chunk.code,
                    jump_target(fs[k].chunk.code, p)->0,
                ) implies reported(errors@, 0, jump_problem(fs[k], jump_target(fs[k].chunk.code, p)->0)) by {
                let m = jump_problem(fs[k], jump_target(fs[k].chunk.code, p)->0);
                if k < i {
                    lemma_reported_kept(errors_before, errors@, 0, 0, m);
                } else {
                    lemma_reported_kept(errors@, errors@, errors_before.len() as int, 0, m);
                }
            }
        }
        i = i + 1;
    }
    if errors.len() == 0 {
        Ok(())
    } else {
        Err(errors)
    }
}

} // verus!
