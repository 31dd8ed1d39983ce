//! How bytecode stays valid while a function is being written: appending
//! whole instructions and patching the operand of a forward jump keep the
//! code decodable, and a map of stack heights that covers every reachable
//! instruction stays consistent with each step.
use vstd::prelude::*;

use crate::bytecode::{ChunkModel, ConstantModel, FunctionModel, OpCode, decode_op};
use crate::bytes::le16;
use crate::validate::{
    decodes_from, fits_at, function_refs_ok, function_valid, heights_consistent, is_start,
    jump_target, lemma_start_bounds, lemma_start_step, local_operand_ok, operand, return_lacks_value, start_from,
    step_consistent, underflows, fall_height, width_at, operand_ok, followed_jump,
};

verus! {

// ----- walking code that grows -----

/// Appending one instruction that fits exactly to code that decodes to its
/// end: the walk from any point of the old code now also stops at the old
/// end, and nowhere else new.
proof fn lemma_append_walk(code: Seq<u8>, code2: Seq<u8>, q: int)
    requires
        0 <= q <= code.len(),
        decodes_from(code, q),
        code.len() < code2.len(),
        forall|i: int| 0 <= i < code.len() ==> code2[i] == code[i],
        fits_at(code2, code.len() as int),
        code.len() + width_at(code2, code.len() as int) == code2.len(),
    ensures
        decodes_from(code2, q),
        forall|p: int| start_from(code2, q, p) == (start_from(code, q, p) || p == code.len()),
    decreases code.len() - q,
{
    if q == code.len() {
        assert(decodes_from(code2, code2.len() as int));
        assert forall|p: int| start_from(code2, q, p) == (start_from(code, q, p) || p == code.len()) by {
            assert(!start_from(code2, code2.len() as int, p));
        }
    } else {
        assert(fits_at(code, q));
        assert(code2[q] == code[q]);
        assert(fits_at(code2, q));
        let n = q + width_at(code, q);
        lemma_append_walk(code, code2, n);
        assert forall|p: int| start_from(code2, q, p) == (start_from(code, q, p) || p == code.len()) by {
            lemma_start_step(code, q, p);
            lemma_start_step(code2, q, p);
        }
    }
}

/// Changing bytes only away from instruction starts keeps the walk.
proof fn lemma_same_walk(code: Seq<u8>, code2: Seq<u8>, q: int)
    requires
        code2.len() == code.len(),
        0 <= q,
        decodes_from(code, q),
        forall|p: int| #[trigger] start_from(code, q, p) ==> code2[p] == code[p],
    ensures
        decodes_from(code2, q),
        forall|p: int| start_from(code2, q, p) == start_from(code, q, p),
    decreases code.len() - q,
{
    if q < code.len() {
        assert(fits_at(code, q));
        assert(start_from(code, q, q));
        let n = q + width_at(code, q);
        assert forall|p: int| start_from(code, n, p) implies code2[p] == code[p] by {
            assert(start_from(code, q, p));
        }
        lemma_same_walk(code, code2, n);
        assert(fits_at(code2, q));
        assert forall|p: int| start_from(code2, q, p) == start_from(code, q, p) by {
            lemma_start_step(code, q, p);
            lemma_start_step(code2, q, p);
        }
    }
}

/// Two instruction starts never overlap.
proof fn lemma_starts_apart(code: Seq<u8>, q: int, p1: int, p2: int)
    requires
        start_from(code, q, p1),
        start_from(code, q, p2),
        p1 < p2,
    ensures
        p1 + width_at(code, p1) <= p2,
    decreases code.len() - q,
{
    let n = q + width_at(code, q);
    if p1 == q {
        lemma_start_bounds(code, n, p2);
    } else {
        lemma_start_bounds(code, q, p1);
        lemma_starts_apart(code, n, p1, p2);
    }
}

pub proof fn lemma_le16_value(v: u16)
    ensures
        le16(v)[0] as nat + 256 * (le16(v)[1] as nat) == v,
{
    let b0 = (v & 0xff) as u8;
    let b1 = ((v >> 8u16) & 0xff) as u8;
    assert(b0 as u16 + 256 * (b1 as u16) == v) by (bit_vector)
        requires
            b0 == (v & 0xff) as u8,
            b1 == ((v >> 8u16) & 0xff) as u8,
    ;
}

// ----- code under construction -----

/// A path from an instruction lands on one already written whose height
/// `h` records as `y`, or at the end of the code, whose height is `end`.
pub open spec fn reaches(h: Map<int, nat>, end: Option<nat>, len: int, p: int, y: nat) -> bool {
    ||| (0 <= p < len && h.contains_key(p) && h[p] == y)
    ||| (p == len && end == Some(y))
}

/// The instruction at `ip`, entered with the height `h` records, neither
/// underflows nor lacks a return value, and each path out of it lands where
/// the heights agree; the jump of a pending instruction is not known yet.
pub open spec fn open_step(
    f: FunctionModel,
    h: Map<int, nat>,
    end: Option<nat>,
    pending: Set<int>,
    ip: int,
) -> bool {
    let code = f.chunk.code;
    let x = h[ip];
    &&& !underflows(f, ip, x)
    &&& !return_lacks_value(f, ip, x)
    &&& (fall_height(f, ip, x) matches Some(y) ==> reaches(
        h,
        end,
        code.len() as int,
        ip + width_at(code, ip),
        y,
    ))
    &&& (!pending.contains(ip) ==> (jump_target(code, ip) matches Some(t) ==> reaches(
        h,
        end,
        code.len() as int,
        t,
        x,
    )))
}

/// A jump lands on an instruction start or at the end of the code.
pub open spec fn target_ok(code: Seq<u8>, ip: int) -> bool {
    jump_target(code, ip) matches Some(t) ==> t <= code.len() && (t < code.len() ==> is_start(code, t))
}

pub open spec fn is_forward_jump(byte: u8) -> bool {
    decode_op(byte) == Some(OpCode::Jump) || decode_op(byte) == Some(OpCode::JumpIfFalse)
}

/// Code of a function being written: it decodes, its operands are in range,
/// every jump but the pending forward ones lands on a start or at the end,
/// and `h` gives consistent heights to the instructions reachable from the
/// entry, with `end` the height at the end of the code when that is
/// reachable.
pub open spec fn open_valid(f: FunctionModel, h: Map<int, nat>, end: Option<nat>, pending: Set<int>) -> bool {
    let code = f.chunk.code;
    &&& decodes_from(code, 0)
    &&& forall|ip: int| #[trigger]
        is_start(code, ip) ==> local_operand_ok(f, ip) && (!pending.contains(ip) ==> target_ok(code, ip))
    &&& forall|ip: int| #[trigger] pending.contains(ip) ==> is_start(code, ip) && is_forward_jump(code[ip])
    &&& (code.len() == 0 ==> end == Some(0nat))
    &&& (code.len() > 0 ==> h.contains_key(0) && h[0] == 0)
    &&& forall|ip: int| #[trigger] h.contains_key(ip) ==> is_start(code, ip) && open_step(f, h, end, pending, ip)
}

/// Every jump that is not pending lands inside the code.
pub open spec fn targets_inside(code: Seq<u8>, pending: Set<int>) -> bool {
    forall|ip: int| #[trigger]
        is_start(code, ip) && !pending.contains(ip) ==> (jump_target(code, ip) matches Some(t) ==> t < code.len())
}

/// The heights after an instruction is appended at `at`: it gets the
/// height of the end of the code when that was reachable.
pub open spec fn appended_heights(h: Map<int, nat>, end: Option<nat>, at: int) -> Map<int, nat> {
    match end {
        Some(x) => h.insert(at, x),
        None => h,
    }
}

/// The height at the new end after an instruction is appended at `at`.
pub open spec fn appended_end(f: FunctionModel, end: Option<nat>, at: int) -> Option<nat> {
    match end {
        Some(x) => fall_height(f, at, x),
        None => None,
    }
}

/// A forward jump is pending from when it is written until it is patched.
pub open spec fn appended_pending(pending: Set<int>, code: Seq<u8>, at: int) -> Set<int> {
    if is_forward_jump(code[at]) {
        pending.insert(at)
    } else {
        pending
    }
}

/// The height at the end once the pending jump at `ip` lands there.
pub open spec fn patched_end(h: Map<int, nat>, end: Option<nat>, ip: int) -> Option<nat> {
    if h.contains_key(ip) {
        Some(h[ip])
    } else {
        end
    }
}

/// An instruction whose bytes are the same in two functions with the same
/// header keeps its stack effect, its jump, and the operand checks it met.
proof fn lemma_instr_same(f: FunctionModel, f2: FunctionModel, p: int)
    requires
        0 <= p,
        p + width_at(f.chunk.code, p) <= f.chunk.code.len(),
        p + width_at(f.chunk.code, p) <= f2.chunk.code.len(),
        f2.chunk.code[p] == f.chunk.code[p],
        width_at(f.chunk.code, p) >= 2 ==> f2.chunk.code[p + 1] == f.chunk.code[p + 1],
        width_at(f.chunk.code, p) >= 3 ==> f2.chunk.code[p + 2] == f.chunk.code[p + 2],
        f.chunk.constants.len() <= f2.chunk.constants.len(),
        forall|i: int| 0 <= i < f.chunk.constants.len() ==> f2.chunk.constants[i] == f.chunk.constants[i],
        f.local_count <= f2.local_count,
        f2.expects_return_value == f.expects_return_value,
    ensures
        width_at(f2.chunk.code, p) == width_at(f.chunk.code, p),
        local_operand_ok(f, p) ==> local_operand_ok(f2, p),
        jump_target(f2.chunk.code, p) == jump_target(f.chunk.code, p),
        forall|x: nat| underflows(f2, p, x) == underflows(f, p, x),
        forall|x: nat| fall_height(f2, p, x) == fall_height(f, p, x),
        forall|x: nat| return_lacks_value(f2, p, x) == return_lacks_value(f, p, x),
{
    let code = f.chunk.code;
    let code2 = f2.chunk.code;
    if width_at(code, p) == 3 {
        assert(operand(code2, p) == operand(code, p));
    }
}

/// Appending one whole instruction keeps code under construction valid,
/// given that its operands are in range, a backward jump lands on a start
/// with the height it leaves with, and the instruction, when reachable,
/// neither underflows nor lacks a return value. Afterwards every jump
/// that is not pending lands inside the code.
pub proof fn lemma_append_valid(
    f: FunctionModel,
    h: Map<int, nat>,
    end: Option<nat>,
    pending: Set<int>,
    f2: FunctionModel,
)
    requires
        open_valid(f, h, end, pending),
        f.chunk.code.len() < f2.chunk.code.len(),
        forall|i: int| 0 <= i < f.chunk.code.len() ==> f2.chunk.code[i] == f.chunk.code[i],
        fits_at(f2.chunk.code, f.chunk.code.len() as int),
        f.chunk.code.len() + width_at(f2.chunk.code, f.chunk.code.len() as int) == f2.chunk.code.len(),
        f.chunk.constants.len() <= f2.chunk.constants.len(),
        forall|i: int| 0 <= i < f.chunk.constants.len() ==> f2.chunk.constants[i] == f.chunk.constants[i],
        f.local_count <= f2.local_count,
        f2.expects_return_value == f.expects_return_value,
        local_operand_ok(f2, f.chunk.code.len() as int),
        decode_op(f2.chunk.code[f.chunk.code.len() as int]) == Some(OpCode::Loop) ==> ({
            let t = f.chunk.code.len() + 3 - operand(f2.chunk.code, f.chunk.code.len() as int);
            &&& t < f.chunk.code.len()
            &&& is_start(f.chunk.code, t)
            &&& (end matches Some(x) ==> h.contains_key(t) && h[t] == x)
        }),
        end matches Some(x) ==> !underflows(f2, f.chunk.code.len() as int, x) && !return_lacks_value(
            f2,
            f.chunk.code.len() as int,
            x,
        ),
    ensures
        open_valid(
            f2,
            appended_heights(h, end, f.chunk.code.len() as int),
            appended_end(f2, end, f.chunk.code.len() as int),
            appended_pending(pending, f2.chunk.code, f.chunk.code.len() as int),
        ),
        forall|p: int| is_start(f2.chunk.code, p) == (is_start(f.chunk.code, p) || p == f.chunk.code.len()),
        targets_inside(f2.chunk.code, appended_pending(pending, f2.chunk.code, f.chunk.code.len() as int)),
{
    let code = f.chunk.code;
    let code2 = f2.chunk.code;
    let len = code.len() as int;
    let len2 = code2.len() as int;
    let h2 = appended_heights(h, end, len);
    let end2 = appended_end(f2, end, len);
    let pending2 = appended_pending(pending, code2, len);
    lemma_append_walk(code, code2, 0);
    assert forall|p: int| #[trigger] is_start(code, p) implies {
        &&& p + width_at(code, p) <= len
        &&& width_at(code2, p) == width_at(code, p)
        &&& (local_operand_ok(f, p) ==> local_operand_ok(f2, p))
        &&& jump_target(code2, p) == jump_target(code, p)
        &&& (forall|x: nat| underflows(f2, p, x) == underflows(f, p, x))
        &&& (forall|x: nat| fall_height(f2, p, x) == fall_height(f, p, x))
        &&& (forall|x: nat| return_lacks_value(f2, p, x) == return_lacks_value(f, p, x))
    } by {
        lemma_start_bounds(code, 0, p);
        lemma_instr_same(f, f2, p);
    }
    assert forall|ip: int| #[trigger] is_start(code2, ip) implies local_operand_ok(f2, ip) && (
    !pending2.contains(ip) ==> target_ok(code2, ip)) && (!pending2.contains(ip) ==> (jump_target(
        code2,
        ip,
    ) matches Some(t) ==> t < len2)) by {
        if ip != len && !pending2.contains(ip) {
            assert(is_start(code, ip));
            assert(!pending.contains(ip));
            if let Some(t) = jump_target(code, ip) {
                assert(target_ok(code, ip));
                assert(is_start(code2, t));
            }
        }
    }
    assert forall|ip: int| #[trigger] pending2.contains(ip) implies is_start(code2, ip) && is_forward_jump(
        code2[ip],
    ) by {
        if ip != len {
            assert(pending.contains(ip));
            assert(is_start(code, ip));
            lemma_start_bounds(code, 0, ip);
            assert(code2[ip] == code[ip]);
        }
    }
    assert forall|ip: int| #[trigger] h2.contains_key(ip) implies is_start(code2, ip) && open_step(
        f2,
        h2,
        end2,
        pending2,
        ip,
    ) by {
        if ip != len {
            assert(h.contains_key(ip));
            assert(is_start(code, ip));
            assert(open_step(f, h, end, pending, ip));
            assert(h2[ip] == h[ip]);
            let x = h[ip];
            if let Some(y) = fall_height(f, ip, x) {
                let n = ip + width_at(code, ip);
                assert(reaches(h, end, len, n, y));
                if n < len {
                    assert(h2[n] == h[n]);
                }
            }
            if !pending2.contains(ip) {
                if let Some(t) = jump_target(code, ip) {
                    assert(reaches(h, end, len, t, x));
                    if t < len {
                        assert(h2[t] == h[t]);
                    }
                }
            }
        } else {
            let x = end->Some_0;
            assert(h2[len] == x);
            if decode_op(code2[len]) == Some(OpCode::Loop) {
                let t = len + 3 - operand(code2, len);
                assert(h2[t] == h[t]);
            }
        }
    }
    assert(targets_inside(code2, pending2));
}

/// Pointing the pending jump at `ip` at the end of the code keeps code
/// under construction valid, when the end is unreachable or has the
/// height the jump leaves with; the end then has that height.
pub proof fn lemma_patch_valid(
    f: FunctionModel,
    h: Map<int, nat>,
    end: Option<nat>,
    pending: Set<int>,
    f2: FunctionModel,
    ip: int,
)
    requires
        open_valid(f, h, end, pending),
        pending.contains(ip),
        f2.chunk.constants == f.chunk.constants,
        f2.local_count == f.local_count,
        f2.expects_return_value == f.expects_return_value,
        f2.chunk.code.len() == f.chunk.code.len(),
        forall|i: int|
            0 <= i < f.chunk.code.len() && i != ip + 1 && i != ip + 2 ==> f2.chunk.code[i] == f.chunk.code[i],
        ip + 3 + operand(f2.chunk.code, ip) == f.chunk.code.len(),
        h.contains_key(ip) ==> (end is None || end == Some(h[ip])),
    ensures
        open_valid(f2, h, patched_end(h, end, ip), pending.remove(ip)),
        forall|p: int| is_start(f2.chunk.code, p) == is_start(f.chunk.code, p),
{
    let code = f.chunk.code;
    let code2 = f2.chunk.code;
    let len = code.len() as int;
    let end2 = patched_end(h, end, ip);
    let pending2 = pending.remove(ip);
    assert(is_start(code, ip));
    lemma_start_bounds(code, 0, ip);
    assert(width_at(code, ip) == 3);
    assert(ip + 3 <= len);
    assert forall|p: int| #[trigger] start_from(code, 0, p) implies code2[p] == code[p] by {
        lemma_start_bounds(code, 0, p);
        if p == ip + 1 || p == ip + 2 {
            lemma_starts_apart(code, 0, ip, p);
        }
    }
    lemma_same_walk(code, code2, 0);
    assert forall|p: int| #[trigger] is_start(code, p) && p != ip implies {
        &&& width_at(code2, p) == width_at(code, p)
        &&& (local_operand_ok(f, p) ==> local_operand_ok(f2, p))
        &&& jump_target(code2, p) == jump_target(code, p)
        &&& (forall|x: nat| underflows(f2, p, x) == underflows(f, p, x))
        &&& (forall|x: nat| fall_height(f2, p, x) == fall_height(f, p, x))
        &&& (forall|x: nat| return_lacks_value(f2, p, x) == return_lacks_value(f, p, x))
    } by {
        lemma_start_bounds(code, 0, p);
        if p < ip {
            lemma_starts_apart(code, 0, p, ip);
        } else {
            lemma_starts_apart(code, 0, ip, p);
        }
        lemma_instr_same(f, f2, p);
    }
    assert(code2[ip] == code[ip]);
    assert(jump_target(code2, ip) == Some(len));
    assert forall|p: int| #[trigger] is_start(code2, p) implies local_operand_ok(f2, p) && (
    !pending2.contains(p) ==> target_ok(code2, p)) by {
        assert(is_start(code, p));
        if p != ip && !pending2.contains(p) {
            assert(!pending.contains(p));
            assert(target_ok(code, p));
        }
    }
    assert forall|p: int| #[trigger] pending2.contains(p) implies is_start(code2, p) && is_forward_jump(code2[p]) by {
        assert(pending.contains(p));
        assert(is_start(code, p));
    }
    assert forall|p: int| #[trigger] h.contains_key(p) implies is_start(code2, p) && open_step(
        f2,
        h,
        end2,
        pending2,
        p,
    ) by {
        assert(is_start(code, p));
        assert(open_step(f, h, end, pending, p));
        if p == ip {
            assert(width_at(code2, ip) == width_at(code, ip));
        }
    }
}

/// A finished function: nothing pending, the end unreachable, and every
/// jump inside the code; with its header and pool in order it is valid.
pub proof fn lemma_finished_valid(f: FunctionModel, h: Map<int, nat>, n: nat)
    requires
        open_valid(f, h, None, Set::empty()),
        targets_inside(f.chunk.code, Set::empty()),
        f.chunk.code.len() > 0,
        f.chunk.code.len() == f.chunk.spans.len(),
        f.local_count >= f.arity,
        function_refs_ok(f.chunk.constants, n),
    ensures
        function_valid(f, n),
{
    let code = f.chunk.code;
    let none = Set::<int>::empty();
    assert forall|ip: int| #[trigger] is_start(code, ip) implies operand_ok(f, ip) by {
        assert(!none.contains(ip));
        if let Some(t) = jump_target(code, ip) {
            assert(target_ok(code, ip));
        }
    }
    assert forall|ip: int| #[trigger] h.contains_key(ip) implies is_start(code, ip) && step_consistent(
        f,
        h,
        ip,
    ) by {
        assert(open_step(f, h, None, none, ip));
        assert(!none.contains(ip));
        if let Some(t) = jump_target(code, ip) {
            assert(is_start(code, ip));
            assert(target_ok(code, ip));
            assert(followed_jump(code, ip) == Some(t));
        }
    }
    assert(heights_consistent(f, h));
}

/// More constants (the old ones kept in place) and more local slots keep
/// code under construction valid.
pub proof fn lemma_header_grows(
    f: FunctionModel,
    h: Map<int, nat>,
    end: Option<nat>,
    pending: Set<int>,
    f2: FunctionModel,
)
    requires
        open_valid(f, h, end, pending),
        f2.chunk.code == f.chunk.code,
        f.chunk.constants.len() <= f2.chunk.constants.len(),
        forall|i: int| 0 <= i < f.chunk.constants.len() ==> f2.chunk.constants[i] == f.chunk.constants[i],
        f.local_count <= f2.local_count,
        f2.expects_return_value == f.expects_return_value,
    ensures
        open_valid(f2, h, end, pending),
{
    let code = f.chunk.code;
    assert forall|ip: int| #[trigger] is_start(code, ip) implies local_operand_ok(f2, ip) && (
    !pending.contains(ip) ==> target_ok(code, ip)) by {
        lemma_start_bounds(code, 0, ip);
        lemma_instr_same(f, f2, ip);
    }
    assert forall|ip: int| #[trigger] h.contains_key(ip) implies is_start(code, ip) && open_step(
        f2,
        h,
        end,
        pending,
        ip,
    ) by {
        assert(is_start(code, ip));
        lemma_start_bounds(code, 0, ip);
        lemma_instr_same(f, f2, ip);
        assert(open_step(f, h, end, pending, ip));
    }
}

// ----- stack effects by opcode -----

/// The operand-stack height an instruction needs on entry; `argc` is the
/// argument count of a `Call`.
pub open spec fn op_needs(op: OpCode, argc: nat) -> nat {
    match op {
        OpCode::Pop | OpCode::SetLocal | OpCode::SetGlobal | OpCode::DefineGlobal | OpCode::Negate
        | OpCode::Not | OpCode::JumpIfFalse => 1,
        OpCode::Add | OpCode::Subtract | OpCode::Multiply | OpCode::Divide | OpCode::Equal
        | OpCode::Greater | OpCode::Less => 2,
        OpCode::Call => argc + 1,
        _ => 0,
    }
}

/// The height an instruction entered with `x` falls through with, if it
/// falls through.
pub open spec fn op_fall(op: OpCode, argc: nat, x: nat) -> Option<nat> {
    match op {
        OpCode::Constant | OpCode::Nil | OpCode::True | OpCode::False | OpCode::GetLocal
        | OpCode::GetGlobal => Some(x + 1),
        OpCode::Pop | OpCode::SetLocal | OpCode::SetGlobal | OpCode::DefineGlobal | OpCode::Add
        | OpCode::Subtract | OpCode::Multiply | OpCode::Divide | OpCode::Equal | OpCode::Greater
        | OpCode::Less => Some((x - 1) as nat),
        OpCode::Negate | OpCode::Not | OpCode::JumpIfFalse => Some(x),
        OpCode::Call => Some((x - argc) as nat),
        _ => None,
    }
}

pub proof fn lemma_byte_decodes(op: OpCode)
    ensures
        decode_op(op.spec_byte()) == Some(op),
{
}

/// The stack effect the validator reads from the code is the one of the
/// opcode written there.
pub proof fn lemma_op_effect(f: FunctionModel, ip: int, op: OpCode, argc: nat)
    requires
        0 <= ip < f.chunk.code.len(),
        f.chunk.code[ip] == op.spec_byte(),
        op == OpCode::Call ==> ip + 1 < f.chunk.code.len() && f.chunk.code[ip + 1] == argc,
    ensures
        forall|x: nat| underflows(f, ip, x) == (x < op_needs(op, argc)),
        forall|x: nat| fall_height(f, ip, x) == op_fall(op, argc, x),
        forall|x: nat|
            return_lacks_value(f, ip, x) == (op == OpCode::Return && f.expects_return_value && x < 1),
        width_at(f.chunk.code, ip) == op.spec_width(),
        is_forward_jump(f.chunk.code[ip]) == (op == OpCode::Jump || op == OpCode::JumpIfFalse),
{
    lemma_byte_decodes(op);
}

} // verus!
