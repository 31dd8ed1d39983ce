use vstd::prelude::*;
use vstd::utf8::{decode_utf8, encode_utf8, valid_utf8};

use crate::bytecode::{ChunkModel, ConstantModel, FunctionModel, GlobalModel, ModuleModel, kind_of_tag};
use crate::bytes::{
    flatten, from_le16, from_le32, from_le64, le16, le32, le64, lemma_i64_bits_round_trip,
    lemma_le16_round_trip, lemma_le32_round_trip, lemma_le64_round_trip,
};
use crate::mubc::{
    MAX_BYTE_ARRAY_LENGTH, MAX_DECODE_ITEMS, Parsed, constant_check, constant_item, enc_bytes,
    enc_constant, enc_constants, enc_function, enc_functions, enc_global, enc_globals, enc_module,
    enc_span, enc_spans, enc_text, first_problem, function_check, function_item, function_problem,
    global_check, global_item, lemma_first_problem_none_at, magic, module_problem, p_body, p_bytes,
    p_constant, p_count, p_function, p_global, p_header, p_many, p_module, p_span, p_text, p_u16,
    p_u32, p_u64, p_u8, span_check, span_item, span_problem, u32_at,
};
use crate::span::Span;
use crate::validate::module_valid;

verus! {

/// `e` lies in `b` from `pos` on.
pub open spec fn is_at(b: Seq<u8>, pos: nat, e: Seq<u8>) -> bool {
    pos + e.len() <= b.len() && b.subrange(pos as int, (pos + e.len()) as int) == e
}

proof fn lemma_at_split(b: Seq<u8>, pos: nat, e1: Seq<u8>, e2: Seq<u8>)
    requires
        is_at(b, pos, e1 + e2),
    ensures
        is_at(b, pos, e1),
        is_at(b, pos + e1.len(), e2),
{
    let whole = b.subrange(pos as int, (pos + (e1 + e2).len()) as int);
    assert(b.subrange(pos as int, (pos + e1.len()) as int) =~= whole.subrange(0, e1.len() as int));
    assert(whole.subrange(0, e1.len() as int) =~= e1);
    assert(b.subrange((pos + e1.len()) as int, (pos + e1.len() + e2.len()) as int) =~= whole.subrange(
        e1.len() as int,
        (e1 + e2).len() as int,
    ));
    assert(whole.subrange(e1.len() as int, (e1 + e2).len() as int) =~= e2);
}

proof fn lemma_read_u8(b: Seq<u8>, pos: nat, v: u8)
    requires
        is_at(b, pos, seq![v]),
    ensures
        p_u8(b, pos) == Ok::<(u8, nat), Seq<char>>((v, pos + 1)),
{
    assert(b.subrange(pos as int, pos + 1int)[0] == b[pos as int]);
}

proof fn lemma_read_u16(b: Seq<u8>, pos: nat, v: u16)
    requires
        is_at(b, pos, le16(v)),
    ensures
        p_u16(b, pos) == Ok::<(u16, nat), Seq<char>>((v, pos + 2)),
{
    let sub = b.subrange(pos as int, pos + 2int);
    assert(sub[0] == b[pos as int] && sub[1] == b[pos + 1int]);
    lemma_le16_round_trip(v);
}

proof fn lemma_read_u32(b: Seq<u8>, pos: nat, v: u32)
    requires
        is_at(b, pos, le32(v)),
    ensures
        p_u32(b, pos) == Ok::<(u32, nat), Seq<char>>((v, pos + 4)),
        u32_at(b, pos as int) == v,
{
    let sub = b.subrange(pos as int, pos + 4int);
    assert(sub[0] == b[pos as int] && sub[1] == b[pos + 1int] && sub[2] == b[pos + 2int] && sub[3]
        == b[pos + 3int]);
    lemma_le32_round_trip(v);
}

proof fn lemma_read_u64(b: Seq<u8>, pos: nat, v: u64)
    requires
        is_at(b, pos, le64(v)),
    ensures
        p_u64(b, pos) == Ok::<(u64, nat), Seq<char>>((v, pos + 8)),
{
    lemma_le64_round_trip(v);
    assert(b.subrange(pos as int, pos + 8int) =~= le64(v));
}

proof fn lemma_read_bytes(b: Seq<u8>, pos: nat, x: Seq<u8>)
    requires
        is_at(b, pos, enc_bytes(x)),
        x.len() <= MAX_BYTE_ARRAY_LENGTH,
    ensures
        p_bytes(b, pos) == Ok::<(Seq<u8>, nat), Seq<char>>((x, pos + 4 + x.len())),
{
    lemma_at_split(b, pos, le32(x.len() as u32), x);
    lemma_read_u32(b, pos, x.len() as u32);
}

proof fn lemma_read_text(b: Seq<u8>, pos: nat, s: Seq<char>)
    requires
        is_at(b, pos, enc_text(s)),
        encode_utf8(s).len() <= MAX_BYTE_ARRAY_LENGTH,
    ensures
        p_text(b, pos) == Ok::<(Seq<char>, nat), Seq<char>>((s, pos + enc_text(s).len())),
{
    lemma_read_bytes(b, pos, encode_utf8(s));
    vstd::utf8::encode_utf8_valid_utf8(s);
    vstd::utf8::encode_utf8_decode_utf8(s);
}

proof fn lemma_read_span(b: Seq<u8>, pos: nat, sp: Span)
    requires
        is_at(b, pos, enc_span(sp)),
        span_problem(sp) is None,
    ensures
        p_span(b, pos) == Ok::<(Span, nat), Seq<char>>((sp, pos + 24)),
{
    let e1 = le32(sp.line as u32);
    let e2 = le32(sp.column as u32);
    let e3 = le32(sp.offset as u32);
    let e4 = le32(sp.end_line as u32);
    let e5 = le32(sp.end_column as u32);
    let e6 = le32(sp.end_offset as u32);
    lemma_at_split(b, pos, e1 + e2 + e3 + e4 + e5, e6);
    lemma_at_split(b, pos, e1 + e2 + e3 + e4, e5);
    lemma_at_split(b, pos, e1 + e2 + e3, e4);
    lemma_at_split(b, pos, e1 + e2, e3);
    lemma_at_split(b, pos, e1, e2);
    lemma_read_u32(b, pos, sp.line as u32);
    lemma_read_u32(b, pos + 4, sp.column as u32);
    lemma_read_u32(b, pos + 8, sp.offset as u32);
    lemma_read_u32(b, pos + 12, sp.end_line as u32);
    lemma_read_u32(b, pos + 16, sp.end_column as u32);
    lemma_read_u32(b, pos + 20, sp.end_offset as u32);
}

/// Text constants and names that fit a byte array.
pub open spec fn constant_fits(c: ConstantModel) -> bool {
    c matches ConstantModel::Str(s) ==> encode_utf8(s).len() <= MAX_BYTE_ARRAY_LENGTH
}

proof fn lemma_read_constant(b: Seq<u8>, pos: nat, c: ConstantModel)
    requires
        is_at(b, pos, enc_constant(c)),
        crate::mubc::constant_problem(c) is None,
        constant_fits(c),
    ensures
        p_constant(b, pos) == Ok::<(ConstantModel, nat), Seq<char>>((c, pos + enc_constant(c).len())),
{
    match c {
        ConstantModel::Int(v) => {
            lemma_at_split(b, pos, seq![0u8], le64(v as u64));
            lemma_read_u8(b, pos, 0u8);
            lemma_read_u64(b, pos + 1, v as u64);
            lemma_i64_bits_round_trip(v);
        },
        ConstantModel::Float(bits) => {
            lemma_at_split(b, pos, seq![1u8], le64(bits));
            lemma_read_u8(b, pos, 1u8);
            lemma_read_u64(b, pos + 1, bits);
        },
        ConstantModel::Bool(v) => {
            let t: u8 = if v { 1u8 } else { 0u8 };
            assert(seq![2u8, t] =~= seq![2u8] + seq![t]);
            lemma_at_split(b, pos, seq![2u8], seq![t]);
            lemma_read_u8(b, pos, 2u8);
            lemma_read_u8(b, pos + 1, t);
        },
        ConstantModel::Str(s) => {
            lemma_at_split(b, pos, seq![3u8], enc_text(s));
            lemma_read_u8(b, pos, 3u8);
            lemma_read_text(b, pos + 1, s);
        },
        ConstantModel::Function(id) => {
            lemma_at_split(b, pos, seq![4u8], le32(id as u32));
            lemma_read_u8(b, pos, 4u8);
            lemma_read_u32(b, pos + 1, id as u32);
        },
        ConstantModel::Nil => {
            lemma_read_u8(b, pos, 5u8);
        },
    }
}

proof fn lemma_read_global(b: Seq<u8>, pos: nat, g: GlobalModel)
    requires
        is_at(b, pos, enc_global(g)),
        encode_utf8(g.name).len() <= MAX_BYTE_ARRAY_LENGTH,
    ensures
        p_global(b, pos) == Ok::<(GlobalModel, nat), Seq<char>>((g, pos + enc_global(g).len())),
{
    lemma_at_split(b, pos, enc_text(g.name), seq![g.kind.spec_tag()]);
    lemma_read_text(b, pos, g.name);
    lemma_read_u8(b, pos + enc_text(g.name).len(), g.kind.spec_tag());
    assert(kind_of_tag(g.kind.spec_tag()) == g.kind);
}

/// Items each encoded as a nonempty byte string.
proof fn lemma_flatten_len(parts: Seq<Seq<u8>>)
    requires
        forall|i: int| 0 <= i < parts.len() ==> #[trigger] parts[i].len() >= 1,
    ensures
        flatten(parts).len() >= parts.len(),
    decreases parts.len(),
{
    if parts.len() > 0 {
        lemma_flatten_len(parts.drop_last());
    }
}

/// Reading back `xs` laid out as `encs`, one encoding per item.
proof fn lemma_read_many<T>(
    b: Seq<u8>,
    pos: nat,
    xs: Seq<T>,
    encs: Seq<Seq<u8>>,
    item: spec_fn(Seq<u8>, nat) -> Parsed<T>,
)
    requires
        encs.len() == xs.len(),
        is_at(b, pos, flatten(encs)),
        forall|p: nat, i: int|
            0 <= i < xs.len() && #[trigger] is_at(b, p, encs[i]) ==> item(b, p) == Ok::<
                (T, nat),
                Seq<char>,
            >((xs[i], p + encs[i].len())),
    ensures
        p_many(b, pos, xs.len(), item) == Ok::<(Seq<T>, nat), Seq<char>>(
            (xs, pos + flatten(encs).len()),
        ),
    decreases xs.len(),
{
    if xs.len() == 0 {
        assert(xs =~= Seq::<T>::empty());
    } else {
        let front = encs.drop_last();
        lemma_at_split(b, pos, flatten(front), encs.last());
        assert(is_at(b, pos + flatten(front).len(), encs[encs.len() - 1]));
        assert forall|p: nat, i: int|
            0 <= i < xs.drop_last().len() && #[trigger] is_at(b, p, front[i]) implies item(b, p)
            == Ok::<(T, nat), Seq<char>>((xs.drop_last()[i], p + front[i].len())) by {
            assert(front[i] == encs[i]);
        }
        lemma_read_many(b, pos, xs.drop_last(), front, item);
        assert(encs[encs.len() - 1] == encs.last());
        assert(xs.drop_last().push(xs.last()) =~= xs);
    }
}

proof fn lemma_read_count(b: Seq<u8>, pos: nat, n: nat, label: Seq<char>)
    requires
        is_at(b, pos, le32(n as u32)),
        n <= MAX_DECODE_ITEMS,
        pos + 4 + n <= b.len(),
    ensures
        p_count(b, pos, label) == Ok::<(u32, nat), Seq<char>>((n as u32, pos + 4)),
{
    lemma_read_u32(b, pos, n as u32);
}

/// Every size that reading enforces holds of the function: name, code and
/// text constants fit a byte array, span counts fit a declared count, and
/// the pool fits 16-bit operands.
pub open spec fn function_within_limits(f: FunctionModel) -> bool {
    &&& encode_utf8(f.name).len() <= MAX_BYTE_ARRAY_LENGTH
    &&& f.chunk.code.len() <= MAX_BYTE_ARRAY_LENGTH
    &&& f.chunk.spans.len() <= MAX_DECODE_ITEMS
    &&& f.chunk.constants.len() <= crate::bytecode::MAX_CONSTANTS
    &&& forall|i: int| 0 <= i < f.chunk.constants.len() ==> constant_fits(#[trigger] f.chunk.constants[i])
}

/// Every size that reading a module enforces holds of `m`.
pub open spec fn module_within_limits(m: ModuleModel) -> bool {
    &&& m.globals.len() <= MAX_DECODE_ITEMS
    &&& m.functions.len() <= MAX_DECODE_ITEMS
    &&& forall|i: int| 0 <= i < m.globals.len() ==> encode_utf8(#[trigger] m.globals[i].name).len()
        <= MAX_BYTE_ARRAY_LENGTH
    &&& forall|i: int| 0 <= i < m.functions.len() ==> function_within_limits(#[trigger] m.functions[i])
}

#[verifier::rlimit(100)]
proof fn lemma_read_function(b: Seq<u8>, pos: nat, f: FunctionModel)
    requires
        is_at(b, pos, enc_function(f)),
        function_problem(f) is None,
        function_within_limits(f),
    ensures
        p_function(b, pos) == Ok::<(FunctionModel, nat), Seq<char>>((f, pos + enc_function(f).len())),
{
    let e_name = enc_text(f.name);
    let e_ar = le32(f.arity as u32);
    let e_lc = le32(f.local_count as u32);
    let e_ret = seq![if f.expects_return_value { 1u8 } else { 0u8 }];
    let e_code = enc_bytes(f.chunk.code);
    let e_ns = le32(f.chunk.spans.len() as u32);
    let es = enc_spans(f.chunk.spans);
    let e_sp = flatten(es);
    let e_nc = le32(f.chunk.constants.len() as u32);
    let ec = enc_constants(f.chunk.constants);
    let e_cs = flatten(ec);
    assert(enc_function(f) == e_name + e_ar + e_lc + e_ret + e_code + e_ns + e_sp + e_nc + e_cs);
    lemma_at_split(b, pos, e_name + e_ar + e_lc + e_ret + e_code + e_ns + e_sp + e_nc, e_cs);
    lemma_at_split(b, pos, e_name + e_ar + e_lc + e_ret + e_code + e_ns + e_sp, e_nc);
    lemma_at_split(b, pos, e_name + e_ar + e_lc + e_ret + e_code + e_ns, e_sp);
    lemma_at_split(b, pos, e_name + e_ar + e_lc + e_ret + e_code, e_ns);
    lemma_at_split(b, pos, e_name + e_ar + e_lc + e_ret, e_code);
    lemma_at_split(b, pos, e_name + e_ar + e_lc, e_ret);
    lemma_at_split(b, pos, e_name + e_ar, e_lc);
    lemma_at_split(b, pos, e_name, e_ar);
    let p1 = pos + e_name.len();
    let p2 = p1 + 4;
    let p3 = p2 + 4;
    let p4 = p3 + 1;
    let p5 = p4 + e_code.len();
    let p6 = p5 + 4;
    let p7 = p6 + e_sp.len();
    let p8 = p7 + 4;
    lemma_read_text(b, pos, f.name);
    lemma_read_u32(b, p1, f.arity as u32);
    lemma_read_u32(b, p2, f.local_count as u32);
    lemma_read_u8(b, p3, if f.expects_return_value { 1u8 } else { 0u8 });
    lemma_read_bytes(b, p4, f.chunk.code);
    // spans
    assert forall|i: int| 0 <= i < es.len() implies #[trigger] es[i].len() >= 1 by {
        assert(es[i] == enc_span(f.chunk.spans[i]));
    }
    lemma_flatten_len(es);
    lemma_read_count(b, p5, f.chunk.spans.len(), "spans"@);
    assert forall|p: nat, i: int|
        0 <= i < f.chunk.spans.len() && #[trigger] is_at(b, p, es[i]) implies span_item()(b, p)
        == Ok::<(Span, nat), Seq<char>>((f.chunk.spans[i], p + es[i].len())) by {
        lemma_first_problem_none_at(f.chunk.spans, span_check(), i);
        lemma_read_span(b, p, f.chunk.spans[i]);
    }
    lemma_read_many(b, p6, f.chunk.spans, es, span_item());
    // constants
    assert forall|i: int| 0 <= i < ec.len() implies #[trigger] ec[i].len() >= 1 by {
        assert(ec[i] == enc_constant(f.chunk.constants[i]));
    }
    lemma_flatten_len(ec);
    lemma_read_count(b, p7, f.chunk.constants.len(), "constants"@);
    assert forall|p: nat, i: int|
        0 <= i < f.chunk.constants.len() && #[trigger] is_at(b, p, ec[i]) implies constant_item()(
        b,
        p,
    ) == Ok::<(ConstantModel, nat), Seq<char>>((f.chunk.constants[i], p + ec[i].len())) by {
        lemma_first_problem_none_at(f.chunk.constants, constant_check(), i);
        lemma_read_constant(b, p, f.chunk.constants[i]);
    }
    lemma_read_many(b, p8, f.chunk.constants, ec, constant_item());
    assert(f.chunk == ChunkModel { code: f.chunk.code, spans: f.chunk.spans, constants: f.chunk.constants });
}

/// The global table of an encoded module reads back as the module's globals.
proof fn lemma_parse_globals(b: Seq<u8>, m: ModuleModel, pos: nat)
    requires
        module_within_limits(m),
        is_at(b, pos, le32(m.globals.len() as u32)),
        is_at(b, pos + 4, flatten(enc_globals(m.globals))),
    ensures
        p_count(b, pos, "globals"@) == Ok::<(u32, nat), Seq<char>>((m.globals.len() as u32, pos + 4)),
        p_many(b, pos + 4, m.globals.len(), global_item()) == Ok::<(Seq<GlobalModel>, nat), Seq<char>>(
            (m.globals, pos + 4 + flatten(enc_globals(m.globals)).len()),
        ),
{
    let eg = enc_globals(m.globals);
    assert forall|i: int| 0 <= i < eg.len() implies #[trigger] eg[i].len() >= 1 by {
        assert(eg[i] == enc_global(m.globals[i]));
    }
    lemma_flatten_len(eg);
    lemma_read_count(b, pos, m.globals.len(), "globals"@);
    assert forall|p: nat, i: int|
        0 <= i < m.globals.len() && #[trigger] is_at(b, p, eg[i]) implies global_item()(b, p)
        == Ok::<(GlobalModel, nat), Seq<char>>((m.globals[i], p + eg[i].len())) by {
        lemma_read_global(b, p, m.globals[i]);
    }
    lemma_read_many(b, pos + 4, m.globals, eg, global_item());
}

/// The function table of an encoded module reads back as its functions.
proof fn lemma_parse_functions(b: Seq<u8>, m: ModuleModel, pos: nat)
    requires
        module_problem(m) is None,
        module_within_limits(m),
        is_at(b, pos, le32(m.functions.len() as u32)),
        is_at(b, pos + 4, flatten(enc_functions(m.functions))),
    ensures
        p_count(b, pos, "functions"@) == Ok::<(u32, nat), Seq<char>>((m.functions.len() as u32, pos + 4)),
        p_many(b, pos + 4, m.functions.len(), function_item()) == Ok::<(Seq<FunctionModel>, nat), Seq<char>>(
            (m.functions, pos + 4 + flatten(enc_functions(m.functions)).len()),
        ),
{
    let ef = enc_functions(m.functions);
    assert forall|i: int| 0 <= i < ef.len() implies #[trigger] ef[i].len() >= 1 by {
        assert(ef[i] == enc_function(m.functions[i]));
    }
    lemma_flatten_len(ef);
    lemma_read_count(b, pos, m.functions.len(), "functions"@);
    assert forall|p: nat, i: int|
        0 <= i < m.functions.len() && #[trigger] is_at(b, p, ef[i]) implies function_item()(b, p)
        == Ok::<(FunctionModel, nat), Seq<char>>((m.functions[i], p + ef[i].len())) by {
        lemma_first_problem_none_at(m.functions, function_check(), i);
        lemma_read_function(b, p, m.functions[i]);
    }
    lemma_read_many(b, pos + 4, m.functions, ef, function_item());
}

/// Reading back the encoding of a module whose sizes fit both the format
/// and the reader's limits gives the module itself.
#[verifier::rlimit(50)]
pub proof fn lemma_parse_encoded(m: ModuleModel)
    requires
        module_problem(m) is None,
        module_within_limits(m),
    ensures
        p_module(enc_module(m)) == Ok::<ModuleModel, Seq<char>>(m),
{
    let b = enc_module(m);
    let e_entry = le32(m.entry_function as u32);
    let e_ng = le32(m.globals.len() as u32);
    let e_gs = flatten(enc_globals(m.globals));
    let e_nf = le32(m.functions.len() as u32);
    let e_fs = flatten(enc_functions(m.functions));
    let head = magic() + le16(1);
    assert(b == head + e_entry + e_ng + e_gs + e_nf + e_fs);
    assert(is_at(b, 0, b)) by {
        assert(b.subrange(0, b.len() as int) =~= b);
    }
    lemma_at_split(b, 0, head + e_entry + e_ng + e_gs + e_nf, e_fs);
    lemma_at_split(b, 0, head + e_entry + e_ng + e_gs, e_nf);
    lemma_at_split(b, 0, head + e_entry + e_ng, e_gs);
    lemma_at_split(b, 0, head + e_entry, e_ng);
    lemma_at_split(b, 0, head, e_entry);
    lemma_at_split(b, 0, magic(), le16(1));
    assert(b.take(4) =~= magic()) by {
        assert(b.subrange(0, 4) == magic());
    }
    lemma_read_u16(b, 4, 1u16);
    assert(p_header(b) == Ok::<nat, Seq<char>>(6));
    lemma_read_u32(b, 6, m.entry_function as u32);
    lemma_parse_globals(b, m, 10);
    let p4 = 14 + e_gs.len();
    lemma_parse_functions(b, m, p4);
    assert(p_body(b, 6) == Ok::<ModuleModel, Seq<char>>(m));
}

/// Writing a valid module in the `.mubc` format and reading it back gives
/// the same module, whenever its sizes fit the format and the reader's
/// limits: `encode_bytecode_module` then yields `enc_module(m)`, on which
/// `decode_bytecode_module` returns `m`.
pub proof fn law_mubc_round_trip(m: ModuleModel)
    requires
        module_valid(m),
        module_problem(m) is None,
        module_within_limits(m),
    ensures
        p_module(enc_module(m)) == Ok::<ModuleModel, Seq<char>>(m),
        module_valid(m),
{
    lemma_parse_encoded(m);
}

} // verus!
