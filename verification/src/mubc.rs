use vstd::prelude::*;
use vstd::utf8::{decode_utf8, encode_utf8, valid_utf8};

use crate::bytecode::{
    BytecodeDecodeError, BytecodeModule, Chunk, ChunkModel, Constant, ConstantModel, FunctionBytecode,
    FunctionModel, GlobalModel, GlobalSpec, GlobalValueKind, ModuleModel, constant_views, kind_of_tag,
    function_views, global_views, MAX_CONSTANTS,
};
use crate::bytes::{flatten, from_le16, from_le32, from_le64, le16, le32, le64, push_all, push_le16, push_le32, push_le64};
use crate::span::Span;
use crate::text::{decimal, owned, push_str, usize_text};
use crate::validate::{module_valid, validate_module};


verus! {

/// Most items a declared count may announce.
pub const MAX_DECODE_ITEMS: usize = 1000000;

/// Longest byte array (code or UTF-8 text) a payload may carry.
pub const MAX_BYTE_ARRAY_LENGTH: usize = 1048576;

/// The format version this library reads and writes.
pub const MUBC_VERSION: u16 = 1;

// ----- the encoding -----

/// The four magic bytes `MUBC`.
pub open spec fn magic() -> Seq<u8> {
    seq![77u8, 85u8, 66u8, 67u8]
}

/// A byte array: its length as a little-endian `u32`, then its bytes.
pub open spec fn enc_bytes(b: Seq<u8>) -> Seq<u8> {
    le32(b.len() as u32) + b
}

/// Text is written as the byte array of its UTF-8 encoding.
pub open spec fn enc_text(s: Seq<char>) -> Seq<u8> {
    enc_bytes(encode_utf8(s))
}

pub open spec fn enc_span(sp: Span) -> Seq<u8> {
    le32(sp.line as u32) + le32(sp.column as u32) + le32(sp.offset as u32) + le32(
        sp.end_line as u32,
    ) + le32(sp.end_column as u32) + le32(sp.end_offset as u32)
}

/// A constant: a tag byte, then its payload.
pub open spec fn enc_constant(c: ConstantModel) -> Seq<u8> {
    match c {
        ConstantModel::Int(v) => seq![0u8] + le64(v as u64),
        ConstantModel::Float(bits) => seq![1u8] + le64(bits),
        ConstantModel::Bool(b) => seq![2u8, if b { 1u8 } else { 0u8 }],
        ConstantModel::Str(s) => seq![3u8] + enc_text(s),
        ConstantModel::Function(id) => seq![4u8] + le32(id as u32),
        ConstantModel::Nil => seq![5u8],
    }
}

pub open spec fn enc_global(g: GlobalModel) -> Seq<u8> {
    enc_text(g.name) + seq![g.kind.spec_tag()]
}

pub open spec fn enc_spans(spans: Seq<Span>) -> Seq<Seq<u8>> {
    spans.map_values(|sp: Span| enc_span(sp))
}

pub open spec fn enc_constants(cs: Seq<ConstantModel>) -> Seq<Seq<u8>> {
    cs.map_values(|c: ConstantModel| enc_constant(c))
}

pub open spec fn enc_globals(gs: Seq<GlobalModel>) -> Seq<Seq<u8>> {
    gs.map_values(|g: GlobalModel| enc_global(g))
}

pub open spec fn enc_function(f: FunctionModel) -> Seq<u8> {
    enc_text(f.name) + le32(f.arity as u32) + le32(f.local_count as u32) + seq![
        if f.expects_return_value { 1u8 } else { 0u8 },
    ] + enc_bytes(f.chunk.code) + le32(f.chunk.spans.len() as u32) + flatten(
        enc_spans(f.chunk.spans),
    ) + le32(f.chunk.constants.len() as u32) + flatten(enc_constants(f.chunk.constants))
}

pub open spec fn enc_functions(fs: Seq<FunctionModel>) -> Seq<Seq<u8>> {
    fs.map_values(|f: FunctionModel| enc_function(f))
}

/// The `.mubc` image of a module.
pub open spec fn enc_module(m: ModuleModel) -> Seq<u8> {
    magic() + le16(1) + le32(m.entry_function as u32) + le32(m.globals.len() as u32) + flatten(
        enc_globals(m.globals),
    ) + le32(m.functions.len() as u32) + flatten(enc_functions(m.functions))
}

// ----- what cannot be encoded -----

/// A size that does not fit a `u32` field, with what it counts.
pub open spec fn size_problem(value: nat, what: Seq<char>) -> Option<(Seq<char>, nat)> {
    if value > u32::MAX { Some((what, value)) } else { None }
}

pub open spec fn or_else(a: Option<(Seq<char>, nat)>, b: Option<(Seq<char>, nat)>) -> Option<
    (Seq<char>, nat),
> {
    match a {
        Some(p) => Some(p),
        None => b,
    }
}

pub open spec fn span_problem(sp: Span) -> Option<(Seq<char>, nat)> {
    or_else(
        size_problem(sp.line as nat, "span coordinate"@),
        or_else(
            size_problem(sp.column as nat, "span coordinate"@),
            or_else(
                size_problem(sp.offset as nat, "span coordinate"@),
                or_else(
                    size_problem(sp.end_line as nat, "span coordinate"@),
                    or_else(
                        size_problem(sp.end_column as nat, "span coordinate"@),
                        size_problem(sp.end_offset as nat, "span coordinate"@),
                    ),
                ),
            ),
        ),
    )
}

pub open spec fn constant_problem(c: ConstantModel) -> Option<(Seq<char>, nat)> {
    match c {
        ConstantModel::Function(id) => size_problem(id as nat, "function id"@),
        ConstantModel::Str(s) => size_problem(encode_utf8(s).len(), "string constant"@),
        _ => None,
    }
}

/// The first item of `s` that `f` finds a problem with, in order.
pub open spec fn first_problem<T>(s: Seq<T>, f: spec_fn(T) -> Option<(Seq<char>, nat)>) -> Option<
    (Seq<char>, nat),
>
    decreases s.len(),
{
    if s.len() == 0 {
        None
    } else {
        or_else(first_problem(s.drop_last(), f), f(s.last()))
    }
}

pub open spec fn span_check() -> spec_fn(Span) -> Option<(Seq<char>, nat)> {
    |sp: Span| span_problem(sp)
}

pub open spec fn constant_check() -> spec_fn(ConstantModel) -> Option<(Seq<char>, nat)> {
    |c: ConstantModel| constant_problem(c)
}

pub open spec fn global_check() -> spec_fn(GlobalModel) -> Option<(Seq<char>, nat)> {
    |g: GlobalModel| size_problem(encode_utf8(g.name).len(), "global name"@)
}

pub open spec fn function_check() -> spec_fn(FunctionModel) -> Option<(Seq<char>, nat)> {
    |f: FunctionModel| function_problem(f)
}

/// Once every item before `i` is fine, the first problem is that of `s[i]`
/// if it has one.
pub proof fn lemma_first_problem_found<T>(
    s: Seq<T>,
    f: spec_fn(T) -> Option<(Seq<char>, nat)>,
    i: int,
)
    requires
        0 <= i < s.len(),
        first_problem(s.take(i), f) is None,
        f(s[i]) is Some,
    ensures
        first_problem(s, f) == f(s[i]),
    decreases s.len(),
{
    if i == s.len() - 1 {
        assert(s.drop_last() =~= s.take(i));
    } else {
        assert(s.drop_last().take(i) =~= s.take(i));
        lemma_first_problem_found(s.drop_last(), f, i);
    }
}

/// A prefix without a problem grows by one item without a problem.
pub proof fn lemma_first_problem_extend<T>(
    s: Seq<T>,
    f: spec_fn(T) -> Option<(Seq<char>, nat)>,
    i: int,
)
    requires
        0 <= i < s.len(),
        first_problem(s.take(i), f) is None,
        f(s[i]) is None,
    ensures
        first_problem(s.take(i + 1), f) is None,
{
    assert(s.take(i + 1).drop_last() =~= s.take(i));
}

/// No problem in the whole sequence means none in any item.
pub proof fn lemma_first_problem_none_at<T>(
    s: Seq<T>,
    f: spec_fn(T) -> Option<(Seq<char>, nat)>,
    i: int,
)
    requires
        first_problem(s, f) is None,
        0 <= i < s.len(),
    ensures
        f(s[i]) is None,
    decreases s.len(),
{
    if i < s.len() - 1 {
        assert(s.drop_last()[i] == s[i]);
        lemma_first_problem_none_at(s.drop_last(), f, i);
    }
}

pub open spec fn function_problem(f: FunctionModel) -> Option<(Seq<char>, nat)> {
    or_else(
        size_problem(encode_utf8(f.name).len(), "function name"@),
        or_else(
            size_problem(f.arity as nat, "arity"@),
            or_else(
                size_problem(f.local_count as nat, "local slot"@),
                or_else(
                    size_problem(f.chunk.code.len(), "code byte"@),
                    or_else(
                        size_problem(f.chunk.spans.len(), "span"@),
                        or_else(
                            size_problem(f.chunk.constants.len(), "constant"@),
                            or_else(
                                first_problem(f.chunk.spans, span_check()),
                                first_problem(f.chunk.constants, constant_check()),
                            ),
                        ),
                    ),
                ),
            ),
        ),
    )
}

/// The first size of the module, in writing order, that overflows its
/// `u32` field.
pub open spec fn module_problem(m: ModuleModel) -> Option<(Seq<char>, nat)> {
    or_else(
        size_problem(m.entry_function as nat, "entry function"@),
        or_else(
            size_problem(m.globals.len(), "global"@),
            or_else(
                size_problem(m.functions.len(), "function"@),
                or_else(first_problem(m.globals, global_check()), first_problem(m.functions, function_check())),
            ),
        ),
    )
}

pub open spec fn problem_message(what: Seq<char>, value: nat) -> Seq<char> {
    what + " count "@ + decimal(value) + " exceeds u32 range in .mubc payload"@
}

proof fn lemma_flatten_take_step(s: Seq<Seq<u8>>, i: int)
    requires
        0 <= i < s.len(),
    ensures
        flatten(s.take(i + 1)) == flatten(s.take(i)) + s[i],
{
    assert(s.take(i + 1).drop_last() =~= s.take(i));
}

fn size_check(value: usize, what: &str) -> (r: Result<(), String>)
    ensures
        match size_problem(value as nat, what@) {
            Some((w, v)) => r matches Err(msg) && msg@ == problem_message(w, v),
            None => r is Ok,
        },
{
    if value > u32::MAX as usize {
        let mut msg = owned(what);
        push_str(&mut msg, " count ");
        let digits = usize_text(value);
        push_str(&mut msg, digits.as_str());
        push_str(&mut msg, " exceeds u32 range in .mubc payload");
        return Err(msg);
    }
    Ok(())
}

fn check_span(sp: Span) -> (r: Result<(), String>)
    ensures
        match span_problem(sp) {
            Some((w, v)) => r matches Err(msg) && msg@ == problem_message(w, v),
            None => r is Ok,
        },
{
    size_check(sp.line, "span coordinate")?;
    size_check(sp.column, "span coordinate")?;
    size_check(sp.offset, "span coordinate")?;
    size_check(sp.end_line, "span coordinate")?;
    size_check(sp.end_column, "span coordinate")?;
    size_check(sp.end_offset, "span coordinate")
}

fn check_constant(c: &Constant) -> (r: Result<(), String>)
    ensures
        match constant_problem(c@) {
            Some((w, v)) => r matches Err(msg) && msg@ == problem_message(w, v),
            None => r is Ok,
        },
{
    match c {
        Constant::Function(id) => size_check(*id, "function id"),
        Constant::String(s) => size_check(s.as_str().as_bytes().len(), "string constant"),
        _ => Ok(()),
    }
}

fn check_spans(spans: &Vec<Span>) -> (r: Result<(), String>)
    ensures
        match first_problem(spans@, span_check()) {
            Some((w, v)) => r matches Err(msg) && msg@ == problem_message(w, v),
            None => r is Ok,
        },
{
    let mut i: usize = 0;
    while i < spans.len()
        invariant
            i <= spans.len(),
            first_problem(spans@.take(i as int), span_check()) is None,
        decreases spans.len() - i,
    {
        let r = check_span(spans[i]);
        if r.is_err() {
            proof {
                lemma_first_problem_found(spans@, span_check(), i as int);
            }
            return r;
        }
        proof {
            lemma_first_problem_extend(spans@, span_check(), i as int);
        }
        i = i + 1;
    }
    proof {
        assert(spans@.take(spans.len() as int) =~= spans@);
    }
    Ok(())
}

fn check_constants(cs: &Vec<Constant>) -> (r: Result<(), String>)
    ensures
        match first_problem(constant_views(cs@), constant_check()) {
            Some((w, v)) => r matches Err(msg) && msg@ == problem_message(w, v),
            None => r is Ok,
        },
{
    let ghost views = constant_views(cs@);
    let mut j: usize = 0;
    while j < cs.len()
        invariant
            j <= cs.len(),
            views == constant_views(cs@),
            first_problem(views.take(j as int), constant_check()) is None,
        decreases cs.len() - j,
    {
        let r = check_constant(&cs[j]);
        if r.is_err() {
            proof {
                lemma_first_problem_found(views, constant_check(), j as int);
            }
            return r;
        }
        proof {
            lemma_first_problem_extend(views, constant_check(), j as int);
        }
        j = j + 1;
    }
    proof {
        assert(views.take(cs.len() as int) =~= views);
    }
    Ok(())
}

fn check_function(f: &FunctionBytecode) -> (r: Result<(), String>)
    ensures
        match function_problem(f@) {
            Some((w, v)) => r matches Err(msg) && msg@ == problem_message(w, v),
            None => r is Ok,
        },
{
    size_check(f.name.as_str().as_bytes().len(), "function name")?;
    size_check(f.arity, "arity")?;
    size_check(f.local_count, "local slot")?;
    size_check(f.chunk.code.len(), "code byte")?;
    size_check(f.chunk.spans.len(), "span")?;
    size_check(f.chunk.constants.len(), "constant")?;
    check_spans(&f.chunk.spans)?;
    check_constants(&f.chunk.constants)
}

fn check_globals(gs: &Vec<GlobalSpec>) -> (r: Result<(), String>)
    ensures
        match first_problem(global_views(gs@), global_check()) {
            Some((w, v)) => r matches Err(msg) && msg@ == problem_message(w, v),
            None => r is Ok,
        },
{
    let ghost views = global_views(gs@);
    let mut i: usize = 0;
    while i < gs.len()
        invariant
            i <= gs.len(),
            views == global_views(gs@),
            first_problem(views.take(i as int), global_check()) is None,
        decreases gs.len() - i,
    {
        let r = size_check(gs[i].name.as_str().as_bytes().len(), "global name");
        if r.is_err() {
            proof {
                lemma_first_problem_found(views, global_check(), i as int);
            }
            return r;
        }
        proof {
            lemma_first_problem_extend(views, global_check(), i as int);
        }
        i = i + 1;
    }
    proof {
        assert(views.take(gs.len() as int) =~= views);
    }
    Ok(())
}

fn check_functions(fs: &Vec<FunctionBytecode>) -> (r: Result<(), String>)
    ensures
        match first_problem(function_views(fs@), function_check()) {
            Some((w, v)) => r matches Err(msg) && msg@ == problem_message(w, v),
            None => r is Ok,
        },
{
    let ghost views = function_views(fs@);
    let mut i: usize = 0;
    while i < fs.len()
        invariant
            i <= fs.len(),
            views == function_views(fs@),
            first_problem(views.take(i as int), function_check()) is None,
        decreases fs.len() - i,
    {
        let r = check_function(&fs[i]);
        if r.is_err() {
            proof {
                lemma_first_problem_found(views, function_check(), i as int);
            }
            return r;
        }
        proof {
            lemma_first_problem_extend(views, function_check(), i as int);
        }
        i = i + 1;
    }
    proof {
        assert(views.take(fs.len() as int) =~= views);
    }
    Ok(())
}

fn check_encodable(module: &BytecodeModule) -> (r: Result<(), String>)
    ensures
        match module_problem(module@) {
            Some((w, v)) => r matches Err(msg) && msg@ == problem_message(w, v),
            None => r is Ok,
        },
{
    size_check(module.entry_function, "entry function")?;
    size_check(module.globals.len(), "global")?;
    size_check(module.functions.len(), "function")?;
    check_globals(&module.globals)?;
    check_functions(&module.functions)
}

fn write_bytes(out: &mut Vec<u8>, value: &[u8])
    requires
        value@.len() <= u32::MAX,
    ensures
        final(out)@ == old(out)@ + enc_bytes(value@),
{
    push_le32(out, value.len() as u32);
    push_all(out, value);
    proof {
        assert(final(out)@ =~= old(out)@ + enc_bytes(value@));
    }
}

fn write_text(out: &mut Vec<u8>, value: &str)
    requires
        encode_utf8(value@).len() <= u32::MAX,
    ensures
        final(out)@ == old(out)@ + enc_text(value@),
{
    write_bytes(out, value.as_bytes());
}

fn write_span(out: &mut Vec<u8>, sp: Span)
    requires
        span_problem(sp) is None,
    ensures
        final(out)@ == old(out)@ + enc_span(sp),
{
    push_le32(out, sp.line as u32);
    push_le32(out, sp.column as u32);
    push_le32(out, sp.offset as u32);
    push_le32(out, sp.end_line as u32);
    push_le32(out, sp.end_column as u32);
    push_le32(out, sp.end_offset as u32);
    proof {
        assert(final(out)@ =~= old(out)@ + enc_span(sp));
    }
}

fn write_constant(out: &mut Vec<u8>, c: &Constant)
    requires
        constant_problem(c@) is None,
    ensures
        final(out)@ == old(out)@ + enc_constant(c@),
{
    let ghost start = out@;
    match c {
        Constant::Int(v) => {
            out.push(0u8);
            push_le64(out, *v as u64);
        },
        Constant::Float(bits) => {
            out.push(1u8);
            push_le64(out, *bits);
        },
        Constant::Bool(b) => {
            out.push(2u8);
            out.push(if *b { 1u8 } else { 0u8 });
        },
        Constant::String(s) => {
            out.push(3u8);
            write_text(out, s.as_str());
        },
        Constant::Function(id) => {
            out.push(4u8);
            push_le32(out, *id as u32);
        },
        Constant::Nil => {
            out.push(5u8);
        },
    }
    proof {
        assert(out@ =~= start + enc_constant(c@));
    }
}

fn write_spans(out: &mut Vec<u8>, spans: &Vec<Span>)
    requires
        first_problem(spans@, span_check()) is None,
    ensures
        final(out)@ == old(out)@ + flatten(enc_spans(spans@)),
{
    let ghost start = out@;
    let ghost es = enc_spans(spans@);
    let mut i: usize = 0;
    proof {
        assert(es.take(0) =~= Seq::<Seq<u8>>::empty());
        assert(start + flatten(es.take(0)) =~= start);
    }
    while i < spans.len()
        invariant
            i <= spans.len(),
            es == enc_spans(spans@),
            first_problem(spans@, span_check()) is None,
            out@ == start + flatten(es.take(i as int)),
        decreases spans.len() - i,
    {
        proof {
            lemma_first_problem_none_at(spans@, span_check(), i as int);
            lemma_flatten_take_step(es, i as int);
        }
        write_span(out, spans[i]);
        proof {
            assert(out@ =~= start + flatten(es.take(i + 1)));
        }
        i = i + 1;
    }
    proof {
        assert(es.take(spans.len() as int) =~= es);
    }
}

fn write_constants(out: &mut Vec<u8>, cs: &Vec<Constant>)
    requires
        first_problem(constant_views(cs@), constant_check()) is None,
    ensures
        final(out)@ == old(out)@ + flatten(enc_constants(constant_views(cs@))),
{
    let ghost start = out@;
    let ghost ec = enc_constants(constant_views(cs@));
    let mut j: usize = 0;
    proof {
        assert(ec.take(0) =~= Seq::<Seq<u8>>::empty());
        assert(start + flatten(ec.take(0)) =~= start);
    }
    while j < cs.len()
        invariant
            j <= cs.len(),
            ec == enc_constants(constant_views(cs@)),
            first_problem(constant_views(cs@), constant_check()) is None,
            out@ == start + flatten(ec.take(j as int)),
        decreases cs.len() - j,
    {
        proof {
            lemma_first_problem_none_at(constant_views(cs@), constant_check(), j as int);
            lemma_flatten_take_step(ec, j as int);
        }
        write_constant(out, &cs[j]);
        proof {
            assert(out@ =~= start + flatten(ec.take(j + 1)));
        }
        j = j + 1;
    }
    proof {
        assert(ec.take(cs.len() as int) =~= ec);
    }
}

fn write_function(out: &mut Vec<u8>, f: &FunctionBytecode)
    requires
        function_problem(f@) is None,
    ensures
        final(out)@ == old(out)@ + enc_function(f@),
{
    let ghost start = out@;
    write_text(out, f.name.as_str());
    push_le32(out, f.arity as u32);
    push_le32(out, f.local_count as u32);
    out.push(if f.expects_return_value { 1u8 } else { 0u8 });
    write_bytes(out, f.chunk.code.as_slice());
    push_le32(out, f.chunk.spans.len() as u32);
    write_spans(out, &f.chunk.spans);
    push_le32(out, f.chunk.constants.len() as u32);
    write_constants(out, &f.chunk.constants);
    proof {
        assert(out@ =~= start + enc_function(f@));
    }
}

fn write_globals(out: &mut Vec<u8>, gs: &Vec<GlobalSpec>)
    requires
        first_problem(global_views(gs@), global_check()) is None,
    ensures
        final(out)@ == old(out)@ + flatten(enc_globals(global_views(gs@))),
{
    let ghost start = out@;
    let ghost eg = enc_globals(global_views(gs@));
    let mut i: usize = 0;
    proof {
        assert(eg.take(0) =~= Seq::<Seq<u8>>::empty());
        assert(start + flatten(eg.take(0)) =~= start);
    }
    while i < gs.len()
        invariant
            i <= gs.len(),
            eg == enc_globals(global_views(gs@)),
            first_problem(global_views(gs@), global_check()) is None,
            out@ == start + flatten(eg.take(i as int)),
        decreases gs.len() - i,
    {
        proof {
            lemma_first_problem_none_at(global_views(gs@), global_check(), i as int);
            lemma_flatten_take_step(eg, i as int);
        }
        let g = &gs[i];
        write_text(out, g.name.as_str());
        out.push(g.kind.tag());
        proof {
            assert(out@ =~= start + flatten(eg.take(i + 1)));
        }
        i = i + 1;
    }
    proof {
        assert(eg.take(gs.len() as int) =~= eg);
    }
}

fn write_functions(out: &mut Vec<u8>, fs: &Vec<FunctionBytecode>)
    requires
        first_problem(function_views(fs@), function_check()) is None,
    ensures
        final(out)@ == old(out)@ + flatten(enc_functions(function_views(fs@))),
{
    let ghost start = out@;
    let ghost ef = enc_functions(function_views(fs@));
    let mut j: usize = 0;
    proof {
        assert(ef.take(0) =~= Seq::<Seq<u8>>::empty());
        assert(start + flatten(ef.take(0)) =~= start);
    }
    while j < fs.len()
        invariant
            j <= fs.len(),
            ef == enc_functions(function_views(fs@)),
            first_problem(function_views(fs@), function_check()) is None,
            out@ == start + flatten(ef.take(j as int)),
        decreases fs.len() - j,
    {
        proof {
            lemma_first_problem_none_at(function_views(fs@), function_check(), j as int);
            lemma_flatten_take_step(ef, j as int);
        }
        write_function(out, &fs[j]);
        proof {
            assert(out@ =~= start + flatten(ef.take(j + 1)));
        }
        j = j + 1;
    }
    proof {
        assert(ef.take(fs.len() as int) =~= ef);
    }
}

/// Writes `module` in the `.mubc` format; refuses a module with a size that
/// does not fit its `u32` field, naming the first such size in writing
/// order.
pub fn encode_bytecode_module(module: &BytecodeModule) -> (r: Result<Vec<u8>, String>)
    ensures
        match module_problem(module@) {
            Some((what, value)) => r matches Err(msg) && msg@ == problem_message(what, value),
            None => r matches Ok(bytes) && bytes@ == enc_module(module@),
        },
{
    check_encodable(module)?;
    let mut out: Vec<u8> = Vec::new();
    out.push(77u8);
    out.push(85u8);
    out.push(66u8);
    out.push(67u8);
    push_le16(&mut out, MUBC_VERSION);
    push_le32(&mut out, module.entry_function as u32);
    push_le32(&mut out, module.globals.len() as u32);
    write_globals(&mut out, &module.globals);
    push_le32(&mut out, module.functions.len() as u32);
    write_functions(&mut out, &module.functions);
    proof {
        assert(out@ =~= enc_module(module@));
    }
    Ok(out)
}


// ----- reading a payload -----

/// A parse result: the value and the position after it, or the message of
/// the refusal.
pub type Parsed<T> = Result<(T, nat), Seq<char>>;

pub open spec fn end_of_payload() -> Seq<char> {
    "unexpected end of .mubc payload"@
}

pub open spec fn u32_at(b: Seq<u8>, i: int) -> u32 {
    from_le32(b[i], b[i + 1], b[i + 2], b[i + 3])
}

pub open spec fn p_u8(b: Seq<u8>, pos: nat) -> Parsed<u8> {
    if pos + 1 <= b.len() {
        Ok((b[pos as int], pos + 1))
    } else {
        Err(end_of_payload())
    }
}

pub open spec fn p_u16(b: Seq<u8>, pos: nat) -> Parsed<u16> {
    if pos + 2 <= b.len() {
        Ok((from_le16(b[pos as int], b[pos + 1int]), pos + 2))
    } else {
        Err(end_of_payload())
    }
}

pub open spec fn p_u32(b: Seq<u8>, pos: nat) -> Parsed<u32> {
    if pos + 4 <= b.len() {
        Ok((u32_at(b, pos as int), pos + 4))
    } else {
        Err(end_of_payload())
    }
}

pub open spec fn p_u64(b: Seq<u8>, pos: nat) -> Parsed<u64> {
    if pos + 8 <= b.len() {
        Ok((from_le64(b.subrange(pos as int, pos + 8int)), pos + 8))
    } else {
        Err(end_of_payload())
    }
}

/// A byte array: a `u32` length of at most 1 MiB, then that many bytes.
pub open spec fn p_bytes(b: Seq<u8>, pos: nat) -> Parsed<Seq<u8>> {
    match p_u32(b, pos) {
        Err(e) => Err(e),
        Ok((n, p)) => if n > MAX_BYTE_ARRAY_LENGTH {
            Err(
                "byte array length "@ + decimal(n as nat) + " exceeds maximum 1048576 in .mubc payload"@,
            )
        } else if p + n <= b.len() {
            Ok((b.subrange(p as int, p + n as int), (p + n) as nat))
        } else {
            Err(end_of_payload())
        },
    }
}

/// Text: a byte array that must be valid UTF-8.
pub open spec fn p_text(b: Seq<u8>, pos: nat) -> Parsed<Seq<char>> {
    match p_bytes(b, pos) {
        Err(e) => Err(e),
        Ok((bs, p)) => if valid_utf8(bs) {
            Ok((decode_utf8(bs), p))
        } else {
            Err("invalid UTF-8 string in .mubc payload"@)
        },
    }
}

/// A span: six `u32` coordinates.
pub open spec fn p_span(b: Seq<u8>, pos: nat) -> Parsed<Span> {
    if pos + 24 <= b.len() {
        Ok(
            (
                Span {
                    line: u32_at(b, pos as int) as usize,
                    column: u32_at(b, pos + 4int) as usize,
                    offset: u32_at(b, pos + 8int) as usize,
                    end_line: u32_at(b, pos + 12int) as usize,
                    end_column: u32_at(b, pos + 16int) as usize,
                    end_offset: u32_at(b, pos + 20int) as usize,
                },
                pos + 24,
            ),
        )
    } else {
        Err(end_of_payload())
    }
}

pub open spec fn p_constant(b: Seq<u8>, pos: nat) -> Parsed<ConstantModel> {
    match p_u8(b, pos) {
        Err(e) => Err(e),
        Ok((tag, p)) => if tag == 0 {
            match p_u64(b, p) {
                Ok((v, q)) => Ok((ConstantModel::Int(v as i64), q)),
                Err(e) => Err(e),
            }
        } else if tag == 1 {
            match p_u64(b, p) {
                Ok((v, q)) => Ok((ConstantModel::Float(v), q)),
                Err(e) => Err(e),
            }
        } else if tag == 2 {
            match p_u8(b, p) {
                Ok((v, q)) => Ok((ConstantModel::Bool(v != 0), q)),
                Err(e) => Err(e),
            }
        } else if tag == 3 {
            match p_text(b, p) {
                Ok((s, q)) => Ok((ConstantModel::Str(s), q)),
                Err(e) => Err(e),
            }
        } else if tag == 4 {
            match p_u32(b, p) {
                Ok((v, q)) => Ok((ConstantModel::Function(v as usize), q)),
                Err(e) => Err(e),
            }
        } else if tag == 5 {
            Ok((ConstantModel::Nil, p))
        } else {
            Err("unknown constant tag "@ + decimal(tag as nat))
        },
    }
}

pub open spec fn p_global(b: Seq<u8>, pos: nat) -> Parsed<GlobalModel> {
    match p_text(b, pos) {
        Err(e) => Err(e),
        Ok((name, p)) => match p_u8(b, p) {
            Err(e) => Err(e),
            Ok((tag, q)) => if tag <= 5 {
                Ok((GlobalModel { name, kind: kind_of_tag(tag) }, q))
            } else {
                Err("unknown global kind tag "@ + decimal(tag as nat))
            },
        },
    }
}

/// A declared item count: at most a million, and no more than the bytes
/// left.
pub open spec fn p_count(b: Seq<u8>, pos: nat, label: Seq<char>) -> Parsed<u32> {
    match p_u32(b, pos) {
        Err(e) => Err(e),
        Ok((n, p)) => if n > MAX_DECODE_ITEMS || n > b.len() - p {
            Err("declared "@ + label + " count "@ + decimal(n as nat) + " is too large for .mubc payload"@)
        } else {
            Ok((n, p))
        },
    }
}

/// `n` items read back to back with `item`.
pub open spec fn p_many<T>(b: Seq<u8>, pos: nat, n: nat, item: spec_fn(Seq<u8>, nat) -> Parsed<T>) -> Parsed<
    Seq<T>,
>
    decreases n,
{
    if n == 0 {
        Ok((seq![], pos))
    } else {
        match p_many(b, pos, (n - 1) as nat, item) {
            Err(e) => Err(e),
            Ok((xs, p)) => match item(b, p) {
                Err(e) => Err(e),
                Ok((x, q)) => Ok((xs.push(x), q)),
            },
        }
    }
}

pub open spec fn span_item() -> spec_fn(Seq<u8>, nat) -> Parsed<Span> {
    |b: Seq<u8>, p: nat| p_span(b, p)
}

pub open spec fn constant_item() -> spec_fn(Seq<u8>, nat) -> Parsed<ConstantModel> {
    |b: Seq<u8>, p: nat| p_constant(b, p)
}

pub open spec fn global_item() -> spec_fn(Seq<u8>, nat) -> Parsed<GlobalModel> {
    |b: Seq<u8>, p: nat| p_global(b, p)
}

pub open spec fn function_item() -> spec_fn(Seq<u8>, nat) -> Parsed<FunctionModel> {
    |b: Seq<u8>, p: nat| p_function(b, p)
}

pub open spec fn p_function(b: Seq<u8>, pos: nat) -> Parsed<FunctionModel> {
    match p_text(b, pos) {
        Err(e) => Err(e),
        Ok((name, p1)) => match p_u32(b, p1) {
            Err(e) => Err(e),
            Ok((arity, p2)) => match p_u32(b, p2) {
                Err(e) => Err(e),
                Ok((locals, p3)) => match p_u8(b, p3) {
                    Err(e) => Err(e),
                    Ok((ret, p4)) => match p_bytes(b, p4) {
                        Err(e) => Err(e),
                        Ok((code, p5)) => match p_count(b, p5, "spans"@) {
                            Err(e) => Err(e),
                            Ok((ns, p6)) => match p_many(b, p6, ns as nat, span_item()) {
                                Err(e) => Err(e),
                                Ok((spans, p7)) => match p_count(b, p7, "constants"@) {
                                    Err(e) => Err(e),
                                    Ok((nc, p8)) => match p_many(b, p8, nc as nat, constant_item()) {
                                        Err(e) => Err(e),
                                        Ok((constants, p9)) => if nc > MAX_CONSTANTS {
                                            Err("too many constants: maximum is 65535 entries"@)
                                        } else {
                                            Ok(
                                                (
                                                    FunctionModel {
                                                        name,
                                                        arity: arity as usize,
                                                        local_count: locals as usize,
                                                        expects_return_value: ret != 0,
                                                        chunk: ChunkModel { code, spans, constants },
                                                    },
                                                    p9,
                                                ),
                                            )
                                        },
                                    },
                                },
                            },
                        },
                    },
                },
            },
        },
    }
}

/// The header: the magic bytes, then version 1; the position after it.
pub open spec fn p_header(b: Seq<u8>) -> Result<nat, Seq<char>> {
    if b.len() < 4 {
        Err(end_of_payload())
    } else if b.take(4) != magic() {
        Err("invalid .mubc magic header"@)
    } else {
        match p_u16(b, 4) {
            Err(e) => Err(e),
            Ok((version, p1)) => if version != MUBC_VERSION {
                Err("unsupported .mubc version "@ + decimal(version as nat) + " (expected 1)"@)
            } else {
                Ok(p1)
            },
        }
    }
}

/// The body from `pos`: entry index, globals, functions, and nothing after.
pub open spec fn p_body(b: Seq<u8>, pos: nat) -> Result<ModuleModel, Seq<char>> {
    match p_u32(b, pos) {
        Err(e) => Err(e),
        Ok((entry, p2)) => match p_count(b, p2, "globals"@) {
            Err(e) => Err(e),
            Ok((ng, p3)) => match p_many(b, p3, ng as nat, global_item()) {
                Err(e) => Err(e),
                Ok((globals, p4)) => match p_count(b, p4, "functions"@) {
                    Err(e) => Err(e),
                    Ok((nf, p5)) => match p_many(b, p5, nf as nat, function_item()) {
                        Err(e) => Err(e),
                        Ok((functions, p6)) => if p6 != b.len() {
                            Err("trailing bytes in .mubc payload"@)
                        } else {
                            Ok(ModuleModel { functions, entry_function: entry as usize, globals })
                        },
                    },
                },
            },
        },
    }
}

/// What a `.mubc` payload reads as, before validation: the module, or the
/// message of the first refusal in reading order.
pub open spec fn p_module(b: Seq<u8>) -> Result<ModuleModel, Seq<char>> {
    match p_header(b) {
        Err(e) => Err(e),
        Ok(p) => p_body(b, p),
    }
}


/// The reader's result `r` is what the spec parser `s` says.
pub open spec fn agrees<T: View>(r: Result<(T, usize), BytecodeDecodeError>, s: Parsed<T::V>) -> bool {
    match s {
        Ok((v, p)) => r matches Ok((x, q)) && x@ == v && q == p,
        Err(m) => r matches Err(e) && e.message@ == m,
    }
}

fn refusal(message: &str) -> (e: BytecodeDecodeError)
    ensures
        e.message@ == message@,
{
    BytecodeDecodeError::new(owned(message))
}

/// `a`, then the decimal digits of `n`.
fn refusal_num(a: &str, n: usize) -> (e: BytecodeDecodeError)
    ensures
        e.message@ == a@ + decimal(n as nat),
{
    let mut s = owned(a);
    let digits = usize_text(n);
    push_str(&mut s, digits.as_str());
    BytecodeDecodeError::new(s)
}

/// `a`, the decimal digits of `n`, then `b`.
fn refusal_with(a: &str, n: usize, b: &str) -> (e: BytecodeDecodeError)
    ensures
        e.message@ == a@ + decimal(n as nat) + b@,
{
    let mut s = owned(a);
    let digits = usize_text(n);
    push_str(&mut s, digits.as_str());
    push_str(&mut s, b);
    BytecodeDecodeError::new(s)
}

/// Converts bytes to text (std `String::from_utf8`): std documents that it
/// succeeds exactly on valid UTF-8, with the characters the bytes encode.
#[verifier::external_body]
fn utf8_text(bytes: Vec<u8>) -> (r: Option<String>)
    ensures
        match r {
            Some(s) => valid_utf8(bytes@) && s@ == decode_utf8(bytes@),
            None => !valid_utf8(bytes@),
        },
{
    match String::from_utf8(bytes) {
        Ok(s) => Some(s),
        Err(_) => None,
    }
}

fn read_u8(bytes: &[u8], pos: usize) -> (r: Result<(u8, usize), BytecodeDecodeError>)
    requires
        pos <= bytes@.len(),
    ensures
        agrees(r, p_u8(bytes@, pos as nat)),
{
    if pos < bytes.len() {
        Ok((bytes[pos], pos + 1))
    } else {
        Err(refusal("unexpected end of .mubc payload"))
    }
}

fn read_u16(bytes: &[u8], pos: usize) -> (r: Result<(u16, usize), BytecodeDecodeError>)
    requires
        pos <= bytes@.len(),
    ensures
        agrees(r, p_u16(bytes@, pos as nat)),
{
    if bytes.len() - pos >= 2 {
        let v = (bytes[pos] as u16) | ((bytes[pos + 1] as u16) << 8u16);
        Ok((v, pos + 2))
    } else {
        Err(refusal("unexpected end of .mubc payload"))
    }
}

fn read_u32(bytes: &[u8], pos: usize) -> (r: Result<(u32, usize), BytecodeDecodeError>)
    requires
        pos <= bytes@.len(),
    ensures
        agrees(r, p_u32(bytes@, pos as nat)),
{
    if bytes.len() - pos >= 4 {
        let v = (bytes[pos] as u32) | ((bytes[pos + 1] as u32) << 8u32) | ((bytes[pos + 2] as u32)
            << 16u32) | ((bytes[pos + 3] as u32) << 24u32);
        Ok((v, pos + 4))
    } else {
        Err(refusal("unexpected end of .mubc payload"))
    }
}

fn read_u64(bytes: &[u8], pos: usize) -> (r: Result<(u64, usize), BytecodeDecodeError>)
    requires
        pos <= bytes@.len(),
    ensures
        agrees(r, p_u64(bytes@, pos as nat)),
{
    if bytes.len() - pos >= 8 {
        let v = (bytes[pos] as u64) | ((bytes[pos + 1] as u64) << 8u64) | ((bytes[pos + 2] as u64)
            << 16u64) | ((bytes[pos + 3] as u64) << 24u64) | ((bytes[pos + 4] as u64) << 32u64) | ((
        bytes[pos + 5] as u64) << 40u64) | ((bytes[pos + 6] as u64) << 48u64) | ((bytes[pos
            + 7] as u64) << 56u64);
        proof {
            let sub = bytes@.subrange(pos as int, pos + 8int);
            assert(sub[0] == bytes@[pos as int]);
            assert(sub[1] == bytes@[pos + 1]);
            assert(sub[2] == bytes@[pos + 2]);
            assert(sub[3] == bytes@[pos + 3]);
            assert(sub[4] == bytes@[pos + 4]);
            assert(sub[5] == bytes@[pos + 5]);
            assert(sub[6] == bytes@[pos + 6]);
            assert(sub[7] == bytes@[pos + 7]);
        }
        Ok((v, pos + 8))
    } else {
        Err(refusal("unexpected end of .mubc payload"))
    }
}

/// The bytes from `start` to `end`.
fn copy_range(bytes: &[u8], start: usize, end: usize) -> (v: Vec<u8>)
    requires
        start <= end <= bytes@.len(),
    ensures
        v@ == bytes@.subrange(start as int, end as int),
{
    let mut v: Vec<u8> = Vec::new();
    let mut i = start;
    while i < end
        invariant
            start <= i <= end,
            end <= bytes@.len(),
            v@ == bytes@.subrange(start as int, i as int),
        decreases end - i,
    {
        v.push(bytes[i]);
        proof {
            assert(bytes@.subrange(start as int, i + 1) =~= bytes@.subrange(start as int, i as int).push(
                bytes@[i as int],
            ));
        }
        i = i + 1;
    }
    v
}

fn read_bytes(bytes: &[u8], pos: usize) -> (r: Result<(Vec<u8>, usize), BytecodeDecodeError>)
    requires
        pos <= bytes@.len(),
    ensures
        agrees(r, p_bytes(bytes@, pos as nat)),
{
    let (n, p) = read_u32(bytes, pos)?;
    let len = n as usize;
    if len > MAX_BYTE_ARRAY_LENGTH {
        return Err(refusal_with("byte array length ", len, " exceeds maximum 1048576 in .mubc payload"));
    }
    if bytes.len() - p < len {
        return Err(refusal("unexpected end of .mubc payload"));
    }
    Ok((copy_range(bytes, p, p + len), p + len))
}

fn read_text(bytes: &[u8], pos: usize) -> (r: Result<(String, usize), BytecodeDecodeError>)
    requires
        pos <= bytes@.len(),
    ensures
        agrees(r, p_text(bytes@, pos as nat)),
{
    let (raw, p) = read_bytes(bytes, pos)?;
    match utf8_text(raw) {
        Some(s) => Ok((s, p)),
        None => Err(refusal("invalid UTF-8 string in .mubc payload")),
    }
}

fn read_span(bytes: &[u8], pos: usize) -> (r: Result<(Span, usize), BytecodeDecodeError>)
    requires
        pos <= bytes@.len(),
    ensures
        agrees(r, p_span(bytes@, pos as nat)),
{
    if bytes.len() - pos < 24 {
        return Err(refusal("unexpected end of .mubc payload"));
    }
    let (line, p1) = read_u32(bytes, pos)?;
    let (column, p2) = read_u32(bytes, p1)?;
    let (offset, p3) = read_u32(bytes, p2)?;
    let (end_line, p4) = read_u32(bytes, p3)?;
    let (end_column, p5) = read_u32(bytes, p4)?;
    let (end_offset, p6) = read_u32(bytes, p5)?;
    Ok(
        (
            Span::range(
                line as usize,
                column as usize,
                offset as usize,
                end_line as usize,
                end_column as usize,
                end_offset as usize,
            ),
            p6,
        ),
    )
}

fn read_constant(bytes: &[u8], pos: usize) -> (r: Result<(Constant, usize), BytecodeDecodeError>)
    requires
        pos <= bytes@.len(),
    ensures
        agrees(r, p_constant(bytes@, pos as nat)),
{
    let (tag, p) = match read_u8(bytes, pos) {
        Ok(t) => t,
        Err(e) => return Err(e),
    };
    assert(p_u8(bytes@, pos as nat) == Ok::<(u8, nat), Seq<char>>((tag, p as nat)));
    if tag == 0 {
        match read_u64(bytes, p) {
            Ok((v, q)) => Ok((Constant::Int(v as i64), q)),
            Err(e) => Err(e),
        }
    } else if tag == 1 {
        match read_u64(bytes, p) {
            Ok((v, q)) => Ok((Constant::Float(v), q)),
            Err(e) => Err(e),
        }
    } else if tag == 2 {
        match read_u8(bytes, p) {
            Ok((v, q)) => Ok((Constant::Bool(v != 0), q)),
            Err(e) => Err(e),
        }
    } else if tag == 3 {
        match read_text(bytes, p) {
            Ok((s, q)) => Ok((Constant::String(s), q)),
            Err(e) => Err(e),
        }
    } else if tag == 4 {
        match read_u32(bytes, p) {
            Ok((v, q)) => Ok((Constant::Function(v as usize), q)),
            Err(e) => Err(e),
        }
    } else if tag == 5 {
        Ok((Constant::Nil, p))
    } else {
        Err(refusal_num("unknown constant tag ", tag as usize))
    }
}

fn read_global(bytes: &[u8], pos: usize) -> (r: Result<(GlobalSpec, usize), BytecodeDecodeError>)
    requires
        pos <= bytes@.len(),
    ensures
        agrees(r, p_global(bytes@, pos as nat)),
{
    let (name, p) = match read_text(bytes, pos) {
        Ok(t) => t,
        Err(e) => return Err(e),
    };
    let (tag, q) = match read_u8(bytes, p) {
        Ok(t) => t,
        Err(e) => return Err(e),
    };
    match GlobalValueKind::from_tag(tag) {
        Some(kind) => Ok((GlobalSpec { name, kind }, q)),
        None => Err(refusal_num("unknown global kind tag ", tag as usize)),
    }
}

fn read_count(bytes: &[u8], pos: usize, label: &str) -> (r: Result<(u32, usize), BytecodeDecodeError>)
    requires
        pos <= bytes@.len(),
    ensures
        agrees(r, p_count(bytes@, pos as nat, label@)),
{
    let (n, p) = read_u32(bytes, pos)?;
    let count = n as usize;
    if count > MAX_DECODE_ITEMS || count > bytes.len() - p {
        let mut s = owned("declared ");
        push_str(&mut s, label);
        push_str(&mut s, " count ");
        let digits = usize_text(count);
        push_str(&mut s, digits.as_str());
        push_str(&mut s, " is too large for .mubc payload");
        proof {
            assert(s@ =~= "declared "@ + label@ + " count "@ + decimal(n as nat)
                + " is too large for .mubc payload"@);
        }
        return Err(BytecodeDecodeError::new(s));
    }
    Ok((n, p))
}

/// An error at step `i` of reading many items is the error of all of them.
pub proof fn lemma_many_err<T>(
    b: Seq<u8>,
    pos: nat,
    i: nat,
    n: nat,
    item: spec_fn(Seq<u8>, nat) -> Parsed<T>,
)
    requires
        i <= n,
        p_many(b, pos, i, item) is Err,
    ensures
        p_many(b, pos, n, item) == p_many(b, pos, i, item),
    decreases n - i,
{
    if i < n {
        lemma_many_err(b, pos, i, (n - 1) as nat, item);
    }
}

/// Reading `n` items yields `n` items.
pub proof fn lemma_many_len<T>(b: Seq<u8>, pos: nat, n: nat, item: spec_fn(Seq<u8>, nat) -> Parsed<T>)
    requires
        p_many(b, pos, n, item) is Ok,
    ensures
        p_many(b, pos, n, item)->Ok_0.0.len() == n,
    decreases n,
{
    if n > 0 {
        lemma_many_len(b, pos, (n - 1) as nat, item);
    }
}

fn read_spans(bytes: &[u8], pos: usize, n: usize) -> (r: Result<(Vec<Span>, usize), BytecodeDecodeError>)
    requires
        pos <= bytes@.len(),
    ensures
        match p_many(bytes@, pos as nat, n as nat, span_item()) {
            Ok((xs, p)) => r matches Ok((v, q)) && v@ == xs && q == p,
            Err(m) => r matches Err(e) && e.message@ == m,
        },
{
    let mut v: Vec<Span> = Vec::new();
    let mut p = pos;
    let mut i: usize = 0;
    while i < n
        invariant
            i <= n,
            p <= bytes@.len(),
            p_many(bytes@, pos as nat, i as nat, span_item()) == Ok::<(Seq<Span>, nat), Seq<char>>((v@, p as nat)),
        decreases n - i,
    {
        let r = read_span(bytes, p);
        match r {
            Ok((x, q)) => {
                v.push(x);
                p = q;
            },
            Err(e) => {
                proof {
                    lemma_many_err(bytes@, pos as nat, (i + 1) as nat, n as nat, span_item());
                }
                return Err(e);
            },
        }
        i = i + 1;
    }
    Ok((v, p))
}

fn read_constants(bytes: &[u8], pos: usize, n: usize) -> (r: Result<(Vec<Constant>, usize), BytecodeDecodeError>)
    requires
        pos <= bytes@.len(),
    ensures
        match p_many(bytes@, pos as nat, n as nat, constant_item()) {
            Ok((xs, p)) => r matches Ok((v, q)) && constant_views(v@) == xs && q == p,
            Err(m) => r matches Err(e) && e.message@ == m,
        },
{
    let mut v: Vec<Constant> = Vec::new();
    let mut p = pos;
    let mut i: usize = 0;
    proof {
        assert(constant_views(v@) =~= Seq::<ConstantModel>::empty());
    }
    while i < n
        invariant
            i <= n,
            p <= bytes@.len(),
            p_many(bytes@, pos as nat, i as nat, constant_item()) == Ok::<(Seq<ConstantModel>, nat), Seq<char>>((constant_views(v@), p as nat)),
        decreases n - i,
    {
        let r = read_constant(bytes, p);
        match r {
            Ok((x, q)) => {
                let ghost before = v@;
                v.push(x);
                proof {
                    assert(constant_views(v@) =~= constant_views(before).push(x@));
                }
                p = q;
            },
            Err(e) => {
                proof {
                    lemma_many_err(bytes@, pos as nat, (i + 1) as nat, n as nat, constant_item());
                }
                return Err(e);
            },
        }
        i = i + 1;
    }
    Ok((v, p))
}

fn read_globals(bytes: &[u8], pos: usize, n: usize) -> (r: Result<(Vec<GlobalSpec>, usize), BytecodeDecodeError>)
    requires
        pos <= bytes@.len(),
    ensures
        match p_many(bytes@, pos as nat, n as nat, global_item()) {
            Ok((xs, p)) => r matches Ok((v, q)) && global_views(v@) == xs && q == p,
            Err(m) => r matches Err(e) && e.message@ == m,
        },
{
    let mut v: Vec<GlobalSpec> = Vec::new();
    let mut p = pos;
    let mut i: usize = 0;
    proof {
        assert(global_views(v@) =~= Seq::<GlobalModel>::empty());
    }
    while i < n
        invariant
            i <= n,
            p <= bytes@.len(),
            p_many(bytes@, pos as nat, i as nat, global_item()) == Ok::<(Seq<GlobalModel>, nat), Seq<char>>((global_views(v@), p as nat)),
        decreases n - i,
    {
        let r = read_global(bytes, p);
        match r {
            Ok((x, q)) => {
                let ghost before = v@;
                v.push(x);
                proof {
                    assert(global_views(v@) =~= global_views(before).push(x@));
                }
                p = q;
            },
            Err(e) => {
                proof {
                    lemma_many_err(bytes@, pos as nat, (i + 1) as nat, n as nat, global_item());
                }
                return Err(e);
            },
        }
        i = i + 1;
    }
    Ok((v, p))
}

fn read_function(bytes: &[u8], pos: usize) -> (r: Result<(FunctionBytecode, usize), BytecodeDecodeError>)
    requires
        pos <= bytes@.len(),
    ensures
        agrees(r, p_function(bytes@, pos as nat)),
{
    let ghost b = bytes@;
    let (name, p1) = match read_text(bytes, pos) {
        Ok(t) => t,
        Err(e) => return Err(e),
    };
    let (arity, p2) = match read_u32(bytes, p1) {
        Ok(t) => t,
        Err(e) => return Err(e),
    };
    let (locals, p3) = match read_u32(bytes, p2) {
        Ok(t) => t,
        Err(e) => return Err(e),
    };
    let (ret, p4) = match read_u8(bytes, p3) {
        Ok(t) => t,
        Err(e) => return Err(e),
    };
    let (code, p5) = match read_bytes(bytes, p4) {
        Ok(t) => t,
        Err(e) => return Err(e),
    };
    let (ns, p6) = match read_count(bytes, p5, "spans") {
        Ok(t) => t,
        Err(e) => return Err(e),
    };
    let (spans, p7) = match read_spans(bytes, p6, ns as usize) {
        Ok(t) => t,
        Err(e) => return Err(e),
    };
    let (nc, p8) = match read_count(bytes, p7, "constants") {
        Ok(t) => t,
        Err(e) => return Err(e),
    };
    let (constants, p9) = match read_constants(bytes, p8, nc as usize) {
        Ok(t) => t,
        Err(e) => return Err(e),
    };
    proof {
        lemma_many_len(b, p8 as nat, nc as nat, constant_item());
    }
    match Chunk::from_parts(code, spans, constants) {
        Ok(chunk) => Ok(
            (
                FunctionBytecode {
                    name,
                    arity: arity as usize,
                    local_count: locals as usize,
                    expects_return_value: ret != 0,
                    chunk,
                },
                p9,
            ),
        ),
        Err(msg) => Err(BytecodeDecodeError::new(msg)),
    }
}

fn read_functions(bytes: &[u8], pos: usize, n: usize) -> (r: Result<(Vec<FunctionBytecode>, usize), BytecodeDecodeError>)
    requires
        pos <= bytes@.len(),
    ensures
        match p_many(bytes@, pos as nat, n as nat, function_item()) {
            Ok((xs, p)) => r matches Ok((v, q)) && function_views(v@) == xs && q == p,
            Err(m) => r matches Err(e) && e.message@ == m,
        },
{
    let mut v: Vec<FunctionBytecode> = Vec::new();
    let mut p = pos;
    let mut i: usize = 0;
    proof {
        assert(function_views(v@) =~= Seq::<FunctionModel>::empty());
    }
    while i < n
        invariant
            i <= n,
            p <= bytes@.len(),
            p_many(bytes@, pos as nat, i as nat, function_item()) == Ok::<(Seq<FunctionModel>, nat), Seq<char>>((function_views(v@), p as nat)),
        decreases n - i,
    {
        let r = read_function(bytes, p);
        match r {
            Ok((x, q)) => {
                let ghost before = v@;
                v.push(x);
                proof {
                    assert(function_views(v@) =~= function_views(before).push(x@));
                }
                p = q;
            },
            Err(e) => {
                proof {
                    lemma_many_err(bytes@, pos as nat, (i + 1) as nat, n as nat, function_item());
                }
                return Err(e);
            },
        }
        i = i + 1;
    }
    Ok((v, p))
}

/// Reads a `.mubc` payload: it must parse exactly (magic, version 1, counts
/// within limits, no trailing bytes) and the module must pass
/// `validate_module`; a parse refusal carries the message of the first
/// problem in reading order.
fn read_header(bytes: &[u8]) -> (r: Result<usize, BytecodeDecodeError>)
    ensures
        match p_header(bytes@) {
            Ok(p) => r matches Ok(q) && q == p && q <= bytes@.len(),
            Err(m) => r matches Err(e) && e.message@ == m,
        },
{
    if bytes.len() < 4 {
        return Err(refusal("unexpected end of .mubc payload"));
    }
    if !(bytes[0] == 77u8 && bytes[1] == 85u8 && bytes[2] == 66u8 && bytes[3] == 67u8) {
        proof {
            if bytes@.take(4) == magic() {
                assert(bytes@.take(4)[0] == bytes@[0]);
                assert(bytes@.take(4)[1] == bytes@[1]);
                assert(bytes@.take(4)[2] == bytes@[2]);
                assert(bytes@.take(4)[3] == bytes@[3]);
            }
        }
        return Err(refusal("invalid .mubc magic header"));
    }
    proof {
        assert(bytes@.take(4) =~= magic());
    }
    let (version, p1) = read_u16(bytes, 4)?;
    if version != MUBC_VERSION {
        return Err(refusal_with("unsupported .mubc version ", version as usize, " (expected 1)"));
    }
    Ok(p1)
}

fn read_body(bytes: &[u8], pos: usize) -> (r: Result<BytecodeModule, BytecodeDecodeError>)
    requires
        pos <= bytes@.len(),
    ensures
        match p_body(bytes@, pos as nat) {
            Ok(m) => r matches Ok(dm) && dm@ == m,
            Err(msg) => r matches Err(e) && e.message@ == msg,
        },
{
    let (entry, p2) = match read_u32(bytes, pos) {
        Ok(t) => t,
        Err(e) => return Err(e),
    };
    let (ng, p3) = match read_count(bytes, p2, "globals") {
        Ok(t) => t,
        Err(e) => return Err(e),
    };
    let (globals, p4) = match read_globals(bytes, p3, ng as usize) {
        Ok(t) => t,
        Err(e) => return Err(e),
    };
    let (nf, p5) = match read_count(bytes, p4, "functions") {
        Ok(t) => t,
        Err(e) => return Err(e),
    };
    let (functions, p6) = match read_functions(bytes, p5, nf as usize) {
        Ok(t) => t,
        Err(e) => return Err(e),
    };
    if p6 != bytes.len() {
        return Err(refusal("trailing bytes in .mubc payload"));
    }
    Ok(BytecodeModule { functions, entry_function: entry as usize, globals })
}

/// Reads a `.mubc` payload: it must parse exactly (magic, version 1, counts
/// within limits, no trailing bytes) and the module must pass
/// `validate_module`; a parse refusal carries the message of the first
/// problem in reading order.
pub fn decode_bytecode_module(bytes: &[u8]) -> (r: Result<BytecodeModule, BytecodeDecodeError>)
    ensures
        match p_module(bytes@) {
            Err(msg) => r matches Err(e) && e.message@ == msg,
            Ok(m) => if module_valid(m) {
                r matches Ok(dm) && dm@ == m
            } else {
                r is Err
            },
        },
{
    let pos = read_header(bytes)?;
    let module = read_body(bytes, pos)?;
    match validate_module(&module) {
        Ok(()) => Ok(module),
        Err(errors) => Err(BytecodeDecodeError::new(errors[0].describe())),
    }
}

} // verus!
