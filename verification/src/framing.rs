use vstd::prelude::*;

use crate::mubc::{
    Parsed, constant_item, function_item, global_item, p_body, p_bytes, p_constant, p_count,
    p_function, p_global, p_header, p_many, p_module, p_span, p_text, p_u16, p_u32, p_u64, p_u8,
    span_item, u32_at,
};

verus! {

// ----- reading is not disturbed by bytes after what it reads -----

/// `b2` starts with `b`.
pub open spec fn extends(b2: Seq<u8>, b: Seq<u8>) -> bool {
    &&& b.len() <= b2.len()
    &&& forall|i: int| 0 <= i < b.len() ==> b2[i] == b[i]
}

/// A reader gives the same result on `b2` wherever it succeeds on `b`.
pub open spec fn stable_on<T>(item: spec_fn(Seq<u8>, nat) -> Parsed<T>, b: Seq<u8>, b2: Seq<u8>) -> bool {
    forall|p: nat| (#[trigger] item(b, p)) is Ok ==> item(b2, p) == item(b, p)
}

proof fn lemma_u32_stable(b: Seq<u8>, b2: Seq<u8>, pos: nat)
    requires
        extends(b2, b),
        p_u32(b, pos) is Ok,
    ensures
        p_u32(b2, pos) == p_u32(b, pos),
{
    assert(u32_at(b2, pos as int) == u32_at(b, pos as int));
}

proof fn lemma_u64_stable(b: Seq<u8>, b2: Seq<u8>, pos: nat)
    requires
        extends(b2, b),
        p_u64(b, pos) is Ok,
    ensures
        p_u64(b2, pos) == p_u64(b, pos),
{
    assert(b2.subrange(pos as int, pos + 8int) =~= b.subrange(pos as int, pos + 8int));
}

proof fn lemma_bytes_stable(b: Seq<u8>, b2: Seq<u8>, pos: nat)
    requires
        extends(b2, b),
        p_bytes(b, pos) is Ok,
    ensures
        p_bytes(b2, pos) == p_bytes(b, pos),
{
    lemma_u32_stable(b, b2, pos);
    let (n, p) = p_u32(b, pos)->Ok_0;
    assert(b2.subrange(p as int, p + n as int) =~= b.subrange(p as int, p + n as int));
}

proof fn lemma_text_stable(b: Seq<u8>, b2: Seq<u8>, pos: nat)
    requires
        extends(b2, b),
        p_text(b, pos) is Ok,
    ensures
        p_text(b2, pos) == p_text(b, pos),
{
    lemma_bytes_stable(b, b2, pos);
}

proof fn lemma_span_stable(b: Seq<u8>, b2: Seq<u8>, pos: nat)
    requires
        extends(b2, b),
        p_span(b, pos) is Ok,
    ensures
        p_span(b2, pos) == p_span(b, pos),
{
    assert(u32_at(b2, pos as int) == u32_at(b, pos as int));
    assert(u32_at(b2, pos + 4int) == u32_at(b, pos + 4int));
    assert(u32_at(b2, pos + 8int) == u32_at(b, pos + 8int));
    assert(u32_at(b2, pos + 12int) == u32_at(b, pos + 12int));
    assert(u32_at(b2, pos + 16int) == u32_at(b, pos + 16int));
    assert(u32_at(b2, pos + 20int) == u32_at(b, pos + 20int));
}

proof fn lemma_constant_stable(b: Seq<u8>, b2: Seq<u8>, pos: nat)
    requires
        extends(b2, b),
        p_constant(b, pos) is Ok,
    ensures
        p_constant(b2, pos) == p_constant(b, pos),
{
    let (tag, p) = p_u8(b, pos)->Ok_0;
    if tag == 0 || tag == 1 {
        lemma_u64_stable(b, b2, p);
    } else if tag == 3 {
        lemma_text_stable(b, b2, p);
    } else if tag == 4 {
        lemma_u32_stable(b, b2, p);
    }
}

proof fn lemma_global_stable(b: Seq<u8>, b2: Seq<u8>, pos: nat)
    requires
        extends(b2, b),
        p_global(b, pos) is Ok,
    ensures
        p_global(b2, pos) == p_global(b, pos),
{
    lemma_text_stable(b, b2, pos);
}

proof fn lemma_count_stable(b: Seq<u8>, b2: Seq<u8>, pos: nat, label: Seq<char>)
    requires
        extends(b2, b),
        p_count(b, pos, label) is Ok,
    ensures
        p_count(b2, pos, label) == p_count(b, pos, label),
{
    lemma_u32_stable(b, b2, pos);
}

proof fn lemma_many_stable<T>(b: Seq<u8>, b2: Seq<u8>, pos: nat, n: nat, item: spec_fn(Seq<u8>, nat) -> Parsed<T>)
    requires
        extends(b2, b),
        stable_on(item, b, b2),
        p_many(b, pos, n, item) is Ok,
    ensures
        p_many(b2, pos, n, item) == p_many(b, pos, n, item),
    decreases n,
{
    if n > 0 {
        lemma_many_stable(b, b2, pos, (n - 1) as nat, item);
        let (xs, p) = p_many(b, pos, (n - 1) as nat, item)->Ok_0;
        assert(item(b, p) is Ok);
    }
}

proof fn lemma_items_stable(b: Seq<u8>, b2: Seq<u8>)
    requires
        extends(b2, b),
    ensures
        stable_on(span_item(), b, b2),
        stable_on(constant_item(), b, b2),
        stable_on(global_item(), b, b2),
{
    assert forall|p: nat| (#[trigger] span_item()(b, p)) is Ok implies span_item()(b2, p) == span_item()(b, p) by {
        lemma_span_stable(b, b2, p);
    }
    assert forall|p: nat| (#[trigger] constant_item()(b, p)) is Ok implies constant_item()(b2, p)
        == constant_item()(b, p) by {
        lemma_constant_stable(b, b2, p);
    }
    assert forall|p: nat| (#[trigger] global_item()(b, p)) is Ok implies global_item()(b2, p) == global_item()(
        b,
        p,
    ) by {
        lemma_global_stable(b, b2, p);
    }
}

#[verifier::rlimit(40)]
proof fn lemma_function_stable(b: Seq<u8>, b2: Seq<u8>, pos: nat)
    requires
        extends(b2, b),
        p_function(b, pos) is Ok,
    ensures
        p_function(b2, pos) == p_function(b, pos),
{
    lemma_items_stable(b, b2);
    lemma_text_stable(b, b2, pos);
    let (name, p1) = p_text(b, pos)->Ok_0;
    lemma_u32_stable(b, b2, p1);
    let (arity, p2) = p_u32(b, p1)->Ok_0;
    lemma_u32_stable(b, b2, p2);
    let (locals, p3) = p_u32(b, p2)->Ok_0;
    let (ret, p4) = p_u8(b, p3)->Ok_0;
    lemma_bytes_stable(b, b2, p4);
    let (code, p5) = p_bytes(b, p4)->Ok_0;
    lemma_count_stable(b, b2, p5, "spans"@);
    let (ns, p6) = p_count(b, p5, "spans"@)->Ok_0;
    lemma_many_stable(b, b2, p6, ns as nat, span_item());
    let (spans, p7) = p_many(b, p6, ns as nat, span_item())->Ok_0;
    lemma_count_stable(b, b2, p7, "constants"@);
    let (nc, p8) = p_count(b, p7, "constants"@)->Ok_0;
    lemma_many_stable(b, b2, p8, nc as nat, constant_item());
}

proof fn lemma_functions_item_stable(b: Seq<u8>, b2: Seq<u8>)
    requires
        extends(b2, b),
    ensures
        stable_on(function_item(), b, b2),
{
    assert forall|p: nat| (#[trigger] function_item()(b, p)) is Ok implies function_item()(b2, p)
        == function_item()(b, p) by {
        lemma_function_stable(b, b2, p);
    }
}

/// Where the body of `b` reads up to, when it reads.
pub open spec fn body_end(b: Seq<u8>, pos: nat) -> Option<nat> {
    match p_u32(b, pos) {
        Err(_) => None,
        Ok((_, p2)) => match p_count(b, p2, "globals"@) {
            Err(_) => None,
            Ok((ng, p3)) => match p_many(b, p3, ng as nat, global_item()) {
                Err(_) => None,
                Ok((_, p4)) => match p_count(b, p4, "functions"@) {
                    Err(_) => None,
                    Ok((nf, p5)) => match p_many(b, p5, nf as nat, function_item()) {
                        Err(_) => None,
                        Ok((_, p6)) => Some(p6),
                    },
                },
            },
        },
    }
}

#[verifier::rlimit(40)]
proof fn lemma_body_end_stable(b: Seq<u8>, b2: Seq<u8>, pos: nat)
    requires
        extends(b2, b),
        body_end(b, pos) is Some,
    ensures
        body_end(b2, pos) == body_end(b, pos),
{
    lemma_items_stable(b, b2);
    lemma_functions_item_stable(b, b2);
    lemma_u32_stable(b, b2, pos);
    let (entry, p2) = p_u32(b, pos)->Ok_0;
    lemma_count_stable(b, b2, p2, "globals"@);
    let (ng, p3) = p_count(b, p2, "globals"@)->Ok_0;
    lemma_many_stable(b, b2, p3, ng as nat, global_item());
    let (gs, p4) = p_many(b, p3, ng as nat, global_item())->Ok_0;
    lemma_count_stable(b, b2, p4, "functions"@);
    let (nf, p5) = p_count(b, p4, "functions"@)->Ok_0;
    lemma_many_stable(b, b2, p5, nf as nat, function_item());
}

proof fn lemma_header_stable(b: Seq<u8>, b2: Seq<u8>)
    requires
        extends(b2, b),
        p_header(b) is Ok,
    ensures
        p_header(b2) == p_header(b),
{
    assert(b2.take(4) =~= b.take(4));
}

/// A payload that reads as a module is read to its last byte.
proof fn lemma_module_reads_to_end(b: Seq<u8>)
    requires
        p_module(b) is Ok,
    ensures
        p_header(b) matches Ok(p) && body_end(b, p) == Some(b.len()),
{
}

/// A `.mubc` payload is framed exactly: when `b` reads as a module, every
/// byte appended to it is refused, and so is every proper prefix of it.
pub proof fn law_mubc_exact_framing(b: Seq<u8>, extra: u8, k: int)
    requires
        p_module(b) is Ok,
        0 <= k < b.len(),
    ensures
        p_module(b.push(extra)) is Err,
        p_module(b.take(k)) is Err,
{
    lemma_module_reads_to_end(b);
    let pos = p_header(b)->Ok_0;
    let longer = b.push(extra);
    assert(extends(longer, b));
    lemma_header_stable(b, longer);
    lemma_body_end_stable(b, longer, pos);
    let shorter = b.take(k);
    assert(extends(b, shorter));
    if p_module(shorter) is Ok {
        lemma_module_reads_to_end(shorter);
        let q = p_header(shorter)->Ok_0;
        lemma_header_stable(shorter, b);
        lemma_body_end_stable(shorter, b, q);
    }
}

} // verus!
