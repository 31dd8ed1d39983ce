use vstd::prelude::*;

use crate::error::MuninnError;
use crate::runtime::{vm_error, vm_error_owned};
use crate::span::Span;
use crate::text::{
    chars_of, decimal, digit_char, i64_text, is_digit_char, owned, push_char, push_str, same_text,
    signed_decimal, usize_text,
};

verus! {

/// The host functions a script can call.
#[derive(Debug, Clone, Copy, PartialEq, Eq, Structural, Hash)]
pub enum NativeFunctionKind {
    Print,
    Assert,
    TensorZeros,
    TensorFill,
    TensorReshape,
    TensorMatmul,
    TensorSum,
    ArgsLen,
    ArgsGet,
    EnvGet,
    EnvHas,
    FsRead,
    FsExists,
    FsWrite,
    ClockMs,
    StdinRead,
    Eprint,
    Exit,
}

/// The value types that native signatures speak of.
#[derive(Debug, Clone, Copy, PartialEq, Eq, Structural, PartialOrd, Ord, Hash)]
pub enum NativeType {
    Int,
    Float,
    Bool,
    String,
    Void,
    Tensor,
    Record,
}

/// One overload of a native function.
#[derive(Debug, Clone)]
pub struct NativeSignature {
    pub params: Vec<NativeType>,
    pub return_type: NativeType,
}

/// The name a script calls a native by.
pub open spec fn kind_name(kind: NativeFunctionKind) -> Seq<char> {
    match kind {
        NativeFunctionKind::Print => "print"@,
        NativeFunctionKind::Assert => "assert"@,
        NativeFunctionKind::TensorZeros => "tensor_zeros"@,
        NativeFunctionKind::TensorFill => "tensor_fill"@,
        NativeFunctionKind::TensorReshape => "tensor_reshape"@,
        NativeFunctionKind::TensorMatmul => "tensor_matmul"@,
        NativeFunctionKind::TensorSum => "tensor_sum"@,
        NativeFunctionKind::ArgsLen => "args_len"@,
        NativeFunctionKind::ArgsGet => "args_get"@,
        NativeFunctionKind::EnvGet => "env_get"@,
        NativeFunctionKind::EnvHas => "env_has"@,
        NativeFunctionKind::FsRead => "fs_read"@,
        NativeFunctionKind::FsExists => "fs_exists"@,
        NativeFunctionKind::FsWrite => "fs_write"@,
        NativeFunctionKind::ClockMs => "clock_ms"@,
        NativeFunctionKind::StdinRead => "stdin_read"@,
        NativeFunctionKind::Eprint => "eprint"@,
        NativeFunctionKind::Exit => "exit"@,
    }
}

/// Display name of a native builtin, used in host-policy diagnostics.
pub fn native_name(kind: NativeFunctionKind) -> (name: &'static str)
    ensures
        name@ == kind_name(kind),
{
    match kind {
        NativeFunctionKind::Print => "print",
        NativeFunctionKind::Assert => "assert",
        NativeFunctionKind::TensorZeros => "tensor_zeros",
        NativeFunctionKind::TensorFill => "tensor_fill",
        NativeFunctionKind::TensorReshape => "tensor_reshape",
        NativeFunctionKind::TensorMatmul => "tensor_matmul",
        NativeFunctionKind::TensorSum => "tensor_sum",
        NativeFunctionKind::ArgsLen => "args_len",
        NativeFunctionKind::ArgsGet => "args_get",
        NativeFunctionKind::EnvGet => "env_get",
        NativeFunctionKind::EnvHas => "env_has",
        NativeFunctionKind::FsRead => "fs_read",
        NativeFunctionKind::FsExists => "fs_exists",
        NativeFunctionKind::FsWrite => "fs_write",
        NativeFunctionKind::ClockMs => "clock_ms",
        NativeFunctionKind::StdinRead => "stdin_read",
        NativeFunctionKind::Eprint => "eprint",
        NativeFunctionKind::Exit => "exit",
    }
}

/// The natives in the order they are registered.
pub open spec fn registration_order() -> Seq<NativeFunctionKind> {
    seq![
        NativeFunctionKind::Print,
        NativeFunctionKind::Assert,
        NativeFunctionKind::TensorZeros,
        NativeFunctionKind::TensorFill,
        NativeFunctionKind::TensorReshape,
        NativeFunctionKind::TensorMatmul,
        NativeFunctionKind::TensorSum,
        NativeFunctionKind::ArgsLen,
        NativeFunctionKind::ArgsGet,
        NativeFunctionKind::EnvGet,
        NativeFunctionKind::EnvHas,
        NativeFunctionKind::FsRead,
        NativeFunctionKind::FsExists,
        NativeFunctionKind::FsWrite,
        NativeFunctionKind::ClockMs,
        NativeFunctionKind::StdinRead,
        NativeFunctionKind::Eprint,
        NativeFunctionKind::Exit,
    ]
}

/// Every native, in registration order.
pub fn registered_natives() -> (kinds: Vec<NativeFunctionKind>)
    ensures
        kinds@ == registration_order(),
        kinds@.len() == 18,
        forall|k: NativeFunctionKind| kinds@.contains(k),
{
    let kinds = vec![
        NativeFunctionKind::Print,
        NativeFunctionKind::Assert,
        NativeFunctionKind::TensorZeros,
        NativeFunctionKind::TensorFill,
        NativeFunctionKind::TensorReshape,
        NativeFunctionKind::TensorMatmul,
        NativeFunctionKind::TensorSum,
        NativeFunctionKind::ArgsLen,
        NativeFunctionKind::ArgsGet,
        NativeFunctionKind::EnvGet,
        NativeFunctionKind::EnvHas,
        NativeFunctionKind::FsRead,
        NativeFunctionKind::FsExists,
        NativeFunctionKind::FsWrite,
        NativeFunctionKind::ClockMs,
        NativeFunctionKind::StdinRead,
        NativeFunctionKind::Eprint,
        NativeFunctionKind::Exit,
    ];
    proof {
        assert forall|k: NativeFunctionKind| kinds@.contains(k) by {
            match k {
                NativeFunctionKind::Print => assert(kinds@[0] == k),
                NativeFunctionKind::Assert => assert(kinds@[1] == k),
                NativeFunctionKind::TensorZeros => assert(kinds@[2] == k),
                NativeFunctionKind::TensorFill => assert(kinds@[3] == k),
                NativeFunctionKind::TensorReshape => assert(kinds@[4] == k),
                NativeFunctionKind::TensorMatmul => assert(kinds@[5] == k),
                NativeFunctionKind::TensorSum => assert(kinds@[6] == k),
                NativeFunctionKind::ArgsLen => assert(kinds@[7] == k),
                NativeFunctionKind::ArgsGet => assert(kinds@[8] == k),
                NativeFunctionKind::EnvGet => assert(kinds@[9] == k),
                NativeFunctionKind::EnvHas => assert(kinds@[10] == k),
                NativeFunctionKind::FsRead => assert(kinds@[11] == k),
                NativeFunctionKind::FsExists => assert(kinds@[12] == k),
                NativeFunctionKind::FsWrite => assert(kinds@[13] == k),
                NativeFunctionKind::ClockMs => assert(kinds@[14] == k),
                NativeFunctionKind::StdinRead => assert(kinds@[15] == k),
                NativeFunctionKind::Eprint => assert(kinds@[16] == k),
                NativeFunctionKind::Exit => assert(kinds@[17] == k),
            }
        }
    }
    kinds
}

/// The native a script name refers to, if any.
pub fn native_by_name(name: &str) -> (r: Option<NativeFunctionKind>)
    ensures
        match r {
            Some(k) => kind_name(k) == name@,
            None => forall|k: NativeFunctionKind| kind_name(k) != name@,
        },
{
    let kinds = registered_natives();
    let mut i: usize = 0;
    while i < kinds.len()
        invariant
            i <= kinds@.len(),
            forall|k: NativeFunctionKind| kinds@.contains(k),
            forall|j: int| 0 <= j < i ==> kind_name(#[trigger] kinds@[j]) != name@,
        decreases kinds@.len() - i,
    {
        if same_text(native_name(kinds[i]), name) {
            return Some(kinds[i]);
        }
        i = i + 1;
    }
    proof {
        assert forall|k: NativeFunctionKind| kind_name(k) != name@ by {
            assert(kinds@.contains(k));
            let j = choose|j: int| 0 <= j < kinds@.len() && kinds@[j] == k;
            assert(kind_name(kinds@[j]) != name@);
        }
    }
    None
}

pub open spec fn native_type_text(ty: NativeType) -> Seq<char> {
    match ty {
        NativeType::Int => "Int"@,
        NativeType::Float => "Float"@,
        NativeType::Bool => "Bool"@,
        NativeType::String => "String"@,
        NativeType::Void => "Void"@,
        NativeType::Tensor => "Tensor"@,
        NativeType::Record => "Record"@,
    }
}

pub fn native_type_name(ty: &NativeType) -> (name: &'static str)
    ensures
        name@ == native_type_text(*ty),
{
    match ty {
        NativeType::Int => "Int",
        NativeType::Float => "Float",
        NativeType::Bool => "Bool",
        NativeType::String => "String",
        NativeType::Void => "Void",
        NativeType::Tensor => "Tensor",
        NativeType::Record => "Record",
    }
}

/// The type names of `args`, separated by `, `.
pub open spec fn type_list(args: Seq<NativeType>) -> Seq<char>
    decreases args.len(),
{
    if args.len() == 0 {
        seq![]
    } else if args.len() == 1 {
        native_type_text(args[0])
    } else {
        type_list(args.drop_last()) + ", "@ + native_type_text(args.last())
    }
}

/// An overload as written in diagnostics: `name(T1, T2)`.
pub fn format_native_overload(name: &str, args: &[NativeType]) -> (s: String)
    ensures
        s@ == name@ + "("@ + type_list(args@) + ")"@,
{
    let mut s = owned(name);
    push_str(&mut s, "(");
    let ghost start = s@;
    let mut i: usize = 0;
    while i < args.len()
        invariant
            i <= args@.len(),
            s@ == start + type_list(args@.take(i as int)),
        decreases args@.len() - i,
    {
        proof {
            assert(args@.take(i + 1).drop_last() =~= args@.take(i as int));
            assert(args@.take(i + 1).last() == args@[i as int]);
        }
        if i > 0 {
            push_str(&mut s, ", ");
        }
        push_str(&mut s, native_type_name(&args[i]));
        proof {
            if i == 0 {
                assert(args@.take(1) =~= seq![args@[0]]);
            }
            assert(s@ =~= start + type_list(args@.take(i + 1)));
        }
        i = i + 1;
    }
    proof {
        assert(args@.take(args@.len() as int) =~= args@);
    }
    push_str(&mut s, ")");
    s
}

// ----- exit codes -----

/// The value of a run of decimal digits.
pub open spec fn digits_value(ds: Seq<char>) -> int
    decreases ds.len(),
{
    if ds.len() == 0 {
        0
    } else {
        digits_value(ds.drop_last()) * 10 + (ds.last() as int - '0' as int)
    }
}

pub open spec fn all_digits(ds: Seq<char>) -> bool {
    forall|i: int| 0 <= i < ds.len() ==> is_digit_char(#[trigger] ds[i])
}

/// What `i64::from_str` accepts: an optional sign, then at least one
/// decimal digit, with a value in range.
pub open spec fn parse_i64(s: Seq<char>) -> Option<i64> {
    let negative = s.len() > 0 && s[0] == '-';
    let signed = s.len() > 0 && (s[0] == '-' || s[0] == '+');
    let ds = if signed { s.drop_first() } else { s };
    let v = if negative { -digits_value(ds) } else { digits_value(ds) };
    if ds.len() > 0 && all_digits(ds) && i64::MIN <= v <= i64::MAX {
        Some(v as i64)
    } else {
        None
    }
}

pub open spec fn exit_prefix() -> Seq<char> {
    "exit code "@
}

/// Parses a script `exit(code)` trap message back into its code: the text
/// after `exit code `, read as an `i64`.
pub fn parse_exit_code(message: &str) -> (r: Option<i64>)
    ensures
        r == (if message@.len() >= 10 && message@.take(10) == exit_prefix() {
            parse_i64(message@.skip(10))
        } else {
            None
        }),
{
    let chars = chars_of(message);
    let prefix = chars_of("exit code ");
    proof {
        reveal_strlit("exit code ");
    }
    if chars.len() < prefix.len() {
        return None;
    }
    let mut i: usize = 0;
    while i < prefix.len()
        invariant
            i <= prefix@.len(),
            prefix@.len() == 10,
            prefix@ == exit_prefix(),
            chars@ == message@,
            chars@.len() >= prefix@.len(),
            forall|j: int| 0 <= j < i ==> chars@[j] == prefix@[j],
        decreases prefix@.len() - i,
    {
        if chars[i] != prefix[i] {
            proof {
                assert(message@.take(10)[i as int] != exit_prefix()[i as int]);
            }
            return None;
        }
        i = i + 1;
    }
    proof {
        assert(message@.take(10) =~= exit_prefix());
    }
    parse_i64_chars(&chars, 10)
}

/// Digits only grow in value as more follow.
pub(crate) proof fn lemma_digits_value_grows(ds: Seq<char>, k: int)
    requires
        0 <= k <= ds.len(),
        all_digits(ds),
    ensures
        digits_value(ds) >= digits_value(ds.take(k)),
        digits_value(ds) >= 0,
    decreases ds.len(),
{
    if ds.len() > 0 {
        assert(all_digits(ds.drop_last())) by {
            assert forall|i: int| 0 <= i < ds.drop_last().len() implies is_digit_char(#[trigger] ds.drop_last()[i]) by {
                assert(ds.drop_last()[i] == ds[i]);
            }
        }
        assert(is_digit_char(ds[ds.len() - 1]));
        if k == ds.len() {
            assert(ds.take(k) =~= ds);
            lemma_digits_value_grows(ds.drop_last(), 0);
        } else {
            assert(ds.drop_last().take(k) =~= ds.take(k));
            lemma_digits_value_grows(ds.drop_last(), k);
        }
    } else {
        assert(ds.take(k) =~= ds);
    }
}

/// The decimal text of `m` is all digits and reads back as `m`.
pub proof fn lemma_decimal_reads_back(m: nat)
    ensures
        decimal(m).len() > 0,
        all_digits(decimal(m)),
        digits_value(decimal(m)) == m,
    decreases m,
{
    let d = (m % 10) as nat;
    assert(is_digit_char(digit_char(d)) && digit_char(d) as int - '0' as int == d) by {
        if d == 0 {} else if d == 1 {} else if d == 2 {} else if d == 3 {} else if d == 4 {}
        else if d == 5 {} else if d == 6 {} else if d == 7 {} else if d == 8 {} else {}
    }
    assert(m == (m / 10) * 10 + m % 10) by (nonlinear_arith);
    if m >= 10 {
        lemma_decimal_reads_back(m / 10);
        let t = decimal(m / 10);
        assert(decimal(m) == t.push(digit_char(d)));
        assert(decimal(m).drop_last() =~= t);
        assert(decimal(m).last() == digit_char(d));
        assert(digits_value(decimal(m)) == digits_value(t) * 10 + (digit_char(d) as int - '0' as int));
        assert(decimal(m).drop_last() =~= t);
        assert forall|i: int| 0 <= i < decimal(m).len() implies is_digit_char(#[trigger] decimal(m)[i]) by {
            if i < t.len() {
                assert(decimal(m)[i] == t[i]);
            }
        }
    } else {
        assert(m % 10 == m);
        assert(decimal(m) == seq![digit_char(d)]);
        assert(decimal(m).drop_last() =~= Seq::<char>::empty());
        assert(digits_value(decimal(m)) == digits_value(Seq::<char>::empty()) * 10 + (digit_char(d) as int
            - '0' as int));
    }
}

/// The decimal form of any `i64` reads back as it.
pub proof fn lemma_signed_reads_back(code: i64)
    ensures
        parse_i64(signed_decimal(code as int)) == Some(code),
{
    let s = signed_decimal(code as int);
    if code < 0 {
        let m = (-code) as nat;
        lemma_decimal_reads_back(m);
        assert(s == seq!['-'] + decimal(m));
        assert(s[0] == '-');
        assert(s.drop_first() =~= decimal(m));
        assert(-digits_value(s.drop_first()) == code);
    } else {
        lemma_decimal_reads_back(code as nat);
        assert(s == decimal(code as nat));
        assert(is_digit_char(s[0]));
        assert(s[0] != '-' && s[0] != '+');
    }
}

/// An `exit(code)` trap message reads back as its code: the text
/// `exit code ` followed by the decimal form of any `i64` parses to it.
pub proof fn law_exit_code_reads_back(code: i64)
    ensures
        ({
            let message = exit_prefix() + signed_decimal(code as int);
            &&& message.len() >= 10
            &&& message.take(10) == exit_prefix()
            &&& parse_i64(message.skip(10)) == Some(code)
        }),
{
    reveal_strlit("exit code ");
    let p = exit_prefix();
    let t = signed_decimal(code as int);
    assert(p.len() == 10);
    let message = p + t;
    assert(message.take(10) =~= p);
    assert(message.skip(10) =~= t);
    lemma_signed_reads_back(code);
}

/// The largest magnitude an `i64` of the given sign can have.
pub open spec fn magnitude_limit(negative: bool) -> int {
    if negative { 0x8000_0000_0000_0000 } else { 0x7fff_ffff_ffff_ffff }
}

/// Reads `chars[from..]` as an `i64` the way `i64::from_str` does.
pub(crate) fn parse_i64_chars(chars: &Vec<char>, from: usize) -> (r: Option<i64>)
    requires
        from <= chars@.len(),
    ensures
        r == parse_i64(chars@.skip(from as int)),
{
    let ghost s = chars@.skip(from as int);
    let n = chars.len();
    if from == n {
        return None;
    }
    let negative = chars[from] == '-';
    let signed = negative || chars[from] == '+';
    let start = if signed { from + 1 } else { from };
    let ghost ds = if signed { s.drop_first() } else { s };
    proof {
        assert(ds =~= chars@.skip(start as int));
        assert(s[0] == chars@[from as int]);
    }
    if start == n {
        return None;
    }
    let limit: u64 = if negative { 0x8000_0000_0000_0000u64 } else { 0x7fff_ffff_ffff_ffffu64 };
    let mut mag: u64 = 0;
    let mut i = start;
    while i < n
        invariant
            start <= i <= n,
            n == chars@.len(),
            ds == chars@.skip(start as int),
            s == chars@.skip(from as int),
            ds == (if signed { s.drop_first() } else { s }),
            negative == (s.len() > 0 && s[0] == '-'),
            signed == (s.len() > 0 && (s[0] == '-' || s[0] == '+')),
            limit == magnitude_limit(negative),
            all_digits(chars@.subrange(start as int, i as int)),
            mag as int == digits_value(chars@.subrange(start as int, i as int)),
            mag <= limit,
        decreases n - i,
    {
        let c = chars[i];
        let ghost pre = chars@.subrange(start as int, i as int);
        let ghost post = chars@.subrange(start as int, i + 1);
        proof {
            assert(post.drop_last() =~= pre);
            assert(post.last() == c);
            assert(ds[i - start] == c);
        }
        if !('0' <= c && c <= '9') {
            proof {
                assert(!is_digit_char(ds[i - start]));
                assert(!all_digits(ds));
            }
            return None;
        }
        let d: u64 = (c as u32 - '0' as u32) as u64;
        assert(post =~= ds.take(i + 1 - start));
        if mag > (limit - d) / 10 {
            proof {
                assert(mag * 10 + d > limit) by (nonlinear_arith)
                    requires
                        mag > (limit - d) / 10,
                        d <= 9,
                        limit >= 9,
                ;
                assert(digits_value(post) == mag * 10 + d);
                if all_digits(ds) {
                    lemma_digits_value_grows(ds, i + 1 - start);
                }
            }
            return None;
        }
        proof {
            assert(mag * 10 + d <= limit) by (nonlinear_arith)
                requires
                    mag <= (limit - d) / 10,
                    d <= 9,
                    limit >= 9,
            ;
            assert forall|j: int| 0 <= j < post.len() implies is_digit_char(#[trigger] post[j]) by {
                if j < pre.len() {
                    assert(post[j] == pre[j]);
                }
            }
        }
        mag = mag * 10 + d;
        i = i + 1;
    }
    proof {
        assert(chars@.subrange(start as int, n as int) =~= ds);
    }
    if negative {
        if mag == 0x8000_0000_0000_0000u64 {
            Some(i64::MIN)
        } else {
            Some(-(mag as i64))
        }
    } else {
        Some(mag as i64)
    }
}

// ----- host capabilities -----

/// The capabilities the host grants to IO natives on one call: script
/// arguments, the env names that may be read (`None` allows every name),
/// the filesystem root (`None` denies all filesystem access) and piped
/// stdin.
#[derive(Debug, Clone, Copy)]
pub struct HostCaps<'a> {
    pub argv: &'a [String],
    pub allowed_env: &'a Option<Vec<String>>,
    pub fs_root: &'a Option<String>,
    pub stdin_data: &'a str,
}

/// Whether one of `names` reads `name`.
pub open spec fn names_have(names: Seq<String>, name: Seq<char>) -> bool {
    exists|i: int| 0 <= i < names.len() && (#[trigger] names[i])@ == name
}

/// Whether an allowlist (`None` for allow-all) admits `name`.
pub open spec fn env_admits(allowed: Option<Seq<String>>, name: Seq<char>) -> bool {
    match allowed {
        None => true,
        Some(names) => names_have(names, name),
    }
}

pub open spec fn optional_names(allowed: Option<Vec<String>>) -> Option<Seq<String>> {
    match allowed {
        None => None,
        Some(v) => Some(v@),
    }
}

/// Whether `names` holds `name`.
pub fn names_contain(names: &Vec<String>, name: &str) -> (r: bool)
    ensures
        r == names_have(names@, name@),
{
    let mut i: usize = 0;
    while i < names.len()
        invariant
            i <= names@.len(),
            forall|j: int| 0 <= j < i ==> (#[trigger] names@[j])@ != name@,
        decreases names@.len() - i,
    {
        if same_text(names[i].as_str(), name) {
            return true;
        }
        i = i + 1;
    }
    false
}

/// Refuses an env name the host did not allow.
pub fn check_env_allowed(host: &HostCaps, name: &str, span: Span) -> (r: Result<(), MuninnError>)
    ensures
        r is Ok ==> env_admits(optional_names(*host.allowed_env), name@),
        env_admits(optional_names(*host.allowed_env), name@) ==> r is Ok,
        r matches Err(e) ==> e.phase@ == "vm"@ && e.span == span && e.message@ == "env '"@ + name@
            + "' is disabled by host policy"@,
{
    let allowed: &Option<Vec<String>> = host.allowed_env;
    proof {
        assert(*allowed == *host.allowed_env);
    }
    match allowed {
        None => Ok(()),
        Some(names) => {
            if names_contain(names, name) {
                Ok(())
            } else {
                let mut msg = owned("env '");
                push_str(&mut msg, name);
                push_str(&mut msg, "' is disabled by host policy");
                Err(vm_error_owned(msg, span))
            }
        },
    }
}

/// The script argument at `index`, refused when out of range.
pub fn host_arg(host: &HostCaps, index: i64, span: Span) -> (r: Result<String, MuninnError>)
    ensures
        (0 <= index < host.argv@.len()) <==> r is Ok,
        r matches Ok(a) ==> a@ == host.argv@[index as int]@,
        r matches Err(e) ==> e.phase@ == "vm"@ && e.span == span && e.message@ == "argv index "@
            + signed_decimal(index as int) + " out of range (argc "@ + decimal(host.argv@.len()) + ")"@,
{
    let argc = host.argv.len();
    if index < 0 || index as u64 >= argc as u64 {
        let mut msg = owned("argv index ");
        let i = i64_text(index);
        push_str(&mut msg, i.as_str());
        push_str(&mut msg, " out of range (argc ");
        let n = usize_text(argc);
        push_str(&mut msg, n.as_str());
        push_str(&mut msg, ")");
        return Err(vm_error_owned(msg, span));
    }
    Ok(host.argv[index as usize].clone())
}

// ----- paths under the granted root -----

pub open spec fn is_parent_component(c: Seq<char>) -> bool {
    c.len() == 2 && c[0] == '.' && c[1] == '.'
}

pub open spec fn is_current_component(c: Seq<char>) -> bool {
    c.len() == 0 || (c.len() == 1 && c[0] == '.')
}

/// Depth below the root after one more component, `None` once a `..`
/// climbs above it.
pub open spec fn depth_step(depth: Option<int>, c: Seq<char>) -> Option<int> {
    match depth {
        None => None,
        Some(d) => if is_parent_component(c) {
            if d - 1 < 0 { None } else { Some(d - 1) }
        } else if is_current_component(c) {
            Some(d)
        } else {
            Some(d + 1)
        },
    }
}

/// The depth over the components that `/` closed, and the component still
/// open at the end.
pub open spec fn path_scan(s: Seq<char>) -> (Option<int>, Seq<char>)
    decreases s.len(),
{
    if s.len() == 0 {
        (Some(0), seq![])
    } else {
        let (d, cur) = path_scan(s.drop_last());
        if s.last() == '/' {
            (depth_step(d, cur), seq![])
        } else {
            (d, cur.push(s.last()))
        }
    }
}

/// The depth of a relative path below the root, `None` when it climbs out.
pub open spec fn path_depth(s: Seq<char>) -> Option<int> {
    depth_step(path_scan(s).0, path_scan(s).1)
}

/// The refusal, if any, of a script-supplied path under the fs root: empty
/// paths, the reserved `@` prefix, absolute paths and paths that climb out
/// of the root with `..`.
pub open spec fn path_refusal(user: Seq<char>) -> Option<Seq<char>> {
    if user.len() == 0 {
        Some("path must not be empty"@)
    } else if user[0] == '@' {
        Some(
            "'@' prefixes are reserved for future package aliases; use a './' or '../' relative path"@,
        )
    } else if user[0] == '/' {
        Some(
            "absolute paths are not allowed: '"@ + user
                + "' (use a path relative to the granted fs root)"@,
        )
    } else if path_depth(user) is None {
        Some("path escapes the granted fs root: '"@ + user + "'"@)
    } else {
        None
    }
}

/// Checks a script-supplied relative path before it is joined under the
/// granted fs root; nothing touches the filesystem here.
pub fn check_scoped_path(user: &str, span: Span) -> (r: Result<(), MuninnError>)
    ensures
        match path_refusal(user@) {
            None => r is Ok,
            Some(msg) => r matches Err(e) && e.phase@ == "vm"@ && e.span == span && e.message@
                == msg,
        },
{
    let chars = chars_of(user);
    if chars.len() == 0 {
        return Err(vm_error("path must not be empty", span));
    }
    if chars[0] == '@' {
        return Err(
            vm_error(
                "'@' prefixes are reserved for future package aliases; use a './' or '../' relative path",
                span,
            ),
        );
    }
    if chars[0] == '/' {
        let mut msg = owned("absolute paths are not allowed: '");
        push_str(&mut msg, user);
        push_str(&mut msg, "' (use a path relative to the granted fs root)");
        return Err(vm_error_owned(msg, span));
    }
    let mut depth: usize = 0;
    let mut cur: Vec<char> = Vec::new();
    let mut ok = true;
    let mut i: usize = 0;
    while i < chars.len()
        invariant
            i <= chars@.len(),
            chars@ == user@,
            depth <= i,
            ok ==> path_scan(chars@.take(i as int)) == (Some(depth as int), cur@),
            !ok ==> path_scan(chars@.take(i as int)).0 is None,
        decreases chars@.len() - i,
    {
        let c = chars[i];
        proof {
            assert(chars@.take(i + 1).drop_last() =~= chars@.take(i as int));
            assert(chars@.take(i + 1).last() == c);
        }
        if c == '/' {
            if ok {
                if cur.len() == 2 && cur[0] == '.' && cur[1] == '.' {
                    if depth == 0 {
                        ok = false;
                    } else {
                        depth = depth - 1;
                    }
                } else if cur.len() == 0 || (cur.len() == 1 && cur[0] == '.') {
                } else {
                    depth = depth + 1;
                }
            }
            cur = Vec::new();
        } else {
            cur.push(c);
        }
        i = i + 1;
    }
    proof {
        assert(chars@.take(chars@.len() as int) =~= chars@);
    }
    if ok {
        if cur.len() == 2 && cur[0] == '.' && cur[1] == '.' && depth == 0 {
            ok = false;
        }
    }
    if !ok {
        let mut msg = owned("path escapes the granted fs root: '");
        push_str(&mut msg, user);
        push_str(&mut msg, "'");
        return Err(vm_error_owned(msg, span));
    }
    Ok(())
}

// ----- tensor shapes -----

/// A tensor dimension given by a script must be positive (and fit a
/// `usize`).
pub fn positive_dim(value: i64, span: Span) -> (r: Result<usize, MuninnError>)
    ensures
        0 < value <= usize::MAX <==> r is Ok,
        r matches Ok(d) ==> d == value,
        value <= 0 ==> (r matches Err(e) && e.phase@ == "vm"@ && e.span == span && e.message@
            == "tensor dimensions must be positive, got "@ + signed_decimal(value as int)),
        value > usize::MAX ==> (r matches Err(e) && e.phase@ == "vm"@ && e.span == span
            && e.message@ == "tensor dimension is too large, got "@ + signed_decimal(value as int)),
{
    if value <= 0 {
        let mut msg = owned("tensor dimensions must be positive, got ");
        let v = i64_text(value);
        push_str(&mut msg, v.as_str());
        return Err(vm_error_owned(msg, span));
    }
    if value as u64 > usize::MAX as u64 {
        let mut msg = owned("tensor dimension is too large, got ");
        let v = i64_text(value);
        push_str(&mut msg, v.as_str());
        return Err(vm_error_owned(msg, span));
    }
    Ok(value as usize)
}

/// The element count a shape check reaches: the running product of the
/// dimensions, stopping at the first non-positive one (left for the
/// constructor to refuse).
pub open spec fn shape_product(dims: Seq<i64>) -> int
    decreases dims.len(),
{
    if dims.len() == 0 {
        1
    } else if exists|i: int| 0 <= i < dims.len() - 1 && dims[i] <= 0 {
        shape_product(dims.drop_last())
    } else if dims.last() <= 0 {
        shape_product(dims.drop_last())
    } else {
        shape_product(dims.drop_last()) * dims.last()
    }
}

/// The refusal, if any, of a constructor shape under an element cap:
/// the first prefix whose product overflows `usize`, or exceeds the cap.
pub open spec fn shape_refusal(dims: Seq<i64>, max_elements: usize) -> Option<Seq<char>>
    decreases dims.len(),
{
    if dims.len() == 0 {
        None
    } else {
        match shape_refusal(dims.drop_last(), max_elements) {
            Some(m) => Some(m),
            None => if exists|i: int| 0 <= i < dims.len() && dims[i] <= 0 {
                None
            } else if shape_product(dims) > usize::MAX {
                Some("tensor shape is too large"@)
            } else if shape_product(dims) > max_elements {
                Some(
                    "tensor has at least "@ + decimal(shape_product(dims) as nat) + " elements, maximum is "@
                        + decimal(max_elements as nat) + " for this host"@,
                )
            } else {
                None
            },
        }
    }
}

/// Checks a constructor shape against the host's element cap before any
/// allocation; a non-positive dimension ends the check (the constructor
/// itself refuses it).
pub fn check_shape_limit(dims: &[i64], max_elements: usize, span: Span) -> (r: Result<
    (),
    MuninnError,
>)
    ensures
        match shape_refusal(dims@, max_elements) {
            None => r is Ok,
            Some(msg) => r matches Err(e) && e.phase@ == "vm"@ && e.span == span && e.message@
                == msg,
        },
{
    let mut count: usize = 1;
    let mut i: usize = 0;
    while i < dims.len()
        invariant
            i <= dims@.len(),
            forall|j: int| 0 <= j < i ==> dims@[j] > 0,
            count as int == shape_product(dims@.take(i as int)),
            count >= 1,
            shape_refusal(dims@.take(i as int), max_elements) is None,
        decreases dims@.len() - i,
    {
        let ghost pre = dims@.take(i as int);
        let ghost post = dims@.take(i + 1);
        proof {
            assert(post.drop_last() =~= pre);
            assert(post.last() == dims@[i as int]);
        }
        let dim = dims[i];
        if dim <= 0 {
            proof {
                lemma_refusal_stops(dims@, i as int, max_elements);
            }
            return Ok(());
        }
        proof {
            assert(!(exists|j: int| 0 <= j < post.len() - 1 && post[j] <= 0));
            assert(!(exists|j: int| 0 <= j < post.len() && post[j] <= 0));
        }
        let d = dim as u64;
        if d > (usize::MAX / count) as u64 {
            proof {
                assert(count * dim > usize::MAX) by (nonlinear_arith)
                    requires
                        d > (usize::MAX / count) as u64,
                        d == dim,
                        count >= 1,
                ;
                lemma_refusal_kept(dims@, (i + 1) as int, max_elements);
            }
            return Err(vm_error("tensor shape is too large", span));
        }
        proof {
            assert(count * dim <= usize::MAX) by (nonlinear_arith)
                requires
                    d <= (usize::MAX / count) as u64,
                    d == dim,
                    count >= 1,
            ;
            assert(count * dim >= 1) by (nonlinear_arith)
                requires
                    count >= 1,
                    dim >= 1,
            ;
        }
        count = count * (dim as usize);
        if count > max_elements {
            let mut msg = owned("tensor has at least ");
            let c = usize_text(count);
            push_str(&mut msg, c.as_str());
            push_str(&mut msg, " elements, maximum is ");
            let m = usize_text(max_elements);
            push_str(&mut msg, m.as_str());
            push_str(&mut msg, " for this host");
            proof {
                lemma_refusal_kept(dims@, (i + 1) as int, max_elements);
            }
            return Err(vm_error_owned(msg, span));
        }
        i = i + 1;
    }
    proof {
        assert(dims@.take(dims@.len() as int) =~= dims@);
    }
    Ok(())
}

/// A refusal found on a prefix is the refusal of the whole shape.
proof fn lemma_refusal_kept(dims: Seq<i64>, k: int, max_elements: usize)
    requires
        0 <= k <= dims.len(),
        shape_refusal(dims.take(k), max_elements) is Some,
    ensures
        shape_refusal(dims, max_elements) == shape_refusal(dims.take(k), max_elements),
    decreases dims.len() - k,
{
    if k < dims.len() {
        assert(dims.take(k + 1).drop_last() =~= dims.take(k));
        lemma_refusal_kept(dims, k + 1, max_elements);
    } else {
        assert(dims.take(k) =~= dims);
    }
}

/// Once a non-positive dimension is reached, nothing after it is refused.
proof fn lemma_refusal_stops(dims: Seq<i64>, i: int, max_elements: usize)
    requires
        0 <= i < dims.len(),
        dims[i] <= 0,
        shape_refusal(dims.take(i), max_elements) is None,
    ensures
        shape_refusal(dims, max_elements) is None,
    decreases dims.len() - i,
{
    let ghost t = dims.take(i + 1);
    assert(t.drop_last() =~= dims.take(i));
    assert(t[i] == dims[i]);
    assert(shape_refusal(t, max_elements) is None);
    lemma_refusal_none_after(dims, i + 1, i, max_elements);
}

proof fn lemma_refusal_none_after(dims: Seq<i64>, k: int, i: int, max_elements: usize)
    requires
        0 <= i < k <= dims.len(),
        dims[i] <= 0,
        shape_refusal(dims.take(k), max_elements) is None,
    ensures
        shape_refusal(dims, max_elements) is None,
    decreases dims.len() - k,
{
    if k < dims.len() {
        let t = dims.take(k + 1);
        assert(t.drop_last() =~= dims.take(k));
        assert(t[i] == dims[i]);
        lemma_refusal_none_after(dims, k + 1, i, max_elements);
    } else {
        assert(dims.take(k) =~= dims);
    }
}

} // verus!
