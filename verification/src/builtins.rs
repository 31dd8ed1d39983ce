use vstd::prelude::*;

use crate::semantics::Ty;
use crate::text::same_text;

verus! {

/// The language's built-in functions.
#[derive(Debug, Clone, Copy, PartialEq, Eq, Structural)]
pub enum BuiltinKind {
    Print,
    Assert,
}

/// A built-in function: its name, its signature as shown to users, and
/// its kind.
#[derive(Debug, Clone, Copy)]
pub struct BuiltinSpec {
    pub name: &'static str,
    pub detail: &'static str,
    pub kind: BuiltinKind,
}

pub open spec fn builtin_name(kind: BuiltinKind) -> Seq<char> {
    match kind {
        BuiltinKind::Print => "print"@,
        BuiltinKind::Assert => "assert"@,
    }
}

/// Every built-in, in declaration order.
pub fn builtins() -> (v: Vec<BuiltinSpec>)
    ensures
        v@.len() == 2,
        v@[0].kind == BuiltinKind::Print && v@[0].name@ == "print"@,
        v@[1].kind == BuiltinKind::Assert && v@[1].name@ == "assert"@,
{
    vec![
        BuiltinSpec {
            name: "print",
            detail: "fn print(value: Int | Float | Bool | String) -> Void",
            kind: BuiltinKind::Print,
        },
        BuiltinSpec { name: "assert", detail: "fn assert(condition: Bool) -> Void", kind: BuiltinKind::Assert },
    ]
}

/// The built-in called `name`, if any.
pub fn builtin_by_name(name: &str) -> (r: Option<BuiltinSpec>)
    ensures
        match r {
            Some(b) => builtin_name(b.kind) == name@ && b.name@ == name@,
            None => forall|k: BuiltinKind| builtin_name(k) != name@,
        },
{
    let all = builtins();
    if same_text(all[0].name, name) {
        return Some(all[0]);
    }
    if same_text(all[1].name, name) {
        return Some(all[1]);
    }
    proof {
        assert forall|k: BuiltinKind| builtin_name(k) != name@ by {
            match k {
                BuiltinKind::Print => {},
                BuiltinKind::Assert => {},
            }
        }
    }
    None
}

/// Whether `argument` may be passed to the built-in: `print` takes any
/// scalar, `assert` a boolean.
pub fn accepts_argument(kind: BuiltinKind, argument: &Ty) -> (b: bool)
    ensures
        b == match kind {
            BuiltinKind::Print => argument is Int || argument is Float || argument is Bool || argument is String,
            BuiltinKind::Assert => argument is Bool,
        },
{
    match kind {
        BuiltinKind::Print => match argument {
            Ty::Int | Ty::Float | Ty::Bool | Ty::String => true,
            _ => false,
        },
        BuiltinKind::Assert => match argument {
            Ty::Bool => true,
            _ => false,
        },
    }
}

/// Built-ins return nothing.
pub fn return_type(kind: BuiltinKind) -> (t: Ty)
    ensures
        t is Void,
{
    Ty::Void
}

} // verus!
