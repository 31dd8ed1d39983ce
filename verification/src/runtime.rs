use vstd::prelude::*;

use crate::error::MuninnError;
use crate::span::Span;

verus! {

/// A diagnostic from the virtual machine.
pub fn vm_error(message: &str, span: Span) -> (e: MuninnError)
    ensures
        e.phase@ == "vm"@,
        e.message@ == message@,
        e.span == span,
        e.notes@.len() == 0,
{
    MuninnError::new("vm", message, span)
}

/// A diagnostic from the virtual machine with an already built message.
pub fn vm_error_owned(message: String, span: Span) -> (e: MuninnError)
    ensures
        e.phase@ == "vm"@,
        e.message == message,
        e.span == span,
        e.notes@.len() == 0,
{
    MuninnError::from_string("vm", message, span)
}

} // verus!
