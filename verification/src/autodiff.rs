use vstd::prelude::*;

use crate::error::MuninnError;
use crate::shape::{format_shape, shape_text, strides, suffix_product};
use crate::span::Span;
use crate::text::{decimal, owned, push_str, usize_text};

verus! {

/// The stable category of an autodiff error, for programmatic handling.
#[derive(Debug, Clone, Copy, PartialEq, Eq, Structural)]
pub enum AutodiffErrorKind {
    /// The expression and differentiation target belong to different tapes.
    DifferentGraphs,
    /// The requested target was created as a constant rather than a variable.
    InvalidTarget,
    /// Reverse-mode differentiation requires a scalar loss.
    NonScalarLoss,
    /// The target variable is not an ancestor of the loss.
    MissingGradient,
    /// A reduction axis was outside the tensor rank.
    InvalidAxis,
    /// An operation or gradient rule received incompatible shapes.
    ShapeMismatch,
    /// An eager tensor operation failed for a non-shape reason.
    Runtime,
}

/// A structured, shape-aware error from the eager autodiff path.
#[derive(Debug, Clone)]
pub struct AutodiffError {
    pub kind: AutodiffErrorKind,
    pub message: String,
}

/// Whether `needle` occurs in `hay`.
pub open spec fn occurs_in(hay: Seq<char>, needle: Seq<char>) -> bool {
    exists|i: int| 0 <= i <= hay.len() - needle.len() && #[trigger] hay.subrange(i, i + needle.len()) == needle
}

/// Whether `needle` occurs in `hay`.
pub fn text_contains(hay: &str, needle: &str) -> (r: bool)
    ensures
        r == occurs_in(hay@, needle@),
{
    let h = crate::text::chars_of(hay);
    let n = crate::text::chars_of(needle);
    if n.len() > h.len() {
        return false;
    }
    let mut i: usize = 0;
    while i <= h.len() - n.len()
        invariant
            n@.len() <= h@.len(),
            i <= h@.len() - n@.len() + 1,
            h@ == hay@,
            n@ == needle@,
            forall|k: int| 0 <= k < i ==> #[trigger] h@.subrange(k, k + n@.len()) != n@,
        decreases h@.len() - n@.len() + 1 - i,
    {
        let mut j: usize = 0;
        let mut same = true;
        let hl = h.len();
        while j < n.len()
            invariant
                j <= n@.len(),
                hl == h@.len(),
                i + n@.len() <= h@.len(),
                same == forall|m: int| 0 <= m < j ==> h@[i + m] == n@[m],
            decreases n@.len() - j,
        {
            if h[i + j] != n[j] {
                same = false;
            }
            j = j + 1;
        }
        if same {
            proof {
                assert(h@.subrange(i as int, i + n@.len()) =~= n@);
            }
            return true;
        }
        proof {
            let k = choose|m: int| 0 <= m < n@.len() && h@[i + m] != n@[m];
            assert(h@.subrange(i as int, i + n@.len())[k] != n@[k]);
        }
        i = i + 1;
    }
    false
}

/// The category a runtime diagnostic maps to: shape problems are
/// recognised by the words `shape`, `broadcast` or `rank-2` in the message.
pub open spec fn kind_of_message(message: Seq<char>) -> AutodiffErrorKind {
    if occurs_in(message, "shape"@) || occurs_in(message, "broadcast"@) || occurs_in(message, "rank-2"@) {
        AutodiffErrorKind::ShapeMismatch
    } else {
        AutodiffErrorKind::Runtime
    }
}

impl AutodiffError {
    pub fn new(kind: AutodiffErrorKind, message: &str) -> (e: AutodiffError)
        ensures
            e.kind == kind,
            e.message@ == message@,
    {
        AutodiffError { kind, message: owned(message) }
    }

    /// Returns the stable error category for programmatic handling.
    pub fn kind(&self) -> (k: AutodiffErrorKind)
        ensures
            k == self.kind,
    {
        self.kind
    }

    /// The text form: `autodiff error: <message>`.
    pub fn describe(&self) -> (s: String)
        ensures
            s@ == "autodiff error: "@ + self.message@,
    {
        let mut s = owned("autodiff error: ");
        push_str(&mut s, self.message.as_str());
        s
    }

    /// Wraps a runtime diagnostic, classifying shape problems.
    pub fn from_runtime(error: MuninnError) -> (e: AutodiffError)
        ensures
            e.kind == kind_of_message(error.message@),
            e.message == error.message,
    {
        let m = error.message.as_str();
        let kind = if text_contains(m, "shape") || text_contains(m, "broadcast") || text_contains(
            m,
            "rank-2",
        ) {
            AutodiffErrorKind::ShapeMismatch
        } else {
            AutodiffErrorKind::Runtime
        };
        AutodiffError { kind, message: error.message }
    }
}

// ----- shape rules of the gradient computations -----

pub open spec fn shape_error_text(operation: Seq<char>, left: Seq<usize>, right: Seq<usize>, reason: Seq<char>) -> Seq<
    char,
> {
    operation + " shape mismatch: "@ + shape_text(left) + " and "@ + shape_text(right) + " ("@ + reason + ")"@
}

/// A shape-mismatch error naming the operation, both shapes and why.
pub fn shape_error(operation: &str, left: &[usize], right: &[usize], reason: &str) -> (e: AutodiffError)
    ensures
        e.kind == AutodiffErrorKind::ShapeMismatch,
        e.message@ == shape_error_text(operation@, left@, right@, reason@),
{
    let mut m = owned(operation);
    push_str(&mut m, " shape mismatch: ");
    let l = format_shape(left);
    push_str(&mut m, l.as_str());
    push_str(&mut m, " and ");
    let r = format_shape(right);
    push_str(&mut m, r.as_str());
    push_str(&mut m, " (");
    push_str(&mut m, reason);
    push_str(&mut m, ")");
    AutodiffError { kind: AutodiffErrorKind::ShapeMismatch, message: m }
}

/// `small` lines up with the trailing axes of `large`, each of its
/// dimensions equal to the one it faces or 1.
pub open spec fn aligned(small: Seq<usize>, large: Seq<usize>) -> bool {
    &&& small.len() <= large.len()
    &&& forall|k: int|
        0 <= k < small.len() ==> #[trigger] small[k] == large[large.len() - small.len() + k] || small[k] == 1
}

fn is_aligned(small: &[usize], large: &[usize]) -> (b: bool)
    requires
        small@.len() <= large@.len(),
    ensures
        b == aligned(small@, large@),
{
    let offset = large.len() - small.len();
    let mut k: usize = 0;
    while k < small.len()
        invariant
            k <= small@.len() <= large@.len(),
            offset == large@.len() - small@.len(),
            large@.len() == large.len(),
            forall|j: int| 0 <= j < k ==> #[trigger] small@[j] == large@[large@.len() - small@.len() + j] || small@[j] == 1,
        decreases small@.len() - k,
    {
        if small[k] != large[offset + k] && small[k] != 1 {
            return false;
        }
        k = k + 1;
    }
    true
}

/// Checks that a gradient of shape `gradient` can be summed down to
/// `target`; on success, how many leading axes of the gradient are summed
/// away entirely.
pub fn check_reduce_target(gradient: &[usize], target: &[usize], operation: &str) -> (r: Result<usize, AutodiffError>)
    ensures
        r is Ok <==> aligned(target@, gradient@),
        r matches Ok(offset) ==> offset == gradient@.len() - target@.len(),
        target@.len() > gradient@.len() ==> (r matches Err(e) && e.kind == AutodiffErrorKind::ShapeMismatch
            && e.message@ == shape_error_text(operation@, gradient@, target@, "target rank is larger than gradient rank"@)),
        target@.len() <= gradient@.len() && !aligned(target@, gradient@) ==> (r matches Err(e) && e.kind
            == AutodiffErrorKind::ShapeMismatch && e.message@ == shape_error_text(
            operation@,
            gradient@,
            target@,
            "target is not broadcast-compatible with gradient"@,
        )),
{
    if target.len() > gradient.len() {
        return Err(shape_error(operation, gradient, target, "target rank is larger than gradient rank"));
    }
    if !is_aligned(target, gradient) {
        return Err(shape_error(operation, gradient, target, "target is not broadcast-compatible with gradient"));
    }
    Ok(gradient.len() - target.len())
}

/// Checks that a value of shape `source` can be broadcast to `target`; on
/// success, how many leading axes of the target it is repeated along.
pub fn check_broadcast_target(source: &[usize], target: &[usize], operation: &str) -> (r: Result<usize, AutodiffError>)
    ensures
        r is Ok <==> aligned(source@, target@),
        r matches Ok(offset) ==> offset == target@.len() - source@.len(),
        source@.len() > target@.len() ==> (r matches Err(e) && e.kind == AutodiffErrorKind::ShapeMismatch
            && e.message@ == shape_error_text(operation@, source@, target@, "source rank is larger than target rank"@)),
        source@.len() <= target@.len() && !aligned(source@, target@) ==> (r matches Err(e) && e.kind
            == AutodiffErrorKind::ShapeMismatch && e.message@ == shape_error_text(
            operation@,
            source@,
            target@,
            "source is not broadcast-compatible with target"@,
        )),
{
    if source.len() > target.len() {
        return Err(shape_error(operation, source, target, "source rank is larger than target rank"));
    }
    if !is_aligned(source, target) {
        return Err(shape_error(operation, source, target, "source is not broadcast-compatible with target"));
    }
    Ok(target.len() - source.len())
}

/// The shape without axis `axis`, or an invalid-axis error naming `what`
/// (`sum_axis`, or `sum_axis gradient`).
pub fn reduced_shape(shape: &[usize], axis: usize, what: &str) -> (r: Result<Vec<usize>, AutodiffError>)
    ensures
        axis < shape@.len() ==> (r matches Ok(v) && v@ == shape@.remove(axis as int)),
        axis >= shape@.len() ==> (r matches Err(e) && e.kind == AutodiffErrorKind::InvalidAxis && e.message@
            == what@ + " axis "@ + decimal(axis as nat) + " is out of bounds for shape "@ + shape_text(shape@)),
{
    if axis >= shape.len() {
        let mut m = owned(what);
        push_str(&mut m, " axis ");
        let a = usize_text(axis);
        push_str(&mut m, a.as_str());
        push_str(&mut m, " is out of bounds for shape ");
        let f = format_shape(shape);
        push_str(&mut m, f.as_str());
        return Err(AutodiffError { kind: AutodiffErrorKind::InvalidAxis, message: m });
    }
    let mut out: Vec<usize> = Vec::new();
    let mut k: usize = 0;
    while k < shape.len()
        invariant
            axis < shape@.len(),
            k <= shape@.len(),
            out@ == (if k <= axis { shape@.take(k as int) } else { shape@.take(k as int).remove(axis as int) }),
        decreases shape@.len() - k,
    {
        if k != axis {
            out.push(shape[k]);
        }
        proof {
            if k < axis {
                assert(shape@.take(k + 1) =~= shape@.take(k as int).push(shape@[k as int]));
            } else if k == axis {
                assert(shape@.take(k + 1).remove(axis as int) =~= shape@.take(k as int));
            } else {
                assert(shape@.take(k + 1).remove(axis as int) =~= shape@.take(k as int).remove(axis as int).push(
                    shape@[k as int],
                ));
            }
        }
        k = k + 1;
    }
    proof {
        assert(shape@.take(shape@.len() as int) =~= shape@);
    }
    Ok(out)
}

/// Row-major strides of a shape, refused as a shape mismatch when a
/// suffix product overflows.
pub fn tape_strides(shape: &[usize]) -> (r: Result<Vec<usize>, AutodiffError>)
    ensures
        (exists|i: int| 1 <= i < shape@.len() && suffix_product(shape@, i) > usize::MAX) <==> r is Err,
        r matches Err(e) ==> e.kind == AutodiffErrorKind::ShapeMismatch && e.message@ == "tensor shape "@
            + shape_text(shape@) + " is too large"@,
        r matches Ok(st) ==> st@.len() == shape@.len() && forall|k: int|
            0 <= k < shape@.len() ==> #[trigger] st@[k] == suffix_product(shape@, k + 1),
{
    match strides(shape, Span::default()) {
        Ok(st) => Ok(st),
        Err(_) => {
            let mut m = owned("tensor shape ");
            let f = format_shape(shape);
            push_str(&mut m, f.as_str());
            push_str(&mut m, " is too large");
            Err(AutodiffError { kind: AutodiffErrorKind::ShapeMismatch, message: m })
        },
    }
}

/// The offset in the axis-reduced tensor of an input index: every
/// coordinate but the reduced one, by the output strides.
pub open spec fn axis_offset(index: Seq<usize>, axis: int, out_strides: Seq<usize>, n: nat) -> int
    decreases n,
{
    if n == 0 {
        0
    } else {
        let k = n - 1;
        axis_offset(index, axis, out_strides, k as nat) + if k == axis {
            0
        } else if k < axis {
            index[k] * out_strides[k]
        } else {
            index[k] * out_strides[k - 1]
        }
    }
}

/// Where an input element lands when axis `axis` is summed away.
pub fn axis_output_offset(index: &[usize], axis: usize, out_strides: &[usize]) -> (r: usize)
    requires
        axis < index@.len(),
        out_strides@.len() + 1 >= index@.len(),
        forall|n: nat| n <= index@.len() ==> 0 <= #[trigger] axis_offset(index@, axis as int, out_strides@, n) <= usize::MAX,
    ensures
        r == axis_offset(index@, axis as int, out_strides@, index@.len()),
{
    let mut total: usize = 0;
    let mut out_axis: usize = 0;
    let mut k: usize = 0;
    while k < index.len()
        invariant
            axis < index@.len(),
            out_strides@.len() + 1 >= index@.len(),
            k <= index@.len(),
            out_axis == (if k <= axis { k } else { (k - 1) as usize }),
            total == axis_offset(index@, axis as int, out_strides@, k as nat),
            forall|n: nat| n <= index@.len() ==> 0 <= #[trigger] axis_offset(index@, axis as int, out_strides@, n) <= usize::MAX,
        decreases index@.len() - k,
    {
        proof {
            assert(0 <= axis_offset(index@, axis as int, out_strides@, (k + 1) as nat) <= usize::MAX);
        }
        if k != axis {
            let part = index[k] as u128 * out_strides[out_axis] as u128;
            proof {
                assert(total + index@[k as int] * out_strides@[out_axis as int] == axis_offset(
                    index@,
                    axis as int,
                    out_strides@,
                    (k + 1) as nat,
                ));
                assert(index@[k as int] * out_strides@[out_axis as int] >= 0) by (nonlinear_arith);
            }
            total = total + (part as usize);
            out_axis = out_axis + 1;
        }
        k = k + 1;
    }
    total
}

/// The rows and columns of a rank-2 shape, refused for any other rank.
pub fn transpose_dims(shape: &[usize]) -> (r: Result<(usize, usize), AutodiffError>)
    ensures
        shape@.len() == 2 <==> r is Ok,
        r matches Ok((rows, cols)) ==> rows == shape@[0] && cols == shape@[1],
        r matches Err(e) ==> e.kind == AutodiffErrorKind::ShapeMismatch && e.message@
            == "autodiff transpose expects rank-2 tensor, got shape "@ + shape_text(shape@),
{
    if shape.len() != 2 {
        let mut m = owned("autodiff transpose expects rank-2 tensor, got shape ");
        let f = format_shape(shape);
        push_str(&mut m, f.as_str());
        return Err(AutodiffError { kind: AutodiffErrorKind::ShapeMismatch, message: m });
    }
    Ok((shape[0], shape[1]))
}

/// The error for a loss that is not a scalar.
pub fn non_scalar_loss(loss_shape: &[usize]) -> (e: AutodiffError)
    ensures
        e.kind == AutodiffErrorKind::NonScalarLoss,
        e.message@ == "grad expects a scalar loss with shape [], got loss shape "@ + shape_text(loss_shape@),
{
    let mut m = owned("grad expects a scalar loss with shape [], got loss shape ");
    let f = format_shape(loss_shape);
    push_str(&mut m, f.as_str());
    AutodiffError { kind: AutodiffErrorKind::NonScalarLoss, message: m }
}

/// The error when no path leads from the loss back to the variable.
pub fn missing_gradient(loss_shape: &[usize], variable_shape: &[usize]) -> (e: AutodiffError)
    ensures
        e.kind == AutodiffErrorKind::MissingGradient,
        e.message@ == "no gradient path from loss shape "@ + shape_text(loss_shape@) + " to variable shape "@
            + shape_text(variable_shape@),
{
    let mut m = owned("no gradient path from loss shape ");
    let f = format_shape(loss_shape);
    push_str(&mut m, f.as_str());
    push_str(&mut m, " to variable shape ");
    let g = format_shape(variable_shape);
    push_str(&mut m, g.as_str());
    AutodiffError { kind: AutodiffErrorKind::MissingGradient, message: m }
}

} // verus!
