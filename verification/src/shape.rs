use vstd::prelude::*;

use crate::error::MuninnError;
use crate::runtime::{vm_error, vm_error_owned};
use crate::span::Span;
use crate::text::{decimal, owned, push_str, usize_text};

verus! {

/// Most elements a tensor may hold.
pub const MAX_TENSOR_ELEMENTS: usize = 10000000;

/// The dimensions of a shape in decimal, separated by `, `.
pub open spec fn dims_text(shape: Seq<usize>) -> Seq<char>
    decreases shape.len(),
{
    if shape.len() == 0 {
        seq![]
    } else if shape.len() == 1 {
        decimal(shape[0] as nat)
    } else {
        dims_text(shape.drop_last()) + ", "@ + decimal(shape.last() as nat)
    }
}

/// A shape as written in diagnostics: `[2, 3]`.
pub open spec fn shape_text(shape: Seq<usize>) -> Seq<char> {
    "["@ + dims_text(shape) + "]"@
}

pub fn format_shape(shape: &[usize]) -> (s: String)
    ensures
        s@ == shape_text(shape@),
{
    let mut s = owned("[");
    let ghost start = s@;
    let mut i: usize = 0;
    while i < shape.len()
        invariant
            i <= shape@.len(),
            s@ == start + dims_text(shape@.take(i as int)),
        decreases shape@.len() - i,
    {
        proof {
            assert(shape@.take(i + 1).drop_last() =~= shape@.take(i as int));
            assert(shape@.take(i + 1).last() == shape@[i as int]);
        }
        if i > 0 {
            push_str(&mut s, ", ");
        }
        let d = usize_text(shape[i]);
        push_str(&mut s, d.as_str());
        proof {
            if i == 0 {
                assert(shape@.take(1) =~= seq![shape@[0]]);
            }
            assert(s@ =~= start + dims_text(shape@.take(i + 1)));
        }
        i = i + 1;
    }
    proof {
        assert(shape@.take(shape@.len() as int) =~= shape@);
    }
    push_str(&mut s, "]");
    s
}

/// The first axis of zero length, if any.
pub open spec fn first_zero_axis(shape: Seq<usize>) -> Option<nat>
    decreases shape.len(),
{
    if shape.len() == 0 {
        None
    } else {
        match first_zero_axis(shape.drop_last()) {
            Some(a) => Some(a),
            None => if shape.last() == 0 { Some((shape.len() - 1) as nat) } else { None },
        }
    }
}

/// Refuses a shape with a zero-length axis, naming the first one.
pub fn validate_shape(shape: &[usize], span: Span) -> (r: Result<(), MuninnError>)
    ensures
        match first_zero_axis(shape@) {
            None => r is Ok,
            Some(axis) => r matches Err(e) && e.phase@ == "vm"@ && e.span == span && e.message@
                == "tensor shape dimensions must be positive; axis "@ + decimal(axis) + " is zero in shape "@
                + shape_text(shape@),
        },
{
    let mut i: usize = 0;
    while i < shape.len()
        invariant
            i <= shape@.len(),
            first_zero_axis(shape@.take(i as int)) is None,
        decreases shape@.len() - i,
    {
        proof {
            assert(shape@.take(i + 1).drop_last() =~= shape@.take(i as int));
        }
        if shape[i] == 0 {
            proof {
                lemma_first_zero_kept(shape@, (i + 1) as int);
            }
            let mut msg = owned("tensor shape dimensions must be positive; axis ");
            let a = usize_text(i);
            push_str(&mut msg, a.as_str());
            push_str(&mut msg, " is zero in shape ");
            let f = format_shape(shape);
            push_str(&mut msg, f.as_str());
            return Err(vm_error_owned(msg, span));
        }
        i = i + 1;
    }
    proof {
        assert(shape@.take(shape@.len() as int) =~= shape@);
    }
    Ok(())
}

proof fn lemma_first_zero_kept(shape: Seq<usize>, k: int)
    requires
        0 <= k <= shape.len(),
        first_zero_axis(shape.take(k)) is Some,
    ensures
        first_zero_axis(shape) == first_zero_axis(shape.take(k)),
    decreases shape.len() - k,
{
    if k < shape.len() {
        assert(shape.take(k + 1).drop_last() =~= shape.take(k));
        lemma_first_zero_kept(shape, k + 1);
    } else {
        assert(shape.take(k) =~= shape);
    }
}

/// The number of elements a shape describes.
pub open spec fn product(shape: Seq<usize>) -> int
    decreases shape.len(),
{
    if shape.len() == 0 {
        1
    } else {
        product(shape.drop_last()) * shape.last()
    }
}

proof fn lemma_product_grows(shape: Seq<usize>, k: int)
    requires
        0 <= k <= shape.len(),
        forall|i: int| 0 <= i < shape.len() ==> #[trigger] shape[i] >= 1,
    ensures
        product(shape) >= product(shape.take(k)),
        product(shape.take(k)) >= 1,
    decreases shape.len() - k,
{
    if k < shape.len() {
        let t = shape.take(k + 1);
        assert(t.drop_last() =~= shape.take(k));
        lemma_product_grows(shape, k + 1);
        assert(product(t) == product(shape.take(k)) * shape[k]);
        assert(product(shape.take(k)) >= 1) by {
            lemma_product_positive(shape.take(k));
        }
        assert(product(t) >= product(shape.take(k))) by (nonlinear_arith)
            requires
                product(t) == product(shape.take(k)) * shape[k],
                shape[k] >= 1,
                product(shape.take(k)) >= 1,
        ;
    } else {
        assert(shape.take(k) =~= shape);
        lemma_product_positive(shape);
    }
}

proof fn lemma_product_positive(shape: Seq<usize>)
    requires
        forall|i: int| 0 <= i < shape.len() ==> #[trigger] shape[i] >= 1,
    ensures
        product(shape) >= 1,
    decreases shape.len(),
{
    if shape.len() > 0 {
        assert forall|i: int| 0 <= i < shape.drop_last().len() implies #[trigger] shape.drop_last()[i] >= 1 by {
            assert(shape.drop_last()[i] == shape[i]);
        }
        lemma_product_positive(shape.drop_last());
        let p = product(shape.drop_last());
        let d = shape.last();
        assert(p * d >= 1) by (nonlinear_arith)
            requires
                p >= 1,
                d >= 1,
        ;
    }
}

/// Number of elements of a valid shape: positive axes, a product that fits
/// a `usize` and at most ten million elements.
pub fn element_count(shape: &[usize], span: Span) -> (r: Result<usize, MuninnError>)
    ensures
        first_zero_axis(shape@) matches Some(axis) ==> (r matches Err(e) && e.phase@ == "vm"@ && e.span == span
            && e.message@ == "tensor shape dimensions must be positive; axis "@ + decimal(axis) + " is zero in shape "@
            + shape_text(shape@)),
        first_zero_axis(shape@) is None && product(shape@) > usize::MAX ==> (r matches Err(e)
            && e.phase@ == "vm"@ && e.span == span && e.message@ == "tensor shape is too large"@),
        first_zero_axis(shape@) is None && product(shape@) <= usize::MAX && product(shape@)
            > MAX_TENSOR_ELEMENTS ==> (r matches Err(e) && e.phase@ == "vm"@ && e.span == span
            && e.message@ == "tensor has "@ + decimal(product(shape@) as nat)
            + " elements, maximum is 10000000"@),
        r matches Ok(n) ==> first_zero_axis(shape@) is None && n == product(shape@) && n
            <= MAX_TENSOR_ELEMENTS,
        first_zero_axis(shape@) is None && product(shape@) <= MAX_TENSOR_ELEMENTS ==> r is Ok,
{
    validate_shape(shape, span)?;
    proof {
        lemma_no_zero_axis(shape@);
    }
    let mut count: usize = 1;
    let mut i: usize = 0;
    while i < shape.len()
        invariant
            i <= shape@.len(),
            forall|j: int| 0 <= j < shape@.len() ==> #[trigger] shape@[j] >= 1,
            first_zero_axis(shape@) is None,
            count as int == product(shape@.take(i as int)),
            count >= 1,
        decreases shape@.len() - i,
    {
        let ghost t = shape@.take(i + 1);
        proof {
            assert(t.drop_last() =~= shape@.take(i as int));
        }
        let d = shape[i];
        if d > usize::MAX / count {
            proof {
                lemma_product_positive(shape@.take(i as int));
                assert(count * d > usize::MAX) by (nonlinear_arith)
                    requires
                        d > usize::MAX / count,
                        count >= 1,
                ;
                lemma_product_grows(shape@, i + 1);
            }
            return Err(vm_error("tensor shape is too large", span));
        }
        proof {
            lemma_product_positive(shape@.take(i as int));
            assert(count * d <= usize::MAX) by (nonlinear_arith)
                requires
                    d <= usize::MAX / count,
                    count >= 1,
            ;
            assert(count * d >= 1) by (nonlinear_arith)
                requires
                    d >= 1,
                    count >= 1,
            ;
        }
        count = count * d;
        i = i + 1;
    }
    proof {
        assert(shape@.take(shape@.len() as int) =~= shape@);
    }
    if count > MAX_TENSOR_ELEMENTS {
        let mut msg = owned("tensor has ");
        let c = usize_text(count);
        push_str(&mut msg, c.as_str());
        push_str(&mut msg, " elements, maximum is 10000000");
        return Err(vm_error_owned(msg, span));
    }
    Ok(count)
}

proof fn lemma_no_zero_axis(shape: Seq<usize>)
    requires
        first_zero_axis(shape) is None,
    ensures
        forall|j: int| 0 <= j < shape.len() ==> #[trigger] shape[j] >= 1,
    decreases shape.len(),
{
    if shape.len() > 0 {
        lemma_no_zero_axis(shape.drop_last());
        assert forall|j: int| 0 <= j < shape.len() implies #[trigger] shape[j] >= 1 by {
            if j < shape.len() - 1 {
                assert(shape.drop_last()[j] == shape[j]);
            }
        }
    }
}

/// The product of the axes from `k` on: the row-major stride of axis
/// `k - 1`.
pub open spec fn suffix_product(shape: Seq<usize>, k: int) -> int
    decreases shape.len() - k,
{
    if k < 0 || k >= shape.len() {
        1
    } else {
        shape[k] * suffix_product(shape, k + 1)
    }
}

/// Row-major strides: the stride of each axis is the product of the axes
/// after it. Refused when one of those products overflows a `usize`.
pub fn strides(shape: &[usize], span: Span) -> (r: Result<Vec<usize>, MuninnError>)
    ensures
        (exists|i: int| 1 <= i < shape@.len() && suffix_product(shape@, i) > usize::MAX) <==> r is Err,
        r matches Err(e) ==> e.phase@ == "vm"@ && e.span == span && e.message@
            == "tensor shape is too large"@,
        r matches Ok(st) ==> st@.len() == shape@.len() && forall|k: int|
            0 <= k < shape@.len() ==> #[trigger] st@[k] == suffix_product(shape@, k + 1),
{
    let n = shape.len();
    let mut st: Vec<usize> = Vec::new();
    let mut k: usize = 0;
    while k < n
        invariant
            k <= n,
            n == shape@.len(),
            st@.len() == k,
            forall|j: int| 0 <= j < k ==> st@[j] == 1,
        decreases n - k,
    {
        st.push(1);
        k = k + 1;
    }
    if n <= 1 {
        proof {
            if n == 1 {
                assert(suffix_product(shape@, 1) == 1);
            }
        }
        return Ok(st);
    }
    let mut index: usize = n - 1;
    proof {
        assert(suffix_product(shape@, n as int) == 1);
    }
    while index > 0
        invariant
            index < n,
            n == shape@.len(),
            st@.len() == n,
            forall|j: int| index <= j < n ==> #[trigger] st@[j] == suffix_product(shape@, j + 1),
            forall|j: int| index < j < n ==> #[trigger] suffix_product(shape@, j) <= usize::MAX,
        decreases index,
    {
        let next = st[index];
        let d = shape[index];
        proof {
            assert(suffix_product(shape@, index as int) == d * next);
        }
        if d != 0 && next > usize::MAX / d {
            proof {
                assert(d * next > usize::MAX) by (nonlinear_arith)
                    requires
                        next > usize::MAX / d,
                        d >= 1,
                ;
            }
            return Err(vm_error("tensor shape is too large", span));
        }
        proof {
            assert(d * next <= usize::MAX) by (nonlinear_arith)
                requires
                    d == 0 || next <= usize::MAX / d,
            ;
        }
        st.set(index - 1, next * d);
        index = index - 1;
    }
    proof {
        assert forall|i: int| 1 <= i < shape@.len() implies suffix_product(shape@, i) <= usize::MAX by {
            assert(st@[i - 1] == suffix_product(shape@, i));
        }
    }
    Ok(st)
}

/// The multi-index of a row-major position, axis by axis; an axis of
/// length zero always gets index zero.
pub open spec fn unravel(rem: nat, shape: Seq<usize>, strides: Seq<usize>) -> Seq<usize>
    decreases shape.len(),
{
    if shape.len() == 0 || strides.len() == 0 {
        seq![]
    } else if shape[0] == 0 {
        seq![0usize] + unravel(rem, shape.drop_first(), strides.drop_first())
    } else {
        seq![(rem / (strides[0] as nat)) as usize] + unravel(
            rem % (strides[0] as nat),
            shape.drop_first(),
            strides.drop_first(),
        )
    }
}

pub fn unravel_index(linear: usize, shape: &[usize], strides: &[usize]) -> (r: Vec<usize>)
    requires
        forall|k: int|
            0 <= k < shape@.len() && k < strides@.len() && #[trigger] shape@[k] != 0 ==> strides@[k]
                != 0,
    ensures
        r@ == unravel(linear as nat, shape@, strides@),
{
    let n = if shape.len() < strides.len() { shape.len() } else { strides.len() };
    let mut remaining = linear;
    let mut out: Vec<usize> = Vec::new();
    let mut k: usize = 0;
    proof {
        assert(shape@.skip(0) =~= shape@);
        assert(strides@.skip(0) =~= strides@);
    }
    while k < n
        invariant
            k <= n,
            n <= shape@.len(),
            n <= strides@.len(),
            n == shape@.len() || n == strides@.len(),
            forall|j: int|
                0 <= j < shape@.len() && j < strides@.len() && #[trigger] shape@[j] != 0 ==> strides@[j]
                    != 0,
            out@ + unravel(remaining as nat, shape@.skip(k as int), strides@.skip(k as int)) == unravel(
                linear as nat,
                shape@,
                strides@,
            ),
        decreases n - k,
    {
        let dim = shape[k];
        let stride = strides[k];
        let ghost sk = shape@.skip(k as int);
        let ghost tk = strides@.skip(k as int);
        proof {
            assert(sk[0] == dim);
            assert(tk[0] == stride);
            assert(sk.drop_first() =~= shape@.skip(k + 1));
            assert(tk.drop_first() =~= strides@.skip(k + 1));
        }
        let ghost before = out@;
        if dim == 0 {
            out.push(0);
            proof {
                assert(out@ + unravel(remaining as nat, shape@.skip(k + 1), strides@.skip(k + 1)) =~= before
                    + unravel(remaining as nat, sk, tk));
            }
        } else {
            let q = remaining / stride;
            let ghost old_rem = remaining;
            out.push(q);
            remaining = remaining % stride;
            proof {
                assert(out@ + unravel(remaining as nat, shape@.skip(k + 1), strides@.skip(k + 1)) =~= before
                    + unravel(old_rem as nat, sk, tk));
            }
        }
        k = k + 1;
    }
    proof {
        assert(shape@.skip(k as int).len() == 0 || strides@.skip(k as int).len() == 0);
        assert(out@ =~= out@ + unravel(remaining as nat, shape@.skip(k as int), strides@.skip(k as int)));
    }
    out
}

/// The operand position a broadcast result position reads: axes of length
/// one repeat their single entry.
pub open spec fn broadcast_offset(
    index: Seq<usize>,
    offset: int,
    operand_shape: Seq<usize>,
    operand_strides: Seq<usize>,
    n: nat,
) -> int
    decreases n,
{
    if n == 0 {
        0
    } else {
        let k = n - 1;
        broadcast_offset(index, offset, operand_shape, operand_strides, (n - 1) as nat) + (if operand_shape[k] == 1 {
            0
        } else {
            index[offset + k] as int
        }) * operand_strides[k]
    }
}

proof fn lemma_broadcast_offset_grows(
    index: Seq<usize>,
    offset: int,
    operand_shape: Seq<usize>,
    operand_strides: Seq<usize>,
    k: nat,
    n: nat,
)
    requires
        k <= n,
    ensures
        broadcast_offset(index, offset, operand_shape, operand_strides, k) <= broadcast_offset(
            index,
            offset,
            operand_shape,
            operand_strides,
            n,
        ),
        broadcast_offset(index, offset, operand_shape, operand_strides, k) >= 0,
    decreases n,
{
    if n > 0 {
        let j = n - 1;
        let src: int = if operand_shape[j] == 1 { 0 } else { index[offset + j] as int };
        assert(src * operand_strides[j] >= 0) by (nonlinear_arith)
            requires
                src >= 0,
                operand_strides[j] >= 0,
        ;
        if k < n {
            lemma_broadcast_offset_grows(index, offset, operand_shape, operand_strides, k, (n - 1) as nat);
        } else {
            lemma_broadcast_offset_grows(index, offset, operand_shape, operand_strides, (n - 1) as nat, (n - 1) as nat);
        }
    }
}

/// Broadcasting aligns an operand with the trailing axes of the result:
/// the position an operand of rank `n` reads from a result index of rank
/// `r >= n` depends only on the last `n` entries of that index, and a
/// vector of length other than one with stride `t` reads entry
/// `index[r - 1] * t`, the result's last axis.
pub proof fn law_broadcast_reads_trailing_axes(
    index: Seq<usize>,
    other: Seq<usize>,
    operand_shape: Seq<usize>,
    operand_strides: Seq<usize>,
)
    requires
        operand_shape.len() <= index.len(),
        other.len() == index.len(),
        operand_strides.len() >= operand_shape.len(),
        forall|i: int| index.len() - operand_shape.len() <= i < index.len() ==> other[i] == index[i],
    ensures
        broadcast_offset(index, index.len() - operand_shape.len(), operand_shape, operand_strides, operand_shape.len())
            == broadcast_offset(other, index.len() - operand_shape.len(), operand_shape, operand_strides, operand_shape.len()),
        operand_shape.len() == 1 && operand_shape[0] != 1 && index.len() >= 1 ==> broadcast_offset(
            index,
            index.len() - 1,
            operand_shape,
            operand_strides,
            1,
        ) == index[index.len() - 1] * operand_strides[0],
{
    lemma_offset_trailing(index, other, index.len() - operand_shape.len(), operand_shape, operand_strides, operand_shape.len());
    if operand_shape.len() == 1 && operand_shape[0] != 1 && index.len() >= 1 {
        let o = index.len() - 1;
        assert(broadcast_offset(index, o, operand_shape, operand_strides, 0) == 0);
        assert(broadcast_offset(index, o, operand_shape, operand_strides, 1) == broadcast_offset(
            index,
            o,
            operand_shape,
            operand_strides,
            0,
        ) + index[o + 0] as int * operand_strides[0]);
    }
}

proof fn lemma_offset_trailing(
    index: Seq<usize>,
    other: Seq<usize>,
    offset: int,
    operand_shape: Seq<usize>,
    operand_strides: Seq<usize>,
    n: nat,
)
    requires
        n <= operand_shape.len(),
        forall|i: int| offset <= i < offset + n ==> other[i] == index[i],
    ensures
        broadcast_offset(index, offset, operand_shape, operand_strides, n) == broadcast_offset(
            other,
            offset,
            operand_shape,
            operand_strides,
            n,
        ),
    decreases n,
{
    if n > 0 {
        lemma_offset_trailing(index, other, offset, operand_shape, operand_strides, (n - 1) as nat);
    }
}

pub fn broadcast_index(
    index: &[usize],
    result_shape: &[usize],
    operand_shape: &[usize],
    operand_strides: &[usize],
) -> (r: usize)
    requires
        operand_strides@.len() >= operand_shape@.len(),
        forall|k: int|
            0 <= k < operand_shape@.len() && #[trigger] operand_shape@[k] != 1 ==> (if result_shape@.len()
                >= operand_shape@.len() {
                result_shape@.len() - operand_shape@.len()
            } else {
                0
            }) + k < index@.len(),
        broadcast_offset(
            index@,
            if result_shape@.len() >= operand_shape@.len() {
                result_shape@.len() - operand_shape@.len()
            } else {
                0
            },
            operand_shape@,
            operand_strides@,
            operand_shape@.len(),
        ) <= usize::MAX,
    ensures
        r == broadcast_offset(
            index@,
            if result_shape@.len() >= operand_shape@.len() {
                result_shape@.len() - operand_shape@.len()
            } else {
                0
            },
            operand_shape@,
            operand_strides@,
            operand_shape@.len(),
        ),
{
    let offset = if result_shape.len() >= operand_shape.len() {
        result_shape.len() - operand_shape.len()
    } else {
        0
    };
    let ghost total = broadcast_offset(index@, offset as int, operand_shape@, operand_strides@, operand_shape@.len());
    let mut linear: usize = 0;
    let mut k: usize = 0;
    let il = index.len();
    while k < operand_shape.len()
        invariant
            k <= operand_shape@.len(),
            il == index@.len(),
            operand_strides@.len() >= operand_shape@.len(),
            forall|j: int|
                0 <= j < operand_shape@.len() && #[trigger] operand_shape@[j] != 1 ==> offset + j < index@.len(),
            total == broadcast_offset(index@, offset as int, operand_shape@, operand_strides@, operand_shape@.len()),
            total <= usize::MAX,
            linear as int == broadcast_offset(index@, offset as int, operand_shape@, operand_strides@, k as nat),
        decreases operand_shape@.len() - k,
    {
        let source = if operand_shape[k] == 1 {
            0
        } else {
            index[offset + k]
        };
        proof {
            lemma_broadcast_offset_grows(index@, offset as int, operand_shape@, operand_strides@, (k + 1) as nat, operand_shape@.len());
            assert(source * operand_strides@[k as int] >= 0) by (nonlinear_arith)
                requires
                    source >= 0,
                    operand_strides@[k as int] >= 0,
            ;
        }
        let term = source * operand_strides[k];
        linear = linear + term;
        k = k + 1;
    }
    linear
}

/// The dimension of `shape` at position `i` counted from the right, one
/// past its rank.
pub open spec fn dim_from_right(shape: Seq<usize>, i: int) -> usize {
    if i < shape.len() { shape[shape.len() - 1 - i] } else { 1 }
}

pub open spec fn dims_compatible(a: usize, b: usize) -> bool {
    a == b || a == 1 || b == 1
}

pub open spec fn merged_dim(a: usize, b: usize) -> usize {
    if a == b { a } else if a == 1 { b } else { a }
}

/// Broadcasting two compatible axes keeps the longer one: the merged
/// length is the larger of the two, does not depend on their order, and
/// an axis of length one takes the other's length.
pub proof fn law_merged_dim(a: usize, b: usize)
    requires
        dims_compatible(a, b),
    ensures
        merged_dim(a, b) == merged_dim(b, a),
        a == 1 ==> merged_dim(a, b) == b,
        b == 1 ==> merged_dim(a, b) == a,
        a >= 1 && b >= 1 ==> merged_dim(a, b) == (if a >= b { a } else { b }),
{
}

/// The products behind row-major strides: the product of the axes from
/// `k` on, taken from the right, times the axes before `k`, taken from
/// the left, is the element count.
pub proof fn law_strides_multiply_to_count(shape: Seq<usize>, k: int)
    requires
        0 <= k <= shape.len(),
    ensures
        product(shape.take(k)) * suffix_product(shape, k) == product(shape),
{
    lemma_prefix_suffix(shape, k);
}

/// `product(shape.take(k)) * suffix_product(shape, k) == product(shape)`.
proof fn lemma_prefix_suffix(shape: Seq<usize>, k: int)
    requires
        0 <= k <= shape.len(),
    ensures
        product(shape.take(k)) * suffix_product(shape, k) == product(shape),
    decreases shape.len() - k,
{
    if k == shape.len() {
        assert(shape.take(k) =~= shape);
    } else {
        lemma_prefix_suffix(shape, k + 1);
        assert(shape.take(k + 1).drop_last() =~= shape.take(k));
        let a = product(shape.take(k));
        let x = shape[k] as int;
        let b = suffix_product(shape, k + 1);
        assert(product(shape.take(k + 1)) == a * x);
        assert(suffix_product(shape, k) == x * b);
        assert((a * x) * b == a * (x * b)) by (nonlinear_arith);
    }
}

/// Broadcasts two shapes, aligning their trailing axes: axes agree or one
/// of them is one.
pub fn broadcast_shape(left: &[usize], right: &[usize], span: Span, op_name: &str) -> (r: Result<
    Vec<usize>,
    MuninnError,
>)
    ensures
        (forall|i: int|
            0 <= i < left@.len() || 0 <= i < right@.len() ==> dims_compatible(
                #[trigger] dim_from_right(left@, i),
                dim_from_right(right@, i),
            )) <==> r is Ok,
        r matches Ok(shape) ==> shape@.len() == (if left@.len() >= right@.len() {
            left@.len()
        } else {
            right@.len()
        }) && forall|i: int|
            0 <= i < shape@.len() ==> #[trigger] shape@[shape@.len() - 1 - i] == merged_dim(
                dim_from_right(left@, i),
                dim_from_right(right@, i),
            ),
        r matches Err(e) ==> e.phase@ == "vm"@ && e.span == span && e.message@ == op_name@
            + " shape mismatch: left "@ + shape_text(left@) + " and right "@ + shape_text(right@)
            + " cannot be broadcast"@,
{
    let rank = if left.len() >= right.len() { left.len() } else { right.len() };
    let mut rev: Vec<usize> = Vec::new();
    let mut index: usize = 0;
    while index < rank
        invariant
            index <= rank,
            rank == (if left@.len() >= right@.len() { left@.len() } else { right@.len() }),
            rev@.len() == index,
            forall|i: int| 0 <= i < index ==> dims_compatible(
                #[trigger] dim_from_right(left@, i),
                dim_from_right(right@, i),
            ),
            forall|i: int| 0 <= i < index ==> #[trigger] rev@[i] == merged_dim(
                dim_from_right(left@, i),
                dim_from_right(right@, i),
            ),
        decreases rank - index,
    {
        let l = if index < left.len() { left[left.len() - 1 - index] } else { 1 };
        let r = if index < right.len() { right[right.len() - 1 - index] } else { 1 };
        let dim = if l == r {
            l
        } else if l == 1 {
            r
        } else if r == 1 {
            l
        } else {
            let mut msg = owned(op_name);
            push_str(&mut msg, " shape mismatch: left ");
            let a = format_shape(left);
            push_str(&mut msg, a.as_str());
            push_str(&mut msg, " and right ");
            let b = format_shape(right);
            push_str(&mut msg, b.as_str());
            push_str(&mut msg, " cannot be broadcast");
            proof {
                assert(!dims_compatible(dim_from_right(left@, index as int), dim_from_right(right@, index as int)));
            }
            return Err(vm_error_owned(msg, span));
        };
        rev.push(dim);
        index = index + 1;
    }
    let mut shape: Vec<usize> = Vec::new();
    let mut j: usize = rank;
    while j > 0
        invariant
            j <= rank,
            rev@.len() == rank,
            shape@.len() == rank - j,
            forall|i: int| 0 <= i < rank - j ==> #[trigger] shape@[i] == rev@[rank - 1 - i],
        decreases j,
    {
        j = j - 1;
        shape.push(rev[j]);
    }
    proof {
        assert forall|i: int| 0 <= i < shape@.len() implies #[trigger] shape@[shape@.len() - 1 - i] == merged_dim(
            dim_from_right(left@, i),
            dim_from_right(right@, i),
        ) by {
            assert(shape@[shape@.len() - 1 - i] == rev@[i]);
        }
    }
    Ok(shape)
}

/// The result shape `[m, n]` of a matrix product, as `validate_shape`
/// refuses it (a zero axis), if it does.
pub open spec fn matmul_zero_axis_text(m: usize, n: usize) -> Seq<char> {
    "tensor shape dimensions must be positive; axis "@ + decimal(if m == 0 { 0nat } else { 1nat })
        + " is zero in shape "@ + shape_text(seq![m, n])
}

/// The dimensions `(m, k, n)` of a product of an `m x k` and a `k x n`
/// tensor, checked before any arithmetic: both operands rank 2, inner
/// dimensions equal, a result with positive axes and at most
/// `MAX_TENSOR_ELEMENTS` elements.
pub fn matmul_dims(left: &[usize], right: &[usize], span: Span) -> (r: Result<(usize, usize, usize), MuninnError>)
    ensures
        left@.len() != 2 || right@.len() != 2 ==> (r matches Err(e) && e.phase@ == "vm"@ && e.span == span
            && e.message@ == "tensor_matmul expects rank-2 tensors"@),
        left@.len() == 2 && right@.len() == 2 && left@[1] != right@[0] ==> (r matches Err(e) && e.phase@ == "vm"@
            && e.span == span && e.message@ == "tensor_matmul shape mismatch: left "@ + shape_text(left@)
            + " and right "@ + shape_text(right@)),
        left@.len() == 2 && right@.len() == 2 && left@[1] == right@[0] ==> {
            let (m, n) = (left@[0], right@[1]);
            &&& (m == 0 || n == 0) ==> (r matches Err(e) && e.phase@ == "vm"@ && e.span == span && e.message@
                == matmul_zero_axis_text(m, n))
            &&& m != 0 && n != 0 && m * n > usize::MAX ==> (r matches Err(e) && e.phase@ == "vm"@ && e.span
                == span && e.message@ == "tensor_matmul result shape is too large"@)
            &&& m != 0 && n != 0 && m * n <= usize::MAX && m * n > MAX_TENSOR_ELEMENTS ==> (r matches Err(e)
                && e.phase@ == "vm"@ && e.span == span && e.message@ == "tensor_matmul result has "@ + decimal(
                (m * n) as nat,
            ) + " elements, maximum is 10000000"@)
            &&& m != 0 && n != 0 && m * n <= MAX_TENSOR_ELEMENTS ==> r == Ok::<
                (usize, usize, usize),
                MuninnError,
            >((m, left@[1], n))
        },
{
    if left.len() != 2 || right.len() != 2 {
        return Err(vm_error("tensor_matmul expects rank-2 tensors", span));
    }
    let m = left[0];
    let k = left[1];
    let rhs_k = right[0];
    let n = right[1];
    if k != rhs_k {
        let mut msg = owned("tensor_matmul shape mismatch: left ");
        let l = format_shape(left);
        push_str(&mut msg, l.as_str());
        push_str(&mut msg, " and right ");
        let r = format_shape(right);
        push_str(&mut msg, r.as_str());
        return Err(vm_error_owned(msg, span));
    }
    let result_shape = vec![m, n];
    proof {
        assert(result_shape@ == seq![m, n]);
        assert(seq![m, n].drop_last() =~= seq![m]);
        assert(seq![m].drop_last() =~= Seq::<usize>::empty());
        assert(first_zero_axis(Seq::<usize>::empty()) is None);
        assert(seq![m].last() == m && seq![m].len() == 1);
        assert(seq![m, n].last() == n && seq![m, n].len() == 2);
        assert(first_zero_axis(seq![m]) == (if m == 0 { Some(0nat) } else { None::<nat> }));
        assert(first_zero_axis(seq![m, n]) == (if m == 0 {
            Some(0nat)
        } else if n == 0 {
            Some(1nat)
        } else {
            None::<nat>
        }));
    }
    validate_shape(&result_shape, span)?;
    let len = match m.checked_mul(n) {
        Some(len) => len,
        None => {
            return Err(vm_error("tensor_matmul result shape is too large", span));
        },
    };
    if len > MAX_TENSOR_ELEMENTS {
        let mut msg = owned("tensor_matmul result has ");
        let c = usize_text(len);
        push_str(&mut msg, c.as_str());
        push_str(&mut msg, " elements, maximum is 10000000");
        return Err(vm_error_owned(msg, span));
    }
    Ok((m, k, n))
}

} // verus!
