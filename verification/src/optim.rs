use vstd::prelude::*;

use crate::autodiff::{AutodiffError, AutodiffErrorKind};

verus! {

/// The SplitMix64 state advance.
pub open spec fn mix_state(state: u64) -> u64 {
    state.wrapping_add(0x9E37_79B9_7F4A_7C15u64)
}

/// The SplitMix64 output for an advanced state.
pub open spec fn mix_output(z: u64) -> u64 {
    let a = (z ^ (z >> 30u64)).wrapping_mul(0xBF58_476D_1CE4_E5B9u64);
    let b = (a ^ (a >> 27u64)).wrapping_mul(0x94D0_49BB_1331_11EBu64);
    b ^ (b >> 31u64)
}

/// Deterministic 64-bit SplitMix generator for shuffling and splits: the
/// same seed replays the same sequence.
#[derive(Debug, Clone)]
pub struct SeedRng(u64);

impl View for SeedRng {
    type V = u64;

    closed spec fn view(&self) -> u64 {
        self.0
    }
}

impl SeedRng {
    pub fn new(seed: u64) -> (r: SeedRng)
        ensures
            r@ == seed,
    {
        SeedRng(seed)
    }

    pub fn next_u64(&mut self) -> (v: u64)
        ensures
            final(self)@ == mix_state(old(self)@),
            v == mix_output(final(self)@),
    {
        self.0 = self.0.wrapping_add(0x9E37_79B9_7F4A_7C15u64);
        let mut value = self.0;
        value = (value ^ (value >> 30u64)).wrapping_mul(0xBF58_476D_1CE4_E5B9u64);
        value = (value ^ (value >> 27u64)).wrapping_mul(0x94D0_49BB_1331_11EBu64);
        value ^ (value >> 31u64)
    }

    /// A draw reduced modulo `max(bound, 1)`.
    pub fn below(&mut self, bound: usize) -> (v: usize)
        ensures
            final(self)@ == mix_state(old(self)@),
            v == mix_output(final(self)@) % (if bound >= 1 { bound as u64 } else { 1u64 }),
    {
        let m: u64 = if bound >= 1 { bound as u64 } else { 1u64 };
        let draw = self.next_u64();
        (draw % m) as usize
    }
}

/// `0, 1, ..., len - 1`.
pub open spec fn identity(len: nat) -> Seq<usize> {
    Seq::new(len, |i: int| i as usize)
}

/// `v` with entries `i` and `j` exchanged.
pub open spec fn swapped(v: Seq<usize>, i: int, j: int) -> Seq<usize> {
    v.update(i, v[j]).update(j, v[i])
}

/// Fisher-Yates from `position` down to 1, drawing from `state`.
pub open spec fn shuffle_from(v: Seq<usize>, state: u64, position: nat) -> Seq<usize>
    decreases position,
{
    if position == 0 {
        v
    } else {
        let next = mix_state(state);
        let other = (mix_output(next) % ((position + 1) as u64)) as int;
        shuffle_from(swapped(v, position as int, other), next, (position - 1) as nat)
    }
}

/// The order `shuffled_indices(len, seed)` returns.
pub open spec fn shuffled(len: nat, seed: u64) -> Seq<usize> {
    if len <= 1 {
        identity(len)
    } else {
        shuffle_from(identity(len), seed, (len - 1) as nat)
    }
}

/// `v` holds each of `0..n` exactly once.
pub open spec fn is_permutation(v: Seq<usize>, n: nat) -> bool {
    &&& v.len() == n
    &&& forall|i: int| 0 <= i < v.len() ==> #[trigger] v[i] < n
    &&& forall|i: int, j: int| 0 <= i < j < v.len() ==> #[trigger] v[i] != #[trigger] v[j]
}

proof fn lemma_swap_keeps_permutation(v: Seq<usize>, n: nat, a: int, b: int)
    requires
        is_permutation(v, n),
        0 <= a < n,
        0 <= b < n,
    ensures
        is_permutation(swapped(v, a, b), n),
{
    let w = swapped(v, a, b);
    assert forall|i: int, j: int| 0 <= i < j < w.len() implies #[trigger] w[i] != #[trigger] w[j] by {
        let si = if i == b { a } else if i == a { b } else { i };
        let sj = if j == b { a } else if j == a { b } else { j };
        assert(w[i] == v[si]);
        assert(w[j] == v[sj]);
        if si < sj {
            assert(v[si] != v[sj]);
        } else {
            assert(v[sj] != v[si]);
        }
    }
}

proof fn lemma_shuffle_keeps_permutation(v: Seq<usize>, n: nat, state: u64, position: nat)
    requires
        is_permutation(v, n),
        position < n,
        n <= usize::MAX,
    ensures
        is_permutation(shuffle_from(v, state, position), n),
    decreases position,
{
    if position > 0 {
        let next = mix_state(state);
        let other = (mix_output(next) % ((position + 1) as u64)) as int;
        assert(((position + 1) as u64) as int == position + 1);
        assert(other < position + 1);
        lemma_swap_keeps_permutation(v, n, position as int, other);
        lemma_shuffle_keeps_permutation(swapped(v, position as int, other), n, next, (position - 1) as nat);
    }
}

/// A shuffle holds each row index exactly once, whatever the seed.
pub proof fn law_shuffle_is_permutation(len: nat, seed: u64)
    requires
        len <= usize::MAX,
    ensures
        is_permutation(shuffled(len, seed), len),
{
    assert forall|i: int, j: int| 0 <= i < j < len implies #[trigger] identity(len)[i] != #[trigger] identity(len)[j] by {
    }
    assert(is_permutation(identity(len), len));
    if len > 1 {
        lemma_shuffle_keeps_permutation(identity(len), len, seed, (len - 1) as nat);
    }
}

/// Returns row indices `0..len` in deterministic shuffled order.
pub fn shuffled_indices(len: usize, seed: u64) -> (r: Vec<usize>)
    ensures
        r@ == shuffled(len as nat, seed),
        is_permutation(r@, len as nat),
{
    proof {
        law_shuffle_is_permutation(len as nat, seed);
    }
    let mut rng = SeedRng::new(seed);
    let mut indices: Vec<usize> = Vec::new();
    let mut k: usize = 0;
    while k < len
        invariant
            k <= len,
            indices@ == identity(k as nat),
        decreases len - k,
    {
        indices.push(k);
        proof {
            assert(indices@ =~= identity((k + 1) as nat));
        }
        k = k + 1;
    }
    if len <= 1 {
        return indices;
    }
    let mut position: usize = len - 1;
    while position > 0
        invariant
            position < len,
            indices@.len() == len,
            shuffle_from(indices@, rng@, position as nat) == shuffled(len as nat, seed),
        decreases position,
    {
        let other = rng.below(position + 1);
        let a = indices[position];
        let b = indices[other];
        indices.set(position, b);
        indices.set(other, a);
        position = position - 1;
    }
    indices
}

/// The items of `parts`, in order.
pub open spec fn concat_all<T>(parts: Seq<Seq<T>>) -> Seq<T>
    decreases parts.len(),
{
    if parts.len() == 0 {
        seq![]
    } else {
        concat_all(parts.drop_last()) + parts.last()
    }
}

pub open spec fn batch_views<T>(bs: Seq<Vec<T>>) -> Seq<Seq<T>> {
    bs.map_values(|b: Vec<T>| b@)
}

/// Consecutive batches of exactly `size` items, but for a shorter,
/// nonempty last one.
pub open spec fn packed<T>(parts: Seq<Seq<T>>, size: nat) -> bool {
    &&& forall|k: int| 0 <= k < parts.len() - 1 ==> (#[trigger] parts[k]).len() == size
    &&& (parts.len() > 0 ==> 1 <= parts.last().len() <= size)
}

/// Packs items into consecutive batches of at most `batch_size`, keeping
/// a short last batch.
pub fn batches<T: Copy>(items: &[T], batch_size: usize) -> (r: Result<Vec<Vec<T>>, AutodiffError>)
    ensures
        batch_size == 0 <==> r is Err,
        r matches Err(e) ==> e.kind == AutodiffErrorKind::Runtime && e.message@
            == "batch_size must be positive"@,
        r matches Ok(bs) ==> concat_all(batch_views(bs@)) == items@ && packed(
            batch_views(bs@),
            batch_size as nat,
        ),
{
    if batch_size == 0 {
        return Err(AutodiffError::new(AutodiffErrorKind::Runtime, "batch_size must be positive"));
    }
    let mut out: Vec<Vec<T>> = Vec::new();
    let mut current: Vec<T> = Vec::new();
    let mut i: usize = 0;
    while i < items.len()
        invariant
            i <= items@.len(),
            batch_size > 0,
            concat_all(batch_views(out@)) + current@ == items@.take(i as int),
            current@.len() < batch_size,
            forall|k: int| 0 <= k < out@.len() ==> (#[trigger] batch_views(out@)[k]).len() == batch_size,
        decreases items@.len() - i,
    {
        let ghost before_out = out@;
        let ghost before_cur = current@;
        current.push(items[i]);
        proof {
            assert(items@.take(i + 1) =~= items@.take(i as int).push(items@[i as int]));
        }
        if current.len() == batch_size {
            let full = current;
            current = Vec::new();
            out.push(full);
            proof {
                assert(batch_views(out@) =~= batch_views(before_out).push(full@));
                assert(batch_views(out@).drop_last() =~= batch_views(before_out));
                assert(concat_all(batch_views(out@)) + current@ =~= items@.take(i + 1));
            }
        }
        i = i + 1;
    }
    proof {
        assert(items@.take(items@.len() as int) =~= items@);
    }
    if current.len() > 0 {
        let ghost before_out = out@;
        let last = current;
        out.push(last);
        proof {
            assert(batch_views(out@) =~= batch_views(before_out).push(last@));
            assert(batch_views(out@).drop_last() =~= batch_views(before_out));
        }
    } else {
        proof {
            assert(concat_all(batch_views(out@)) =~= items@);
        }
    }
    Ok(out)
}

} // verus!
