//! The mathematics of block convolution: what one sample of a result is, how
//! a carried tail is laid over the next block, and how the products of an
//! impulse response cut into partitions are added back together.

use crate::ring_buffer::is_default;
use core::ops::Add;
use core::ops::Mul;
use vstd::prelude::*;
use vstd::std_specs::ops::AddSpec;
use vstd::std_specs::ops::MulSpec;

verus! {

/// The sample type's zero: the value its `Default` gives.
pub open spec fn zero<T: Default>() -> T {
    choose|z: T| is_default(z)
}

/// Sums and products of samples never fail, are what `add_spec` and
/// `mul_spec` say, and `Default` gives one value only.
pub open spec fn total_arithmetic<T: Default + Add<Output = T> + Mul<Output = T>>() -> bool {
    &&& T::obeys_add_spec()
    &&& T::obeys_mul_spec()
    &&& forall|a: T, b: T| #[trigger] a.add_req(b)
    &&& forall|a: T, b: T| #[trigger] a.mul_req(b)
    &&& forall|a: T, b: T| #[trigger] is_default(a) && #[trigger] is_default(b) ==> a == b
}

/// Under `total_arithmetic`, every default value is `zero()`.
pub proof fn lemma_default_is_zero<T: Default + Add<Output = T> + Mul<Output = T>>(v: T)
    requires
        total_arithmetic::<T>(),
        is_default(v),
    ensures
        v == zero::<T>(),
{
    assert(is_default(zero::<T>()));
}

/// A sequence of `len` zeros.
pub open spec fn zeros<T: Default>(len: int) -> Seq<T> {
    Seq::new(len as nat, |i: int| zero::<T>())
}

/// The sum of `x[i] * h[n - i]` over those `i < upto` for which both indices
/// exist, added up from zero in increasing `i`.
pub open spec fn conv_partial<T: Default + Add<Output = T> + Mul<Output = T>>(
    x: Seq<T>,
    h: Seq<T>,
    n: int,
    upto: int,
) -> T
    decreases upto,
{
    if upto <= 0 {
        zero::<T>()
    } else {
        let i = upto - 1;
        let before = conv_partial(x, h, n, i);
        if i < x.len() && 0 <= n - i < h.len() {
            before.add_spec(x[i].mul_spec(h[n - i]))
        } else {
            before
        }
    }
}

/// Sample `n` of the linear convolution of `x` with `h`.
pub open spec fn conv_at<T: Default + Add<Output = T> + Mul<Output = T>>(
    x: Seq<T>,
    h: Seq<T>,
    n: int,
) -> T {
    conv_partial(x, h, n, x.len() as int)
}

/// Sample `n` of what a block `x` gives once the tail carried from earlier
/// blocks is added onto the start of its convolution with `h`.
pub open spec fn carried_at<T: Default + Add<Output = T> + Mul<Output = T>>(
    tail: Seq<T>,
    x: Seq<T>,
    h: Seq<T>,
    n: int,
) -> T {
    if 0 <= n < tail.len() {
        conv_at(x, h, n).add_spec(tail[n])
    } else {
        conv_at(x, h, n)
    }
}

/// What a block `x` puts out: as many samples as it holds.
pub open spec fn direct_output<T: Default + Add<Output = T> + Mul<Output = T>>(
    tail: Seq<T>,
    x: Seq<T>,
    h: Seq<T>,
) -> Seq<T> {
    Seq::new(x.len(), |n: int| carried_at(tail, x, h, n))
}

/// What a block `x` leaves for later blocks: the samples past its end.
pub open spec fn direct_tail<T: Default + Add<Output = T> + Mul<Output = T>>(
    tail: Seq<T>,
    x: Seq<T>,
    h: Seq<T>,
) -> Seq<T> {
    Seq::new(tail.len(), |j: int| carried_at(tail, x, h, x.len() + j))
}

/// The number of partitions of `block_size` samples that hold `ir_len`
/// samples, the last one possibly part empty.
pub open spec fn partition_count(ir_len: int, block_size: int) -> int {
    if ir_len > 0 && block_size > 0 {
        (ir_len - 1) / block_size + 1
    } else {
        0
    }
}

/// Partition `k` of `h`: its samples from `k * block_size` on, at most
/// `block_size` of them; empty where `h` has no such samples.
pub open spec fn partition<T>(h: Seq<T>, block_size: int, k: int) -> Seq<T> {
    if block_size > 0 && 0 <= k * block_size < h.len() {
        h.subrange(
            k * block_size,
            if k * block_size + block_size < h.len() {
                k * block_size + block_size
            } else {
                h.len() as int
            },
        )
    } else {
        Seq::empty()
    }
}

/// The convolution of one block with partition `k`, as `2 * block_size`
/// samples.
pub open spec fn block_product<T: Default + Add<Output = T> + Mul<Output = T>>(
    x: Seq<T>,
    h: Seq<T>,
    block_size: int,
    k: int,
) -> Seq<T> {
    Seq::new((2 * block_size) as nat, |n: int| conv_at(x, partition(h, block_size, k), n))
}

/// The products of one block with every partition, first partition first.
pub open spec fn block_products<T: Default + Add<Output = T> + Mul<Output = T>>(
    x: Seq<T>,
    h: Seq<T>,
    block_size: int,
) -> Seq<Seq<T>> {
    Seq::new(
        partition_count(h.len() as int, block_size) as nat,
        |k: int| block_product(x, h, block_size, k),
    )
}

/// What is due `k` blocks and `i` samples after the start of the current
/// block: what the tail already holds for that sample, then the second half
/// of the product with partition `k - 1`, then the first half of the product
/// with partition `k`.
pub open spec fn overlap_at<T: Default + Add<Output = T> + Mul<Output = T>>(
    tail: Seq<T>,
    products: Seq<Seq<T>>,
    block_size: int,
    k: int,
    i: int,
) -> T {
    let n = k * block_size + i;
    let held = if 0 <= n < tail.len() {
        tail[n]
    } else {
        zero::<T>()
    };
    let with_earlier = if 1 <= k <= products.len() {
        held.add_spec(products[k - 1][block_size + i])
    } else {
        held
    };
    if 0 <= k < products.len() {
        with_earlier.add_spec(products[k][i])
    } else {
        with_earlier
    }
}

/// What a block puts out, given its products with the partitions.
pub open spec fn overlap_output<T: Default + Add<Output = T> + Mul<Output = T>>(
    tail: Seq<T>,
    products: Seq<Seq<T>>,
    block_size: int,
) -> Seq<T> {
    Seq::new(block_size as nat, |i: int| overlap_at(tail, products, block_size, 0, i))
}

/// What a block leaves for later blocks, given its products with the
/// partitions.
pub open spec fn overlap_tail<T: Default + Add<Output = T> + Mul<Output = T>>(
    tail: Seq<T>,
    products: Seq<Seq<T>>,
    block_size: int,
) -> Seq<T> {
    Seq::new(
        tail.len(),
        |m: int| overlap_at(tail, products, block_size, m / block_size + 1, m % block_size),
    )
}

/// The samples of each vector of `p`.
pub open spec fn rows<T>(p: Seq<Vec<T>>) -> Seq<Seq<T>> {
    Seq::new(p.len(), |k: int| p[k]@)
}

/// Against an empty `h` there is no term at all.
pub proof fn lemma_conv_partial_no_taps<T: Default + Add<Output = T> + Mul<Output = T>>(
    x: Seq<T>,
    h: Seq<T>,
    n: int,
    upto: int,
)
    requires
        h.len() == 0,
    ensures
        conv_partial(x, h, n, upto) == zero::<T>(),
    decreases upto,
{
    if upto > 0 {
        lemma_conv_partial_no_taps(x, h, n, upto - 1);
    }
}

/// No term of `conv_partial` below `upto` exists when `n - i` is too large
/// for `h` at every `i < upto`.
pub proof fn lemma_conv_partial_not_started<T: Default + Add<Output = T> + Mul<Output = T>>(
    x: Seq<T>,
    h: Seq<T>,
    n: int,
    upto: int,
)
    requires
        n - upto >= h.len() - 1,
    ensures
        conv_partial(x, h, n, upto) == zero::<T>(),
    decreases upto,
{
    if upto > 0 {
        lemma_conv_partial_not_started(x, h, n, upto - 1);
    }
}

/// Terms of `conv_partial` from `from` on do not exist when `from` is past
/// `n` or past the end of `x`.
pub proof fn lemma_conv_partial_finished<T: Default + Add<Output = T> + Mul<Output = T>>(
    x: Seq<T>,
    h: Seq<T>,
    n: int,
    from: int,
    upto: int,
)
    requires
        0 <= from <= upto,
        from > n || from >= x.len(),
    ensures
        conv_partial(x, h, n, upto) == conv_partial(x, h, n, from),
    decreases upto - from,
{
    if upto > from {
        lemma_conv_partial_finished(x, h, n, from, upto - 1);
    }
}

} // verus!
