//! Why cutting the impulse response into partitions changes nothing: the
//! products of a block with the partitions, added back together one block
//! apart, are the convolution of the block with the whole impulse response.

use crate::algebra::add_associative;
use crate::algebra::additive_laws;
use crate::algebra::zero_neutral;
use crate::convolution::block_products;
use crate::convolution::carried_at;
use crate::convolution::conv_at;
use crate::convolution::conv_partial;
use crate::convolution::direct_output;
use crate::convolution::direct_tail;
use crate::convolution::lemma_conv_partial_no_taps;
use crate::convolution::overlap_at;
use crate::convolution::overlap_output;
use crate::convolution::overlap_tail;
use crate::convolution::partition;
use crate::convolution::partition_count;
use crate::convolution::zero;
use crate::convolution::zeros;
use crate::streaming::lemma_conv_at_append;
use crate::streaming::convolution;
use crate::streaming::lemma_conv_at_outside;
use crate::streaming::lemma_stream_is_convolution;
use crate::streaming::lemma_stream_tail_len;
use crate::streaming::stream_output;
use crate::streaming::stream_tail;
use core::ops::Add;
use core::ops::Mul;
use vstd::arithmetic::div_mod::lemma_fundamental_div_mod;
use vstd::arithmetic::div_mod::lemma_mod_bound;
use vstd::prelude::*;
use vstd::std_specs::ops::AddSpec;
use vstd::std_specs::ops::MulSpec;

verus! {

/// The tap of `h` that meets sample `j` of a block in sample `n` of their
/// convolution, if there is one.
pub open spec fn tap_at<T>(h: Seq<T>, n: int, j: int) -> Option<T> {
    if 0 <= n - j < h.len() {
        Some(h[n - j])
    } else {
        None
    }
}

/// Two convolutions of one block are equal where every sample of the block
/// meets the same tap in both.
pub proof fn lemma_same_taps<T: Default + Add<Output = T> + Mul<Output = T>>(
    x: Seq<T>,
    h1: Seq<T>,
    n1: int,
    h2: Seq<T>,
    n2: int,
    upto: int,
)
    requires
        forall|j: int| 0 <= j < x.len() ==> #[trigger] tap_at(h1, n1, j) == tap_at(h2, n2, j),
    ensures
        conv_partial(x, h1, n1, upto) == conv_partial(x, h2, n2, upto),
    decreases upto,
{
    if upto > 0 {
        lemma_same_taps(x, h1, n1, h2, n2, upto - 1);
        let i = upto - 1;
        if i < x.len() {
            assert(tap_at(h1, n1, i) == tap_at(h2, n2, i));
        }
    }
}

/// The partitions lie one after another in the impulse response: the last
/// one starts inside it and ends at or past its end.
pub proof fn lemma_partition_count_bounds(ir_len: int, block_size: int)
    requires
        ir_len > 0,
        block_size > 0,
    ensures
        partition_count(ir_len, block_size) >= 1,
        (partition_count(ir_len, block_size) - 1) * block_size <= ir_len - 1,
        ir_len <= partition_count(ir_len, block_size) * block_size,
{
    let last = (ir_len - 1) / block_size;
    lemma_fundamental_div_mod(ir_len - 1, block_size);
    lemma_mod_bound(ir_len - 1, block_size);
    assert(last >= 0) by (nonlinear_arith)
        requires
            last == (ir_len - 1) / block_size,
            ir_len - 1 >= 0,
            block_size > 0,
    ;
    assert((last + 1) * block_size == block_size * last + block_size) by (nonlinear_arith);
    assert(last * block_size == block_size * last) by (nonlinear_arith);
}

/// Sample `k * b + i` of the convolution with the whole impulse response is
/// sample `i` of the product with partition `k` plus sample `b + i` of the
/// product with partition `k - 1`.
pub proof fn lemma_partition_split<T: Default + Add<Output = T> + Mul<Output = T>>(
    x: Seq<T>,
    h: Seq<T>,
    b: int,
    k: int,
    i: int,
)
    requires
        add_associative::<T>(),
        zero_neutral::<T>(),
        x.len() == b,
        0 <= i < b,
        0 <= k,
    ensures
        conv_at(x, h, k * b + i) == conv_at(x, partition(h, b, k), i).add_spec(
            conv_at(x, partition(h, b, k - 1), b + i),
        ),
{
    let n = k * b + i;
    let head = x.subrange(0, i + 1);
    let rest = x.subrange(i + 1, b);
    let here = partition(h, b, k);
    let before = partition(h, b, k - 1);
    assert(x =~= head + rest);
    assert((k - 1) * b == k * b - b) by (nonlinear_arith);
    assert(0 <= k * b) by (nonlinear_arith)
        requires
            0 <= k,
            0 < b,
    ;

    // The whole response: the first samples of the block, then the others.
    lemma_conv_at_append(head, rest, h, n);

    // The first samples of the block meet partition `k` only.
    assert forall|j: int| 0 <= j < head.len() implies #[trigger] tap_at(h, n, j) == tap_at(
        here,
        i,
        j,
    ) by {}
    lemma_same_taps(head, h, n, here, i, head.len() as int);
    lemma_conv_at_append(head, rest, here, i);
    lemma_conv_at_outside(rest, here, -1);
    assert(conv_at(x, here, i) == conv_at(head, here, i));

    // The others meet partition `k - 1` only.
    assert forall|j: int| 0 <= j < rest.len() implies #[trigger] tap_at(h, n - (i + 1), j)
        == tap_at(before, b - 1, j) by {}
    lemma_same_taps(rest, h, n - (i + 1), before, b - 1, rest.len() as int);
    lemma_conv_at_append(head, rest, before, b + i);
    lemma_conv_at_outside(head, before, b + i);
    assert(conv_at(x, before, b + i) == conv_at(rest, before, b - 1));
}

/// A tail of the partitioned engine holds what a tail of the direct engine
/// holds, followed by zeros.
pub open spec fn tails_agree<T: Default>(wide: Seq<T>, narrow: Seq<T>) -> bool {
    &&& wide.len() >= narrow.len()
    &&& forall|n: int|
        0 <= n < wide.len() ==> #[trigger] wide[n] == if n < narrow.len() {
            narrow[n]
        } else {
            zero::<T>()
        }
}

/// Frequency and time equivalence: on tails that agree, a block gives the
/// same output partitioned as it does against the whole impulse response, and
/// leaves tails that agree again.
pub proof fn lemma_partitioned_matches_direct<T: Default + Add<Output = T> + Mul<Output = T>>(
    wide: Seq<T>,
    narrow: Seq<T>,
    x: Seq<T>,
    h: Seq<T>,
    b: int,
)
    requires
        additive_laws::<T>(),
        h.len() >= 1,
        b >= 1,
        x.len() == b,
        wide.len() == partition_count(h.len() as int, b) * b,
        narrow.len() == h.len() - 1,
        tails_agree(wide, narrow),
    ensures
        overlap_output(wide, block_products(x, h, b), b) == direct_output(narrow, x, h),
        tails_agree(
            overlap_tail(wide, block_products(x, h, b), b),
            direct_tail(narrow, x, h),
        ),
{
    let count = partition_count(h.len() as int, b);
    let products = block_products(x, h, b);
    lemma_partition_count_bounds(h.len() as int, b);
    assert(count * b >= b) by (nonlinear_arith)
        requires
            count >= 1,
            b >= 1,
    ;
    assert forall|i: int| 0 <= i < b implies overlap_at(wide, products, b, 0, i) == carried_at(
        narrow,
        x,
        h,
        i,
    ) by {
        assert(0 * b + i == i) by (nonlinear_arith);
        lemma_partition_split(x, h, b, 0, i);
        lemma_conv_partial_no_taps(x, partition(h, b, -1), b + i, b);
        assert(wide[i] == if i < narrow.len() {
            narrow[i]
        } else {
            zero::<T>()
        });
    }
    assert(overlap_output(wide, products, b) =~= direct_output(narrow, x, h));

    let wide_after = overlap_tail(wide, products, b);
    let narrow_after = direct_tail(narrow, x, h);
    assert forall|m: int| 0 <= m < wide_after.len() implies #[trigger] wide_after[m] == if m
        < narrow_after.len() {
        narrow_after[m]
    } else {
        zero::<T>()
    } by {
        lemma_later_sample(wide, narrow, x, h, b, m);
    }
}

/// What a run of blocks of `b` samples puts out partitioned, each block
/// starting from what the one before it left.
pub open spec fn partitioned_output<T: Default + Add<Output = T> + Mul<Output = T>>(
    wide: Seq<T>,
    blocks: Seq<Seq<T>>,
    h: Seq<T>,
    b: int,
) -> Seq<T>
    decreases blocks.len(),
{
    if blocks.len() == 0 {
        Seq::empty()
    } else {
        overlap_output(wide, block_products(blocks.first(), h, b), b) + partitioned_output(
            overlap_tail(wide, block_products(blocks.first(), h, b), b),
            blocks.drop_first(),
            h,
            b,
        )
    }
}

/// What a run of blocks of `b` samples leaves in the tail, partitioned.
pub open spec fn partitioned_tail<T: Default + Add<Output = T> + Mul<Output = T>>(
    wide: Seq<T>,
    blocks: Seq<Seq<T>>,
    h: Seq<T>,
    b: int,
) -> Seq<T>
    decreases blocks.len(),
{
    if blocks.len() == 0 {
        wide
    } else {
        partitioned_tail(
            overlap_tail(wide, block_products(blocks.first(), h, b), b),
            blocks.drop_first(),
            h,
            b,
        )
    }
}

/// Frequency and time equivalence for a whole run: on tails that agree, blocks
/// of `b` samples give partitioned what they give against the whole impulse
/// response, and leave tails that agree. So whatever holds of a stream in the
/// time domain holds of it in the frequency domain.
pub proof fn lemma_partitioned_stream_matches_direct<
    T: Default + Add<Output = T> + Mul<Output = T>,
>(wide: Seq<T>, narrow: Seq<T>, blocks: Seq<Seq<T>>, h: Seq<T>, b: int)
    requires
        additive_laws::<T>(),
        h.len() >= 1,
        b >= 1,
        forall|k: int| 0 <= k < blocks.len() ==> (#[trigger] blocks[k]).len() == b,
        wide.len() == partition_count(h.len() as int, b) * b,
        narrow.len() == h.len() - 1,
        tails_agree(wide, narrow),
    ensures
        partitioned_output(wide, blocks, h, b) == stream_output(narrow, blocks, h),
        tails_agree(partitioned_tail(wide, blocks, h, b), stream_tail(narrow, blocks, h)),
    decreases blocks.len(),
{
    if blocks.len() > 0 {
        let first = blocks.first();
        let rest = blocks.drop_first();
        lemma_partitioned_matches_direct(wide, narrow, first, h, b);
        assert forall|k: int| 0 <= k < rest.len() implies (#[trigger] rest[k]).len() == b by {
            assert(rest[k] == blocks[k + 1]);
        }
        lemma_partitioned_stream_matches_direct(
            overlap_tail(wide, block_products(first, h, b), b),
            direct_tail(narrow, first, h),
            rest,
            h,
            b,
        );
    }
}

/// Tail completeness in the frequency domain: from an empty tail, what a run
/// of blocks of `b` samples puts out, followed by the first `h.len() - 1`
/// samples of the tail that it leaves, is the whole convolution of the input
/// with the impulse response; the rest of the tail is zero.
pub proof fn lemma_partitioned_stream_is_convolution<
    T: Default + Add<Output = T> + Mul<Output = T>,
>(blocks: Seq<Seq<T>>, h: Seq<T>, b: int)
    requires
        additive_laws::<T>(),
        h.len() >= 1,
        b >= 1,
        forall|k: int| 0 <= k < blocks.len() ==> (#[trigger] blocks[k]).len() == b,
    ensures
        partitioned_tail(
            zeros::<T>(partition_count(h.len() as int, b) * b),
            blocks,
            h,
            b,
        ).len() >= h.len() - 1,
        partitioned_output(zeros::<T>(partition_count(h.len() as int, b) * b), blocks, h, b)
            + partitioned_tail(
            zeros::<T>(partition_count(h.len() as int, b) * b),
            blocks,
            h,
            b,
        ).subrange(0, h.len() - 1) == convolution(blocks.flatten(), h),
        tails_agree(
            partitioned_tail(zeros::<T>(partition_count(h.len() as int, b) * b), blocks, h, b),
            stream_tail(zeros::<T>(h.len() - 1), blocks, h),
        ),
{
    let wide = zeros::<T>(partition_count(h.len() as int, b) * b);
    let narrow = zeros::<T>(h.len() - 1);
    lemma_partition_count_bounds(h.len() as int, b);
    lemma_stream_tail_len(narrow, blocks, h);
    lemma_partitioned_stream_matches_direct(wide, narrow, blocks, h, b);
    lemma_stream_is_convolution(blocks, h);
    let left = partitioned_tail(wide, blocks, h, b);
    let right = stream_tail(narrow, blocks, h);
    assert(left.subrange(0, h.len() - 1) =~= right);
}

/// One sample of the tails that a block leaves.
proof fn lemma_later_sample<T: Default + Add<Output = T> + Mul<Output = T>>(
    wide: Seq<T>,
    narrow: Seq<T>,
    x: Seq<T>,
    h: Seq<T>,
    b: int,
    m: int,
)
    requires
        additive_laws::<T>(),
        h.len() >= 1,
        b >= 1,
        x.len() == b,
        wide.len() == partition_count(h.len() as int, b) * b,
        narrow.len() == h.len() - 1,
        tails_agree(wide, narrow),
        0 <= m < wide.len(),
    ensures
        overlap_at(wide, block_products(x, h, b), b, m / b + 1, m % b) == (if m < narrow.len() {
            carried_at(narrow, x, h, b + m)
        } else {
            zero::<T>()
        }),
{
    let count = partition_count(h.len() as int, b);
    let products = block_products(x, h, b);
    let k = m / b + 1;
    let i = m % b;
    let n = k * b + i;
    lemma_partition_count_bounds(h.len() as int, b);
    lemma_fundamental_div_mod(m, b);
    lemma_mod_bound(m, b);
    assert(n == b + m) by (nonlinear_arith)
        requires
            n == (m / b + 1) * b + m % b,
            m == b * (m / b) + m % b,
    ;
    assert(1 <= k <= count) by (nonlinear_arith)
        requires
            k == m / b + 1,
            m == b * (m / b) + m % b,
            0 <= m % b < b,
            0 <= m < count * b,
            b >= 1,
    ;
    let earlier = conv_at(x, partition(h, b, k - 1), b + i);
    let later = conv_at(x, partition(h, b, k), i);
    let held = if n < wide.len() {
        wide[n]
    } else {
        zero::<T>()
    };
    assert(products[k - 1][b + i] == earlier);
    lemma_partition_split(x, h, b, k, i);
    assert(conv_at(x, h, n) == later.add_spec(earlier));
    if k < count {
        assert(products[k][i] == later);
    } else {
        assert(k * b >= h.len());
        lemma_conv_partial_no_taps(x, partition(h, b, k), i, b);
    }
    if n < wide.len() {
        assert(wide[n] == if n < narrow.len() {
            narrow[n]
        } else {
            zero::<T>()
        });
    }
    if m < narrow.len() {
        if k < count {
            // (held + earlier) + later against (later + earlier) + held
            assert(held.add_spec(earlier).add_spec(later) == held.add_spec(
                earlier.add_spec(later),
            ));
            assert(earlier.add_spec(later) == later.add_spec(earlier));
            assert(held.add_spec(later.add_spec(earlier)) == later.add_spec(earlier).add_spec(
                held,
            ));
            if n >= narrow.len() {
                assert(held == zero::<T>());
            }
        } else {
            assert(n >= narrow.len()) by (nonlinear_arith)
                requires
                    n == k * b + i,
                    k == count,
                    count * b >= narrow.len() + 1,
                    i >= 0,
            ;
        }
    } else {
        // Past the end of the whole convolution nothing is left.
        assert((k - 1) * b + i >= h.len() - 1) by (nonlinear_arith)
            requires
                k * b + i == b + m,
                m >= h.len() - 1,
        ;
        assert(k == count) by (nonlinear_arith)
            requires
                1 <= k <= count,
                (k - 1) * b + i >= h.len() - 1,
                (count - 1) * b <= h.len() - 1,
                0 <= i < b,
        ;
        assert(partition(h, b, k - 1).len() <= h.len() - (k - 1) * b);
        lemma_conv_at_outside(x, partition(h, b, k - 1), b + i);
    }
}

} // verus!
