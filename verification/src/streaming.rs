//! Laws of block convolution: what holds of the engine's results whatever the
//! samples are, as long as their sums and products keep the usual laws.

use crate::algebra::add_associative;
use crate::algebra::additive_laws;
use crate::algebra::distributive;
use crate::algebra::lemma_add_interchange;
use crate::algebra::mul_associative;
use crate::algebra::right_unit;
use crate::algebra::zero_absorbing;
use crate::algebra::zero_neutral;
use crate::convolution::carried_at;
use crate::convolution::conv_at;
use crate::convolution::conv_partial;
use crate::convolution::direct_output;
use crate::convolution::direct_tail;
use crate::convolution::zero;
use crate::convolution::zeros;
use core::ops::Add;
use core::ops::Mul;
use vstd::prelude::*;
use vstd::std_specs::ops::AddSpec;
use vstd::std_specs::ops::MulSpec;

verus! {

/// The terms of a convolution with `a + b` that come from `a` are those of
/// the convolution with `a` alone.
pub proof fn lemma_conv_partial_prefix<T: Default + Add<Output = T> + Mul<Output = T>>(
    a: Seq<T>,
    b: Seq<T>,
    h: Seq<T>,
    n: int,
    upto: int,
)
    requires
        upto <= a.len(),
    ensures
        conv_partial(a + b, h, n, upto) == conv_partial(a, h, n, upto),
    decreases upto,
{
    if upto > 0 {
        lemma_conv_partial_prefix(a, b, h, n, upto - 1);
    }
}

/// The terms of a convolution with `a + b` up to one in `b` are the whole
/// convolution with `a` and the terms of the convolution with `b`, taken
/// `a.len()` samples earlier.
pub proof fn lemma_conv_partial_append<T: Default + Add<Output = T> + Mul<Output = T>>(
    a: Seq<T>,
    b: Seq<T>,
    h: Seq<T>,
    n: int,
    upto: int,
)
    requires
        add_associative::<T>(),
        zero_neutral::<T>(),
        0 <= upto <= b.len(),
    ensures
        conv_partial(a + b, h, n, a.len() + upto) == conv_at(a, h, n).add_spec(
            conv_partial(b, h, n - a.len(), upto),
        ),
    decreases upto,
{
    if upto == 0 {
        lemma_conv_partial_prefix(a, b, h, n, a.len() as int);
    } else {
        lemma_conv_partial_append(a, b, h, n, upto - 1);
        let i = a.len() + upto - 1;
        assert((a + b)[i] == b[upto - 1]);
    }
}

/// Sample `n` of the convolution with `a + b` is sample `n` of that with `a`
/// plus sample `n - a.len()` of that with `b`.
pub proof fn lemma_conv_at_append<T: Default + Add<Output = T> + Mul<Output = T>>(
    a: Seq<T>,
    b: Seq<T>,
    h: Seq<T>,
    n: int,
)
    requires
        add_associative::<T>(),
        zero_neutral::<T>(),
    ensures
        conv_at(a + b, h, n) == conv_at(a, h, n).add_spec(conv_at(b, h, n - a.len())),
{
    lemma_conv_partial_append(a, b, h, n, b.len() as int);
}

/// Before the block starts and from `h.len() - 1` samples past its end, the
/// convolution is zero.
pub proof fn lemma_conv_at_outside<T: Default + Add<Output = T> + Mul<Output = T>>(
    x: Seq<T>,
    h: Seq<T>,
    n: int,
)
    requires
        n < 0 || n >= x.len() + h.len() - 1,
    ensures
        conv_at(x, h, n) == zero::<T>(),
{
    lemma_outside(x, h, n, x.len() as int);
}

proof fn lemma_outside<T: Default + Add<Output = T> + Mul<Output = T>>(
    x: Seq<T>,
    h: Seq<T>,
    n: int,
    upto: int,
)
    requires
        n < 0 || n >= x.len() + h.len() - 1,
        upto <= x.len(),
    ensures
        conv_partial(x, h, n, upto) == zero::<T>(),
    decreases upto,
{
    if upto > 0 {
        lemma_outside(x, h, n, upto - 1);
    }
}

/// Processing `a` and then `b` gives what processing `a + b` at once gives:
/// the same output and the same tail.
pub proof fn lemma_direct_split<T: Default + Add<Output = T> + Mul<Output = T>>(
    tail: Seq<T>,
    a: Seq<T>,
    b: Seq<T>,
    h: Seq<T>,
)
    requires
        additive_laws::<T>(),
        tail.len() == h.len() - 1,
    ensures
        direct_output(tail, a + b, h) == direct_output(tail, a, h) + direct_output(
            direct_tail(tail, a, h),
            b,
            h,
        ),
        direct_tail(tail, a + b, h) == direct_tail(direct_tail(tail, a, h), b, h),
{
    let mid = direct_tail(tail, a, h);
    assert forall|m: int| 0 <= m < b.len() + tail.len() implies carried_at(mid, b, h, m)
        == carried_at(tail, a + b, h, a.len() + m) by {
        lemma_carried_split(tail, a, b, h, m);
    }
    assert(direct_output(tail, a + b, h) =~= direct_output(tail, a, h) + direct_output(mid, b, h))
        by {
        assert forall|n: int| 0 <= n < a.len() implies carried_at(tail, a + b, h, n) == carried_at(
            tail,
            a,
            h,
            n,
        ) by {
            lemma_conv_at_append(a, b, h, n);
            lemma_conv_at_outside(b, h, n - a.len());
        }
    }
    assert(direct_tail(tail, a + b, h) =~= direct_tail(mid, b, h));
}

/// Sample `m` of the second block, with what the first block left, is sample
/// `a.len() + m` of both blocks processed as one.
proof fn lemma_carried_split<T: Default + Add<Output = T> + Mul<Output = T>>(
    tail: Seq<T>,
    a: Seq<T>,
    b: Seq<T>,
    h: Seq<T>,
    m: int,
)
    requires
        additive_laws::<T>(),
        tail.len() == h.len() - 1,
        0 <= m,
    ensures
        carried_at(direct_tail(tail, a, h), b, h, m) == carried_at(tail, a + b, h, a.len() + m),
{
    let mid = direct_tail(tail, a, h);
    let n = a.len() + m;
    let ca = conv_at(a, h, n);
    let cb = conv_at(b, h, m);
    lemma_conv_at_append(a, b, h, n);
    assert(conv_at(a + b, h, n) == ca.add_spec(cb));
    if m < tail.len() {
        assert(mid[m] == carried_at(tail, a, h, n));
        if n < tail.len() {
            // (cb + (ca + t)) against ((ca + cb) + t)
            let t = tail[n];
            assert(cb.add_spec(ca.add_spec(t)) == cb.add_spec(ca).add_spec(t));
            assert(cb.add_spec(ca) == ca.add_spec(cb));
        } else {
            assert(cb.add_spec(ca) == ca.add_spec(cb));
        }
    } else {
        lemma_conv_at_outside(a, h, n);
    }
}

/// What a run of blocks puts out, each block starting from what the one
/// before it left.
pub open spec fn stream_output<T: Default + Add<Output = T> + Mul<Output = T>>(
    tail: Seq<T>,
    blocks: Seq<Seq<T>>,
    h: Seq<T>,
) -> Seq<T>
    decreases blocks.len(),
{
    if blocks.len() == 0 {
        Seq::empty()
    } else {
        direct_output(tail, blocks.first(), h) + stream_output(
            direct_tail(tail, blocks.first(), h),
            blocks.drop_first(),
            h,
        )
    }
}

/// What a run of blocks leaves in the tail.
pub open spec fn stream_tail<T: Default + Add<Output = T> + Mul<Output = T>>(
    tail: Seq<T>,
    blocks: Seq<Seq<T>>,
    h: Seq<T>,
) -> Seq<T>
    decreases blocks.len(),
{
    if blocks.len() == 0 {
        tail
    } else {
        stream_tail(direct_tail(tail, blocks.first(), h), blocks.drop_first(), h)
    }
}

/// A run of blocks leaves a tail as long as the one that it started from.
pub proof fn lemma_stream_tail_len<T: Default + Add<Output = T> + Mul<Output = T>>(
    tail: Seq<T>,
    blocks: Seq<Seq<T>>,
    h: Seq<T>,
)
    ensures
        stream_tail(tail, blocks, h).len() == tail.len(),
    decreases blocks.len(),
{
    if blocks.len() > 0 {
        lemma_stream_tail_len(direct_tail(tail, blocks.first(), h), blocks.drop_first(), h);
    }
}

/// A run of blocks gives what its samples give as a single block.
pub proof fn lemma_blocks_as_one<T: Default + Add<Output = T> + Mul<Output = T>>(
    tail: Seq<T>,
    blocks: Seq<Seq<T>>,
    h: Seq<T>,
)
    requires
        additive_laws::<T>(),
        tail.len() == h.len() - 1,
    ensures
        stream_output(tail, blocks, h) == direct_output(tail, blocks.flatten(), h),
        stream_tail(tail, blocks, h) == direct_tail(tail, blocks.flatten(), h),
    decreases blocks.len(),
{
    if blocks.len() == 0 {
        let none = Seq::<T>::empty();
        assert(blocks.flatten() =~= none);
        assert(direct_output(tail, none, h) =~= none);
        assert(direct_tail(tail, none, h) =~= tail);
    } else {
        let first = blocks.first();
        let rest = blocks.drop_first();
        let mid = direct_tail(tail, first, h);
        lemma_blocks_as_one(mid, rest, h);
        lemma_direct_split(tail, first, rest.flatten(), h);
        assert(blocks.flatten() == first + rest.flatten());
    }
}

/// Block-size invariance: however one input is cut into blocks, the engine
/// puts out the same samples and is left with the same tail.
pub proof fn lemma_block_size_invariance<T: Default + Add<Output = T> + Mul<Output = T>>(
    tail: Seq<T>,
    one_way: Seq<Seq<T>>,
    another_way: Seq<Seq<T>>,
    h: Seq<T>,
)
    requires
        additive_laws::<T>(),
        tail.len() == h.len() - 1,
        one_way.flatten() == another_way.flatten(),
    ensures
        stream_output(tail, one_way, h) == stream_output(tail, another_way, h),
        stream_tail(tail, one_way, h) == stream_tail(tail, another_way, h),
{
    lemma_blocks_as_one(tail, one_way, h);
    lemma_blocks_as_one(tail, another_way, h);
}

/// The whole linear convolution of `x` with `h`: `x.len() + h.len() - 1`
/// samples.
pub open spec fn convolution<T: Default + Add<Output = T> + Mul<Output = T>>(
    x: Seq<T>,
    h: Seq<T>,
) -> Seq<T> {
    Seq::new((x.len() + h.len() - 1) as nat, |n: int| conv_at(x, h, n))
}

/// Tail completeness: from an empty tail, what a run of blocks puts out,
/// followed by the tail that it leaves, is the whole convolution of the
/// input with the impulse response, `input length + h.len() - 1` samples.
pub proof fn lemma_stream_is_convolution<T: Default + Add<Output = T> + Mul<Output = T>>(
    blocks: Seq<Seq<T>>,
    h: Seq<T>,
)
    requires
        additive_laws::<T>(),
        h.len() >= 1,
    ensures
        stream_output(zeros::<T>(h.len() - 1), blocks, h) + stream_tail(
            zeros::<T>(h.len() - 1),
            blocks,
            h,
        ) == convolution(blocks.flatten(), h),
        convolution(blocks.flatten(), h).len() == blocks.flatten().len() + h.len() - 1,
{
    let empty_tail = zeros::<T>(h.len() - 1);
    let x = blocks.flatten();
    lemma_blocks_as_one(empty_tail, blocks, h);
    assert(direct_output(empty_tail, x, h) + direct_tail(empty_tail, x, h) =~= convolution(x, h));
}

/// An impulse response of `len` samples that is `unit` at position `p` and
/// zero elsewhere.
pub open spec fn unit_impulse<T: Default>(len: int, p: int, unit: T) -> Seq<T> {
    Seq::new(
        len as nat,
        |i: int|
            if i == p {
                unit
            } else {
                zero::<T>()
            },
    )
}

/// `x` moved `p` samples later in a sequence of `len` samples that is zero
/// elsewhere.
pub open spec fn delayed<T: Default>(x: Seq<T>, p: int, len: int) -> Seq<T> {
    Seq::new(
        len as nat,
        |n: int|
            if p <= n < p + x.len() {
                x[n - p]
            } else {
                zero::<T>()
            },
    )
}

proof fn lemma_unit_impulse_partial<T: Default + Add<Output = T> + Mul<Output = T>>(
    x: Seq<T>,
    len: int,
    p: int,
    unit: T,
    n: int,
    upto: int,
)
    requires
        zero_neutral::<T>(),
        zero_absorbing::<T>(),
        right_unit(unit),
        0 <= p < len,
        0 <= upto <= x.len(),
    ensures
        conv_partial(x, unit_impulse(len, p, unit), n, upto) == (if 0 <= n - p < upto {
            x[n - p]
        } else {
            zero::<T>()
        }),
    decreases upto,
{
    if upto > 0 {
        lemma_unit_impulse_partial(x, len, p, unit, n, upto - 1);
    }
}

/// Identity: convolving with a unit impulse at position `p` gives the input
/// again, `p` samples later.
pub proof fn lemma_unit_impulse_delays<T: Default + Add<Output = T> + Mul<Output = T>>(
    x: Seq<T>,
    len: int,
    p: int,
    unit: T,
)
    requires
        zero_neutral::<T>(),
        zero_absorbing::<T>(),
        right_unit(unit),
        0 <= p < len,
    ensures
        convolution(x, unit_impulse(len, p, unit)) == delayed(x, p, x.len() + len - 1),
{
    let h = unit_impulse(len, p, unit);
    assert forall|n: int| 0 <= n < x.len() + len - 1 implies conv_at(x, h, n) == delayed(
        x,
        p,
        x.len() + len - 1,
    )[n] by {
        lemma_unit_impulse_partial(x, len, p, unit, n, x.len() as int);
    }
    assert(convolution(x, h) =~= delayed(x, p, x.len() + len - 1));
}

/// Every sample of `s` multiplied by `c` from the left.
pub open spec fn scaled<T: Mul<Output = T>>(c: T, s: Seq<T>) -> Seq<T> {
    Seq::new(s.len(), |i: int| c.mul_spec(s[i]))
}

/// The sums of the samples of `s` and `t` at each position of `s`.
pub open spec fn summed<T: Add<Output = T>>(s: Seq<T>, t: Seq<T>) -> Seq<T> {
    Seq::new(s.len(), |i: int| s[i].add_spec(t[i]))
}

proof fn lemma_scaled_partial<T: Default + Add<Output = T> + Mul<Output = T>>(
    c: T,
    x: Seq<T>,
    h: Seq<T>,
    n: int,
    upto: int,
)
    requires
        distributive::<T>(),
        mul_associative::<T>(),
        zero_absorbing::<T>(),
        upto <= x.len(),
    ensures
        conv_partial(scaled(c, x), h, n, upto) == c.mul_spec(conv_partial(x, h, n, upto)),
    decreases upto,
{
    if upto > 0 {
        lemma_scaled_partial(c, x, h, n, upto - 1);
    }
}

/// Linearity, scaling: a block and a tail that are both `c` times as large
/// give an output and a tail that are `c` times as large.
pub proof fn lemma_scaling<T: Default + Add<Output = T> + Mul<Output = T>>(
    c: T,
    tail: Seq<T>,
    x: Seq<T>,
    h: Seq<T>,
)
    requires
        distributive::<T>(),
        mul_associative::<T>(),
        zero_absorbing::<T>(),
    ensures
        direct_output(scaled(c, tail), scaled(c, x), h) == scaled(c, direct_output(tail, x, h)),
        direct_tail(scaled(c, tail), scaled(c, x), h) == scaled(c, direct_tail(tail, x, h)),
        convolution(scaled(c, x), h) == scaled(c, convolution(x, h)),
{
    assert forall|n: int| conv_at(scaled(c, x), h, n) == c.mul_spec(conv_at(x, h, n)) by {
        lemma_scaled_partial(c, x, h, n, x.len() as int);
    }
    assert(direct_output(scaled(c, tail), scaled(c, x), h) =~= scaled(
        c,
        direct_output(tail, x, h),
    ));
    assert(direct_tail(scaled(c, tail), scaled(c, x), h) =~= scaled(c, direct_tail(tail, x, h)));
    assert(convolution(scaled(c, x), h) =~= scaled(c, convolution(x, h)));
}

proof fn lemma_summed_partial<T: Default + Add<Output = T> + Mul<Output = T>>(
    x: Seq<T>,
    y: Seq<T>,
    h: Seq<T>,
    n: int,
    upto: int,
)
    requires
        additive_laws::<T>(),
        distributive::<T>(),
        x.len() == y.len(),
        upto <= x.len(),
    ensures
        conv_partial(summed(x, y), h, n, upto) == conv_partial(x, h, n, upto).add_spec(
            conv_partial(y, h, n, upto),
        ),
    decreases upto,
{
    if upto > 0 {
        lemma_summed_partial(x, y, h, n, upto - 1);
        let i = upto - 1;
        if 0 <= n - i < h.len() {
            lemma_add_interchange(
                conv_partial(x, h, n, i),
                conv_partial(y, h, n, i),
                x[i].mul_spec(h[n - i]),
                y[i].mul_spec(h[n - i]),
            );
        }
    }
}

/// Linearity, superposition: the sum of two blocks, on the sum of two tails,
/// gives the sum of what each block gives on its own tail.
pub proof fn lemma_superposition<T: Default + Add<Output = T> + Mul<Output = T>>(
    tail_x: Seq<T>,
    tail_y: Seq<T>,
    x: Seq<T>,
    y: Seq<T>,
    h: Seq<T>,
)
    requires
        additive_laws::<T>(),
        distributive::<T>(),
        x.len() == y.len(),
        tail_x.len() == tail_y.len(),
    ensures
        direct_output(summed(tail_x, tail_y), summed(x, y), h) == summed(
            direct_output(tail_x, x, h),
            direct_output(tail_y, y, h),
        ),
        direct_tail(summed(tail_x, tail_y), summed(x, y), h) == summed(
            direct_tail(tail_x, x, h),
            direct_tail(tail_y, y, h),
        ),
        convolution(summed(x, y), h) == summed(convolution(x, h), convolution(y, h)),
{
    assert forall|n: int| conv_at(summed(x, y), h, n) == conv_at(x, h, n).add_spec(conv_at(y, h, n)) by {
        lemma_summed_partial(x, y, h, n, x.len() as int);
    }
    assert forall|n: int| 0 <= n < tail_x.len() implies carried_at(
        summed(tail_x, tail_y),
        summed(x, y),
        h,
        n,
    ) == carried_at(tail_x, x, h, n).add_spec(carried_at(tail_y, y, h, n)) by {
        lemma_add_interchange(conv_at(x, h, n), conv_at(y, h, n), tail_x[n], tail_y[n]);
    }
    assert(direct_output(summed(tail_x, tail_y), summed(x, y), h) =~= summed(
        direct_output(tail_x, x, h),
        direct_output(tail_y, y, h),
    ));
    assert(direct_tail(summed(tail_x, tail_y), summed(x, y), h) =~= summed(
        direct_tail(tail_x, x, h),
        direct_tail(tail_y, y, h),
    ));
    assert(convolution(summed(x, y), h) =~= summed(convolution(x, h), convolution(y, h)));
}

proof fn lemma_zero_partial<T: Default + Add<Output = T> + Mul<Output = T>>(
    len: int,
    h: Seq<T>,
    n: int,
    upto: int,
)
    requires
        zero_neutral::<T>(),
        zero_absorbing::<T>(),
        upto <= len,
    ensures
        conv_partial(zeros::<T>(len), h, n, upto) == zero::<T>(),
    decreases upto,
{
    if upto > 0 {
        lemma_zero_partial(len, h, n, upto - 1);
    }
}

/// A block of zeros hands the tail on: its output is the start of the tail,
/// and the rest of the tail moves up, followed by zeros.
pub proof fn lemma_zero_block_shifts_tail<T: Default + Add<Output = T> + Mul<Output = T>>(
    tail: Seq<T>,
    len: int,
    h: Seq<T>,
)
    requires
        zero_neutral::<T>(),
        zero_absorbing::<T>(),
        len >= 0,
    ensures
        direct_output(tail, zeros::<T>(len), h) == (tail + zeros::<T>(len)).subrange(0, len),
        direct_tail(tail, zeros::<T>(len), h) == (tail + zeros::<T>(len)).subrange(
            len,
            len + tail.len(),
        ),
{
    assert forall|n: int| conv_at(zeros::<T>(len), h, n) == zero::<T>() by {
        lemma_zero_partial(len, h, n, len);
    }
    assert(direct_output(tail, zeros::<T>(len), h) =~= (tail + zeros::<T>(len)).subrange(0, len));
    assert(direct_tail(tail, zeros::<T>(len), h) =~= (tail + zeros::<T>(len)).subrange(
        len,
        len + tail.len(),
    ));
}

/// Zero input: whatever the tail holds, once as many zeros have gone in as
/// the tail has samples, the tail holds zeros only, and every block of zeros
/// after that puts out zeros only.
pub proof fn lemma_zero_input_drains<T: Default + Add<Output = T> + Mul<Output = T>>(
    tail: Seq<T>,
    draining: int,
    later: int,
    h: Seq<T>,
)
    requires
        zero_neutral::<T>(),
        zero_absorbing::<T>(),
        draining >= tail.len(),
        later >= 0,
    ensures
        direct_tail(tail, zeros::<T>(draining), h) == zeros::<T>(tail.len() as int),
        direct_output(direct_tail(tail, zeros::<T>(draining), h), zeros::<T>(later), h) == zeros::<
            T,
        >(later),
        direct_tail(direct_tail(tail, zeros::<T>(draining), h), zeros::<T>(later), h) == zeros::<
            T,
        >(tail.len() as int),
{
    let drained = zeros::<T>(tail.len() as int);
    lemma_zero_block_shifts_tail(tail, draining, h);
    assert(direct_tail(tail, zeros::<T>(draining), h) =~= drained);
    lemma_zero_block_shifts_tail(drained, later, h);
    assert(direct_output(drained, zeros::<T>(later), h) =~= zeros::<T>(later));
    assert(direct_tail(drained, zeros::<T>(later), h) =~= drained);
}

} // verus!
