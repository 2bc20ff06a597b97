//! The convolution engine: it owns an impulse response and the tail that one
//! block of input leaves for the next.

use core::ops::Add;
use core::ops::Mul;
use crate::convolution::block_product;
use crate::convolution::block_products;
use crate::convolution::carried_at;
use crate::convolution::conv_at;
use crate::convolution::conv_partial;
use crate::convolution::direct_output;
use crate::convolution::direct_tail;
use crate::convolution::lemma_conv_partial_finished;
use crate::convolution::lemma_conv_partial_no_taps;
use crate::convolution::lemma_conv_partial_not_started;
use crate::convolution::lemma_default_is_zero;
use crate::convolution::overlap_at;
use crate::convolution::overlap_output;
use crate::convolution::overlap_tail;
use crate::convolution::partition;
use crate::convolution::partition_count;
use crate::convolution::rows;
use crate::convolution::total_arithmetic;
use crate::convolution::zero;
use crate::partitioning::lemma_partition_count_bounds;
use crate::ring_buffer::RingBuffer;
use crate::ring_buffer::is_default;
use crate::ring_buffer::lemma_wrap_at_end;
use crate::ring_buffer::lemma_wrap_in_range;
use vstd::arithmetic::div_mod::lemma_div_nonincreasing;
use vstd::arithmetic::div_mod::lemma_fundamental_div_mod;
use vstd::arithmetic::div_mod::lemma_fundamental_div_mod_converse;
use vstd::arithmetic::power2::is_pow2;
use vstd::prelude::*;

verus! {

/// How an engine convolves, chosen once when it is made.
#[derive(Debug, Clone, Copy)]
pub enum ConvolutionMode {
    /// Every block is convolved with the whole impulse response at once;
    /// blocks may have any length.
    TimeDomain,
    /// The impulse response is cut into partitions of `block_size` samples;
    /// every block has exactly that length.
    FrequencyDomain { block_size: usize },
}

/// Why an engine could not be made, or a call did nothing.
#[derive(Debug, Clone, Copy, PartialEq, Eq, Structural)]
pub enum ConvolutionError {
    /// The impulse response has no samples.
    EmptyImpulseResponse,
    /// The block size is zero, or too large for the engine's buffers.
    InvalidCapacity,
    /// The output does not have the length that the call needs.
    SizeMismatch,
    /// The input does not have the length of a block.
    BlockSizeMismatch,
    /// Nothing was processed since the tail was last emptied.
    FlushAfterDrain,
}

/// The number of samples that an engine carries from one block to the next.
pub open spec fn tail_len(ir_len: int, mode: ConvolutionMode) -> int {
    match mode {
        ConvolutionMode::TimeDomain => ir_len - 1,
        ConvolutionMode::FrequencyDomain { block_size } => partition_count(
            ir_len,
            block_size as int,
        ) * block_size,
    }
}

/// The error, if any, with which making an engine fails.
pub open spec fn construction_error(ir_len: int, mode: ConvolutionMode) -> Option<
    ConvolutionError,
> {
    if ir_len == 0 {
        Some(ConvolutionError::EmptyImpulseResponse)
    } else {
        match mode {
            ConvolutionMode::TimeDomain => None,
            ConvolutionMode::FrequencyDomain { block_size } => if block_size == 0 || 2 * block_size
                > usize::MAX || tail_len(ir_len, mode) > usize::MAX {
                Some(ConvolutionError::InvalidCapacity)
            } else {
                None
            },
        }
    }
}

/// Every sample of `s` is a default value.
pub open spec fn all_default<T: Default>(s: Seq<T>) -> bool {
    forall|i: int| 0 <= i < s.len() ==> is_default(#[trigger] s[i])
}

/// The error, if any, with which `process` refuses a block.
pub open spec fn process_error(
    ir_len: int,
    mode: ConvolutionMode,
    input_len: int,
    output_len: int,
) -> Option<ConvolutionError> {
    if output_len != input_len {
        Some(ConvolutionError::SizeMismatch)
    } else {
        match mode {
            ConvolutionMode::TimeDomain => if input_len + ir_len - 1 > usize::MAX {
                Some(ConvolutionError::SizeMismatch)
            } else {
                None
            },
            ConvolutionMode::FrequencyDomain { block_size } => if input_len != block_size {
                Some(ConvolutionError::BlockSizeMismatch)
            } else {
                None
            },
        }
    }
}

/// What `process` puts out for a block `x`.
pub open spec fn block_output<T: Default + Add<Output = T> + Mul<Output = T>>(
    tail: Seq<T>,
    x: Seq<T>,
    h: Seq<T>,
    mode: ConvolutionMode,
) -> Seq<T> {
    match mode {
        ConvolutionMode::TimeDomain => direct_output(tail, x, h),
        ConvolutionMode::FrequencyDomain { block_size } => overlap_output(
            tail,
            block_products(x, h, block_size as int),
            block_size as int,
        ),
    }
}

/// What `process` leaves in the tail after a block `x`.
pub open spec fn block_tail<T: Default + Add<Output = T> + Mul<Output = T>>(
    tail: Seq<T>,
    x: Seq<T>,
    h: Seq<T>,
    mode: ConvolutionMode,
) -> Seq<T> {
    match mode {
        ConvolutionMode::TimeDomain => direct_tail(tail, x, h),
        ConvolutionMode::FrequencyDomain { block_size } => overlap_tail(
            tail,
            block_products(x, h, block_size as int),
            block_size as int,
        ),
    }
}

/// The error, if any, with which `flush` refuses to hand over the tail.
pub open spec fn flush_error(ir_len: int, pending: bool, output_len: int) -> Option<
    ConvolutionError,
> {
    if output_len != ir_len - 1 {
        Some(ConvolutionError::SizeMismatch)
    } else if !pending {
        Some(ConvolutionError::FlushAfterDrain)
    } else {
        None
    }
}

/// There are `count` products, each of `width` samples.
pub open spec fn well_shaped<T>(products: Seq<Seq<T>>, count: int, width: int) -> bool {
    &&& products.len() == count
    &&& forall|k: int| 0 <= k < products.len() ==> (#[trigger] products[k]).len() == width
}

/// The error, if any, with which `process_products` refuses its arguments.
pub open spec fn products_error<T>(
    ir_len: int,
    mode: ConvolutionMode,
    products: Seq<Seq<T>>,
    output_len: int,
) -> Option<ConvolutionError> {
    match mode {
        ConvolutionMode::TimeDomain => Some(ConvolutionError::BlockSizeMismatch),
        ConvolutionMode::FrequencyDomain { block_size } => if output_len != block_size {
            Some(ConvolutionError::BlockSizeMismatch)
        } else if !well_shaped(
            products,
            partition_count(ir_len, block_size as int),
            2 * block_size,
        ) {
            Some(ConvolutionError::SizeMismatch)
        } else {
            None
        },
    }
}

/// Where the products of a block with the partitions come from.
enum Source<'a, T> {
    /// The caller worked them out.
    Supplied(&'a [Vec<T>]),
    /// They are worked out from the block, sample by sample.
    Block(&'a [T]),
}

/// The products that a block is overlapped with.
spec fn products_from<T: Default + Add<Output = T> + Mul<Output = T>>(
    source: Source<T>,
    h: Seq<T>,
    block_size: int,
) -> Seq<Seq<T>> {
    match source {
        Source::Supplied(products) => rows(products@),
        Source::Block(x) => block_products(x@, h, block_size),
    }
}

/// The number of partitions that an engine in `mode` cuts its impulse
/// response into: none in the time domain.
pub open spec fn partitions_in(ir_len: int, mode: ConvolutionMode) -> int {
    match mode {
        ConvolutionMode::TimeDomain => 0,
        ConvolutionMode::FrequencyDomain { block_size } => partition_count(
            ir_len,
            block_size as int,
        ),
    }
}

/// The error, if any, with which `pad_block` refuses its arguments.
pub open spec fn pad_error(mode: ConvolutionMode, input_len: int, padded_len: int) -> Option<
    ConvolutionError,
> {
    match mode {
        ConvolutionMode::TimeDomain => Some(ConvolutionError::BlockSizeMismatch),
        ConvolutionMode::FrequencyDomain { block_size } => if input_len != block_size {
            Some(ConvolutionError::BlockSizeMismatch)
        } else if padded_len != 2 * block_size {
            Some(ConvolutionError::SizeMismatch)
        } else {
            None
        },
    }
}

/// `padded` is `s` followed by default values, `len` samples in all.
pub open spec fn zero_padded<T: Default>(padded: Seq<T>, s: Seq<T>, len: int) -> bool {
    &&& padded.len() == len
    &&& s.len() <= len
    &&& padded.subrange(0, s.len() as int) == s
    &&& all_default(padded.subrange(s.len() as int, len))
}

/// A convolution engine for one channel: an impulse response, fixed when the
/// engine is made, and the tail that the blocks processed so far have left
/// for the output to come.
pub struct FastConvolver<T: Copy + Default> {
    ir: Vec<T>,
    tail: RingBuffer<T>,
    conv_mode: ConvolutionMode,
    pending: bool,
}

impl<T: Copy + Default> FastConvolver<T> {
    /// The impulse response, as it was when the engine was made.
    pub closed spec fn impulse_response(&self) -> Seq<T> {
        self.ir@
    }

    /// The mode that the engine was made with.
    pub closed spec fn mode(&self) -> ConvolutionMode {
        self.conv_mode
    }

    /// What earlier blocks still owe to later output, soonest first.
    pub closed spec fn tail(&self) -> Seq<T> {
        self.tail@
    }

    /// A block was processed since the tail was last emptied.
    pub closed spec fn has_pending(&self) -> bool {
        self.pending
    }

    #[verifier::type_invariant]
    closed spec fn laid_out(&self) -> bool {
        &&& construction_error(self.ir@.len() as int, self.conv_mode) is None
        &&& self.tail@.len() == tail_len(self.ir@.len() as int, self.conv_mode)
    }
}

/// Sample `n` of the convolution of `x` with the stretch of `h` from `start`
/// up to `end`.
fn conv_sample<T: Copy + Default + Add<Output = T> + Mul<Output = T>>(
    x: &[T],
    h: &Vec<T>,
    start: usize,
    end: usize,
    n: usize,
) -> (r: T)
    requires
        total_arithmetic::<T>(),
        start <= end <= h@.len(),
    ensures
        r == conv_at(x@, h@.subrange(start as int, end as int), n as int),
{
    let ghost taps = h@.subrange(start as int, end as int);
    let taps_len: usize = end - start;
    let hi: usize = if n < x.len() {
        n + 1
    } else {
        x.len()
    };
    let mut acc = T::default();
    proof {
        lemma_default_is_zero(acc);
    }
    if taps_len == 0 {
        proof {
            lemma_conv_partial_no_taps(x@, taps, n as int, x@.len() as int);
        }
        return acc;
    }
    let lo: usize = if n >= taps_len {
        n - (taps_len - 1)
    } else {
        0
    };
    proof {
        if lo == 0 {
        } else if lo <= hi {
            lemma_conv_partial_not_started(x@, taps, n as int, lo as int);
        } else {
            lemma_conv_partial_not_started(x@, taps, n as int, hi as int);
        }
    }
    let mut i: usize = lo;
    while i < hi
        invariant
            total_arithmetic::<T>(),
            start <= end <= h@.len(),
            taps == h@.subrange(start as int, end as int),
            taps_len == end - start,
            hi <= x@.len(),
            hi <= n + 1,
            lo <= i,
            taps_len > 0,
            lo > 0 ==> lo == n - taps_len + 1,
            lo == 0 ==> n < taps_len,
            i <= hi || i == lo,
            acc == conv_partial(x@, taps, n as int, if i <= hi { i as int } else { hi as int }),
        decreases hi - i,
    {
        let tap = h[start + (n - i)];
        acc = acc + x[i] * tap;
        i += 1;
    }
    proof {
        lemma_conv_partial_finished(x@, taps, n as int, hi as int, x@.len() as int);
    }
    acc
}

impl<T: Copy + Default + Add<Output = T> + Mul<Output = T>> FastConvolver<T> {
    /// An engine for `impulse_response` in `mode`, with nothing carried.
    pub fn new(impulse_response: &[T], mode: ConvolutionMode) -> (r: Result<
        Self,
        ConvolutionError,
    >)
        ensures
            match r {
                Ok(engine) => {
                    &&& construction_error(impulse_response@.len() as int, mode) is None
                    &&& engine.impulse_response() == impulse_response@
                    &&& engine.mode() == mode
                    &&& engine.tail().len() == tail_len(impulse_response@.len() as int, mode)
                    &&& all_default(engine.tail())
                    &&& !engine.has_pending()
                },
                Err(e) => construction_error(impulse_response@.len() as int, mode) == Some(e),
            },
    {
        let m: usize = impulse_response.len();
        if m == 0 {
            return Err(ConvolutionError::EmptyImpulseResponse);
        }
        let tail = match mode {
            ConvolutionMode::TimeDomain => RingBuffer::<T>::new(m - 1),
            ConvolutionMode::FrequencyDomain { block_size } => {
                if block_size > usize::MAX / 2 {
                    return Err(ConvolutionError::InvalidCapacity);
                }
                let partitions: usize = if block_size == 0 {
                    0
                } else {
                    proof {
                        lemma_div_nonincreasing(m - 1, block_size as int);
                    }
                    (m - 1) / block_size + 1
                };
                let capacity: usize = match partitions.checked_mul(block_size) {
                    Some(c) => c,
                    None => {
                        return Err(ConvolutionError::InvalidCapacity);
                    },
                };
                proof {
                    if block_size > 0 {
                        lemma_partition_count_bounds(m as int, block_size as int);
                        assert(partitions * block_size >= block_size) by (nonlinear_arith)
                            requires
                                partitions >= 1,
                                block_size > 0,
                        ;
                    }
                }
                // The partitioned tail is read and written by position.
                match RingBuffer::<T>::with_slots(capacity) {
                    Ok(buffer) => buffer,
                    Err(_) => {
                        return Err(ConvolutionError::InvalidCapacity);
                    },
                }
            },
        };
        let ir = slice_to_vec(impulse_response);
        Ok(FastConvolver { ir, tail, conv_mode: mode, pending: false })
    }

    /// Empties the tail: the engine is as it was when it was made.
    pub fn reset(&mut self)
        ensures
            final(self).impulse_response() == old(self).impulse_response(),
            final(self).mode() == old(self).mode(),
            final(self).tail().len() == old(self).tail().len(),
            all_default(final(self).tail()),
            !final(self).has_pending(),
    {
        proof {
            use_type_invariant(&*self);
        }
        self.tail.reset();
        self.pending = false;
    }

    /// The length of everything that a stream of `input_size` samples gives:
    /// what `process` puts out and what `flush` then hands over.
    pub fn get_output_size(&mut self, input_size: usize) -> (r: usize)
        requires
            input_size + old(self).impulse_response().len() - 1 <= usize::MAX,
        ensures
            r == input_size + old(self).impulse_response().len() - 1,
            *final(self) == *old(self),
    {
        proof {
            use_type_invariant(&*self);
        }
        input_size + (self.ir.len() - 1)
    }

    /// One block against the whole impulse response.
    fn conv_time_domain(&mut self, input: &[T], output: &mut [T])
        requires
            total_arithmetic::<T>(),
            old(self).mode() is TimeDomain,
            input@.len() == old(output)@.len(),
            input@.len() + old(self).impulse_response().len() - 1 <= usize::MAX,
        ensures
            final(output)@ == direct_output(
                old(self).tail(),
                input@,
                old(self).impulse_response(),
            ),
            final(self).tail() == direct_tail(
                old(self).tail(),
                input@,
                old(self).impulse_response(),
            ),
            final(self).impulse_response() == old(self).impulse_response(),
            final(self).mode() == old(self).mode(),
            final(self).has_pending() == old(self).has_pending(),
    {
        proof {
            use_type_invariant(&*self);
        }
        let l: usize = input.len();
        let m: usize = self.ir.len();
        let capacity: usize = self.tail.capacity();
        let ghost carried = self.tail@;
        let ghost taps = self.ir@;
        assert(taps.subrange(0, m as int) =~= taps);
        let mut n: usize = 0;
        while n < l
            invariant
                total_arithmetic::<T>(),
                n <= l,
                l == input@.len(),
                output@.len() == l,
                m == taps.len(),
                self.ir@ == taps,
                self.tail@ == carried,
                self.conv_mode == old(self).conv_mode,
                self.pending == old(self).pending,
                capacity == carried.len(),
                taps.subrange(0, m as int) == taps,
                forall|k: int| 0 <= k < n ==> output@[k] == carried_at(carried, input@, taps, k),
            decreases l - n,
        {
            let mut acc = conv_sample(input, &self.ir, 0, m, n);
            if n < capacity {
                proof {
                    lemma_wrap_in_range(n as int, capacity as int);
                }
                acc = acc + self.tail.get(n);
            }
            output[n] = acc;
            n += 1;
        }
        assert(output@ =~= direct_output(carried, input@, taps));
        self.tail.set_write_index(0);
        proof {
            if capacity > 0 {
                lemma_wrap_in_range(0, capacity as int);
            }
        }
        let mut j: usize = 0;
        while j < capacity
            invariant
                total_arithmetic::<T>(),
                self.laid_out(),
                j <= capacity,
                l == input@.len(),
                l + m - 1 <= usize::MAX,
                capacity == m - 1,
                m == taps.len(),
                self.ir@ == taps,
                self.tail@.len() == capacity,
                carried.len() == capacity,
                self.conv_mode == old(self).conv_mode,
                self.conv_mode is TimeDomain,
                self.pending == old(self).pending,
                self.tail.write_index() == (if j < capacity {
                    j as int
                } else {
                    0
                }),
                taps.subrange(0, m as int) == taps,
                forall|k: int|
                    0 <= k < j ==> self.tail@[k] == carried_at(carried, input@, taps, l + k),
                forall|k: int| j <= k < capacity ==> self.tail@[k] == carried[k],
            decreases capacity - j,
        {
            let mut acc = conv_sample(input, &self.ir, 0, m, l + j);
            if l < capacity - j {
                proof {
                    lemma_wrap_in_range(l + j, capacity as int);
                }
                acc = acc + self.tail.get(l + j);
            }
            proof {
                if j + 1 < capacity {
                    lemma_wrap_in_range(j + 1, capacity as int);
                } else {
                    lemma_wrap_at_end(capacity as int);
                }
            }
            self.tail.push(acc);
            j += 1;
        }
        assert(self.tail@ =~= direct_tail(carried, input@, taps));
    }

    /// Convolves one block: `output` gets as many samples as `input` holds,
    /// and what the block owes to later output is kept. A block that is
    /// refused changes nothing.
    pub fn process(&mut self, input: &[T], output: &mut [T]) -> (r: Result<(), ConvolutionError>)
        requires
            total_arithmetic::<T>(),
        ensures
            r matches Err(e) ==> process_error(
                old(self).impulse_response().len() as int,
                old(self).mode(),
                input@.len() as int,
                old(output)@.len() as int,
            ) == Some(e),
            r is Ok ==> process_error(
                old(self).impulse_response().len() as int,
                old(self).mode(),
                input@.len() as int,
                old(output)@.len() as int,
            ) is None,
            r is Err ==> *final(self) == *old(self) && final(output)@ == old(output)@,
            r is Ok ==> final(output)@ == block_output(
                old(self).tail(),
                input@,
                old(self).impulse_response(),
                old(self).mode(),
            ),
            r is Ok ==> final(self).tail() == block_tail(
                old(self).tail(),
                input@,
                old(self).impulse_response(),
                old(self).mode(),
            ),
            r is Ok ==> final(self).impulse_response() == old(self).impulse_response(),
            r is Ok ==> final(self).mode() == old(self).mode(),
            r is Ok ==> final(self).has_pending(),
    {
        proof {
            use_type_invariant(&*self);
        }
        if output.len() != input.len() {
            return Err(ConvolutionError::SizeMismatch);
        }
        match self.conv_mode {
            ConvolutionMode::TimeDomain => {
                if input.len() > usize::MAX - (self.ir.len() - 1) {
                    return Err(ConvolutionError::SizeMismatch);
                }
                self.conv_time_domain(input, output);
            },
            ConvolutionMode::FrequencyDomain { block_size } => {
                if input.len() != block_size {
                    return Err(ConvolutionError::BlockSizeMismatch);
                }
                self.conv_freq_domain(input, output, block_size);
            },
        }
        proof {
            use_type_invariant(&*self);
        }
        self.pending = true;
        Ok(())
    }

    /// Hands the first `impulse_response().len() - 1` samples of the tail to
    /// `output` and empties the tail. Refused, it changes nothing.
    pub fn flush(&mut self, output: &mut [T]) -> (r: Result<(), ConvolutionError>)
        ensures
            r matches Err(e) ==> flush_error(
                old(self).impulse_response().len() as int,
                old(self).has_pending(),
                old(output)@.len() as int,
            ) == Some(e),
            r is Ok ==> flush_error(
                old(self).impulse_response().len() as int,
                old(self).has_pending(),
                old(output)@.len() as int,
            ) is None,
            r is Err ==> *final(self) == *old(self) && final(output)@ == old(output)@,
            r is Ok ==> old(output)@.len() <= old(self).tail().len() && final(output)@ == old(
                self,
            ).tail().subrange(0, old(output)@.len() as int),
            r is Ok ==> final(self).tail().len() == old(self).tail().len(),
            r is Ok ==> all_default(final(self).tail()),
            r is Ok ==> final(self).impulse_response() == old(self).impulse_response(),
            r is Ok ==> final(self).mode() == old(self).mode(),
            r is Ok ==> !final(self).has_pending(),
    {
        proof {
            use_type_invariant(&*self);
        }
        let owed: usize = self.ir.len() - 1;
        if output.len() != owed {
            return Err(ConvolutionError::SizeMismatch);
        }
        if !self.pending {
            return Err(ConvolutionError::FlushAfterDrain);
        }
        let capacity: usize = self.tail.capacity();
        proof {
            match self.conv_mode {
                ConvolutionMode::TimeDomain => {},
                ConvolutionMode::FrequencyDomain { block_size } => {
                    lemma_partition_count_bounds(self.ir@.len() as int, block_size as int);
                },
            }
        }
        let ghost carried = self.tail@;
        self.tail.set_read_index(0);
        proof {
            if capacity > 0 {
                lemma_wrap_in_range(0, capacity as int);
            }
        }
        let mut i: usize = 0;
        while i < owed
            invariant
                self.laid_out(),
                i <= owed,
                owed <= capacity,
                capacity == carried.len(),
                output@.len() == owed,
                self.tail@ == carried,
                self.ir@ == old(self).ir@,
                self.conv_mode == old(self).conv_mode,
                self.tail.read_index() == (if i < capacity {
                    i as int
                } else {
                    0
                }),
                forall|j: int| 0 <= j < i ==> output@[j] == carried[j],
            decreases owed - i,
        {
            proof {
                if i + 1 < capacity {
                    lemma_wrap_in_range(i + 1, capacity as int);
                } else {
                    lemma_wrap_at_end(capacity as int);
                }
            }
            output[i] = self.tail.pop();
            i += 1;
        }
        assert(output@ =~= carried.subrange(0, owed as int));
        self.tail.reset();
        self.pending = false;
        Ok(())
    }

    /// The number of partitions: none in the time domain.
    pub fn partitions(&self) -> (r: usize)
        ensures
            r == partitions_in(self.impulse_response().len() as int, self.mode()),
    {
        proof {
            use_type_invariant(self);
        }
        match self.conv_mode {
            ConvolutionMode::TimeDomain => 0,
            ConvolutionMode::FrequencyDomain { block_size } => {
                proof {
                    lemma_div_nonincreasing(self.ir@.len() - 1, block_size as int);
                }
                (self.ir.len() - 1) / block_size + 1
            },
        }
    }

    /// Partition `k` of the impulse response, filled up with default values to
    /// twice the block size: what a caller with a transform of its own
    /// transforms once. `None` in the time domain and where there is no
    /// partition `k`.
    pub fn padded_partition(&self, k: usize) -> (r: Option<Vec<T>>)
        ensures
            r is Some <==> k < partitions_in(self.impulse_response().len() as int, self.mode()),
            r matches Some(v) ==> (self.mode() matches ConvolutionMode::FrequencyDomain {
                block_size,
            } && zero_padded(
                v@,
                partition(self.impulse_response(), block_size as int, k as int),
                2 * block_size,
            )),
    {
        proof {
            use_type_invariant(self);
        }
        match self.conv_mode {
            ConvolutionMode::TimeDomain => None,
            ConvolutionMode::FrequencyDomain { block_size } => {
                if k >= self.partitions() {
                    return None;
                }
                proof {
                    lemma_partition_bounds(self.ir@.len() as int, block_size as int, k as int);
                }
                let m: usize = self.ir.len();
                let start: usize = k * block_size;
                let end: usize = if m - start > block_size {
                    start + block_size
                } else {
                    m
                };
                let ghost taps = partition(self.ir@, block_size as int, k as int);
                assert(taps == self.ir@.subrange(start as int, end as int));
                let padded = pad(&self.ir, start, end, 2 * block_size);
                Some(padded)
            },
        }
    }

    /// Copies the block `input` to `padded` and fills `padded` up with default
    /// values: what a caller with a transform of its own transforms for every
    /// block. Refused, it leaves `padded` as it is.
    pub fn pad_block(&self, input: &[T], padded: &mut [T]) -> (r: Result<(), ConvolutionError>)
        ensures
            r matches Err(e) ==> pad_error(
                self.mode(),
                input@.len() as int,
                old(padded)@.len() as int,
            ) == Some(e),
            r is Ok ==> pad_error(self.mode(), input@.len() as int, old(padded)@.len() as int)
                is None,
            r is Err ==> final(padded)@ == old(padded)@,
            r is Ok ==> zero_padded(final(padded)@, input@, 2 * (input@.len() as int)),
    {
        proof {
            use_type_invariant(self);
        }
        match self.conv_mode {
            ConvolutionMode::TimeDomain => Err(ConvolutionError::BlockSizeMismatch),
            ConvolutionMode::FrequencyDomain { block_size } => {
                if input.len() != block_size {
                    return Err(ConvolutionError::BlockSizeMismatch);
                }
                let width: usize = 2 * block_size;
                if padded.len() != width {
                    return Err(ConvolutionError::SizeMismatch);
                }
                let blank = T::default();
                let mut i: usize = 0;
                while i < width
                    invariant
                        i <= width,
                        width == 2 * block_size,
                        input@.len() == block_size,
                        padded@.len() == width,
                        is_default(blank),
                        forall|j: int| 0 <= j < i && j < block_size ==> padded@[j] == input@[j],
                        forall|j: int| block_size <= j < i ==> is_default(#[trigger] padded@[j]),
                    decreases width - i,
                {
                    if i < block_size {
                        padded[i] = input[i];
                    } else {
                        padded[i] = blank;
                    }
                    i += 1;
                }
                assert(padded@.subrange(0, block_size as int) =~= input@);
                Ok(())
            },
        }
    }

    /// Does what `process` does in the frequency domain, with the products of
    /// the block and the partitions computed by the caller: product `k` holds
    /// `2 * block_size` samples, the convolution of the block with partition
    /// `k`. Refused, it changes nothing.
    pub fn process_products(&mut self, products: &[Vec<T>], output: &mut [T]) -> (r: Result<
        (),
        ConvolutionError,
    >)
        requires
            total_arithmetic::<T>(),
        ensures
            r matches Err(e) ==> products_error(
                old(self).impulse_response().len() as int,
                old(self).mode(),
                rows(products@),
                old(output)@.len() as int,
            ) == Some(e),
            r is Ok ==> products_error(
                old(self).impulse_response().len() as int,
                old(self).mode(),
                rows(products@),
                old(output)@.len() as int,
            ) is None,
            r is Err ==> *final(self) == *old(self) && final(output)@ == old(output)@,
            r is Ok ==> (old(self).mode() matches ConvolutionMode::FrequencyDomain { block_size }
                && final(output)@ == overlap_output(
                old(self).tail(),
                rows(products@),
                block_size as int,
            ) && final(self).tail() == overlap_tail(
                old(self).tail(),
                rows(products@),
                block_size as int,
            )),
            r is Ok ==> final(self).impulse_response() == old(self).impulse_response(),
            r is Ok ==> final(self).mode() == old(self).mode(),
            r is Ok ==> final(self).has_pending(),
    {
        proof {
            use_type_invariant(&*self);
        }
        match self.conv_mode {
            ConvolutionMode::TimeDomain => Err(ConvolutionError::BlockSizeMismatch),
            ConvolutionMode::FrequencyDomain { block_size } => {
                if output.len() != block_size {
                    return Err(ConvolutionError::BlockSizeMismatch);
                }
                if products.len() != self.partitions() {
                    return Err(ConvolutionError::SizeMismatch);
                }
                let width: usize = 2 * block_size;
                let mut k: usize = 0;
                while k < products.len()
                    invariant
                        k <= products@.len(),
                        width == 2 * block_size,
                        *self == *old(self),
                        output@ == old(output)@,
                        output@.len() == block_size,
                        self.conv_mode == (ConvolutionMode::FrequencyDomain { block_size }),
                        forall|p: int| 0 <= p < k ==> (#[trigger] products@[p])@.len() == width,
                    decreases products@.len() - k,
                {
                    if products[k].len() != width {
                        assert(rows(products@)[k as int].len() != width);
                        return Err(ConvolutionError::SizeMismatch);
                    }
                    k += 1;
                }
                assert(well_shaped(
                    rows(products@),
                    partition_count(self.ir@.len() as int, block_size as int),
                    2 * block_size,
                ));
                self.overlap_add(&Source::Supplied(products), output, block_size);
                proof {
                    use_type_invariant(&*self);
                }
                self.pending = true;
                Ok(())
            },
        }
    }

    /// Sample `n` of product `k`: read from the products that the caller
    /// supplied, or else worked out from the block and partition `k`.
    fn product_sample(&self, source: &Source<T>, block_size: usize, k: usize, n: usize) -> (r: T)
        requires
            total_arithmetic::<T>(),
            self.mode() == (ConvolutionMode::FrequencyDomain { block_size }),
            k < partition_count(self.impulse_response().len() as int, block_size as int),
            n < 2 * block_size,
            *source matches Source::Supplied(p) ==> well_shaped(
                rows(p@),
                partition_count(self.impulse_response().len() as int, block_size as int),
                2 * block_size,
            ),
        ensures
            r == products_from(*source, self.impulse_response(), block_size as int)[k as int][n as int],
    {
        proof {
            use_type_invariant(self);
        }
        match source {
            Source::Supplied(products) => {
                assert(rows(products@)[k as int].len() == 2 * block_size);
                let product = &products[k];
                product[n]
            },
            Source::Block(input) => {
                proof {
                    lemma_partition_bounds(self.ir@.len() as int, block_size as int, k as int);
                }
                let m: usize = self.ir.len();
                let start: usize = k * block_size;
                let end: usize = if m - start > block_size {
                    start + block_size
                } else {
                    m
                };
                assert(partition(self.ir@, block_size as int, k as int) == self.ir@.subrange(
                    start as int,
                    end as int,
                ));
                conv_sample(input, &self.ir, start, end, n)
            },
        }
    }

    /// Adds the products of one block with the partitions onto the tail,
    /// hands the first block of the sum to `output` and keeps the rest.
    fn overlap_add(&mut self, source: &Source<T>, output: &mut [T], block_size: usize)
        requires
            total_arithmetic::<T>(),
            old(self).mode() == (ConvolutionMode::FrequencyDomain { block_size }),
            old(output)@.len() == block_size,
            *source matches Source::Supplied(p) ==> well_shaped(
                rows(p@),
                partition_count(old(self).impulse_response().len() as int, block_size as int),
                2 * block_size,
            ),
        ensures
            final(output)@ == overlap_output(
                old(self).tail(),
                products_from(*source, old(self).impulse_response(), block_size as int),
                block_size as int,
            ),
            final(self).tail() == overlap_tail(
                old(self).tail(),
                products_from(*source, old(self).impulse_response(), block_size as int),
                block_size as int,
            ),
            final(self).impulse_response() == old(self).impulse_response(),
            final(self).mode() == old(self).mode(),
            final(self).has_pending() == old(self).has_pending(),
    {
        proof {
            use_type_invariant(&*self);
            lemma_partition_count_bounds(self.ir@.len() as int, block_size as int);
            lemma_div_nonincreasing(self.ir@.len() - 1, block_size as int);
        }
        let count: usize = (self.ir.len() - 1) / block_size + 1;
        let capacity: usize = self.tail.capacity();
        let ghost carried = self.tail@;
        let ghost given = products_from(*source, self.ir@, block_size as int);
        let ghost b = block_size as int;
        proof {
            assert(count * b >= b) by (nonlinear_arith)
                requires
                    count >= 1,
                    b > 0,
            ;
        }
        let mut i: usize = 0;
        while i < block_size
            invariant
                total_arithmetic::<T>(),
                self.laid_out(),
                i <= block_size,
                b == block_size,
                output@.len() == block_size,
                count == partition_count(self.ir@.len() as int, b),
                count >= 1,
                capacity == carried.len(),
                capacity >= block_size,
                given == products_from(*source, self.ir@, b),
                given.len() == count,
                *source matches Source::Supplied(p) ==> well_shaped(rows(p@), count as int, 2 * block_size),
                self.tail@ == carried,
                self.ir@ == old(self).ir@,
                self.conv_mode == old(self).conv_mode,
                self.conv_mode == (ConvolutionMode::FrequencyDomain { block_size }),
                self.pending == old(self).pending,
                forall|j: int| 0 <= j < i ==> output@[j] == overlap_at(carried, given, b, 0, j),
            decreases block_size - i,
        {
            proof {
                lemma_wrap_in_range(i as int, capacity as int);
                assert(0 * b + i == i) by (nonlinear_arith);
            }
            let first = self.product_sample(source, block_size, 0, i);
            output[i] = self.tail.get(i) + first;
            i += 1;
        }
        assert(output@ =~= overlap_output(carried, given, b));
        self.tail.set_write_index(0);
        proof {
            lemma_wrap_in_range(0, capacity as int);
        }
        let blank = T::default();
        proof {
            lemma_default_is_zero(blank);
        }
        let mut k: usize = 0;
        while k < count
            invariant
                total_arithmetic::<T>(),
                self.laid_out(),
                k <= count,
                b == block_size,
                b > 0,
                2 * block_size <= usize::MAX,
                blank == zero::<T>(),
                count == partition_count(self.ir@.len() as int, b),
                count >= 1,
                capacity == carried.len(),
                capacity == count * b,
                self.tail@.len() == capacity,
                given == products_from(*source, self.ir@, b),
                given.len() == count,
                *source matches Source::Supplied(p) ==> well_shaped(rows(p@), count as int, 2 * block_size),
                self.ir@ == old(self).ir@,
                self.conv_mode == old(self).conv_mode,
                self.conv_mode == (ConvolutionMode::FrequencyDomain { block_size }),
                self.pending == old(self).pending,
                k * b <= capacity,
                self.tail.write_index() == (if k < count {
                    k * b
                } else {
                    0
                }),
                forall|m: int|
                    0 <= m < k * b ==> self.tail@[m] == overlap_at(
                        carried,
                        given,
                        b,
                        m / b + 1,
                        m % b,
                    ),
                forall|m: int| k * b <= m < capacity ==> self.tail@[m] == carried[m],
            decreases count - k,
        {
            proof {
                assert((k + 1) * b == k * b + b) by (nonlinear_arith);
                assert((k + 1) * b <= count * b) by (nonlinear_arith)
                    requires
                        k + 1 <= count,
                        b > 0,
                ;
                assert(0 <= k * b) by (nonlinear_arith)
                    requires
                        0 <= k,
                        b > 0,
                ;
            }
            let base: usize = k * block_size;
            let mut i: usize = 0;
            while i < block_size
                invariant
                    total_arithmetic::<T>(),
                    self.laid_out(),
                    k < count,
                    i <= block_size,
                    b == block_size,
                    b > 0,
                    2 * block_size <= usize::MAX,
                    blank == zero::<T>(),
                    count == partition_count(self.ir@.len() as int, b),
                    capacity == carried.len(),
                    capacity == count * b,
                    self.tail@.len() == capacity,
                    given == products_from(*source, self.ir@, b),
                    given.len() == count,
                    *source matches Source::Supplied(p) ==> well_shaped(
                        rows(p@),
                        count as int,
                        2 * block_size,
                    ),
                    self.ir@ == old(self).ir@,
                    self.conv_mode == old(self).conv_mode,
                    self.conv_mode == (ConvolutionMode::FrequencyDomain { block_size }),
                    self.pending == old(self).pending,
                    base == k * b,
                    base + b <= capacity,
                    (k + 1) * b == base + b,
                    self.tail.write_index() == (if base + i < capacity {
                        base + i
                    } else {
                        0
                    }),
                    forall|m: int|
                        0 <= m < base + i ==> self.tail@[m] == overlap_at(
                            carried,
                            given,
                            b,
                            m / b + 1,
                            m % b,
                        ),
                    forall|m: int| base + i <= m < capacity ==> self.tail@[m] == carried[m],
                decreases block_size - i,
            {
                let at: usize = base + i;
                proof {
                    lemma_block_position(b, k as int, i as int);
                    lemma_block_position(b, k + 1, i as int);
                    if at + 1 < capacity {
                        lemma_wrap_in_range(at + 1, capacity as int);
                    } else {
                        lemma_wrap_at_end(capacity as int);
                    }
                }
                let held = if k + 1 < count {
                    proof {
                        assert((k + 2) * b <= count * b) by (nonlinear_arith)
                            requires
                                k + 2 <= count,
                                b > 0,
                        ;
                        assert((k + 2) * b == (k + 1) * b + b) by (nonlinear_arith);
                        lemma_wrap_in_range(at + block_size, capacity as int);
                    }
                    self.tail.get(at + block_size)
                } else {
                    blank
                };
                let earlier = self.product_sample(source, block_size, k, block_size + i);
                let mut acc = held + earlier;
                if k + 1 < count {
                    let later = self.product_sample(source, block_size, k + 1, i);
                    acc = acc + later;
                }
                self.tail.push(acc);
                i += 1;
            }
            proof {
                if k + 1 < count {
                    assert((k + 1) * b < count * b) by (nonlinear_arith)
                        requires
                            k + 1 < count,
                            b > 0,
                    ;
                }
            }
            k += 1;
        }
        assert(self.tail@ =~= overlap_tail(carried, given, b));
    }

    /// One block of exactly `block_size` samples against the partitions.
    fn conv_freq_domain(&mut self, input: &[T], output: &mut [T], block_size: usize)
        requires
            total_arithmetic::<T>(),
            old(self).mode() == (ConvolutionMode::FrequencyDomain { block_size }),
            input@.len() == block_size,
            old(output)@.len() == block_size,
        ensures
            final(output)@ == overlap_output(
                old(self).tail(),
                block_products(input@, old(self).impulse_response(), block_size as int),
                block_size as int,
            ),
            final(self).tail() == overlap_tail(
                old(self).tail(),
                block_products(input@, old(self).impulse_response(), block_size as int),
                block_size as int,
            ),
            final(self).impulse_response() == old(self).impulse_response(),
            final(self).mode() == old(self).mode(),
            final(self).has_pending() == old(self).has_pending(),
    {
        self.overlap_add(&Source::Block(input), output, block_size);
    }
}

/// Where partition `k` lies in an impulse response of `ir_len` samples.
proof fn lemma_partition_bounds(ir_len: int, block_size: int, k: int)
    requires
        ir_len > 0,
        block_size > 0,
        0 <= k < partition_count(ir_len, block_size),
    ensures
        0 <= k * block_size < ir_len,
        (k + 1) * block_size <= partition_count(ir_len, block_size) * block_size,
        (k + 1) * block_size == k * block_size + block_size,
{
    let last = (ir_len - 1) / block_size;
    lemma_fundamental_div_mod(ir_len - 1, block_size);
    assert(k * block_size <= last * block_size) by (nonlinear_arith)
        requires
            0 <= k <= last,
            block_size > 0,
    ;
    assert(block_size * last == last * block_size) by (nonlinear_arith);
    assert((k + 1) * block_size <= (last + 1) * block_size) by (nonlinear_arith)
        requires
            0 <= k + 1 <= last + 1,
            block_size > 0,
    ;
    assert((k + 1) * block_size == k * block_size + block_size) by (nonlinear_arith);
    assert(0 <= k * block_size) by (nonlinear_arith)
        requires
            0 <= k,
            block_size > 0,
    ;
}

/// Sample `i` of block `k` is sample `k * block_size + i` overall.
proof fn lemma_block_position(block_size: int, k: int, i: int)
    requires
        block_size > 0,
        0 <= k,
        0 <= i < block_size,
    ensures
        (k * block_size + i) / block_size == k,
        (k * block_size + i) % block_size == i,
        k * block_size + i >= 0,
{
    assert(k * block_size == block_size * k) by (nonlinear_arith);
    lemma_fundamental_div_mod_converse(k * block_size + i, block_size, k, i);
    assert(0 <= k * block_size) by (nonlinear_arith)
        requires
            0 <= k,
            block_size > 0,
    ;
}

/// The samples of `source` from `start` up to `end`, followed by default
/// values, `len` samples in all.
fn pad<T: Copy + Default>(source: &Vec<T>, start: usize, end: usize, len: usize) -> (r: Vec<T>)
    requires
        start <= end <= source@.len(),
        end - start <= len,
    ensures
        zero_padded(r@, source@.subrange(start as int, end as int), len as int),
{
    let blank = T::default();
    let held: usize = end - start;
    let mut r: Vec<T> = Vec::with_capacity(len);
    let mut i: usize = 0;
    while i < len
        invariant
            i <= len,
            held == end - start,
            start <= end <= source@.len(),
            held <= len,
            is_default(blank),
            r@.len() == i,
            forall|j: int| 0 <= j < i && j < held ==> r@[j] == source@[start + j],
            forall|j: int| held <= j < i ==> is_default(#[trigger] r@[j]),
        decreases len - i,
    {
        if i < held {
            r.push(source[start + i]);
        } else {
            r.push(blank);
        }
        i += 1;
    }
    assert(r@.subrange(0, held as int) =~= source@.subrange(start as int, end as int));
    r
}

/// A number whose binary digits are all ones is one less than a power of
/// two.
proof fn lemma_ones_then_pow2(e: u64)
    requires
        e < 0x8000_0000,
        (e & ((e + 1) as u64)) == 0,
    ensures
        is_pow2(e + 1),
    decreases e,
{
    reveal(is_pow2);
    if e != 0 {
        let half: u64 = e >> 1;
        assert(half < e && e == 2 * half + 1 && (half & ((half + 1) as u64)) == 0) by (bit_vector)
            requires
                e != 0,
                e < 0x8000_0000,
                (e & ((e + 1) as u64)) == 0,
                half == e >> 1,
        ;
        lemma_ones_then_pow2(half);
        assert((e + 1) / 2 == half + 1);
    }
}

/// The least power of two that is not below `val`; for zero, two.
pub fn next_pow_2(val: usize) -> (r: usize)
    requires
        val <= 0x8000_0000,
    ensures
        val == 0 ==> r == 2,
        val > 0 ==> is_pow2(r as int) && val <= r < 2 * val,
{
    if val == 0 {
        return 2;
    }
    let x: u64 = (val - 1) as u64;
    let a: u64 = x | (x >> 1);
    let b: u64 = a | (a >> 2);
    let c: u64 = b | (b >> 4);
    let d: u64 = c | (c >> 8);
    let e: u64 = d | (d >> 16);
    assert(x <= e < 0x8000_0000 && (e & ((e + 1) as u64)) == 0 && (x > 0 ==> e < 2 * x) && (x == 0
        ==> e == 0))
        by (bit_vector)
        requires
            x < 0x8000_0000,
            a == x | (x >> 1),
            b == a | (a >> 2),
            c == b | (b >> 4),
            d == c | (c >> 8),
            e == d | (d >> 16),
    ;
    proof {
        lemma_ones_then_pow2(e);
    }
    (e + 1) as usize
}

/// A vector holding the samples of `s`.
fn slice_to_vec<T: Copy>(s: &[T]) -> (v: Vec<T>)
    ensures
        v@ == s@,
{
    let mut v: Vec<T> = Vec::with_capacity(s.len());
    let mut i: usize = 0;
    while i < s.len()
        invariant
            i <= s@.len(),
            v@ == s@.subrange(0, i as int),
        decreases s@.len() - i,
    {
        v.push(s[i]);
        assert(v@ =~= s@.subrange(0, i + 1));
        i += 1;
    }
    assert(v@ =~= s@);
    v
}

} // verus!
