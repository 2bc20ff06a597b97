//! A fixed-capacity circular store of samples with independent read and
//! write cursors.

use vstd::arithmetic::div_mod::lemma_mod_self_0;
use vstd::arithmetic::div_mod::lemma_small_mod;
use vstd::prelude::*;

verus! {

/// `v` is a value that `T::default()` may return: the sample type's zero.
pub open spec fn is_default<T: Default>(v: T) -> bool {
    call_ensures(T::default, (), v)
}

/// `index` folded into a buffer of `capacity` slots. A buffer without slots
/// keeps its cursors at zero.
pub open spec fn wrap(index: int, capacity: int) -> int {
    if capacity > 0 {
        index % capacity
    } else {
        0
    }
}

/// A position below the capacity is left where it is.
pub proof fn lemma_wrap_in_range(index: int, capacity: int)
    requires
        0 <= index < capacity,
    ensures
        wrap(index, capacity) == index,
{
    lemma_small_mod(index as nat, capacity as nat);
}

/// The position one past the last slot is folded back to slot zero.
pub proof fn lemma_wrap_at_end(capacity: int)
    requires
        capacity > 0,
    ensures
        wrap(capacity, capacity) == 0,
{
    lemma_mod_self_0(capacity);
}

/// `index` is the position of one of `capacity` slots, or zero where there
/// is no slot.
pub open spec fn in_range(index: int, capacity: int) -> bool {
    if capacity > 0 {
        0 <= index < capacity
    } else {
        index == 0
    }
}

/// A buffer was asked for without slots where its slots are needed.
#[derive(Debug, Clone, Copy, PartialEq, Eq, Structural)]
pub struct InvalidCapacity;

/// A ring of slots that is written at one cursor and read at another.
pub struct RingBuffer<T: Copy + Default> {
    buffer: Vec<T>,
    read_ptr: usize,
    write_ptr: usize,
    /// The default value, kept for the slots that `reset` clears and for
    /// reads of a buffer without slots.
    blank: T,
}

impl<T: Copy + Default> View for RingBuffer<T> {
    type V = Seq<T>;

    /// The slots, by absolute position.
    closed spec fn view(&self) -> Seq<T> {
        self.buffer@
    }
}

impl<T: Copy + Default> RingBuffer<T> {
    /// Position of the slot that `peek` and `pop` read.
    pub closed spec fn read_index(&self) -> int {
        self.read_ptr as int
    }

    /// Position of the slot that `put` and `push` write.
    pub closed spec fn write_index(&self) -> int {
        self.write_ptr as int
    }

    /// Both cursors are valid slot positions, or zero where there is no slot.
    #[verifier::type_invariant]
    closed spec fn cursors_valid(&self) -> bool {
        &&& in_range(self.read_ptr as int, self.buffer@.len() as int)
        &&& in_range(self.write_ptr as int, self.buffer@.len() as int)
        &&& is_default(self.blank)
    }

    /// A buffer of `length` slots, each holding the default value, with both
    /// cursors on slot zero.
    pub fn new(length: usize) -> (r: Self)
        ensures
            r@.len() == length,
            forall|i: int| 0 <= i < length ==> is_default(#[trigger] r@[i]),
            forall|i: int, j: int| 0 <= i < length && 0 <= j < length ==> r@[i] == r@[j],
            r.read_index() == 0,
            r.write_index() == 0,
    {
        let zero = T::default();
        let mut buffer: Vec<T> = Vec::with_capacity(length);
        let mut i: usize = 0;
        while i < length
            invariant
                i <= length,
                buffer@.len() == i,
                is_default(zero),
                forall|j: int| 0 <= j < i ==> buffer@[j] == zero,
            decreases length - i,
        {
            buffer.push(zero);
            i += 1;
        }
        RingBuffer { buffer, read_ptr: 0, write_ptr: 0, blank: zero }
    }

    /// A buffer of `capacity` slots for a use that reads and writes slots: as
    /// `new` makes it, but refused where `capacity` is zero.
    pub fn with_slots(capacity: usize) -> (r: Result<Self, InvalidCapacity>)
        ensures
            r is Err <==> capacity == 0,
            r matches Ok(buffer) ==> {
                &&& buffer@.len() == capacity
                &&& forall|i: int| 0 <= i < capacity ==> is_default(#[trigger] buffer@[i])
                &&& forall|i: int, j: int|
                    0 <= i < capacity && 0 <= j < capacity ==> buffer@[i] == buffer@[j]
                &&& buffer.read_index() == 0
                &&& buffer.write_index() == 0
            },
    {
        if capacity == 0 {
            Err(InvalidCapacity)
        } else {
            Ok(Self::new(capacity))
        }
    }

    /// Puts the default value in every slot and both cursors on slot zero.
    pub fn reset(&mut self)
        ensures
            final(self)@.len() == old(self)@.len(),
            forall|i: int| 0 <= i < final(self)@.len() ==> is_default(#[trigger] final(self)@[i]),
            forall|i: int, j: int|
                0 <= i < final(self)@.len() && 0 <= j < final(self)@.len() ==> final(self)@[i]
                    == final(self)@[j],
            final(self).read_index() == 0,
            final(self).write_index() == 0,
        no_unwind
    {
        proof {
            use_type_invariant(&*self);
        }
        let zero = self.blank;
        let n: usize = self.buffer.len();
        self.read_ptr = 0;
        self.write_ptr = 0;
        let mut i: usize = 0;
        while i < n
            invariant
                i <= n,
                self.buffer@.len() == n,
                self.read_ptr == 0,
                self.write_ptr == 0,
                is_default(zero),
                self.blank == zero,
                forall|j: int| 0 <= j < i ==> self.buffer@[j] == zero,
            decreases n - i,
        {
            self.buffer[i] = zero;
            i += 1;
        }
    }

    /// Stores `value` in the slot under the write cursor; the cursor stays.
    /// A buffer without slots stores nothing.
    pub fn put(&mut self, value: T)
        ensures
            final(self)@ == (if old(self)@.len() > 0 {
                old(self)@.update(old(self).write_index(), value)
            } else {
                old(self)@
            }),
            final(self).read_index() == old(self).read_index(),
            final(self).write_index() == old(self).write_index(),
        no_unwind
    {
        proof {
            use_type_invariant(&*self);
        }
        if self.write_ptr < self.buffer.len() {
            self.buffer[self.write_ptr] = value;
        }
    }

    /// The value in the slot under the read cursor; the cursor stays. A
    /// buffer without slots gives a default value.
    pub fn peek(&self) -> (r: T)
        ensures
            self@.len() > 0 ==> r == self@[self.read_index()],
            self@.len() == 0 ==> is_default(r),
        no_unwind
    {
        proof {
            use_type_invariant(self);
        }
        if self.read_ptr < self.buffer.len() {
            self.buffer[self.read_ptr]
        } else {
            self.blank
        }
    }

    /// The value in slot `offset` modulo the capacity; no cursor moves. A
    /// buffer without slots gives a default value.
    pub fn get(&self, offset: usize) -> (r: T)
        ensures
            self@.len() > 0 ==> r == self@[wrap(offset as int, self@.len() as int)],
            self@.len() == 0 ==> is_default(r),
        no_unwind
    {
        proof {
            use_type_invariant(self);
        }
        let n: usize = self.buffer.len();
        if n > 0 {
            self.buffer[offset % n]
        } else {
            self.blank
        }
    }

    /// Stores `value` under the write cursor and moves that cursor one slot
    /// on, around the end.
    pub fn push(&mut self, value: T)
        ensures
            final(self)@ == (if old(self)@.len() > 0 {
                old(self)@.update(old(self).write_index(), value)
            } else {
                old(self)@
            }),
            final(self).read_index() == old(self).read_index(),
            final(self).write_index() == wrap(old(self).write_index() + 1, old(self)@.len() as int),
        no_unwind
    {
        proof {
            use_type_invariant(&*self);
        }
        self.put(value);
        proof {
            use_type_invariant(&*self);
        }
        let n: usize = self.buffer.len();
        if n > 0 {
            self.write_ptr = (self.write_ptr + 1) % n;
        }
    }

    /// The value under the read cursor; that cursor moves one slot on, around
    /// the end. No slot changes.
    pub fn pop(&mut self) -> (r: T)
        ensures
            final(self)@ == old(self)@,
            old(self)@.len() > 0 ==> r == old(self)@[old(self).read_index()],
            old(self)@.len() == 0 ==> is_default(r),
            final(self).read_index() == wrap(old(self).read_index() + 1, old(self)@.len() as int),
            final(self).write_index() == old(self).write_index(),
        no_unwind
    {
        proof {
            use_type_invariant(&*self);
        }
        let val = self.peek();
        let n: usize = self.buffer.len();
        if n > 0 {
            self.read_ptr = (self.read_ptr + 1) % n;
        }
        val
    }

    /// The read cursor: a slot position, or zero where there is no slot.
    pub fn get_read_index(&self) -> (r: usize)
        ensures
            r == self.read_index(),
            in_range(r as int, self@.len() as int),
        no_unwind
    {
        proof {
            use_type_invariant(self);
        }
        self.read_ptr
    }

    /// Puts the read cursor on slot `index` modulo the capacity.
    pub fn set_read_index(&mut self, index: usize)
        ensures
            final(self)@ == old(self)@,
            final(self).read_index() == wrap(index as int, old(self)@.len() as int),
            final(self).write_index() == old(self).write_index(),
        no_unwind
    {
        proof {
            use_type_invariant(&*self);
        }
        let n: usize = self.buffer.len();
        if n > 0 {
            self.read_ptr = index % n;
        }
    }

    /// The write cursor: a slot position, or zero where there is no slot.
    pub fn get_write_index(&self) -> (r: usize)
        ensures
            r == self.write_index(),
            in_range(r as int, self@.len() as int),
        no_unwind
    {
        proof {
            use_type_invariant(self);
        }
        self.write_ptr
    }

    /// Puts the write cursor on slot `index` modulo the capacity.
    pub fn set_write_index(&mut self, index: usize)
        ensures
            final(self)@ == old(self)@,
            final(self).read_index() == old(self).read_index(),
            final(self).write_index() == wrap(index as int, old(self)@.len() as int),
        no_unwind
    {
        proof {
            use_type_invariant(&*self);
        }
        let n: usize = self.buffer.len();
        if n > 0 {
            self.write_ptr = index % n;
        }
    }

    /// The number of slots.
    pub fn len(&self) -> (r: usize)
        ensures
            r == self@.len(),
        no_unwind
    {
        self.buffer.len()
    }

    /// The number of slots, fixed when the buffer was made.
    pub fn capacity(&self) -> (r: usize)
        ensures
            r == self@.len(),
        no_unwind
    {
        self.buffer.len()
    }
}

} // verus!
