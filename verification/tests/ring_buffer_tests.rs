use convolver::ring_buffer::InvalidCapacity;
use convolver::ring_buffer::RingBuffer;

// Basic push, pop and put.
#[test]
fn test1() {
    let mut buffer = RingBuffer::<f32>::new(5);
    buffer.reset();
    assert_eq!(buffer.capacity(), 5);
    buffer.push(0.1);
    assert_eq!(buffer.peek(), 0.1);
    buffer.put(0.3);
    buffer.set_read_index(1);
    assert_eq!(buffer.pop(), 0.3);
    buffer.push(0.7);
    buffer.set_read_index(1);
    assert_eq!(buffer.pop(), 0.7);
    println!("Test 1 Passed!");
}

// Getters, and pushing and popping a rising value.
#[test]
fn test2() {
    let mut buffer = RingBuffer::<f32>::new(5);
    buffer.reset();
    for i in 0..4 {
        let value = i as f32 * 0.1;
        buffer.push(value);
        assert_eq!(buffer.get(i), value);
        assert_eq!(buffer.pop(), value);
        assert_eq!(buffer.get_read_index(), i + 1);
        assert_eq!(buffer.get_write_index(), i + 1);
    }
    assert_eq!(buffer.len(), 5);
    println!("Test 2 passed!");
}

// Setters, with positions inside and outside the buffer.
#[test]
fn test3() {
    let mut buffer = RingBuffer::<f32>::new(5);
    buffer.reset();
    for i in 0..buffer.len() {
        buffer.set_read_index(i + 3);
        buffer.set_write_index(i + 4);
        buffer.put(0.1);
        if i > 0 {
            assert_eq!(buffer.peek(), 0.1);
        } else {
            assert_eq!(buffer.peek(), 0.0);
        }
        if i == 4 {
            assert_eq!(buffer.get(i), 0.1);
        } else {
            assert_eq!(buffer.get(i), 0.0);
        }
    }
    println!("Test 3 passed!");
}

// Pushing with the read cursor kept five slots ahead of the write cursor.
#[test]
fn test4() {
    let mut buffer = RingBuffer::<i32>::new(10);
    for i in 0..10 {
        buffer.push(i);
        if i == 0 {
            assert_eq!(buffer.peek(), i);
        } else if i < 5 {
            assert_eq!(buffer.peek(), Default::default());
        } else {
            assert_eq!(buffer.peek(), i - 5);
        }
        buffer.set_read_index(buffer.get_write_index() as usize + 5);
    }
    println!("Test 4 passed!");
}

// Cursors set by hand, then put and peek.
#[test]
fn test5() {
    let mut buffer = RingBuffer::<i32>::new(10);
    buffer.reset();
    for i in 0..10 {
        buffer.set_write_index(i + 500);
        buffer.put(i as i32 + 500);
        assert_eq!(buffer.get_write_index(), (i + 500) % buffer.len());
        buffer.set_read_index(buffer.get_write_index() as usize);
        assert_eq!(buffer.peek(), i as i32 + 500);
    }
    println!("Test 5 passed!");
}

#[test]
fn new_buffer_is_zeroed_with_cursors_at_start() {
    let mut buffer = RingBuffer::<i64>::new(4);
    assert_eq!(buffer.len(), 4);
    assert_eq!(buffer.capacity(), 4);
    assert_eq!(buffer.get_read_index(), 0);
    assert_eq!(buffer.get_write_index(), 0);
    for i in 0..4 {
        assert_eq!(buffer.get(i), 0);
    }
    // Reading before any push gives zero.
    assert_eq!(buffer.pop(), 0);
    assert_eq!(buffer.get_read_index(), 1);
}

#[test]
fn push_and_pop_wrap_around_the_end() {
    let mut buffer = RingBuffer::<u8>::new(3);
    for v in 1..=4u8 {
        buffer.push(v);
    }
    // The fourth push went back to slot zero.
    assert_eq!(buffer.get_write_index(), 1);
    assert_eq!(buffer.get(0), 4);
    assert_eq!(buffer.get(1), 2);
    assert_eq!(buffer.get(2), 3);
    assert_eq!(buffer.pop(), 4);
    assert_eq!(buffer.pop(), 2);
    assert_eq!(buffer.pop(), 3);
    assert_eq!(buffer.get_read_index(), 0);
    assert_eq!(buffer.pop(), 4);
}

#[test]
fn get_reads_the_slot_modulo_the_capacity() {
    let mut buffer = RingBuffer::<i32>::new(4);
    for v in [10, 20, 30, 40] {
        buffer.push(v);
    }
    assert_eq!(buffer.get(0), 10);
    assert_eq!(buffer.get(3), 40);
    assert_eq!(buffer.get(4), 10);
    assert_eq!(buffer.get(6), 30);
    assert_eq!(buffer.get(4 * 1000 + 1), 20);
    // No cursor moved.
    assert_eq!(buffer.get_read_index(), 0);
    assert_eq!(buffer.get_write_index(), 0);
}

#[test]
fn cursors_are_set_modulo_the_capacity() {
    let mut buffer = RingBuffer::<i32>::new(7);
    buffer.set_read_index(7);
    assert_eq!(buffer.get_read_index(), 0);
    buffer.set_read_index(16);
    assert_eq!(buffer.get_read_index(), 2);
    buffer.set_write_index(6);
    assert_eq!(buffer.get_write_index(), 6);
    buffer.set_write_index(usize::MAX);
    assert_eq!(buffer.get_write_index(), usize::MAX % 7);
    assert_eq!(buffer.get_read_index(), 2);
}

#[test]
fn put_and_peek_leave_the_cursors() {
    let mut buffer = RingBuffer::<i32>::new(3);
    buffer.set_write_index(2);
    buffer.put(9);
    buffer.put(11);
    assert_eq!(buffer.get_write_index(), 2);
    assert_eq!(buffer.get(2), 11);
    buffer.set_read_index(2);
    assert_eq!(buffer.peek(), 11);
    assert_eq!(buffer.peek(), 11);
    assert_eq!(buffer.get_read_index(), 2);
}

#[test]
fn reset_zeroes_slots_and_cursors() {
    let mut buffer = RingBuffer::<i32>::new(3);
    buffer.push(5);
    buffer.push(6);
    buffer.pop();
    buffer.reset();
    assert_eq!(buffer.get_read_index(), 0);
    assert_eq!(buffer.get_write_index(), 0);
    assert_eq!(buffer.len(), 3);
    for i in 0..3 {
        assert_eq!(buffer.get(i), 0);
    }
}

#[test]
fn buffer_without_slots_passes_everything_through() {
    let mut buffer = RingBuffer::<f32>::new(0);
    assert_eq!(buffer.len(), 0);
    assert_eq!(buffer.capacity(), 0);
    buffer.push(1.5);
    buffer.put(2.5);
    assert_eq!(buffer.peek(), 0.0);
    assert_eq!(buffer.pop(), 0.0);
    assert_eq!(buffer.get(3), 0.0);
    buffer.set_read_index(4);
    buffer.set_write_index(9);
    assert_eq!(buffer.get_read_index(), 0);
    assert_eq!(buffer.get_write_index(), 0);
    buffer.reset();
    assert_eq!(buffer.len(), 0);
}

#[test]
fn buffer_that_needs_slots_refuses_none() {
    assert!(matches!(RingBuffer::<f32>::with_slots(0), Err(InvalidCapacity)));
    let mut buffer = RingBuffer::<f32>::with_slots(3).unwrap();
    assert_eq!(buffer.capacity(), 3);
    assert_eq!(buffer.get_read_index(), 0);
    assert_eq!(buffer.get_write_index(), 0);
    assert_eq!(buffer.pop(), 0.0);
    buffer.push(2.5);
    assert_eq!(buffer.get(0), 2.5);
    assert_eq!(buffer.get(1), 0.0);
}
