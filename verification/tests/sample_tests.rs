use convolver::fast_convolver::ConvolutionMode;
use convolver::fast_convolver::FastConvolver;
use convolver::ring_buffer::RingBuffer;
use convolver::sample::Wrapped;

#[test]
fn wrapped_default_is_zero() {
    assert_eq!(Wrapped::default(), Wrapped(0));
}

#[test]
fn wrapped_sums_wrap_around() {
    assert_eq!(Wrapped(2) + Wrapped(3), Wrapped(5));
    assert_eq!(Wrapped(-7) + Wrapped(3), Wrapped(-4));
    assert_eq!(Wrapped(i64::MAX) + Wrapped(1), Wrapped(i64::MIN));
    assert_eq!(Wrapped(i64::MIN) + Wrapped(-1), Wrapped(i64::MAX));
    assert_eq!(Wrapped(i64::MIN) + Wrapped(i64::MIN), Wrapped(0));
    assert_eq!(Wrapped(41) + Wrapped(0), Wrapped(41));
}

#[test]
fn wrapped_products_wrap_around() {
    assert_eq!(Wrapped(6) * Wrapped(7), Wrapped(42));
    assert_eq!(Wrapped(-6) * Wrapped(7), Wrapped(-42));
    assert_eq!(Wrapped(i64::MAX) * Wrapped(2), Wrapped(-2));
    assert_eq!(Wrapped(1 << 62) * Wrapped(4), Wrapped(0));
    assert_eq!(Wrapped(i64::MIN) * Wrapped(-1), Wrapped(i64::MIN));
    assert_eq!(Wrapped(99) * Wrapped(1), Wrapped(99));
    assert_eq!(Wrapped(99) * Wrapped(0), Wrapped(0));
}

#[test]
fn wrapped_keeps_the_laws_where_plain_integers_would_overflow() {
    let a = Wrapped(i64::MAX - 3);
    let b = Wrapped(1 << 40);
    let c = Wrapped(-(1 << 50) + 17);
    assert_eq!((a + b) + c, a + (b + c));
    assert_eq!(a + b, b + a);
    assert_eq!((a * b) * c, a * (b * c));
    assert_eq!(a * (b + c), a * b + a * c);
    assert_eq!((a + b) * c, a * c + b * c);
}

#[test]
fn wrapped_samples_in_a_ring_buffer() {
    let mut buffer = RingBuffer::<Wrapped>::new(2);
    assert_eq!(buffer.peek(), Wrapped(0));
    buffer.push(Wrapped(4));
    buffer.push(Wrapped(5));
    assert_eq!(buffer.pop(), Wrapped(4));
    assert_eq!(buffer.pop(), Wrapped(5));
    assert_eq!(buffer.pop(), Wrapped(4));
}

#[test]
fn wrapped_samples_through_both_modes() {
    // [1,2,3,4] * [4,5,6,7,8] = [4,13,28,50,60,61,52,32]
    let ir: Vec<Wrapped> = [4, 5, 6, 7, 8].iter().map(|v| Wrapped(*v)).collect();
    let input: Vec<Wrapped> = [1, 2, 3, 4].iter().map(|v| Wrapped(*v)).collect();
    let expected: Vec<Wrapped> =
        [4, 13, 28, 50, 60, 61, 52, 32].iter().map(|v| Wrapped(*v)).collect();
    for mode in [ConvolutionMode::TimeDomain, ConvolutionMode::FrequencyDomain { block_size: 2 }] {
        let mut conv = FastConvolver::new(&ir, mode).unwrap();
        let mut stream = vec![Wrapped(0); conv.get_output_size(input.len())];
        conv.process(&input[0..2], &mut stream[0..2]).unwrap();
        conv.process(&input[2..4], &mut stream[2..4]).unwrap();
        conv.flush(&mut stream[4..]).unwrap();
        assert_eq!(stream, expected);
    }
}

#[test]
fn wrapped_samples_that_overflow_give_the_same_in_both_modes() {
    let ir: Vec<Wrapped> = (0..9).map(|i| Wrapped(i64::MAX / 3 * (i - 4))).collect();
    let input: Vec<Wrapped> = (0..12).map(|i| Wrapped((1 << 61) - i * i)).collect();
    let mut direct = FastConvolver::new(&ir, ConvolutionMode::TimeDomain).unwrap();
    let mut whole = vec![Wrapped(0); 20];
    direct.process(&input, &mut whole[0..12]).unwrap();
    direct.flush(&mut whole[12..]).unwrap();
    for block_size in [1usize, 2, 3, 4, 6, 12] {
        let mode = ConvolutionMode::FrequencyDomain { block_size };
        let mut conv = FastConvolver::new(&ir, mode).unwrap();
        let mut stream = vec![Wrapped(0); 20];
        for (k, block) in input.chunks(block_size).enumerate() {
            let at = k * block_size;
            conv.process(block, &mut stream[at..at + block_size]).unwrap();
        }
        conv.flush(&mut stream[12..]).unwrap();
        assert_eq!(stream, whole);
        let mut cut = FastConvolver::new(&ir, ConvolutionMode::TimeDomain).unwrap();
        let mut stream = vec![Wrapped(0); 20];
        for (k, block) in input.chunks(block_size).enumerate() {
            let at = k * block_size;
            cut.process(block, &mut stream[at..at + block_size]).unwrap();
        }
        cut.flush(&mut stream[12..]).unwrap();
        assert_eq!(stream, whole);
    }
}
