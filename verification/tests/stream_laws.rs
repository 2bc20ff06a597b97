use convolver::fast_convolver::ConvolutionMode;
use convolver::fast_convolver::FastConvolver;
use rand::Rng;
use rustfft::num_complex::Complex;
use rustfft::FftPlanner;

// The whole result for `input`: what the blocks put out, then the tail.
// In the frequency domain a short last block is filled up with zeros.
fn run(ir: &[f32], mode: ConvolutionMode, input: &[f32], block_size: usize) -> Vec<f32> {
    let mut conv = FastConvolver::new(ir, mode).unwrap();
    let wanted = conv.get_output_size(input.len());
    let mut stream: Vec<f32> = Vec::new();
    for chunk in input.chunks(block_size) {
        let mut block = chunk.to_vec();
        if let ConvolutionMode::FrequencyDomain { block_size } = mode {
            block.resize(block_size, 0.0);
        }
        let mut out = vec![0.0; block.len()];
        conv.process(&block, &mut out).unwrap();
        stream.extend_from_slice(&out);
    }
    let mut tail = vec![0.0; ir.len() - 1];
    if !input.is_empty() {
        conv.flush(&mut tail).unwrap();
    }
    stream.extend_from_slice(&tail);
    stream.truncate(wanted);
    assert_eq!(stream.len(), wanted);
    stream
}

fn run_exact(ir: &[i64], mode: ConvolutionMode, blocks: &[Vec<i64>]) -> Vec<i64> {
    let mut conv = FastConvolver::new(ir, mode).unwrap();
    let mut stream: Vec<i64> = Vec::new();
    for block in blocks {
        let mut out = vec![0; block.len()];
        conv.process(block, &mut out).unwrap();
        stream.extend_from_slice(&out);
    }
    let mut tail = vec![0; ir.len() - 1];
    conv.flush(&mut tail).unwrap();
    stream.extend_from_slice(&tail);
    stream
}

fn random_samples(len: usize, range: f32) -> Vec<f32> {
    let mut rng = rand::thread_rng();
    (0..len).map(|_| rng.gen_range(-range..range)).collect()
}

fn assert_close(left: &[f32], right: &[f32], tolerance: f32) {
    assert_eq!(left.len(), right.len());
    for i in 0..left.len() {
        assert!(
            (left[i] - right[i]).abs() <= tolerance,
            "sample {}: {} against {}",
            i,
            left[i],
            right[i]
        );
    }
}

#[test]
fn unit_impulse_delays_the_input_in_both_modes() {
    let input: Vec<f32> = random_samples(100, 10.0).iter().map(|v| v.trunc()).collect();
    for p in [0usize, 3, 6] {
        let mut ir = vec![0.0f32; 7];
        ir[p] = 1.0;
        let mut expected = vec![0.0f32; input.len() + 6];
        expected[p..p + input.len()].copy_from_slice(&input);
        let direct = run(&ir, ConvolutionMode::TimeDomain, &input, 100);
        assert_eq!(direct, expected);
        let cut = run(&ir, ConvolutionMode::TimeDomain, &input, 9);
        assert_eq!(cut, expected);
        let partitioned = run(&ir, ConvolutionMode::FrequencyDomain { block_size: 10 }, &input, 10);
        assert_eq!(partitioned, expected);
    }
}

#[test]
fn single_sample_comes_out_once_after_the_delay() {
    let ir = [0.0f32, 0.0, 0.0, 1.0, 0.0, 0.0, 0.0];
    let mut conv = FastConvolver::new(&ir, ConvolutionMode::TimeDomain).unwrap();
    assert_eq!(conv.get_output_size(1), 7);
    let mut out = [9.0f32; 1];
    conv.process(&[5.0], &mut out).unwrap();
    let mut tail = [9.0f32; 6];
    conv.flush(&mut tail).unwrap();
    assert_eq!(out, [0.0]);
    assert_eq!(tail, [0.0, 0.0, 5.0, 0.0, 0.0, 0.0]);

    let mut conv =
        FastConvolver::new(&ir, ConvolutionMode::FrequencyDomain { block_size: 1 }).unwrap();
    conv.process(&[5.0], &mut out).unwrap();
    conv.flush(&mut tail).unwrap();
    assert_eq!(out, [0.0]);
    assert_eq!(tail, [0.0, 0.0, 5.0, 0.0, 0.0, 0.0]);
}

#[test]
fn total_length_is_the_output_size() {
    let ir = random_samples(51, 1.0);
    for len in [1usize, 2, 50, 51, 52, 333] {
        let input = random_samples(len, 1.0);
        for block_size in [1usize, 7, 64, 1000] {
            let stream = run(&ir, ConvolutionMode::TimeDomain, &input, block_size);
            assert_eq!(stream.len(), len + 50);
        }
    }
}

#[test]
fn block_size_does_not_change_the_result() {
    let ir = random_samples(51, 1.0);
    let input = random_samples(10000, 1.0);
    let reference = run(&ir, ConvolutionMode::TimeDomain, &input, 10000);
    for block_size in [1usize, 13, 1023, 2048] {
        let stream = run(&ir, ConvolutionMode::TimeDomain, &input, block_size);
        assert_close(&stream, &reference, 1e-4);
    }
}

#[test]
fn block_size_does_not_change_exact_results() {
    let ir = [3i64, -1, 4, 1, -5, 9, 2];
    let input: Vec<i64> = (0..40).map(|i| (i * i) % 17 - 8).collect();
    let whole = run_exact(&ir, ConvolutionMode::TimeDomain, &[input.clone()]);
    assert_eq!(whole.len(), 46);
    for block_size in [1usize, 2, 3, 7, 13, 39] {
        let blocks: Vec<Vec<i64>> = input.chunks(block_size).map(|c| c.to_vec()).collect();
        assert_eq!(run_exact(&ir, ConvolutionMode::TimeDomain, &blocks), whole);
    }
    // Blocks of unequal lengths, an empty one among them.
    let blocks = vec![input[0..5].to_vec(), Vec::new(), input[5..6].to_vec(), input[6..40].to_vec()];
    assert_eq!(run_exact(&ir, ConvolutionMode::TimeDomain, &blocks), whole);
}

#[test]
fn partitions_give_what_the_whole_response_gives() {
    let ir = [3i64, -1, 4, 1, -5, 9, 2];
    let input: Vec<i64> = (0..40).map(|i| (i * i) % 17 - 8).collect();
    let whole = run_exact(&ir, ConvolutionMode::TimeDomain, &[input.clone()]);
    for block_size in [1usize, 2, 4, 5, 8, 10, 20, 40] {
        let blocks: Vec<Vec<i64>> = input.chunks(block_size).map(|c| c.to_vec()).collect();
        let mode = ConvolutionMode::FrequencyDomain { block_size };
        assert_eq!(run_exact(&ir, mode, &blocks), whole);
    }
}

#[test]
fn frequency_domain_matches_time_domain() {
    let ir = random_samples(51, 1.0);
    let input = random_samples(2000, 1.0);
    let reference = run(&ir, ConvolutionMode::TimeDomain, &input, 2000);
    for block_size in [1usize, 10, 16, 51, 64, 300] {
        let mode = ConvolutionMode::FrequencyDomain { block_size };
        let stream = run(&ir, mode, &input, block_size);
        assert_close(&stream, &reference, 1e-3);
    }
}

// The products of each block with the partitions come from a fast transform
// here: both are transformed, multiplied, scaled and transformed back.
#[test]
fn transformed_products_match_the_time_domain() {
    let ir = random_samples(51, 1.0);
    let input = random_samples(2048, 1.0);
    let reference = run(&ir, ConvolutionMode::TimeDomain, &input, 2048);
    for block_size in [8usize, 16, 64, 100] {
        let mode = ConvolutionMode::FrequencyDomain { block_size };
        let mut conv = FastConvolver::new(&ir, mode).unwrap();
        let length = 2 * block_size;
        let mut planner = FftPlanner::<f32>::new();
        let forward = planner.plan_fft_forward(length);
        let inverse = planner.plan_fft_inverse(length);
        let mut baked: Vec<Vec<Complex<f32>>> = Vec::new();
        for k in 0..conv.partitions() {
            let padded = conv.padded_partition(k).unwrap();
            let mut spectrum: Vec<Complex<f32>> =
                padded.iter().map(|&v| Complex::new(v, 0.0)).collect();
            forward.process(&mut spectrum);
            baked.push(spectrum);
        }
        let mut stream: Vec<f32> = Vec::new();
        for chunk in input.chunks(block_size) {
            let mut block = chunk.to_vec();
            block.resize(block_size, 0.0);
            let mut padded = vec![0.0f32; length];
            conv.pad_block(&block, &mut padded).unwrap();
            let mut spectrum: Vec<Complex<f32>> =
                padded.iter().map(|&v| Complex::new(v, 0.0)).collect();
            forward.process(&mut spectrum);
            let mut products: Vec<Vec<f32>> = Vec::new();
            for partition in baked.iter() {
                let mut product: Vec<Complex<f32>> = (0..length)
                    .map(|i| spectrum[i] * partition[i] / length as f32)
                    .collect();
                inverse.process(&mut product);
                products.push(product.iter().map(|c| c.re).collect());
            }
            let mut out = vec![0.0; block_size];
            conv.process_products(&products, &mut out).unwrap();
            stream.extend_from_slice(&out);
        }
        let mut tail = vec![0.0; ir.len() - 1];
        conv.flush(&mut tail).unwrap();
        stream.extend_from_slice(&tail);
        stream.truncate(reference.len());
        assert_close(&stream, &reference, 1e-3);
    }
}

#[test]
fn scaling_the_input_scales_the_output() {
    let ir = [3i64, -1, 4, 1, -5];
    let input: Vec<i64> = (0..30).map(|i| (i * 7) % 11 - 5).collect();
    let scaled: Vec<i64> = input.iter().map(|v| 6 * v).collect();
    for mode in [ConvolutionMode::TimeDomain, ConvolutionMode::FrequencyDomain { block_size: 5 }] {
        let blocks: Vec<Vec<i64>> = input.chunks(5).map(|c| c.to_vec()).collect();
        let scaled_blocks: Vec<Vec<i64>> = scaled.chunks(5).map(|c| c.to_vec()).collect();
        let plain = run_exact(&ir, mode, &blocks);
        let larger = run_exact(&ir, mode, &scaled_blocks);
        let expected: Vec<i64> = plain.iter().map(|v| 6 * v).collect();
        assert_eq!(larger, expected);
    }
    // With samples that are not whole numbers, by a power of two.
    let ir = random_samples(20, 1.0);
    let input = random_samples(200, 1.0);
    let scaled: Vec<f32> = input.iter().map(|v| 4.0 * v).collect();
    let plain = run(&ir, ConvolutionMode::TimeDomain, &input, 32);
    let larger = run(&ir, ConvolutionMode::TimeDomain, &scaled, 32);
    let expected: Vec<f32> = plain.iter().map(|v| 4.0 * v).collect();
    assert_eq!(larger, expected);
}

#[test]
fn sum_of_inputs_gives_sum_of_outputs() {
    let ir = [3i64, -1, 4, 1, -5];
    let first: Vec<i64> = (0..30).map(|i| (i * 7) % 11 - 5).collect();
    let second: Vec<i64> = (0..30).map(|i| (i * i) % 13 - 6).collect();
    let both: Vec<i64> = (0..30).map(|i| first[i] + second[i]).collect();
    for mode in [ConvolutionMode::TimeDomain, ConvolutionMode::FrequencyDomain { block_size: 6 }] {
        let cut = |s: &Vec<i64>| -> Vec<Vec<i64>> { s.chunks(6).map(|c| c.to_vec()).collect() };
        let a = run_exact(&ir, mode, &cut(&first));
        let b = run_exact(&ir, mode, &cut(&second));
        let sum = run_exact(&ir, mode, &cut(&both));
        let expected: Vec<i64> = (0..a.len()).map(|i| a[i] + b[i]).collect();
        assert_eq!(sum, expected);
    }
}

#[test]
fn zeros_drain_the_tail() {
    let ir = random_samples(7, 1.0);
    let mut conv = FastConvolver::new(&ir, ConvolutionMode::TimeDomain).unwrap();
    let history = random_samples(20, 1.0);
    let mut out = vec![0.0f32; 20];
    conv.process(&history, &mut out).unwrap();
    // Six more samples are owed: they come out with the first zeros.
    let mut out = vec![1.0f32; 4];
    conv.process(&[0.0; 4], &mut out).unwrap();
    assert!(out.iter().any(|v| *v != 0.0));
    let mut out = vec![1.0f32; 2];
    conv.process(&[0.0; 2], &mut out).unwrap();
    // From here on nothing but zeros, for blocks of any length.
    for len in [1usize, 3, 6, 7, 50] {
        let mut out = vec![1.0f32; len];
        conv.process(&vec![0.0; len], &mut out).unwrap();
        assert!(out.iter().all(|v| *v == 0.0));
    }
    let mut tail = [1.0f32; 6];
    conv.flush(&mut tail).unwrap();
    assert_eq!(tail, [0.0; 6]);

    let mut conv =
        FastConvolver::new(&ir, ConvolutionMode::FrequencyDomain { block_size: 4 }).unwrap();
    let mut out = vec![0.0f32; 4];
    conv.process(&history[0..4], &mut out).unwrap();
    conv.process(&[0.0; 4], &mut out).unwrap();
    conv.process(&[0.0; 4], &mut out).unwrap();
    for _ in 0..3 {
        let mut out = vec![1.0f32; 4];
        conv.process(&[0.0; 4], &mut out).unwrap();
        assert!(out.iter().all(|v| *v == 0.0));
    }
}

// A response that delays by three, on an input whose one sample sits at
// position three: the sample comes out at position six.
#[test]
fn delay_of_three_on_ten_samples() {
    let ir = [0.0f32, 0.0, 0.0, 1.0, 0.0, 0.0, 0.0];
    let input = [0.0f32, 0.0, 0.0, 1.0, 0.0, 0.0, 0.0, 0.0, 0.0, 0.0];
    let mut conv = FastConvolver::new(&ir, ConvolutionMode::TimeDomain).unwrap();
    let mut output = [9.0f32; 10];
    conv.process(&input, &mut output).unwrap();
    for i in 0..10 {
        if i == 6 {
            assert_eq!(output[i], 1.0);
        } else {
            assert_eq!(output[i], 0.0);
        }
    }
    let mut tail = [9.0f32; 6];
    conv.flush(&mut tail).unwrap();
    assert_eq!(tail, [0.0; 6]);
}
