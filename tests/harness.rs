use ruzstd::encoding::{compress_to_vec, CompressionLevel};
use wasm_bench::{
    decode_isolated, decompress_once, get_compressed_size, get_file_count, run_benchmark,
    BenchError, Corpus, Decoder, OUTPUT_CAPACITY,
};

fn text(n: usize, seed: u8) -> Vec<u8> {
    (0..n).map(|i| b"the quick brown fox "[(i + seed as usize) % 20]).collect()
}

fn frame(data: &[u8]) -> Vec<u8> {
    compress_to_vec(data, CompressionLevel::Fastest)
}

fn sample_corpus() -> Corpus {
    Corpus::new(vec![frame(&text(1000, 0)), frame(&text(2500, 3)), frame(&text(40, 7))]).unwrap()
}

#[test]
fn empty_corpus_is_refused() {
    assert!(Corpus::new(vec![]).is_none());
}

#[test]
fn file_count_is_number_of_samples() {
    let c = Corpus::new(vec![vec![1, 2, 3], vec![], vec![9; 5]]).unwrap();
    assert_eq!(get_file_count(&c), 3);
    assert_eq!(get_file_count(&sample_corpus()), 3);
}

#[test]
fn compressed_size_is_sum_of_sample_lengths() {
    let c = Corpus::new(vec![vec![1, 2, 3], vec![], vec![9; 5]]).unwrap();
    assert_eq!(get_compressed_size(&c), 8);
    let samples = vec![frame(&text(1000, 0)), frame(&text(300, 1))];
    let expected = samples[0].len() + samples[1].len();
    let c = Corpus::new(samples).unwrap();
    assert_eq!(get_compressed_size(&c), expected);
}

#[test]
fn compressed_size_is_stable_across_calls() {
    let c = sample_corpus();
    let first = get_compressed_size(&c);
    assert_eq!(get_compressed_size(&c), first);
    assert_eq!(get_compressed_size(&c), first);
}

#[test]
fn output_capacity_is_200_mib() {
    assert_eq!(OUTPUT_CAPACITY, 200 * 1024 * 1024);
}

#[test]
fn isolated_decode_reports_decompressed_length() {
    let f = frame(&text(1000, 0));
    assert_ne!(f.len(), 1000);
    assert_eq!(decode_isolated(&f), Ok(1000));
}

#[test]
fn isolated_decode_of_empty_sample_is_zero() {
    assert_eq!(decode_isolated(&[]), Ok(0));
}

#[test]
fn isolated_decode_of_two_frames_adds_up() {
    let mut f = frame(&text(700, 0));
    f.extend_from_slice(&frame(&text(300, 5)));
    assert_eq!(decode_isolated(&f), Ok(1000));
}

#[test]
fn isolated_decode_rejects_garbage() {
    assert_eq!(decode_isolated(&[1, 2, 3, 4, 5, 6, 7, 8]), Err(BenchError::DecodeFailed));
}

#[test]
fn isolated_decode_rejects_truncated_frame() {
    let f = frame(&text(1000, 0));
    assert_eq!(decode_isolated(&f[..f.len() - 4]), Err(BenchError::DecodeFailed));
}

#[test]
fn reused_decoder_decodes_each_sample() {
    let mut d = Decoder::new();
    let mut out = vec![0u8; OUTPUT_CAPACITY];
    assert_eq!(d.decode_sample(&frame(&text(1000, 0)), &mut out), Ok(1000));
    assert_eq!(d.decode_sample(&frame(&text(64, 2)), &mut out), Ok(64));
    assert_eq!(d.decode_sample(&[0xde, 0xad], &mut out), Err(BenchError::DecodeFailed));
    assert_eq!(d.decode_sample(&frame(&text(10, 2)), &mut out), Ok(10));
}

#[test]
fn one_pass_totals_decompressed_bytes() {
    assert_eq!(decompress_once(&sample_corpus()), Ok(3540));
}

#[test]
fn one_pass_equals_isolated_decodes() {
    let samples = vec![frame(&text(1000, 0)), frame(&text(2500, 3)), vec![], frame(&text(40, 7))];
    let mut sum = 0;
    for s in &samples {
        sum += decode_isolated(s).unwrap();
    }
    let c = Corpus::new(samples).unwrap();
    assert_eq!(decompress_once(&c), Ok(sum));
}

#[test]
fn passes_scale_the_one_pass_total() {
    let c = sample_corpus();
    let once = decompress_once(&c).unwrap();
    for n in [0u32, 1, 2, 5] {
        assert_eq!(run_benchmark(&c, n), Ok(n as usize * once));
    }
}

#[test]
fn zero_passes_total_zero() {
    let c = Corpus::new(vec![vec![1, 2, 3]]).unwrap();
    assert_eq!(run_benchmark(&c, 0), Ok(0));
    assert_eq!(run_benchmark(&sample_corpus(), 0), Ok(0));
}

#[test]
fn corrupted_sample_aborts_the_pass() {
    let good = frame(&text(1000, 0));
    let mut bad = good.clone();
    bad[0] ^= 0xff;
    let c = Corpus::new(vec![good.clone(), bad, good.clone()]).unwrap();
    assert_eq!(decompress_once(&c), Err(BenchError::DecodeFailed));
    assert_eq!(run_benchmark(&c, 3), Err(BenchError::DecodeFailed));
}

#[test]
fn truncated_last_sample_aborts_the_pass() {
    let good = frame(&text(1000, 0));
    let truncated = good[..good.len() / 2].to_vec();
    let c = Corpus::new(vec![good.clone(), good, truncated]).unwrap();
    assert_eq!(decompress_once(&c), Err(BenchError::DecodeFailed));
    assert_eq!(run_benchmark(&c, 1), Err(BenchError::DecodeFailed));
}
