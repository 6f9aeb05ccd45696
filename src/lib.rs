//! A throughput harness for a Zstandard frame decoder: a fixed corpus of
//! compressed samples, decoded one or many times by a single reused decoder.

pub mod corpus;
pub mod driver;
pub mod engine;

pub use corpus::{get_compressed_size, get_file_count, Corpus};
pub use driver::{decompress_once, run_benchmark};
pub use engine::{decode_isolated, BenchError, Decoder, OUTPUT_CAPACITY};
