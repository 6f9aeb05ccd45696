use vstd::prelude::*;

use ruzstd::decoding::errors::FrameDecoderError;
use ruzstd::decoding::FrameDecoder;

verus! {

/// Capacity of the output region that every decode writes into (200 MiB).
pub const OUTPUT_CAPACITY: usize = 209715200;

#[verifier::external_type_specification]
#[verifier::external_body]
pub struct ExFrameDecoder(FrameDecoder);

#[verifier::external_type_specification]
#[verifier::external_body]
pub struct ExFrameDecoderError(FrameDecoderError);

/// What `FrameDecoder::decode_all` does when handed `input` and an output
/// region of `capacity` bytes, for a decoder without dictionaries: the number
/// of bytes written (`None` when it fails), and whether the decoder holds
/// frame state afterwards. `primed` says whether it held frame state before:
/// a decoder that does applies a 100 MiB window limit that a fresh one skips.
pub uninterp spec fn frame_decode(primed: bool, input: Seq<u8>, capacity: nat) -> (Option<nat>, bool);

/// Why a harness run produced no byte count.
#[derive(Debug, Clone, Copy, PartialEq, Eq, Structural)]
pub enum BenchError {
    /// A sample could not be decoded completely into the output region.
    DecodeFailed,
    /// The running total of decompressed bytes does not fit in `usize`.
    TotalOverflow,
}

/// A Zstandard frame decoder without dictionaries, to be reused across frames.
pub struct Decoder {
    inner: FrameDecoder,
    /// Whether `inner` holds the state of some earlier frame.
    primed: Ghost<bool>,
}

impl Decoder {
    pub closed spec fn is_primed(&self) -> bool {
        self.primed@
    }

    /// Relies on `FrameDecoder::new`: a decoder with no frame state and no
    /// dictionaries.
    #[verifier::external_body]
    pub fn new() -> (r: Decoder)
        ensures
            !r.is_primed(),
    {
        Decoder { inner: FrameDecoder::new(), primed: Ghost(false) }
    }

    /// Relies on `FrameDecoder::decode_all`: it decodes every frame of `input`
    /// into `output`, resetting the decoder at each frame header, and reports
    /// the bytes written. Its outcome depends on the input, the output length
    /// and whether the decoder already held frame state (dictionaries are never
    /// added to a `Decoder`). It writes at most `output.len()` bytes, returns
    /// `Ok(0)` without touching the decoder on empty input, and never drops
    /// frame state once it has some.
    #[verifier::external_body]
    fn decode_all(&mut self, input: &[u8], output: &mut Vec<u8>) -> (r: Result<usize, FrameDecoderError>)
        ensures
            final(output)@.len() == old(output)@.len(),
            r is Ok ==> frame_decode(old(self).is_primed(), input@, old(output)@.len() as nat).0 == Some(r->Ok_0 as nat),
            r is Err ==> frame_decode(old(self).is_primed(), input@, old(output)@.len() as nat).0 is None,
            final(self).is_primed() == frame_decode(old(self).is_primed(), input@, old(output)@.len() as nat).1,
            r is Ok ==> r->Ok_0 <= old(output)@.len(),
            input@.len() == 0 ==> r is Ok && r->Ok_0 == 0,
            input@.len() == 0 ==> final(self).is_primed() == old(self).is_primed(),
            old(self).is_primed() ==> final(self).is_primed(),
    {
        self.inner.decode_all(input, output)
    }

    /// Decodes one sample into `output`, which must be the harness's output
    /// region.
    pub fn decode_sample(&mut self, sample: &[u8], output: &mut Vec<u8>) -> (r: Result<usize, BenchError>)
        requires
            old(output)@.len() == OUTPUT_CAPACITY,
        ensures
            final(output)@.len() == OUTPUT_CAPACITY,
            reports(r, sample_outcome(old(self).is_primed(), sample@)),
            final(self).is_primed() == sample_primes(old(self).is_primed(), sample@),
            r matches Ok(n) ==> n <= OUTPUT_CAPACITY,
    {
        match self.decode_all(sample, output) {
            Ok(n) => Ok(n),
            Err(_) => Err(BenchError::DecodeFailed),
        }
    }
}

/// The outcome of decoding `sample` into the output region.
pub open spec fn sample_outcome(primed: bool, sample: Seq<u8>) -> Option<nat> {
    frame_decode(primed, sample, OUTPUT_CAPACITY as nat).0
}

/// Whether the decoder holds frame state after decoding `sample`.
pub open spec fn sample_primes(primed: bool, sample: Seq<u8>) -> bool {
    frame_decode(primed, sample, OUTPUT_CAPACITY as nat).1
}

/// Whether `r` reports the decode outcome `outcome`: the byte count, or a
/// decode failure.
pub open spec fn reports(r: Result<usize, BenchError>, outcome: Option<nat>) -> bool {
    match r {
        Ok(n) => outcome == Some(n as nat),
        Err(e) => e == BenchError::DecodeFailed && outcome is None,
    }
}

/// Decodes `sample` with a decoder and an output region of its own, both
/// fresh, and returns the number of decompressed bytes.
pub fn decode_isolated(sample: &[u8]) -> (r: Result<usize, BenchError>)
    ensures
        reports(r, sample_outcome(false, sample@)),
{
    let mut decoder = Decoder::new();
    let mut output: Vec<u8> = vec![0u8; OUTPUT_CAPACITY];
    decoder.decode_sample(sample, &mut output)
}

} // verus!
