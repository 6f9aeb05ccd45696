use vstd::prelude::*;

use crate::corpus::Corpus;
use crate::engine::{sample_outcome, sample_primes, BenchError, Decoder, OUTPUT_CAPACITY};

verus! {

/// `samples` repeated `n` times, one pass after another.
pub open spec fn repeat(samples: Seq<Seq<u8>>, n: nat) -> Seq<Seq<u8>>
    decreases n,
{
    if n == 0 {
        Seq::empty()
    } else {
        repeat(samples, (n - 1) as nat) + samples
    }
}

/// Adds one decoded sample to a running total: the run aborts on the first
/// sample that fails, or when the total would leave `usize`.
pub open spec fn accumulate(total: Result<nat, BenchError>, outcome: Option<nat>) -> Result<nat, BenchError> {
    match total {
        Err(e) => Err(e),
        Ok(t) => match outcome {
            None => Err(BenchError::DecodeFailed),
            Some(n) => if t + n > usize::MAX {
                Err(BenchError::TotalOverflow)
            } else {
                Ok(t + n)
            },
        },
    }
}

/// Decoding `inputs` in order with one decoder that starts in state
/// `primed`, from a running total of `start`: the result, and whether the
/// decoder holds frame state at the end.
pub open spec fn shared_run(start: nat, primed: bool, inputs: Seq<Seq<u8>>) -> (Result<nat, BenchError>, bool)
    decreases inputs.len(),
{
    if inputs.len() == 0 {
        (Ok(start), primed)
    } else {
        let (total, p) = shared_run(start, primed, inputs.drop_last());
        (accumulate(total, sample_outcome(p, inputs.last())), sample_primes(p, inputs.last()))
    }
}

/// Decoding `inputs` in order, each with a fresh decoder of its own.
pub open spec fn isolated_run(start: nat, inputs: Seq<Seq<u8>>) -> Result<nat, BenchError>
    decreases inputs.len(),
{
    if inputs.len() == 0 {
        Ok(start)
    } else {
        accumulate(isolated_run(start, inputs.drop_last()), sample_outcome(false, inputs.last()))
    }
}

/// One pass over `samples` with one fresh decoder.
pub open spec fn once_result(samples: Seq<Seq<u8>>) -> Result<nat, BenchError> {
    shared_run(0, false, samples).0
}

/// `iterations` passes over `samples` with one fresh decoder for the whole run.
pub open spec fn run_result(samples: Seq<Seq<u8>>, iterations: nat) -> Result<nat, BenchError> {
    shared_run(0, false, repeat(samples, iterations)).0
}

/// Whether decoding `sample` gives the same outcome whether or not the
/// decoder holds state from an earlier frame.
pub open spec fn reuse_neutral(sample: Seq<u8>) -> bool {
    sample_outcome(true, sample) == sample_outcome(false, sample)
}

/// Whether the harness result `r` is the modelled result `m`.
pub open spec fn matches_model(r: Result<usize, BenchError>, m: Result<nat, BenchError>) -> bool {
    match r {
        Ok(t) => m == Ok::<nat, BenchError>(t as nat),
        Err(e) => m == Err::<nat, BenchError>(e),
    }
}

/// Decodes the samples of `corpus` from index `first`, adding to `total`.
fn decode_pass(
    decoder: &mut Decoder,
    output: &mut Vec<u8>,
    corpus: &Corpus,
    total: usize,
    Ghost(done): Ghost<Seq<Seq<u8>>>,
) -> (r: Result<usize, BenchError>)
    requires
        old(output)@.len() == OUTPUT_CAPACITY,
        shared_run(0, false, done) == (Ok::<nat, BenchError>(total as nat), old(decoder).is_primed()),
    ensures
        final(output)@.len() == OUTPUT_CAPACITY,
        matches_model(r, shared_run(0, false, done + corpus@).0),
        r is Ok ==> shared_run(0, false, done + corpus@).1 == final(decoder).is_primed(),
{
    let samples = corpus.samples();
    let ghost all = corpus@;
    let mut total = total;
    let mut i: usize = 0;
    while i < samples.len()
        invariant
            i <= samples@.len(),
            all == samples@.map_values(|s: Vec<u8>| s@),
            all == corpus@,
            output@.len() == OUTPUT_CAPACITY,
            shared_run(0, false, done + all.take(i as int)) == (Ok::<nat, BenchError>(total as nat), decoder.is_primed()),
        decreases samples@.len() - i,
    {
        let ghost before = done + all.take(i as int);
        let ghost after = done + all.take(i as int + 1);
        proof {
            assert(after.drop_last() == before);
            assert((done + all).take(after.len() as int) == after);
            assert(after.last() == samples@[i as int]@);
        }
        let ghost primed = decoder.is_primed();
        let sample = samples[i].as_slice();
        let res = decoder.decode_sample(sample, output);
        proof {
            assert(sample@ == after.last());
            assert(shared_run(0, false, after).0 == accumulate(Ok(total as nat), sample_outcome(primed, after.last())));
        }
        match res {
            Ok(n) => {
                if total > usize::MAX - n {
                    proof {
                        lemma_failure_persists(0, false, after, done + all);
                    }
                    return Err(BenchError::TotalOverflow);
                }
                total = total + n;
            },
            Err(e) => {
                proof {
                    lemma_failure_persists(0, false, after, done + all);
                }
                return Err(e);
            },
        }
        i = i + 1;
    }
    proof {
        assert(all.take(i as int) == all);
    }
    Ok(total)
}

/// Once a run has failed, decoding further samples does not change its result.
proof fn lemma_failure_persists(start: nat, primed: bool, prefix: Seq<Seq<u8>>, inputs: Seq<Seq<u8>>)
    requires
        prefix.len() <= inputs.len(),
        inputs.take(prefix.len() as int) == prefix,
        shared_run(start, primed, prefix).0 is Err,
    ensures
        shared_run(start, primed, inputs).0 == shared_run(start, primed, prefix).0,
    decreases inputs.len(),
{
    if inputs.len() > prefix.len() {
        assert(inputs.drop_last().take(prefix.len() as int) == prefix);
        lemma_failure_persists(start, primed, prefix, inputs.drop_last());
    } else {
        assert(inputs == prefix);
    }
}

/// Decodes every sample of `corpus` once, in order, with one decoder, and
/// returns the total number of decompressed bytes.
pub fn decompress_once(corpus: &Corpus) -> (r: Result<usize, BenchError>)
    requires
        corpus.wf(),
    ensures
        matches_model(r, once_result(corpus@)),
{
    let mut decoder = Decoder::new();
    let mut output: Vec<u8> = vec![0u8; OUTPUT_CAPACITY];
    proof {
        assert(Seq::<Seq<u8>>::empty() + corpus@ == corpus@);
    }
    decode_pass(&mut decoder, &mut output, corpus, 0, Ghost(Seq::empty()))
}

/// Decodes every sample of `corpus`, in order, `iterations` times over, with
/// one decoder for the whole run, and returns the total number of
/// decompressed bytes.
pub fn run_benchmark(corpus: &Corpus, iterations: u32) -> (r: Result<usize, BenchError>)
    requires
        corpus.wf(),
    ensures
        matches_model(r, run_result(corpus@, iterations as nat)),
{
    let mut decoder = Decoder::new();
    let mut output: Vec<u8> = vec![0u8; OUTPUT_CAPACITY];
    let mut total: usize = 0;
    let mut k: u32 = 0;
    while k < iterations
        invariant
            k <= iterations,
            corpus.wf(),
            output@.len() == OUTPUT_CAPACITY,
            shared_run(0, false, repeat(corpus@, k as nat)) == (Ok::<nat, BenchError>(total as nat), decoder.is_primed()),
        decreases iterations - k,
    {
        let ghost done = repeat(corpus@, k as nat);
        proof {
            assert(repeat(corpus@, (k + 1) as nat) == done + corpus@);
        }
        match decode_pass(&mut decoder, &mut output, corpus, total, Ghost(done)) {
            Ok(t) => {
                total = t;
            },
            Err(e) => {
                proof {
                    lemma_repeat_prefix(corpus@, (k + 1) as nat, iterations as nat);
                    lemma_failure_persists(0, false, done + corpus@, repeat(corpus@, iterations as nat));
                }
                return Err(e);
            },
        }
        k = k + 1;
    }
    Ok(total)
}

/// Fewer passes are a prefix of more passes.
pub proof fn lemma_repeat_prefix(samples: Seq<Seq<u8>>, m: nat, n: nat)
    requires
        m <= n,
    ensures
        repeat(samples, m).len() == m * samples.len(),
        repeat(samples, m).len() <= repeat(samples, n).len(),
        repeat(samples, n).take(repeat(samples, m).len() as int) == repeat(samples, m),
    decreases n,
{
    lemma_repeat_len(samples, m);
    lemma_repeat_len(samples, n);
    assert(m * samples.len() <= n * samples.len()) by (nonlinear_arith)
        requires m <= n;
    if m < n {
        lemma_repeat_prefix(samples, m, (n - 1) as nat);
        let a = repeat(samples, (n - 1) as nat);
        assert((a + samples).take(repeat(samples, m).len() as int) == a.take(repeat(samples, m).len() as int));
    } else {
        assert(repeat(samples, n).take(repeat(samples, m).len() as int) == repeat(samples, m));
    }
}

proof fn lemma_repeat_len(samples: Seq<Seq<u8>>, n: nat)
    ensures
        repeat(samples, n).len() == n * samples.len(),
    decreases n,
{
    if n > 0 {
        lemma_repeat_len(samples, (n - 1) as nat);
        assert(n * samples.len() == (n - 1) * samples.len() + samples.len()) by (nonlinear_arith)
            requires n > 0;
    } else {
        assert(n * samples.len() == 0) by (nonlinear_arith)
            requires n == 0;
    }
}

/// Where every input decodes the same with a reused decoder as with a fresh
/// one, decoding them all with one shared decoder gives what decoding each
/// with a decoder of its own gives.
pub proof fn lemma_shared_is_isolated(start: nat, primed: bool, inputs: Seq<Seq<u8>>)
    requires
        forall|i: int| 0 <= i < inputs.len() ==> reuse_neutral(#[trigger] inputs[i]),
    ensures
        shared_run(start, primed, inputs).0 == isolated_run(start, inputs),
    decreases inputs.len(),
{
    if inputs.len() > 0 {
        let rest = inputs.drop_last();
        assert forall|i: int| 0 <= i < rest.len() implies reuse_neutral(#[trigger] rest[i]) by {
            assert(rest[i] == inputs[i]);
        }
        lemma_shared_is_isolated(start, primed, rest);
        assert(reuse_neutral(inputs[inputs.len() - 1]));
    }
}

/// Decoding `a` then `b` continues from the total that `a` left.
pub proof fn lemma_isolated_concat(start: nat, a: Seq<Seq<u8>>, b: Seq<Seq<u8>>)
    ensures
        isolated_run(start, a + b) == (match isolated_run(start, a) {
            Ok(t) => isolated_run(t, b),
            Err(e) => Err(e),
        }),
    decreases b.len(),
{
    if b.len() == 0 {
        assert(a + b == a);
    } else {
        assert((a + b).drop_last() == a + b.drop_last());
        assert((a + b).last() == b.last());
        lemma_isolated_concat(start, a, b.drop_last());
    }
}

/// Starting from `x` in place of zero adds `x` to a successful total, or
/// overflows.
proof fn lemma_isolated_offset(x: nat, inputs: Seq<Seq<u8>>)
    requires
        x <= usize::MAX,
        isolated_run(0, inputs) is Ok,
    ensures
        isolated_run(x, inputs) == (if x + isolated_run(0, inputs)->Ok_0 <= usize::MAX {
            Ok::<nat, BenchError>(x + isolated_run(0, inputs)->Ok_0)
        } else {
            Err::<nat, BenchError>(BenchError::TotalOverflow)
        }),
    decreases inputs.len(),
{
    if inputs.len() > 0 {
        lemma_isolated_offset(x, inputs.drop_last());
    }
}

proof fn lemma_isolated_repeat(x: nat, samples: Seq<Seq<u8>>, t: nat, n: nat)
    requires
        x <= usize::MAX,
        isolated_run(0, samples) == Ok::<nat, BenchError>(t),
    ensures
        isolated_run(x, repeat(samples, n)) == (if x + n * t <= usize::MAX {
            Ok::<nat, BenchError>(x + n * t)
        } else {
            Err::<nat, BenchError>(BenchError::TotalOverflow)
        }),
    decreases n,
{
    if n == 0 {
        assert(n * t == 0) by (nonlinear_arith)
            requires n == 0;
    } else {
        let m = (n - 1) as nat;
        assert(n * t == m * t + t) by (nonlinear_arith)
            requires m == n - 1;
        lemma_isolated_repeat(x, samples, t, m);
        lemma_isolated_concat(x, repeat(samples, m), samples);
        if x + m * t <= usize::MAX {
            lemma_isolated_offset(x + m * t, samples);
        }
    }
}

proof fn lemma_isolated_repeat_err(samples: Seq<Seq<u8>>, n: nat)
    requires
        isolated_run(0, samples) is Err,
        n > 0,
    ensures
        isolated_run(0, repeat(samples, n)) == isolated_run(0, samples),
    decreases n,
{
    let m = (n - 1) as nat;
    lemma_isolated_concat(0, repeat(samples, m), samples);
    if m == 0 {
        assert(repeat(samples, m) + samples == samples);
    } else {
        lemma_isolated_repeat_err(samples, m);
    }
}

proof fn lemma_repeat_neutral(samples: Seq<Seq<u8>>, n: nat)
    requires
        forall|i: int| 0 <= i < samples.len() ==> reuse_neutral(#[trigger] samples[i]),
    ensures
        forall|i: int| 0 <= i < repeat(samples, n).len() ==> reuse_neutral(#[trigger] repeat(samples, n)[i]),
    decreases n,
{
    if n > 0 {
        let m = (n - 1) as nat;
        lemma_repeat_neutral(samples, m);
        let a = repeat(samples, m);
        assert forall|i: int| 0 <= i < (a + samples).len() implies reuse_neutral(#[trigger] (a + samples)[i]) by {
            if i < a.len() {
                assert(reuse_neutral(a[i]));
            } else {
                assert(reuse_neutral(samples[i - a.len()]));
            }
        }
    }
}

/// One pass with a shared decoder returns what decoding each sample with a
/// decoder and an output region of its own, and adding up, returns; where
/// every sample decodes the same with a reused decoder as with a fresh one.
pub proof fn lemma_once_is_isolated(samples: Seq<Seq<u8>>)
    requires
        forall|i: int| 0 <= i < samples.len() ==> reuse_neutral(#[trigger] samples[i]),
    ensures
        once_result(samples) == isolated_run(0, samples),
{
    lemma_shared_is_isolated(0, false, samples);
}

/// Zero passes decode nothing and total zero bytes.
pub proof fn lemma_zero_iterations(samples: Seq<Seq<u8>>)
    ensures
        run_result(samples, 0) == Ok::<nat, BenchError>(0),
{
}

/// `n` passes total `n` times what one pass totals, or overflow `usize`
/// where that product does not fit; a pass that fails makes every run of one
/// or more passes fail the same way. This holds where every sample decodes
/// the same with a reused decoder as with a fresh one.
pub proof fn lemma_iterations_scale(samples: Seq<Seq<u8>>, n: nat)
    requires
        forall|i: int| 0 <= i < samples.len() ==> reuse_neutral(#[trigger] samples[i]),
    ensures
        once_result(samples) is Ok ==> run_result(samples, n) == (if n * once_result(samples)->Ok_0 <= usize::MAX {
            Ok::<nat, BenchError>(n * once_result(samples)->Ok_0)
        } else {
            Err::<nat, BenchError>(BenchError::TotalOverflow)
        }),
        once_result(samples) is Err && n > 0 ==> run_result(samples, n) == once_result(samples),
{
    lemma_once_is_isolated(samples);
    lemma_repeat_neutral(samples, n);
    lemma_shared_is_isolated(0, false, repeat(samples, n));
    if once_result(samples) is Ok {
        lemma_isolated_repeat(0, samples, once_result(samples)->Ok_0, n);
    } else if n > 0 {
        lemma_isolated_repeat_err(samples, n);
    }
}

/// A sample that no decoder can decode, fresh or reused, makes one pass and
/// every run of one or more passes fail, whatever the samples before it
/// decoded to.
pub proof fn lemma_undecodable_sample_aborts(samples: Seq<Seq<u8>>, k: int, n: nat)
    requires
        0 <= k < samples.len(),
        sample_outcome(false, samples[k]) is None,
        sample_outcome(true, samples[k]) is None,
        n > 0,
    ensures
        once_result(samples) is Err,
        run_result(samples, n) is Err,
{
    let prefix = samples.take(k + 1);
    assert(prefix.drop_last() == samples.take(k));
    assert(prefix.last() == samples[k]);
    assert(shared_run(0, false, prefix).0 is Err);
    lemma_failure_persists(0, false, prefix, samples);
    lemma_repeat_prefix(samples, 1, n);
    assert(repeat(samples, 1) == samples) by {
        assert(repeat(samples, 0) + samples == samples);
    }
    assert(repeat(samples, n).take(prefix.len() as int) == prefix);
    lemma_failure_persists(0, false, prefix, repeat(samples, n));
}

} // verus!
