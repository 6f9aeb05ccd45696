use vstd::prelude::*;

verus! {

/// The total number of bytes in `samples`.
pub open spec fn total_len(samples: Seq<Seq<u8>>) -> nat
    decreases samples.len(),
{
    if samples.len() == 0 {
        0
    } else {
        total_len(samples.drop_last()) + samples.last().len()
    }
}

/// An ordered, non-empty, immutable set of compressed samples whose total
/// size fits in `usize`.
pub struct Corpus {
    samples: Vec<Vec<u8>>,
}

impl View for Corpus {
    type V = Seq<Seq<u8>>;

    closed spec fn view(&self) -> Seq<Seq<u8>> {
        self.samples@.map_values(|s: Vec<u8>| s@)
    }
}

impl Corpus {
    pub closed spec fn wf(&self) -> bool {
        &&& self@.len() > 0
        &&& total_len(self@) <= usize::MAX
    }

    /// Builds a corpus from `samples`, kept in the given order; `None` when
    /// there are none, or when their total size does not fit in `usize`.
    pub fn new(samples: Vec<Vec<u8>>) -> (r: Option<Corpus>)
        ensures
            r is Some <==> samples@.len() > 0 && total_len(samples@.map_values(|s: Vec<u8>| s@)) <= usize::MAX,
            r is Some ==> r->Some_0.wf() && r->Some_0@ == samples@.map_values(|s: Vec<u8>| s@),
    {
        let ghost all = samples@.map_values(|s: Vec<u8>| s@);
        if samples.len() == 0 {
            return None;
        }
        let mut total: usize = 0;
        let mut i: usize = 0;
        while i < samples.len()
            invariant
                i <= samples@.len(),
                all == samples@.map_values(|s: Vec<u8>| s@),
                total == total_len(all.take(i as int)),
            decreases samples@.len() - i,
        {
            proof {
                assert(all.take(i as int + 1).drop_last() == all.take(i as int));
            }
            let n = samples[i].len();
            if total > usize::MAX - n {
                proof {
                    lemma_total_len_prefix(all, i as int + 1);
                }
                return None;
            }
            total = total + n;
            i = i + 1;
        }
        proof {
            assert(all.take(i as int) == all);
        }
        Some(Corpus { samples })
    }

    /// The samples, in corpus order.
    pub fn samples(&self) -> (r: &Vec<Vec<u8>>)
        ensures
            r@.map_values(|s: Vec<u8>| s@) == self@,
    {
        &self.samples
    }
}

/// A prefix of `samples` holds no more bytes than the whole.
pub proof fn lemma_total_len_prefix(samples: Seq<Seq<u8>>, k: int)
    requires
        0 <= k <= samples.len(),
    ensures
        total_len(samples.take(k)) <= total_len(samples),
    decreases samples.len(),
{
    if k < samples.len() {
        assert(samples.drop_last().take(k) == samples.take(k));
        lemma_total_len_prefix(samples.drop_last(), k);
    } else {
        assert(samples.take(k) == samples);
    }
}

/// Returns the total size in bytes of the compressed samples.
pub fn get_compressed_size(corpus: &Corpus) -> (r: usize)
    requires
        corpus.wf(),
    ensures
        r == total_len(corpus@),
{
    let samples = corpus.samples();
    let ghost all = corpus@;
    let mut total: usize = 0;
    let mut i: usize = 0;
    while i < samples.len()
        invariant
            i <= samples@.len(),
            all == samples@.map_values(|s: Vec<u8>| s@),
            total_len(all) <= usize::MAX,
            total == total_len(all.take(i as int)),
        decreases samples@.len() - i,
    {
        proof {
            assert(all.take(i as int + 1).drop_last() == all.take(i as int));
            lemma_total_len_prefix(all, i as int + 1);
        }
        total = total + samples[i].len();
        i = i + 1;
    }
    proof {
        assert(all.take(i as int) == all);
    }
    total
}

/// Returns the number of samples in the corpus.
pub fn get_file_count(corpus: &Corpus) -> (r: usize)
    requires
        corpus.wf(),
    ensures
        r == corpus@.len(),
        r > 0,
{
    corpus.samples().len()
}

} // verus!
