//! The sharded engine: every read goes to every shard, each shard keeps the
//! families it owns, and after the last read each shard classifies its own
//! candidates; the records are concatenated and the histograms added.
use vstd::prelude::*;
use crate::codec::{
    lemma_pow4_max, lemma_pow4_monotone, lemma_pow4_positive, pow4, InvalidLength, KmerCodec,
    MAX_KMER_LENGTH,
};
use crate::counter::{table_fits, CounterConfig, CounterError};
use crate::classify::{hist_view, merge_histograms, Classification, ClassificationRecord, Thresholds};
use crate::shard::Shard;

verus! {

/// The configuration of a run.
#[derive(Clone, Copy, Debug, PartialEq, Eq)]
pub struct EngineConfig {
    /// Length of the k-mers; odd.
    pub kmer_length: usize,
    /// Classification thresholds; `min_coverage` also makes a family a candidate.
    pub thresholds: Thresholds,
    /// Number of distinct k-mers expected over all shards.
    pub estimated_total_kmers: u64,
    /// Width of the saturating counters.
    pub counter_bits: u32,
    /// Hash functions per k-mer in each counter.
    pub hash_count: u32,
    /// Number of shards.
    pub shard_count: u64,
    /// Number of histogram buckets; counts beyond the last go to the last.
    pub histogram_size: usize,
}

/// Why a configuration is refused.
#[derive(Clone, Copy, Debug, PartialEq, Eq, Structural)]
pub enum ConfigError {
    EvenKmerLength,
    KmerTooLong,
    NoShards,
    NoHistogramBuckets,
    CounterBits,
    HashCount,
    Capacity,
}

/// The expected number of distinct k-mers per shard: the total over the
/// shards, rounded up.
pub open spec fn per_shard_items(total: nat, shard_count: nat) -> nat {
    if total % shard_count == 0 {
        total / shard_count
    } else {
        total / shard_count + 1
    }
}

impl EngineConfig {
    /// The counter configuration of each shard.
    pub open spec fn counter_config(&self) -> CounterConfig {
        CounterConfig {
            counter_bits: self.counter_bits,
            hash_count: self.hash_count,
            expected_items: per_shard_items(
                self.estimated_total_kmers as nat,
                self.shard_count as nat,
            ) as u64,
        }
    }

    /// The error for this configuration, if any, checked in this order:
    /// k-mer length, shards, histogram, counters.
    pub open spec fn error(&self) -> Option<ConfigError> {
        if self.kmer_length % 2 == 0 {
            Some(ConfigError::EvenKmerLength)
        } else if self.kmer_length > crate::codec::MAX_KMER_LENGTH {
            Some(ConfigError::KmerTooLong)
        } else if self.shard_count == 0 {
            Some(ConfigError::NoShards)
        } else if self.histogram_size == 0 {
            Some(ConfigError::NoHistogramBuckets)
        } else if !self.counter_config().bits_ok() {
            Some(ConfigError::CounterBits)
        } else if !self.counter_config().hashes_ok() {
            Some(ConfigError::HashCount)
        } else if !table_fits(self.counter_config().slots()) {
            Some(ConfigError::Capacity)
        } else {
            None
        }
    }
}

/// The concatenated records of the first `n` shards, each over its own key order.
pub open spec fn all_records(
    shards: Seq<Shard>,
    th: Thresholds,
    orders: Seq<Seq<u64>>,
    n: nat,
) -> Seq<ClassificationRecord>
    decreases n,
{
    if n == 0 {
        Seq::empty()
    } else {
        all_records(shards, th, orders, (n - 1) as nat) + shards[n - 1].records_of(
            th,
            orders[n - 1],
        )
    }
}

/// The index-wise sum of the histograms of the first `n` shards.
pub open spec fn all_histograms(
    shards: Seq<Shard>,
    orders: Seq<Seq<u64>>,
    size: nat,
    n: nat,
) -> Seq<nat>
    decreases n,
{
    if n == 0 {
        Seq::new(size, |j: int| 0nat)
    } else {
        let a = all_histograms(shards, orders, size, (n - 1) as nat);
        let b = shards[n - 1].histogram_of(orders[n - 1], size);
        Seq::new(size, |j: int| a[j] + b[j])
    }
}

/// The candidates of the first `n` shards together.
pub open spec fn all_candidates(shards: Seq<Shard>, n: nat) -> Set<u64>
    decreases n,
{
    if n == 0 {
        Set::empty()
    } else {
        all_candidates(shards, (n - 1) as nat) + shards[n - 1].candidates_spec()
    }
}

/// Total length of the first `n` key orders.
pub open spec fn total_len(orders: Seq<Seq<u64>>, n: nat) -> nat
    decreases n,
{
    if n == 0 {
        0
    } else {
        total_len(orders, (n - 1) as nat) + orders[n - 1].len()
    }
}

/// The run state: one shard per family residue.
pub struct Engine {
    codec: KmerCodec,
    thresholds: Thresholds,
    histogram_size: usize,
    shards: Vec<Shard>,
}

impl Engine {
    pub closed spec fn shards_spec(&self) -> Seq<Shard> {
        self.shards@
    }

    pub closed spec fn codec_spec(&self) -> KmerCodec {
        self.codec
    }

    pub closed spec fn thresholds_spec(&self) -> Thresholds {
        self.thresholds
    }

    pub closed spec fn histogram_size_spec(&self) -> nat {
        self.histogram_size as nat
    }

    pub closed spec fn wf(&self) -> bool {
        &&& self.codec.wf()
        &&& self.histogram_size >= 1
        &&& self.shards@.len() >= 1
        &&& forall|i: int|
            0 <= i < self.shards@.len() ==> {
                &&& (#[trigger] self.shards@[i]).wf()
                &&& self.shards@[i].id_spec() == i
                &&& self.shards@[i].count_spec() == self.shards@.len()
                &&& self.shards@[i].codec_spec() == self.codec
                &&& self.shards@[i].min_coverage_spec() == self.thresholds.min_coverage
            }
    }

    /// Builds the shards of a run, or says why the configuration is refused.
    pub fn new(config: &EngineConfig) -> (r: Result<Engine, ConfigError>)
        ensures
            config.error() matches Some(e) ==> r == Err::<Engine, ConfigError>(e),
            config.error() is None ==> r is Ok,
            r matches Ok(e) ==> {
                &&& e.wf()
                &&& e.shards_spec().len() == config.shard_count
                &&& e.codec_spec().len() == config.kmer_length
                &&& e.thresholds_spec() == config.thresholds
                &&& e.histogram_size_spec() == config.histogram_size
                &&& forall|i: int|
                    0 <= i < e.shards_spec().len() ==> {
                        &&& (#[trigger] e.shards_spec()[i]).candidates_spec() == Set::<u64>::empty()
                        &&& e.shards_spec()[i].counter_spec().table().len()
                            == config.counter_config().slots()
                        &&& forall|j: int|
                            0 <= j < e.shards_spec()[i].counter_spec().table().len()
                                ==> #[trigger] e.shards_spec()[i].counter_spec().table()[j] == 0
                    }
            },
    {
        let codec = match KmerCodec::new(config.kmer_length) {
            Ok(c) => c,
            Err(InvalidLength::Even) => {
                return Err(ConfigError::EvenKmerLength);
            },
            Err(InvalidLength::TooLong) => {
                return Err(ConfigError::KmerTooLong);
            },
        };
        let n = config.shard_count;
        if n == 0 {
            return Err(ConfigError::NoShards);
        }
        if config.histogram_size == 0 {
            return Err(ConfigError::NoHistogramBuckets);
        }
        let total = config.estimated_total_kmers;
        let per_shard = if total % n == 0 {
            total / n
        } else {
            assert(n >= 2);
            assert(total / n < 0xFFFF_FFFF_FFFF_FFFFu64) by (nonlinear_arith)
                requires
                    n >= 2,
                    total <= 0xFFFF_FFFF_FFFF_FFFFu64,
            ;
            total / n + 1
        };
        let counter_config = CounterConfig {
            counter_bits: config.counter_bits,
            hash_count: config.hash_count,
            expected_items: per_shard,
        };
        assert(counter_config == config.counter_config());
        proof {
            codec.lemma_len();
        }
        let mut shards: Vec<Shard> = Vec::new();
        let mut i: u64 = 0;
        while i < n
            invariant
                codec.wf(),
                codec.len() == config.kmer_length,
                counter_config == config.counter_config(),
                n == config.shard_count,
                n >= 1,
                config.kmer_length % 2 == 1,
                config.kmer_length <= MAX_KMER_LENGTH,
                config.histogram_size >= 1,
                i <= n,
                shards@.len() == i,
                i > 0 ==> config.error() is None,
                forall|s: int|
                    0 <= s < i ==> {
                        &&& (#[trigger] shards@[s]).wf()
                        &&& shards@[s].id_spec() == s
                        &&& shards@[s].count_spec() == n
                        &&& shards@[s].codec_spec() == codec
                        &&& shards@[s].min_coverage_spec() == config.thresholds.min_coverage
                        &&& shards@[s].candidates_spec() == Set::<u64>::empty()
                        &&& shards@[s].counter_spec().table().len() == counter_config.slots()
                        &&& forall|j: int|
                            0 <= j < shards@[s].counter_spec().table().len()
                                ==> #[trigger] shards@[s].counter_spec().table()[j] == 0
                    },
            decreases n - i,
        {
            match Shard::new(i, n, codec, config.thresholds.min_coverage, counter_config) {
                Ok(s) => {
                    shards.push(s);
                },
                Err(CounterError::CounterBits) => {
                    return Err(ConfigError::CounterBits);
                },
                Err(CounterError::HashCount) => {
                    return Err(ConfigError::HashCount);
                },
                Err(CounterError::Capacity) => {
                    return Err(ConfigError::Capacity);
                },
            }
            i = i + 1;
        }
        Ok(
            Engine {
                codec,
                thresholds: config.thresholds,
                histogram_size: config.histogram_size,
                shards,
            },
        )
    }

    /// The codec of the run.
    pub fn codec(&self) -> (r: KmerCodec)
        ensures
            r == self.codec_spec(),
    {
        self.codec
    }

    /// Number of shards.
    pub fn shard_count(&self) -> (r: usize)
        ensures
            r == self.shards_spec().len(),
    {
        self.shards.len()
    }

    /// Shard `i`.
    pub fn shard(&self, i: usize) -> (r: &Shard)
        requires
            i < self.shards_spec().len(),
        ensures
            *r == self.shards_spec()[i as int],
    {
        &self.shards[i]
    }

    /// Hands one read to every shard; each keeps the k-mers of its own families.
    pub fn observe_read(&mut self, read: &[u8])
        requires
            old(self).wf(),
        ensures
            final(self).wf(),
            final(self).codec_spec() == old(self).codec_spec(),
            final(self).thresholds_spec() == old(self).thresholds_spec(),
            final(self).histogram_size_spec() == old(self).histogram_size_spec(),
            final(self).shards_spec().len() == old(self).shards_spec().len(),
            forall|i: int|
                0 <= i < old(self).shards_spec().len() ==> {
                    &&& (#[trigger] final(self).shards_spec()[i]).same_params(
                        &old(self).shards_spec()[i],
                    )
                    &&& final(self).shards_spec()[i].state() == old(
                        self,
                    ).shards_spec()[i].observe_windows(
                        old(self).shards_spec()[i].state(),
                        read@,
                        old(self).shards_spec()[i].window_count(read@),
                    )
                },
    {
        let n = self.shards.len();
        let mut i: usize = 0;
        while i < n
            invariant
                n == self.shards@.len(),
                n == old(self).shards@.len(),
                i <= n,
                self.codec == old(self).codec,
                self.thresholds == old(self).thresholds,
                self.histogram_size == old(self).histogram_size,
                self.codec.wf(),
                self.histogram_size >= 1,
                n >= 1,
                forall|s: int|
                    0 <= s < n ==> {
                        &&& (#[trigger] self.shards@[s]).wf()
                        &&& self.shards@[s].same_params(&old(self).shards@[s])
                        &&& old(self).shards@[s].id_spec() == s
                        &&& old(self).shards@[s].count_spec() == n
                        &&& old(self).shards@[s].codec_spec() == self.codec
                        &&& old(self).shards@[s].min_coverage_spec()
                            == self.thresholds.min_coverage
                    },
                forall|s: int|
                    0 <= s < i ==> (#[trigger] self.shards@[s]).state()
                        == old(self).shards@[s].observe_windows(
                        old(self).shards@[s].state(),
                        read@,
                        old(self).shards@[s].window_count(read@),
                    ),
                forall|s: int| i <= s < n ==> #[trigger] self.shards@[s] == old(self).shards@[s],
            decreases n - i,
        {
            self.shards[i].observe_read(read);
            i = i + 1;
        }
    }

    /// Classifies the candidates of every shard: the records of all shards
    /// one after the other, and the index-wise sum of their histograms.
    pub fn finish(&self) -> (r: Classification)
        requires
            self.wf(),
        ensures
            r.histogram@.len() == self.histogram_size_spec(),
            exists|orders: Seq<Seq<u64>>|
                {
                    &&& orders.len() == self.shards_spec().len()
                    &&& forall|i: int|
                        0 <= i < orders.len() ==> {
                            &&& (#[trigger] orders[i]).to_set()
                                == self.shards_spec()[i].candidates_spec()
                            &&& orders[i].no_duplicates()
                        }
                    &&& r.records@ == all_records(
                        self.shards_spec(),
                        self.thresholds_spec(),
                        orders,
                        orders.len(),
                    )
                    &&& hist_view(r.histogram@) == all_histograms(
                        self.shards_spec(),
                        orders,
                        self.histogram_size_spec(),
                        orders.len(),
                    )
                },
    {
        let n = self.shards.len();
        let size = self.histogram_size;
        let mut records: Vec<ClassificationRecord> = Vec::new();
        let mut hist: Vec<u64> = Vec::new();
        let mut j: usize = 0;
        while j < size
            invariant
                j <= size,
                hist@.len() == j,
                forall|i: int| 0 <= i < j ==> #[trigger] hist@[i] == 0,
            decreases size - j,
        {
            hist.push(0);
            j = j + 1;
        }
        let ghost mut orders: Seq<Seq<u64>> = Seq::empty();
        proof {
            self.codec.lemma_len();
            lemma_pow4_monotone(self.codec.len(), MAX_KMER_LENGTH as nat);
            lemma_pow4_max();
            lemma_pow4_positive(self.codec.len());
            assert(hist_view(hist@) =~= all_histograms(self.shards@, orders, size as nat, 0));
        }
        let mut i: usize = 0;
        while i < n
            invariant
                self.wf(),
                n == self.shards@.len(),
                size == self.histogram_size,
                i <= n,
                orders.len() == i,
                hist@.len() == size,
                1 <= pow4(self.codec.len()) <= 0x4000_0000_0000_0000,
                forall|s: int|
                    0 <= s < i ==> {
                        &&& (#[trigger] orders[s]).to_set() == self.shards@[s].candidates_spec()
                        &&& orders[s].no_duplicates()
                    },
                records@ == all_records(self.shards@, self.thresholds, orders, i as nat),
                hist_view(hist@) == all_histograms(self.shards@, orders, size as nat, i as nat),
                forall|b: int| 0 <= b < size ==> #[trigger] hist@[b] <= 4 * total_len(orders, i as nat),
                total_len(orders, i as nat) == all_candidates(self.shards@, i as nat).len(),
                all_candidates(self.shards@, i as nat).finite(),
                all_candidates(self.shards@, i as nat).subset_of(
                    Set::<u64>::range(0, (pow4(self.codec.len()) - 1) as u64),
                ),
                forall|c: u64| #[trigger]
                    all_candidates(self.shards@, i as nat).contains(c) ==> (c as nat % (n as nat))
                        < i,
            decreases n - i,
        {
            let shard = &self.shards[i];
            let mut c = shard.classify(&self.thresholds, size);
            let ghost keys = choose|keys: Seq<u64>|
                {
                    &&& keys.to_set() == shard.candidates_spec()
                    &&& keys.no_duplicates()
                    &&& c.records@ == shard.records_of(self.thresholds, keys)
                    &&& hist_view(c.histogram@) == shard.histogram_of(keys, size as nat)
                };
            let ghost prev_orders = orders;
            let ghost prev_hist = hist@;
            proof {
                orders = orders.push(keys);
                self.lemma_prefix_orders(prev_orders, orders, size as nat, i as nat);
                let cands_before = all_candidates(self.shards@, i as nat);
                let mine = shard.candidates_spec();
                shard.lemma_candidate_bound();
                shard.lemma_histogram_bound(keys, size as nat);
                keys.unique_seq_to_set();
                assert(cands_before.disjoint(mine)) by {
                    assert forall|x: u64| cands_before.contains(x) implies !mine.contains(x) by {
                        if mine.contains(x) {
                            assert(x as nat % (n as nat) == i);
                        }
                    }
                }
                vstd::set_lib::lemma_set_disjoint_lens(cands_before, mine);
                let range = Set::<u64>::range(0, (pow4(self.codec.len()) - 1) as u64);
                vstd::set_lib::range_set_properties(0u64, (pow4(self.codec.len()) - 1) as u64);
                assert((cands_before + mine).subset_of(range));
                vstd::set_lib::lemma_len_subset(cands_before + mine, range);
                assert(orders[i as int] == keys);
                assert(*shard == self.shards@[i as int]);
                assert(keys.len() == mine.len());
                assert(total_len(orders, (i + 1) as nat) == total_len(orders, i as nat) + keys.len());
                assert(all_candidates(self.shards@, (i + 1) as nat) == cands_before + mine);
                assert(total_len(orders, (i + 1) as nat) == all_candidates(
                    self.shards@,
                    (i + 1) as nat,
                ).len());
                assert forall|b: int| 0 <= b < size implies #[trigger] hist@[b] + c.histogram@[b]
                    <= u64::MAX by {
                    assert(hist_view(c.histogram@)[b] == c.histogram@[b]);
                    assert(hist_view(hist@)[b] == hist@[b]);
                }
            }
            records.append(&mut c.records);
            merge_histograms(&mut hist, &c.histogram);
            proof {
                let a = all_histograms(self.shards@, orders, size as nat, i as nat);
                let b = self.shards@[i as int].histogram_of(orders[i as int], size as nat);
                assert(a == hist_view(prev_hist));
                assert(b == hist_view(c.histogram@));
                assert(all_histograms(self.shards@, orders, size as nat, (i + 1) as nat) == Seq::new(
                    size as nat,
                    |j: int| a[j] + b[j],
                ));
                assert(hist_view(hist@) =~= all_histograms(
                    self.shards@,
                    orders,
                    size as nat,
                    (i + 1) as nat,
                ));
                assert forall|b: int| 0 <= b < size implies #[trigger] hist@[b] <= 4 * total_len(
                    orders,
                    (i + 1) as nat,
                ) by {
                    assert(hist_view(c.histogram@)[b] == c.histogram@[b]);
                }
            }
            i = i + 1;
        }
        assert(orders.len() == self.shards@.len());
        assert(records@ == all_records(
            self.shards_spec(),
            self.thresholds_spec(),
            orders,
            orders.len(),
        ));
        assert(hist_view(hist@) == all_histograms(
            self.shards_spec(),
            orders,
            self.histogram_size_spec(),
            orders.len(),
        ));
        assert(forall|s: int|
            0 <= s < orders.len() ==> {
                &&& (#[trigger] orders[s]).to_set() == self.shards_spec()[s].candidates_spec()
                &&& orders[s].no_duplicates()
            });
        Classification { records, histogram: hist }
    }

    proof fn lemma_prefix_orders(
        &self,
        a: Seq<Seq<u64>>,
        b: Seq<Seq<u64>>,
        size: nat,
        m: nat,
    )
        requires
            m <= a.len(),
            a.len() <= b.len(),
            forall|s: int| 0 <= s < a.len() ==> #[trigger] a[s] == b[s],
        ensures
            all_records(self.shards@, self.thresholds, b, m) == all_records(
                self.shards@,
                self.thresholds,
                a,
                m,
            ),
            all_histograms(self.shards@, b, size, m) == all_histograms(self.shards@, a, size, m),
            total_len(b, m) == total_len(a, m),
        decreases m,
    {
        if m > 0 {
            self.lemma_prefix_orders(a, b, size, (m - 1) as nat);
        }
    }
}

} // verus!
