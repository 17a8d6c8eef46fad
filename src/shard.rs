//! Routing of families to shards, and the shard: one counter and the
//! families of its own that reached the minimum coverage.
use vstd::prelude::*;
use vstd::multiset::Multiset;
use crate::codec::{
    all_bases, all_codes, bases_of, codes_of, lemma_all_t, lemma_bases_of_value,
    lemma_pow4_max, lemma_pow4_monotone, lemma_value_of_bases, middle, pow4,
    value_of, KmerCodec, MAX_KMER_LENGTH,
};
use crate::counter::{table_fits, ApproximateCounter, CounterConfig, CounterError};
use crate::keyset::KeySet;
use crate::classify::{
    bucket_of, classify_family, family_record, hist_add, hist_view, lemma_hist_add_len,
    Classification, ClassificationRecord, Thresholds,
};

verus! {

/// The shard that owns a family key.
pub open spec fn shard_of_spec(key: nat, shard_count: nat) -> nat {
    key % shard_count
}

/// The shard that owns a family key: the key modulo the number of shards.
pub fn shard_of(key: u64, shard_count: u64) -> (r: u64)
    requires
        shard_count > 0,
    ensures
        r == shard_of_spec(key as nat, shard_count as nat),
{
    key % shard_count
}

/// A k-mer, each of its middle-base variants, and its reverse complement are
/// routed to the same shard, which depends on the family key and the number
/// of shards alone.
pub proof fn lemma_family_routed_together(codec: KmerCodec, x: nat, b: nat, shard_count: nat)
    requires
        codec.wf(),
        codec.valid(x),
        b < 4,
        shard_count > 0,
    ensures
        shard_of_spec(codec.family_key_spec(codec.with_middle_base_spec(x, b)), shard_count)
            == shard_of_spec(codec.family_key_spec(x), shard_count),
        shard_of_spec(codec.family_key_spec(codec.reverse_complement_spec(x)), shard_count)
            == shard_of_spec(codec.family_key_spec(x), shard_count),
{
    codec.lemma_family_key_of_variant(x, b);
    codec.lemma_canonical_idempotent_and_symmetric(x);
}

/// The counters and the candidate families of a shard.
pub type ShardState = (Seq<u32>, Set<u64>);

/// One shard: a counter of the canonical k-mers of the families it owns, and
/// the owned families that reached the minimum coverage.
pub struct Shard {
    id: u64,
    shard_count: u64,
    codec: KmerCodec,
    min_coverage: u32,
    counter: ApproximateCounter,
    candidates: KeySet,
}

impl Shard {
    pub closed spec fn id_spec(&self) -> nat {
        self.id as nat
    }

    pub closed spec fn count_spec(&self) -> nat {
        self.shard_count as nat
    }

    pub closed spec fn codec_spec(&self) -> KmerCodec {
        self.codec
    }

    pub closed spec fn min_coverage_spec(&self) -> nat {
        self.min_coverage as nat
    }

    pub closed spec fn counter_spec(&self) -> ApproximateCounter {
        self.counter
    }

    pub closed spec fn candidates_spec(&self) -> Set<u64> {
        self.candidates@
    }

    /// The counters and the candidates.
    pub open spec fn state(&self) -> ShardState {
        (self.counter_spec().table(), self.candidates_spec())
    }

    /// The shards have the same parameters; their states may differ.
    pub open spec fn same_params(&self, other: &Shard) -> bool {
        &&& self.id_spec() == other.id_spec()
        &&& self.count_spec() == other.count_spec()
        &&& self.codec_spec() == other.codec_spec()
        &&& self.min_coverage_spec() == other.min_coverage_spec()
        &&& self.counter_spec().same_shape(&other.counter_spec())
    }

    /// A packed k-mer whose middle base is A.
    pub open spec fn is_family_key(&self, c: u64) -> bool {
        &&& self.codec_spec().valid(c as nat)
        &&& self.codec_spec().kmer(c as nat)[middle(self.codec_spec().len()) as int] == 0
    }

    pub closed spec fn wf(&self) -> bool {
        &&& self.codec.wf()
        &&& self.shard_count >= 1
        &&& self.id < self.shard_count
        &&& self.counter.wf()
        &&& forall|c: u64| #[trigger]
            self.candidates@.contains(c) ==> self.is_family_key(c) && c % self.shard_count
                == self.id
    }

    /// Whether this shard owns the family of the k-mer `x`.
    pub open spec fn owns(&self, x: nat) -> bool {
        shard_of_spec(self.codec_spec().family_key_spec(x), self.count_spec()) == self.id_spec()
    }

    /// The state after observing the k-mer `x` in state `st`: an owned k-mer
    /// is counted on its canonical strand, and its family becomes a candidate
    /// whenever the count returned is at least the minimum coverage (so a
    /// count that jumps past the threshold through a collision still records
    /// it; a family already recorded stays recorded once).
    pub open spec fn step(&self, st: ShardState, x: nat) -> ShardState {
        if !self.owns(x) {
            st
        } else {
            let c = self.codec_spec().canonical_spec(x) as u64;
            let t = self.counter_spec().bumped(st.0, c);
            if self.counter_spec().estimate_in(t, c) >= self.min_coverage_spec() {
                (t, st.1.insert(self.codec_spec().family_key_spec(x) as u64))
            } else {
                (t, st.1)
            }
        }
    }

    /// The window of `k` bytes of `read` at `start`.
    pub open spec fn window(&self, read: Seq<u8>, start: int) -> Seq<u8> {
        read.subrange(start, start + self.codec_spec().len())
    }

    /// Number of windows of `k` bytes in `read`.
    pub open spec fn window_count(&self, read: Seq<u8>) -> nat {
        if read.len() >= self.codec_spec().len() {
            (read.len() - self.codec_spec().len() + 1) as nat
        } else {
            0
        }
    }

    /// The state after observing the first `n` windows of `read`, skipping
    /// windows that hold a byte other than a nucleotide letter.
    pub open spec fn observe_windows(&self, st: ShardState, read: Seq<u8>, n: nat) -> ShardState
        decreases n,
    {
        if n == 0 {
            st
        } else {
            let st2 = self.observe_windows(st, read, (n - 1) as nat);
            let w = self.window(read, n - 1);
            if all_bases(w) {
                self.step(st2, value_of(codes_of(w)))
            } else {
                st2
            }
        }
    }

    /// The counts of the four middle-base variants of the family `key`, each
    /// looked up on its own canonical strand.
    pub open spec fn family_counts_spec(&self, key: nat) -> Seq<u32> {
        Seq::new(
            4,
            |b: int|
                self.counter_spec().estimate_spec(
                    self.codec_spec().canonical_spec(
                        self.codec_spec().with_middle_base_spec(key, b as nat),
                    ) as u64,
                ) as u32,
        )
    }

    /// The records of the families `keys`, in order.
    pub open spec fn records_of(&self, th: Thresholds, keys: Seq<u64>) -> Seq<ClassificationRecord>
        decreases keys.len(),
    {
        if keys.len() == 0 {
            Seq::empty()
        } else {
            let r = self.records_of(th, keys.drop_last());
            match family_record(
                self.codec_spec(),
                th,
                keys.last() as nat,
                self.family_counts_spec(keys.last() as nat),
            ) {
                Some(x) => r.push(x),
                None => r,
            }
        }
    }

    /// The histogram of the counts of the variants of the families `keys`.
    pub open spec fn histogram_of(&self, keys: Seq<u64>, size: nat) -> Seq<nat>
        decreases keys.len(),
    {
        if keys.len() == 0 {
            Seq::new(size, |j: int| 0nat)
        } else {
            hist_add(
                self.histogram_of(keys.drop_last(), size),
                self.family_counts_spec(keys.last() as nat),
                4,
            )
        }
    }

    proof fn lemma_step_same_params(a: &Shard, b: &Shard)
        requires
            a.same_params(b),
        ensures
            forall|st: ShardState, x: nat| #[trigger] a.step(st, x) == b.step(st, x),
    {
        ApproximateCounter::lemma_same_shape(&a.counter_spec(), &b.counter_spec());
    }

    proof fn lemma_observe_windows_same_params(a: &Shard, b: &Shard, st: ShardState, read: Seq<u8>, n: nat)
        requires
            a.same_params(b),
        ensures
            a.observe_windows(st, read, n) == b.observe_windows(st, read, n),
        decreases n,
    {
        Self::lemma_step_same_params(a, b);
        if n > 0 {
            Self::lemma_observe_windows_same_params(a, b, st, read, (n - 1) as nat);
        }
    }

    /// Builds shard `id` of `shard_count`, with an empty counter sized by
    /// `config` and no candidates.
    pub fn new(
        id: u64,
        shard_count: u64,
        codec: KmerCodec,
        min_coverage: u32,
        config: CounterConfig,
    ) -> (r: Result<Shard, CounterError>)
        requires
            codec.wf(),
            id < shard_count,
        ensures
            !config.bits_ok() ==> r == Err::<Shard, CounterError>(CounterError::CounterBits),
            config.bits_ok() && !config.hashes_ok() ==> r == Err::<Shard, CounterError>(
                CounterError::HashCount,
            ),
            config.bits_ok() && config.hashes_ok() && !table_fits(config.slots()) ==> r == Err::<
                Shard,
                CounterError,
            >(CounterError::Capacity),
            config.bits_ok() && config.hashes_ok() && table_fits(config.slots()) ==> r is Ok,
            r matches Ok(s) ==> {
                &&& s.wf()
                &&& s.id_spec() == id
                &&& s.count_spec() == shard_count
                &&& s.codec_spec() == codec
                &&& s.min_coverage_spec() == min_coverage
                &&& s.counter_spec().table().len() == config.slots()
                &&& s.counter_spec().hashes() == config.hash_count
                &&& s.counter_spec().inserted() == Multiset::<u64>::empty()
                &&& forall|j: int|
                    0 <= j < s.counter_spec().table().len() ==> #[trigger] s.counter_spec().table()[j]
                        == 0
                &&& s.candidates_spec() == Set::<u64>::empty()
            },
    {
        match ApproximateCounter::new(config) {
            Ok(counter) => Ok(Shard {
                id,
                shard_count,
                codec,
                min_coverage,
                counter,
                candidates: KeySet::new(),
            }),
            Err(e) => Err(e),
        }
    }

    /// Observes one packed k-mer; a k-mer of a family this shard does not own
    /// is ignored.
    pub fn observe(&mut self, x: u64)
        requires
            old(self).wf(),
            old(self).codec_spec().valid(x as nat),
        ensures
            final(self).wf(),
            final(self).same_params(&*old(self)),
            final(self).state() == old(self).step(old(self).state(), x as nat),
    {
        let fk = self.codec.family_key(x);
        if fk % self.shard_count != self.id {
            return;
        }
        let c = self.codec.canonical(x);
        let n = self.counter.insert_and_get_count(c);
        proof {
            ApproximateCounter::lemma_same_shape(&self.counter, &old(self).counter);
        }
        if n >= self.min_coverage {
            proof {
                self.codec.lemma_len();
                let k = self.codec.len();
                let cv = self.codec.canonical_spec(x as nat);
                lemma_value_of_bases(cv, k);
                let masked = bases_of(cv, k).update(middle(k) as int, 0);
                assert(all_codes(masked));
                lemma_bases_of_value(masked);
            }
            self.candidates.insert(fk);
        }
    }

    /// Observes every window of `k` bytes of `read`, from the first on;
    /// windows that hold a byte other than a nucleotide letter are skipped.
    pub fn observe_read(&mut self, read: &[u8])
        requires
            old(self).wf(),
        ensures
            final(self).wf(),
            final(self).same_params(&*old(self)),
            final(self).state() == old(self).observe_windows(
                old(self).state(),
                read@,
                old(self).window_count(read@),
            ),
    {
        let k = self.codec.kmer_length();
        let n = read.len();
        if n < k {
            return;
        }
        proof {
            self.codec.lemma_len();
        }
        let mut start: usize = 0;
        while start <= n - k
            invariant
                1 <= k,
                self.wf(),
                self.same_params(&*old(self)),
                k == self.codec_spec().len(),
                n == read@.len(),
                k <= n,
                start <= n - k + 1,
                self.state() == old(self).observe_windows(old(self).state(), read@, start as nat),
            decreases n - start,
        {
            match self.codec.encode_at(read, start) {
                Ok(x) => {
                    proof {
                        Self::lemma_step_same_params(&*self, &*old(self));
                    }
                    self.observe(x);
                },
                Err(_) => {},
            }
            start = start + 1;
        }
    }

    /// The counts of the four middle-base variants (A, C, G, T) of the
    /// family `key`, each looked up on its own canonical strand.
    pub fn family_counts(&self, key: u64) -> (r: [u32; 4])
        requires
            self.wf(),
            self.codec_spec().valid(key as nat),
        ensures
            r@ == self.family_counts_spec(key as nat),
    {
        let va = self.codec.with_middle_base(key, 0);
        let vc = self.codec.with_middle_base(key, 1);
        let vg = self.codec.with_middle_base(key, 2);
        let vt = self.codec.with_middle_base(key, 3);
        let ca = self.counter.estimate(self.codec.canonical(va));
        let cc = self.counter.estimate(self.codec.canonical(vc));
        let cg = self.counter.estimate(self.codec.canonical(vg));
        let ct = self.counter.estimate(self.codec.canonical(vt));
        let r = [ca, cc, cg, ct];
        assert(r@ =~= self.family_counts_spec(key as nat));
        r
    }

    /// Classifies the families `keys` in order: the records of those that
    /// pass the rules, and the histogram of the counts of all their variants
    /// over `size` buckets.
    pub fn classify_keys(&self, th: &Thresholds, keys: &Vec<u64>, size: usize) -> (r:
        Classification)
        requires
            self.wf(),
            size >= 1,
            forall|i: int| 0 <= i < keys@.len() ==> self.codec_spec().valid(#[trigger] keys@[i] as nat),
            4 * keys@.len() <= u64::MAX,
        ensures
            r.records@ == self.records_of(*th, keys@),
            r.histogram@.len() == size,
            hist_view(r.histogram@) == self.histogram_of(keys@, size as nat),
    {
        let mut records: Vec<ClassificationRecord> = Vec::new();
        let mut hist: Vec<u64> = Vec::new();
        let mut j: usize = 0;
        while j < size
            invariant
                j <= size,
                hist@.len() == j,
                forall|i: int| 0 <= i < j ==> #[trigger] hist@[i] == 0,
            decreases size - j,
        {
            hist.push(0);
            j = j + 1;
        }
        assert(hist_view(hist@) =~= self.histogram_of(keys@.subrange(0, 0), size as nat));
        let mut i: usize = 0;
        while i < keys.len()
            invariant
                self.wf(),
                size >= 1,
                4 * keys@.len() <= u64::MAX,
                forall|i2: int| 0 <= i2 < keys@.len() ==> self.codec_spec().valid(#[trigger] keys@[i2] as nat),
                i <= keys@.len(),
                hist@.len() == size,
                records@ == self.records_of(*th, keys@.subrange(0, i as int)),
                hist_view(hist@) == self.histogram_of(keys@.subrange(0, i as int), size as nat),
                forall|b: int| 0 <= b < size ==> #[trigger] hist@[b] <= 4 * i,
            decreases keys@.len() - i,
        {
            let key = keys[i];
            let counts = self.family_counts(key);
            let ghost before = hist_view(hist@);
            let mut b: usize = 0;
            while b < 4
                invariant
                    b <= 4,
                    size >= 1,
                    hist@.len() == size,
                    before.len() == size,
                    i < keys@.len(),
                    4 * keys@.len() <= u64::MAX,
                    hist_view(hist@) == hist_add(before, counts@, b as nat),
                    forall|c: int| 0 <= c < size ==> #[trigger] hist@[c] <= 4 * i + b,
                decreases 4 - b,
            {
                let slot = bucket_of(counts[b], size);
                let v = hist[slot] + 1;
                hist.set(slot, v);
                proof {
                    lemma_hist_add_len(before, counts@, b as nat);
                    assert(hist_view(hist@) =~= hist_add(before, counts@, (b + 1) as nat));
                }
                b = b + 1;
            }
            let rec = classify_family(&self.codec, th, key, &counts);
            let ghost prefix = keys@.subrange(0, i as int);
            let ghost next = keys@.subrange(0, i + 1);
            assert(next.drop_last() =~= prefix);
            match rec {
                Some(x) => {
                    records.push(x);
                },
                None => {},
            }
            i = i + 1;
        }
        assert(keys@.subrange(0, keys@.len() as int) =~= keys@);
        Classification { records, histogram: hist }
    }

    /// Classifies every candidate family of this shard, in an order that the
    /// candidate set decides.
    pub fn classify(&self, th: &Thresholds, size: usize) -> (r: Classification)
        requires
            self.wf(),
            size >= 1,
        ensures
            exists|keys: Seq<u64>|
                {
                    &&& keys.to_set() == self.candidates_spec()
                    &&& keys.no_duplicates()
                    &&& r.records@ == self.records_of(*th, keys)
                    &&& hist_view(r.histogram@) == self.histogram_of(keys, size as nat)
                },
            r.histogram@.len() == size,
    {
        let keys = self.candidates.to_vec();
        proof {
            self.lemma_candidate_bound();
            keys@.unique_seq_to_set();
            assert forall|i: int| 0 <= i < keys@.len() implies self.codec_spec().valid(
                #[trigger] keys@[i] as nat,
            ) by {
                assert(keys@.to_set().contains(keys@[i]));
            }
        }
        self.classify_keys(th, &keys, size)
    }

    /// The candidates are distinct family keys owned by this shard, all below
    /// `4^k - 1`, so there are fewer than `2^62` of them.
    pub proof fn lemma_candidate_bound(&self)
        requires
            self.wf(),
        ensures
            self.candidates_spec().finite(),
            self.candidates_spec().len() < 0x4000_0000_0000_0000,
            self.candidates_spec().subset_of(
                Set::<u64>::range(0, (pow4(self.codec_spec().len()) - 1) as u64),
            ),
            pow4(self.codec_spec().len()) <= 0x4000_0000_0000_0000,
            forall|c: u64| #[trigger]
                self.candidates_spec().contains(c) ==> c as nat % self.count_spec() == self.id_spec(),
    {
        self.codec.lemma_len();
        let k = self.codec.len();
        let top = (pow4(k) - 1) as nat;
        lemma_pow4_monotone(k, MAX_KMER_LENGTH as nat);
        lemma_pow4_max();
        lemma_all_t(k);
        let range = Set::<u64>::range(0, top as u64);
        assert forall|c: u64| self.candidates@.contains(c) implies range.contains(c) by {
            assert(self.is_family_key(c));
            if c as nat == top {
                assert(bases_of(top, k)[middle(k) as int] == 3);
            }
        }
        vstd::set_lib::range_set_properties(0u64, top as u64);
        assert(self.candidates@.subset_of(range));
        vstd::set_lib::lemma_len_subset(self.candidates@, range);
    }

    proof fn lemma_hist_add_bound(h: Seq<nat>, counts: Seq<u32>, n: nat)
        requires
            h.len() >= 1,
        ensures
            hist_add(h, counts, n).len() == h.len(),
            forall|j: int| 0 <= j < h.len() ==> #[trigger] hist_add(h, counts, n)[j] <= h[j] + n,
        decreases n,
    {
        if n > 0 {
            Self::lemma_hist_add_bound(h, counts, (n - 1) as nat);
        }
    }

    /// Each bucket of the histogram of `keys` is at most four times their number.
    pub proof fn lemma_histogram_bound(&self, keys: Seq<u64>, size: nat)
        requires
            size >= 1,
        ensures
            self.histogram_of(keys, size).len() == size,
            forall|j: int|
                0 <= j < size ==> #[trigger] self.histogram_of(keys, size)[j] <= 4 * keys.len(),
        decreases keys.len(),
    {
        if keys.len() > 0 {
            self.lemma_histogram_bound(keys.drop_last(), size);
            Self::lemma_hist_add_bound(
                self.histogram_of(keys.drop_last(), size),
                self.family_counts_spec(keys.last() as nat),
                4,
            );
        }
    }
}

} // verus!
