//! A counting filter: an approximate, bounded-memory counter of `u64` keys.
//!
//! Each key owns `hash_count` slots of a table of saturating counters, picked
//! by FNV-1a digests seeded with the slot number. An insertion raises the
//! key's slots that are below the new estimate to it (conservative update);
//! the estimate of a key is the least of its slots. Collisions can only raise
//! an estimate: no key is ever counted below its own insertions, up to the
//! counters' saturation value.
use vstd::prelude::*;
use std::hash::Hasher;
use vstd::multiset::Multiset;

verus! {

/// Largest number of hash functions a counter may use.
pub const MAX_HASH_COUNT: u32 = 32;

/// Largest counter width in bits.
pub const MAX_COUNTER_BITS: u32 = 32;

/// Largest table, in bytes, that a counter may allocate (the largest
/// allocation Rust permits on 64-bit targets).
pub const MAX_TABLE_BYTES: u64 = 0x7FFF_FFFF_FFFF_FFFF;

/// Bytes per counter in the table.
pub const COUNTER_BYTES: u64 = 4;

/// Table slots per expected item and hash function, as a fraction
/// (about `1 / ln 2`, which makes the false-positive rate `2^-hash_count`).
pub const SLOTS_PER_HASH_NUM: u64 = 1443;

pub const SLOTS_PER_HASH_DEN: u64 = 1000;

/// The FNV-1a digest of the little-endian bytes of `seed` followed by those of `key`.
pub uninterp spec fn fnv_digest(seed: u64, key: u64) -> u64;

/// Relies on fnv::FnvHasher (64-bit FNV-1a): the digest depends only on the
/// bytes written.
#[verifier::external_body]
fn fnv_hash(seed: u64, key: u64) -> (r: u64)
    ensures
        r == fnv_digest(seed, key),
{
    let mut h = fnv::FnvHasher::default();
    h.write(&seed.to_le_bytes());
    h.write(&key.to_le_bytes());
    h.finish()
}

/// `2^n`.
pub open spec fn pow2(n: nat) -> nat
    decreases n,
{
    if n == 0 {
        1
    } else {
        2 * pow2((n - 1) as nat)
    }
}

/// How a counter is sized.
#[derive(Clone, Copy, Debug, PartialEq, Eq)]
pub struct CounterConfig {
    /// Width of each saturating counter, 1 to `MAX_COUNTER_BITS`.
    pub counter_bits: u32,
    /// Hash functions per key, 1 to `MAX_HASH_COUNT`; the target
    /// false-positive rate is `2^-hash_count`.
    pub hash_count: u32,
    /// Number of distinct keys the counter is sized for.
    pub expected_items: u64,
}

/// Why a counter cannot be built.
#[derive(Clone, Copy, Debug, PartialEq, Eq)]
pub enum CounterError {
    /// The counter width is 0 or above `MAX_COUNTER_BITS`.
    CounterBits,
    /// The hash count is 0 or above `MAX_HASH_COUNT`.
    HashCount,
    /// The table would not fit in memory.
    Capacity,
}

/// Number of table slots for a hash count and an expected number of keys:
/// `expected * hash_count / ln 2`, rounded up, and at least one.
pub open spec fn table_slots(hash_count: nat, expected_items: nat) -> nat {
    let s = (expected_items * hash_count * SLOTS_PER_HASH_NUM + SLOTS_PER_HASH_DEN - 1) as int
        / SLOTS_PER_HASH_DEN as int;
    if s <= 0 {
        1
    } else {
        s as nat
    }
}

/// Whether a table of `slots` counters can be allocated.
pub open spec fn table_fits(slots: nat) -> bool {
    slots * COUNTER_BYTES <= MAX_TABLE_BYTES && slots <= usize::MAX
}

impl CounterConfig {
    pub open spec fn bits_ok(&self) -> bool {
        1 <= self.counter_bits <= MAX_COUNTER_BITS
    }

    pub open spec fn hashes_ok(&self) -> bool {
        1 <= self.hash_count <= MAX_HASH_COUNT
    }

    pub open spec fn slots(&self) -> nat {
        table_slots(self.hash_count as nat, self.expected_items as nat)
    }
}

/// An approximate counter of `u64` keys.
pub struct ApproximateCounter {
    table: Vec<u32>,
    hash_count: u32,
    max_count: u32,
    inserted: Ghost<Multiset<u64>>,
}

/// The smaller of two naturals.
pub open spec fn min_nat(a: nat, b: nat) -> nat {
    if a <= b {
        a
    } else {
        b
    }
}

impl ApproximateCounter {
    /// The counters.
    pub closed spec fn table(&self) -> Seq<u32> {
        self.table@
    }

    /// Number of hash functions.
    pub closed spec fn hashes(&self) -> nat {
        self.hash_count as nat
    }

    /// Value at which counters saturate.
    pub closed spec fn cap(&self) -> nat {
        self.max_count as nat
    }

    /// Every key inserted so far, with its multiplicity.
    pub closed spec fn inserted(&self) -> Multiset<u64> {
        self.inserted@
    }

    /// The table slot of `x` for hash function `i`.
    pub open spec fn slot(&self, x: u64, i: nat) -> int {
        (fnv_digest(i as u64, x) as int) % (self.table().len() as int)
    }

    /// Whether table slot `j` is one of the slots of `x`.
    pub open spec fn is_slot_of(&self, x: u64, j: int) -> bool {
        exists|i: nat| i < self.hashes() && #[trigger] self.slot(x, i) == j
    }

    /// The least of the first `n` slots of `x` in table `t`, and at most the cap.
    pub open spec fn min_over(&self, t: Seq<u32>, x: u64, n: nat) -> nat
        decreases n,
    {
        if n == 0 {
            self.cap()
        } else {
            min_nat(self.min_over(t, x, (n - 1) as nat), t[self.slot(x, (n - 1) as nat)] as nat)
        }
    }

    /// The estimate of `x` in table `t`.
    pub open spec fn estimate_in(&self, t: Seq<u32>, x: u64) -> nat {
        self.min_over(t, x, self.hashes())
    }

    /// The current estimate of `x`.
    pub open spec fn estimate_spec(&self, x: u64) -> nat {
        self.estimate_in(self.table(), x)
    }

    /// The table after one insertion of `x` into table `t`: each slot of `x`
    /// below the raised estimate is set to it.
    pub open spec fn bumped(&self, t: Seq<u32>, x: u64) -> Seq<u32> {
        let nv = min_nat(self.estimate_in(t, x) + 1, self.cap());
        Seq::new(
            t.len(),
            |j: int|
                if self.is_slot_of(x, j) && t[j] < nv {
                    nv as u32
                } else {
                    t[j]
                },
        )
    }

    /// The parameters of the two counters agree.
    pub open spec fn same_shape(&self, other: &ApproximateCounter) -> bool {
        &&& self.table().len() == other.table().len()
        &&& self.hashes() == other.hashes()
        &&& self.cap() == other.cap()
    }

    pub closed spec fn wf(&self) -> bool {
        &&& self.table@.len() >= 1
        &&& 1 <= self.hash_count <= MAX_HASH_COUNT
        &&& self.max_count >= 1
        &&& forall|j: int| 0 <= j < self.table@.len() ==> #[trigger] self.table@[j] <= self.max_count
        &&& forall|x: u64, i: nat|
            i < self.hashes() ==> #[trigger] self.table@[self.slot(x, i)] >= min_nat(
                self.inserted@.count(x),
                self.cap(),
            )
    }

    proof fn lemma_min_over_lower(&self, t: Seq<u32>, x: u64, n: nat, lb: nat)
        requires
            lb <= self.cap(),
            forall|i: nat| i < n ==> #[trigger] t[self.slot(x, i)] >= lb,
        ensures
            self.min_over(t, x, n) >= lb,
        decreases n,
    {
        if n > 0 {
            self.lemma_min_over_lower(t, x, (n - 1) as nat, lb);
            assert(t[self.slot(x, (n - 1) as nat)] >= lb);
        }
    }

    proof fn lemma_min_over_monotone(
        a: &ApproximateCounter,
        b: &ApproximateCounter,
        t1: Seq<u32>,
        t2: Seq<u32>,
        x: u64,
        n: nat,
    )
        requires
            a.same_shape(b),
            t1.len() == t2.len(),
            forall|j: int| 0 <= j < t1.len() ==> #[trigger] t1[j] <= t2[j],
            a.table().len() == t1.len(),
            t1.len() >= 1,
        ensures
            a.min_over(t1, x, n) <= b.min_over(t2, x, n),
        decreases n,
    {
        if n > 0 {
            Self::lemma_min_over_monotone(a, b, t1, t2, x, (n - 1) as nat);
            let j = a.slot(x, (n - 1) as nat);
            assert(j == b.slot(x, (n - 1) as nat));
            assert(0 <= j < t1.len());
            assert(t1[j] <= t2[j]);
        }
    }

    proof fn lemma_min_over_cap(&self, t: Seq<u32>, x: u64, n: nat)
        ensures
            self.min_over(t, x, n) <= self.cap(),
        decreases n,
    {
        if n > 0 {
            self.lemma_min_over_cap(t, x, (n - 1) as nat);
        }
    }

    /// Builds an empty counter sized by `config`.
    pub fn new(config: CounterConfig) -> (r: Result<ApproximateCounter, CounterError>)
        ensures
            !config.bits_ok() ==> r == Err::<ApproximateCounter, CounterError>(
                CounterError::CounterBits,
            ),
            config.bits_ok() && !config.hashes_ok() ==> r == Err::<
                ApproximateCounter,
                CounterError,
            >(CounterError::HashCount),
            config.bits_ok() && config.hashes_ok() && !table_fits(config.slots()) ==> r == Err::<
                ApproximateCounter,
                CounterError,
            >(CounterError::Capacity),
            config.bits_ok() && config.hashes_ok() && table_fits(config.slots()) ==> r is Ok,
            r matches Ok(c) ==> {
                &&& c.wf()
                &&& c.table().len() == config.slots()
                &&& c.hashes() == config.hash_count
                &&& c.cap() + 1 == pow2(config.counter_bits as nat)
                &&& c.inserted() == Multiset::<u64>::empty()
                &&& forall|j: int| 0 <= j < c.table().len() ==> #[trigger] c.table()[j] == 0
            },
    {
        if config.counter_bits < 1 || config.counter_bits > MAX_COUNTER_BITS {
            return Err(CounterError::CounterBits);
        }
        if config.hash_count < 1 || config.hash_count > MAX_HASH_COUNT {
            return Err(CounterError::HashCount);
        }
        assert((config.expected_items as int) * (config.hash_count as int) * (SLOTS_PER_HASH_NUM as int)
            <= 0x1_0000_0000_0000_0000 * 32 * 1443) by (nonlinear_arith)
            requires
                config.expected_items <= 0xFFFF_FFFF_FFFF_FFFFu64,
                config.hash_count <= 32,
        ;
        let wide: u128 = (config.expected_items as u128) * (config.hash_count as u128) * (
        SLOTS_PER_HASH_NUM as u128) + (SLOTS_PER_HASH_DEN as u128) - 1;
        let mut slots: u128 = wide / (SLOTS_PER_HASH_DEN as u128);
        if slots == 0 {
            slots = 1;
        }
        assert(slots == config.slots());
        if slots > (MAX_TABLE_BYTES / COUNTER_BYTES) as u128 || slots > usize::MAX as u128 {
            return Err(CounterError::Capacity);
        }
        let n = slots as usize;
        let mut p: u64 = 1;
        let mut i: u32 = 0;
        while i < config.counter_bits
            invariant
                i <= config.counter_bits <= MAX_COUNTER_BITS,
                p == pow2(i as nat),
                p <= 0x1_0000_0000u64,
            decreases config.counter_bits - i,
        {
            assert(p <= 0x8000_0000u64) by {
                lemma_pow2_double_bound(i as nat);
            }
            p = p * 2;
            i = i + 1;
        }
        assert(p >= 2) by {
            lemma_pow2_double_bound(0);
            lemma_pow2_monotone(1, config.counter_bits as nat);
        }
        let table: Vec<u32> = vec![0u32; n];
        let c = ApproximateCounter {
            table,
            hash_count: config.hash_count,
            max_count: (p - 1) as u32,
            inserted: Ghost(Multiset::empty()),
        };
        assert forall|x: u64, i: nat| i < c.hashes() implies #[trigger] c.table@[c.slot(x, i)] >= min_nat(
            c.inserted@.count(x),
            c.cap(),
        ) by {
            assert(0 <= c.slot(x, i) < c.table@.len());
        }
        Ok(c)
    }

    /// The current estimate of `x`; never below the number of insertions of
    /// `x`, up to the saturation value.
    pub fn estimate(&self, x: u64) -> (r: u32)
        requires
            self.wf(),
        ensures
            r == self.estimate_spec(x),
    {
        let n = self.table.len();
        let mut v: u32 = self.max_count;
        let mut i: u32 = 0;
        while i < self.hash_count
            invariant
                self.wf(),
                n == self.table@.len(),
                i <= self.hash_count,
                v == self.min_over(self.table@, x, i as nat),
            decreases self.hash_count - i,
        {
            let j = (fnv_hash(i as u64, x) % (n as u64)) as usize;
            assert(j == self.slot(x, i as nat));
            let t = self.table[j];
            if t < v {
                v = t;
            }
            i = i + 1;
        }
        v
    }

    /// Records one observation of `x` and returns its updated estimate.
    pub fn insert_and_get_count(&mut self, x: u64) -> (r: u32)
        requires
            old(self).wf(),
        ensures
            final(self).wf(),
            final(self).same_shape(&*old(self)),
            final(self).table() == old(self).bumped(old(self).table(), x),
            final(self).inserted() == old(self).inserted().insert(x),
            r == final(self).estimate_spec(x),
            forall|y: u64| #[trigger] final(self).estimate_spec(y) >= old(self).estimate_spec(y),
    {
        let ghost old_t = self.table@;
        let m = self.estimate(x);
        let nv: u32 = if m < self.max_count {
            m + 1
        } else {
            self.max_count
        };
        proof {
            self.lemma_min_over_cap(old_t, x, self.hashes());
        }
        assert(nv == min_nat(self.estimate_in(old_t, x) + 1, self.cap()));
        let n = self.table.len();
        let mut i: u32 = 0;
        while i < self.hash_count
            invariant
                old_t == old(self).table@,
                self.hash_count == old(self).hash_count,
                self.max_count == old(self).max_count,
                self.inserted == old(self).inserted,
                n == self.table@.len(),
                n == old_t.len(),
                n >= 1,
                i <= self.hash_count,
                nv == min_nat(old(self).estimate_in(old_t, x) + 1, old(self).cap()),
                forall|j: int|
                    0 <= j < n ==> #[trigger] self.table@[j] == if (exists|i2: nat|
                        i2 < i && #[trigger] old(self).slot(x, i2) == j) && old_t[j] < nv {
                        nv
                    } else {
                        old_t[j]
                    },
            decreases self.hash_count - i,
        {
            let j = (fnv_hash(i as u64, x) % (n as u64)) as usize;
            assert(j == old(self).slot(x, i as nat));
            if self.table[j] < nv {
                self.table.set(j, nv);
            }
            assert forall|j2: int| 0 <= j2 < n implies #[trigger] self.table@[j2] == if (exists|
                i2: nat,
            | i2 < i + 1 && #[trigger] old(self).slot(x, i2) == j2) && old_t[j2] < nv {
                nv
            } else {
                old_t[j2]
            } by {
                if j2 == j {
                    assert(old(self).slot(x, i as nat) == j2);
                } else {
                    if exists|i2: nat| i2 < i + 1 && #[trigger] old(self).slot(x, i2) == j2 {
                        let i2 = choose|i2: nat| i2 < i + 1 && #[trigger] old(self).slot(x, i2) == j2;
                        assert(i2 < i);
                    }
                }
            }
            i = i + 1;
        }
        proof {
            let new_t = self.table@;
            assert(new_t =~= old(self).bumped(old_t, x));
            self.inserted = Ghost(self.inserted@.insert(x));
            assert forall|j: int| 0 <= j < new_t.len() implies #[trigger] old_t[j] <= new_t[j] by {}
            assert forall|y: u64, k: nat| k < self.hashes() implies #[trigger] self.table@[self.slot(
                y,
                k,
            )] >= min_nat(self.inserted@.count(y), self.cap()) by {
                let j = self.slot(y, k);
                assert(0 <= j < n);
                assert(old_t[old(self).slot(y, k)] >= min_nat(old(self).inserted@.count(y), old(self).cap()));
                if y == x {
                    assert(old(self).is_slot_of(x, j));
                    old(self).lemma_min_over_lower(
                        old_t,
                        x,
                        old(self).hashes(),
                        min_nat(old(self).inserted@.count(x), old(self).cap()),
                    );
                }
            }
            assert forall|y: u64| #[trigger] self.estimate_spec(y) >= old(self).estimate_spec(y) by {
                Self::lemma_min_over_monotone(&*old(self), &*self, old_t, new_t, y, old(self).hashes());
            }
        }
        self.estimate(x)
    }

    /// No key is estimated below the number of times it was inserted, up to
    /// the saturation value of the counters.
    pub proof fn lemma_no_undercount(&self, x: u64)
        requires
            self.wf(),
        ensures
            self.estimate_spec(x) >= min_nat(self.inserted().count(x), self.cap()),
    {
        self.lemma_min_over_lower(
            self.table(),
            x,
            self.hashes(),
            min_nat(self.inserted().count(x), self.cap()),
        );
    }

    /// Two counters of the same shape agree on every spec function of a table.
    pub proof fn lemma_same_shape(a: &ApproximateCounter, b: &ApproximateCounter)
        requires
            a.same_shape(b),
        ensures
            forall|t: Seq<u32>, x: u64| #[trigger] a.estimate_in(t, x) == b.estimate_in(t, x),
            forall|t: Seq<u32>, x: u64| #[trigger] a.bumped(t, x) == b.bumped(t, x),
    {
        assert forall|t: Seq<u32>, x: u64| #[trigger] a.estimate_in(t, x) == b.estimate_in(t, x) by {
            Self::lemma_min_over_same_shape(a, b, t, x, a.hashes());
        }
        assert forall|t: Seq<u32>, x: u64| #[trigger] a.bumped(t, x) == b.bumped(t, x) by {
            Self::lemma_min_over_same_shape(a, b, t, x, a.hashes());
            assert forall|j: int| #[trigger] a.is_slot_of(x, j) == b.is_slot_of(x, j) by {
                if a.is_slot_of(x, j) {
                    let i = choose|i: nat| i < a.hashes() && #[trigger] a.slot(x, i) == j;
                    assert(b.slot(x, i) == j);
                }
                if b.is_slot_of(x, j) {
                    let i = choose|i: nat| i < b.hashes() && #[trigger] b.slot(x, i) == j;
                    assert(a.slot(x, i) == j);
                }
            }
            assert(a.bumped(t, x) =~= b.bumped(t, x));
        }
    }

    proof fn lemma_min_over_same_shape(
        a: &ApproximateCounter,
        b: &ApproximateCounter,
        t: Seq<u32>,
        x: u64,
        n: nat,
    )
        requires
            a.same_shape(b),
        ensures
            a.min_over(t, x, n) == b.min_over(t, x, n),
        decreases n,
    {
        if n > 0 {
            Self::lemma_min_over_same_shape(a, b, t, x, (n - 1) as nat);
            assert(a.slot(x, (n - 1) as nat) == b.slot(x, (n - 1) as nat));
        }
    }

    /// The value at which counters saturate.
    pub fn max_count(&self) -> (r: u32)
        ensures
            r == self.cap(),
    {
        self.max_count
    }
}

proof fn lemma_pow2_double_bound(n: nat)
    ensures
        pow2(n) >= 1,
        n < 32 ==> pow2(n) <= 0x8000_0000,
    decreases n,
{
    if n > 0 {
        lemma_pow2_double_bound((n - 1) as nat);
    }
    if n < 32 {
        lemma_pow2_monotone(n, 31);
        reveal_with_fuel(pow2, 32);
    }
}

proof fn lemma_pow2_monotone(a: nat, b: nat)
    requires
        a <= b,
    ensures
        pow2(a) <= pow2(b),
    decreases b,
{
    if a < b {
        lemma_pow2_monotone(a, (b - 1) as nat);
        lemma_pow2_positive((b - 1) as nat);
    }
}

proof fn lemma_pow2_positive(n: nat)
    ensures
        pow2(n) >= 1,
    decreases n,
{
    if n > 0 {
        lemma_pow2_positive((n - 1) as nat);
    }
}

} // verus!
