//! Classification of one family from the counts of its four middle-base
//! variants.
//!
//! The counts are scanned in base order A, C, G, T for the best and the
//! second-best count; a count at least the best takes its place (ties go to
//! the later base), and the old best drops to second place only where it
//! exceeds the current second. Thresholds then decide between a paired
//! heterozygous site, a homozygous site, an unpaired heterozygous site, or
//! nothing.
use vstd::prelude::*;
use crate::codec::KmerCodec;

verus! {

/// The thresholds of the classification rules.
#[derive(Clone, Copy, Debug, PartialEq, Eq)]
pub struct Thresholds {
    /// Least count of each allele of a heterozygous site.
    pub min_coverage: u32,
    /// Greatest best count of a heterozygous site; least best count of a
    /// homozygous site.
    pub max_coverage: u32,
    /// Greatest sum of the counts outside the reported alleles.
    pub max_error: u32,
    /// Greatest sum of the reported counts.
    pub max_total_coverage: u32,
    /// Homozygous sites are reported where the packed allele is a multiple
    /// of this; 0 reports none.
    pub hom_modulus: u64,
    /// Unpaired heterozygous sites are reported where the packed allele is a
    /// multiple of this; 0 reports none.
    pub unpaired_modulus: u64,
}

/// What a family is found to be.
#[derive(Clone, Copy, Debug, PartialEq, Eq, Structural, PartialOrd, Ord, Hash)]
pub enum ClassificationRecord {
    /// Two alleles, each with coverage of one haplotype.
    PairedHet { allele_best: u64, count_best: u32, allele_second: u64, count_second: u32 },
    /// One dominant allele.
    Homozygous { allele: u64, count: u32 },
    /// One allele with coverage of one haplotype and no second allele.
    UnpairedHet { allele: u64, count: u32 },
}

/// The outcome of the best / second-best scan over four counts.
#[derive(Clone, Copy, Debug, PartialEq, Eq, Structural)]
pub struct Scan {
    pub best: u32,
    pub best_base: u64,
    pub second: u32,
    pub second_base: u64,
    pub total: u64,
}

/// The scan state `(best, best_base, second, second_base, total)` after the
/// first `n` counts.
pub open spec fn scan_spec(counts: Seq<u32>, n: nat) -> (nat, nat, nat, nat, nat)
    decreases n,
{
    if n == 0 {
        (0, 0, 0, 0, 0)
    } else {
        let (best, bb, second, sb, total) = scan_spec(counts, (n - 1) as nat);
        let c = counts[n - 1] as nat;
        let base = (n - 1) as nat;
        if c >= best {
            if best > second {
                (c, base, best, bb, total + c)
            } else {
                (c, base, second, sb, total + c)
            }
        } else if c >= second {
            (best, bb, c, base, total + c)
        } else {
            (best, bb, second, sb, total + c)
        }
    }
}

/// The scan over all four counts.
pub open spec fn full_scan(counts: Seq<u32>) -> (nat, nat, nat, nat, nat) {
    scan_spec(counts, 4)
}

pub open spec fn is_paired_het(th: Thresholds, best: nat, second: nat, total: nat) -> bool {
    &&& best >= th.min_coverage
    &&& second >= th.min_coverage
    &&& best <= th.max_coverage
    &&& total - best - second <= th.max_error
    &&& best + second <= th.max_total_coverage
}

pub open spec fn is_homozygous(th: Thresholds, best: nat, total: nat) -> bool {
    &&& best >= th.max_coverage
    &&& best <= th.max_total_coverage
    &&& total - best <= th.max_error
}

pub open spec fn is_unpaired_het(th: Thresholds, best: nat, total: nat) -> bool {
    &&& best >= th.min_coverage
    &&& best <= th.max_coverage
    &&& total - best <= th.max_error
}

/// Whether a site with this packed allele is reported under `modulus`.
pub open spec fn sampled(modulus: u64, allele: nat) -> bool {
    modulus != 0 && allele % (modulus as nat) == 0
}

/// The record of the family with key `key` and counts `counts` (by base).
pub open spec fn family_record(
    codec: KmerCodec,
    th: Thresholds,
    key: nat,
    counts: Seq<u32>,
) -> Option<ClassificationRecord> {
    let (best, bb, second, sb, total) = full_scan(counts);
    let a1 = codec.with_middle_base_spec(key, bb);
    let a2 = codec.with_middle_base_spec(key, sb);
    if is_paired_het(th, best, second, total) {
        Some(
            ClassificationRecord::PairedHet {
                allele_best: a1 as u64,
                count_best: best as u32,
                allele_second: a2 as u64,
                count_second: second as u32,
            },
        )
    } else if is_homozygous(th, best, total) {
        if sampled(th.hom_modulus, a1) {
            Some(ClassificationRecord::Homozygous { allele: a1 as u64, count: best as u32 })
        } else {
            None
        }
    } else if is_unpaired_het(th, best, total) && sampled(th.unpaired_modulus, a1) {
        Some(ClassificationRecord::UnpairedHet { allele: a1 as u64, count: best as u32 })
    } else {
        None
    }
}

proof fn lemma_scan_bounds(counts: Seq<u32>, n: nat)
    requires
        n <= counts.len(),
        n <= 4,
    ensures
        ({
            let (best, bb, second, sb, total) = scan_spec(counts, n);
            &&& best <= u32::MAX
            &&& second <= best
            &&& best + second <= total
            &&& total <= n * 0xFFFF_FFFF
            &&& bb < 4
            &&& sb < 4
            &&& (n > 0 ==> bb < n)
            &&& (n > 0 ==> sb < n)
        }),
    decreases n,
{
    if n > 0 {
        lemma_scan_bounds(counts, (n - 1) as nat);
    }
}

/// Scans four counts, by base A, C, G, T, for the best and second-best.
pub fn scan(counts: &[u32; 4]) -> (r: Scan)
    ensures
        (r.best as nat, r.best_base as nat, r.second as nat, r.second_base as nat, r.total as nat)
            == full_scan(counts@),
        r.best_base < 4,
        r.second_base < 4,
        r.second <= r.best,
        r.best as nat + r.second as nat <= r.total,
{
    let mut s = Scan { best: 0, best_base: 0, second: 0, second_base: 0, total: 0 };
    let mut i: usize = 0;
    while i < 4
        invariant
            i <= 4,
            counts@.len() == 4,
            (s.best as nat, s.best_base as nat, s.second as nat, s.second_base as nat, s.total as nat)
                == scan_spec(counts@, i as nat),
        decreases 4 - i,
    {
        proof {
            lemma_scan_bounds(counts@, i as nat);
        }
        let c = counts[i];
        let base = i as u64;
        if c >= s.best {
            if s.best > s.second {
                s = Scan {
                    best: c,
                    best_base: base,
                    second: s.best,
                    second_base: s.best_base,
                    total: s.total + c as u64,
                };
            } else {
                s = Scan {
                    best: c,
                    best_base: base,
                    second: s.second,
                    second_base: s.second_base,
                    total: s.total + c as u64,
                };
            }
        } else if c >= s.second {
            s = Scan {
                best: s.best,
                best_base: s.best_base,
                second: c,
                second_base: base,
                total: s.total + c as u64,
            };
        } else {
            s = Scan { total: s.total + c as u64, ..s };
        }
        i = i + 1;
    }
    proof {
        lemma_scan_bounds(counts@, 4);
    }
    s
}

/// Whether a site with this packed allele is reported under `modulus`.
fn is_sampled(modulus: u64, allele: u64) -> (r: bool)
    ensures
        r == sampled(modulus, allele as nat),
{
    modulus != 0 && allele % modulus == 0
}

/// Classifies the family with key `key` from the counts of its variants with
/// middle base A, C, G and T.
pub fn classify_family(codec: &KmerCodec, th: &Thresholds, key: u64, counts: &[u32; 4]) -> (r:
    Option<ClassificationRecord>)
    requires
        codec.wf(),
        codec.valid(key as nat),
    ensures
        r == family_record(*codec, *th, key as nat, counts@),
{
    let s = scan(counts);
    let best = s.best as u64;
    let second = s.second as u64;
    let a1 = codec.with_middle_base(key, s.best_base);
    let a2 = codec.with_middle_base(key, s.second_base);
    let err_pair = s.total - best - second;
    let err_one = s.total - best;
    if best >= th.min_coverage as u64 && second >= th.min_coverage as u64 && best
        <= th.max_coverage as u64 && err_pair <= th.max_error as u64 && best + second
        <= th.max_total_coverage as u64 {
        Some(
            ClassificationRecord::PairedHet {
                allele_best: a1,
                count_best: s.best,
                allele_second: a2,
                count_second: s.second,
            },
        )
    } else if best >= th.max_coverage as u64 && best <= th.max_total_coverage as u64 && err_one
        <= th.max_error as u64 {
        if is_sampled(th.hom_modulus, a1) {
            Some(ClassificationRecord::Homozygous { allele: a1, count: s.best })
        } else {
            None
        }
    } else if best >= th.min_coverage as u64 && best <= th.max_coverage as u64 && err_one
        <= th.max_error as u64 && is_sampled(th.unpaired_modulus, a1) {
        Some(ClassificationRecord::UnpairedHet { allele: a1, count: s.best })
    } else {
        None
    }
}


/// The records and the count histogram of a set of families.
#[derive(Clone, Debug)]
pub struct Classification {
    pub records: Vec<ClassificationRecord>,
    pub histogram: Vec<u64>,
}

/// The histogram bucket of a count: the count itself, clipped to the last
/// bucket.
pub open spec fn bucket(count: nat, size: nat) -> nat {
    if count < size - 1 {
        count
    } else {
        (size - 1) as nat
    }
}

/// Histogram `h` with the first `n` of `counts` added, one each to its bucket.
pub open spec fn hist_add(h: Seq<nat>, counts: Seq<u32>, n: nat) -> Seq<nat>
    decreases n,
{
    if n == 0 {
        h
    } else {
        let h2 = hist_add(h, counts, (n - 1) as nat);
        let j = bucket(counts[n - 1] as nat, h.len()) as int;
        h2.update(j, h2[j] + 1)
    }
}

/// A histogram as naturals.
pub open spec fn hist_view(v: Seq<u64>) -> Seq<nat> {
    v.map_values(|x: u64| x as nat)
}

pub proof fn lemma_hist_add_len(h: Seq<nat>, counts: Seq<u32>, n: nat)
    requires
        h.len() >= 1,
    ensures
        hist_add(h, counts, n).len() == h.len(),
    decreases n,
{
    if n > 0 {
        lemma_hist_add_len(h, counts, (n - 1) as nat);
    }
}

/// The bucket of a count in a histogram of `size` buckets.
pub fn bucket_of(count: u32, size: usize) -> (r: usize)
    requires
        size >= 1,
    ensures
        r == bucket(count as nat, size as nat),
        r < size,
{
    if (count as u64) < (size - 1) as u64 {
        count as usize
    } else {
        size - 1
    }
}

/// Adds two histograms index by index into the first.
pub fn merge_histograms(into: &mut Vec<u64>, other: &Vec<u64>)
    requires
        old(into)@.len() == other@.len(),
        forall|j: int| 0 <= j < other@.len() ==> #[trigger] old(into)@[j] + other@[j] <= u64::MAX,
    ensures
        final(into)@.len() == other@.len(),
        forall|j: int|
            0 <= j < other@.len() ==> #[trigger] final(into)@[j] == old(into)@[j] + other@[j],
{
    let n = other.len();
    let mut j: usize = 0;
    while j < n
        invariant
            n == other@.len(),
            into@.len() == n,
            old(into)@.len() == n,
            j <= n,
            forall|i: int| 0 <= i < n ==> #[trigger] old(into)@[i] + other@[i] <= u64::MAX,
            forall|i: int| 0 <= i < j ==> #[trigger] into@[i] == old(into)@[i] + other@[i],
            forall|i: int| j <= i < n ==> #[trigger] into@[i] == old(into)@[i],
        decreases n - j,
    {
        let v = into[j] + other[j];
        into.set(j, v);
        j = j + 1;
    }
}

} // verus!
