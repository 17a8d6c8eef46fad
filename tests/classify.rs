use hetkmers::classify::{
    bucket_of, classify_family, merge_histograms, scan, ClassificationRecord, Thresholds,
};
use hetkmers::codec::KmerCodec;

fn thresholds() -> Thresholds {
    Thresholds {
        min_coverage: 5,
        max_coverage: 8,
        max_error: 0,
        max_total_coverage: 20,
        hom_modulus: 1,
        unpaired_modulus: 1,
    }
}

#[test]
fn scan_finds_best_and_second() {
    let s = scan(&[3, 9, 1, 4]);
    assert_eq!((s.best, s.best_base, s.second, s.second_base, s.total), (9, 1, 4, 3, 17));
}

#[test]
fn scan_ties_go_to_the_later_base() {
    let s = scan(&[5, 5, 0, 0]);
    assert_eq!((s.best, s.best_base, s.second, s.second_base), (5, 1, 5, 0));
    let z = scan(&[0, 0, 0, 0]);
    assert_eq!((z.best, z.best_base, z.second, z.second_base, z.total), (0, 3, 0, 0, 0));
    let t = scan(&[2, 7, 7, 7]);
    assert_eq!((t.best, t.best_base, t.second, t.second_base), (7, 3, 7, 1));
}

#[test]
fn paired_het_family() {
    let c = KmerCodec::new(5).unwrap();
    let key = c.encode(b"ACAGT").unwrap();
    let r = classify_family(&c, &thresholds(), key, &[0, 6, 0, 5]);
    assert_eq!(
        r,
        Some(ClassificationRecord::PairedHet {
            allele_best: c.encode(b"ACCGT").unwrap(),
            count_best: 6,
            allele_second: c.encode(b"ACTGT").unwrap(),
            count_second: 5,
        })
    );
}

#[test]
fn paired_het_needs_low_error_and_total() {
    let c = KmerCodec::new(5).unwrap();
    let key = c.encode(b"ACAGT").unwrap();
    assert_eq!(classify_family(&c, &thresholds(), key, &[1, 6, 0, 5]), None);
    let tight = Thresholds { max_total_coverage: 10, ..thresholds() };
    assert_eq!(classify_family(&c, &tight, key, &[0, 6, 0, 5]), None);
}

#[test]
fn homozygous_family() {
    let c = KmerCodec::new(5).unwrap();
    let key = c.encode(b"ACAGT").unwrap();
    let r = classify_family(&c, &thresholds(), key, &[0, 0, 10, 0]);
    assert_eq!(
        r,
        Some(ClassificationRecord::Homozygous { allele: c.encode(b"ACGGT").unwrap(), count: 10 })
    );
    let over = classify_family(&c, &thresholds(), key, &[0, 0, 21, 0]);
    assert_eq!(over, None);
}

#[test]
fn homozygous_down_sampling() {
    let c = KmerCodec::new(5).unwrap();
    let key = c.encode(b"AAAAA").unwrap();
    // AACAA packs to 16, AAGAA to 32.
    let th = Thresholds { hom_modulus: 32, ..thresholds() };
    assert_eq!(classify_family(&c, &th, key, &[0, 10, 0, 0]), None);
    assert_eq!(
        classify_family(&c, &th, key, &[0, 0, 10, 0]),
        Some(ClassificationRecord::Homozygous { allele: 32, count: 10 })
    );
    let none = Thresholds { hom_modulus: 0, ..thresholds() };
    assert_eq!(classify_family(&c, &none, key, &[0, 0, 10, 0]), None);
}

#[test]
fn unpaired_het_family() {
    let c = KmerCodec::new(5).unwrap();
    let key = c.encode(b"ACAGT").unwrap();
    let r = classify_family(&c, &thresholds(), key, &[6, 0, 0, 0]);
    assert_eq!(
        r,
        Some(ClassificationRecord::UnpairedHet { allele: c.encode(b"ACAGT").unwrap(), count: 6 })
    );
    let off = Thresholds { unpaired_modulus: 0, ..thresholds() };
    assert_eq!(classify_family(&c, &off, key, &[6, 0, 0, 0]), None);
}

#[test]
fn zero_family_gives_no_record() {
    let c = KmerCodec::new(5).unwrap();
    let key = c.encode(b"ACAGT").unwrap();
    assert_eq!(classify_family(&c, &thresholds(), key, &[0, 0, 0, 0]), None);
}

#[test]
fn buckets_clip_to_the_last() {
    assert_eq!(bucket_of(3, 10), 3);
    assert_eq!(bucket_of(9, 10), 9);
    assert_eq!(bucket_of(10, 10), 9);
    assert_eq!(bucket_of(4000, 1), 0);
}

#[test]
fn histograms_merge_index_wise() {
    let mut a = vec![1u64, 0, 5];
    merge_histograms(&mut a, &vec![2, 3, 0]);
    assert_eq!(a, vec![3, 3, 5]);
}
