use hetkmers::classify::{Classification, ClassificationRecord, Thresholds};
use hetkmers::codec::KmerCodec;
use hetkmers::counter::CounterConfig;
use hetkmers::engine::{ConfigError, Engine, EngineConfig};
use hetkmers::shard::Shard;

fn config(shards: u64) -> EngineConfig {
    EngineConfig {
        kmer_length: 5,
        thresholds: Thresholds {
            min_coverage: 5,
            max_coverage: 8,
            max_error: 0,
            max_total_coverage: 20,
            hom_modulus: 1,
            unpaired_modulus: 0,
        },
        estimated_total_kmers: 100_000,
        counter_bits: 16,
        hash_count: 4,
        shard_count: shards,
        histogram_size: 32,
    }
}

fn run(cfg: &EngineConfig, reads: &[&[u8]]) -> Classification {
    let mut e = Engine::new(cfg).unwrap();
    for r in reads {
        e.observe_read(r);
    }
    e.finish()
}

const READ: &[u8] = b"GAGCTGGTGTGTTATCCATT";

#[test]
fn homozygous_window_repeated_over_ten_reads() {
    let reads: Vec<&[u8]> = vec![READ; 10];
    let out = run(&config(1), &reads);
    let c = KmerCodec::new(5).unwrap();
    let window = c.canonical(c.encode(&READ[0..5]).unwrap());
    assert!(out
        .records
        .contains(&ClassificationRecord::Homozygous { allele: window, count: 10 }));
    assert_eq!(out.records.len(), 16);
    for r in &out.records {
        assert!(matches!(r, ClassificationRecord::Homozygous { count: 10, .. }));
    }
}

#[test]
fn alternating_middle_base_gives_one_paired_het() {
    let mut other = READ.to_vec();
    other[2] = b'T';
    let mut reads: Vec<&[u8]> = Vec::new();
    for _ in 0..5 {
        reads.push(READ);
        reads.push(&other);
    }
    let out = run(&config(1), &reads);
    let hets: Vec<&ClassificationRecord> = out
        .records
        .iter()
        .filter(|r| matches!(r, ClassificationRecord::PairedHet { .. }))
        .collect();
    assert_eq!(hets.len(), 1);
    let c = KmerCodec::new(5).unwrap();
    let a = c.canonical(c.encode(&READ[0..5]).unwrap());
    let b = c.canonical(c.encode(&other[0..5]).unwrap());
    match hets[0] {
        ClassificationRecord::PairedHet { allele_best, count_best, allele_second, count_second } => {
            assert_eq!(*count_best, 5);
            assert_eq!(*count_second, 5);
            let mut got = vec![*allele_best, *allele_second];
            got.sort();
            let mut want = vec![a, b];
            want.sort();
            assert_eq!(got, want);
        }
        _ => unreachable!(),
    }
}

#[test]
fn palindromic_flanks_count_each_base_on_its_own_strand() {
    let mut reads: Vec<&[u8]> = Vec::new();
    for _ in 0..5 {
        reads.push(b"ACAGT");
    }
    for _ in 0..3 {
        reads.push(b"ACCGT");
    }
    let cfg = config(1);
    let mut e = Engine::new(&cfg).unwrap();
    for r in &reads {
        e.observe_read(r);
    }
    let c = e.codec();
    let key = c.family_key(c.encode(b"ACAGT").unwrap());
    assert_eq!(c.to_string(key), "ACAGT");
    assert_eq!(e.shard(0).family_counts(key), [5, 3, 3, 5]);
    assert_eq!(c.family_key(c.encode(b"ACCGT").unwrap()), key);
    assert_eq!(c.family_key(c.encode(b"ACTGT").unwrap()), key);
}

#[test]
fn zero_family_adds_four_to_bucket_zero() {
    let codec = KmerCodec::new(5).unwrap();
    let counter = CounterConfig { counter_bits: 8, hash_count: 3, expected_items: 100 };
    let shard = Shard::new(0, 1, codec, 5, counter).unwrap();
    let key = codec.family_key(codec.encode(b"GATCA").unwrap());
    let th = config(1).thresholds;
    let out = shard.classify_keys(&th, &vec![key], 16);
    assert!(out.records.is_empty());
    assert_eq!(out.histogram[0], 4);
    assert_eq!(out.histogram.iter().sum::<u64>(), 4);
}

#[test]
fn one_shard_and_four_shards_agree() {
    let reads: Vec<&[u8]> = vec![
        b"GAGCTGGTGTGTTATCCATT",
        b"GAGCTGGTGTGTTATCCATT",
        b"TGCGAGTTGGGCGTACATAC",
        b"AGTTATAGTGTTTACCGATC",
    ];
    let mut many: Vec<&[u8]> = Vec::new();
    for _ in 0..4 {
        many.extend(reads.iter().copied());
    }
    let one = run(&config(1), &many);
    let four = run(&config(4), &many);
    let mut r1 = one.records.clone();
    let mut r4 = four.records.clone();
    r1.sort();
    r4.sort();
    assert_eq!(r1.len(), 13);
    assert_eq!(r1, r4);
    assert_eq!(one.histogram, four.histogram);
}

#[test]
fn windows_with_other_letters_are_skipped() {
    let mut e = Engine::new(&config(1)).unwrap();
    for _ in 0..6 {
        e.observe_read(b"ACGNTACGT");
    }
    let out = e.finish();
    let c = e.codec();
    let kept = c.family_key(c.encode(b"TACGT").unwrap());
    assert_eq!(e.shard(0).family_counts(kept).iter().sum::<u32>(), 6);
    assert!(out.records.is_empty());
    assert_eq!(out.histogram.iter().sum::<u64>(), 4);
    assert_eq!(out.histogram[6], 1);
    assert_eq!(out.histogram[0], 3);
}

#[test]
fn short_reads_have_no_windows() {
    let mut e = Engine::new(&config(2)).unwrap();
    e.observe_read(b"ACGT");
    let out = e.finish();
    assert!(out.records.is_empty());
    assert_eq!(out.histogram.iter().sum::<u64>(), 0);
}

#[test]
fn engine_config_errors() {
    let even = EngineConfig { kmer_length: 4, ..config(1) };
    assert_eq!(Engine::new(&even).err(), Some(ConfigError::EvenKmerLength));
    let long = EngineConfig { kmer_length: 35, ..config(1) };
    assert_eq!(Engine::new(&long).err(), Some(ConfigError::KmerTooLong));
    assert_eq!(Engine::new(&config(0)).err(), Some(ConfigError::NoShards));
    let nohist = EngineConfig { histogram_size: 0, ..config(1) };
    assert_eq!(Engine::new(&nohist).err(), Some(ConfigError::NoHistogramBuckets));
    let bits = EngineConfig { counter_bits: 0, ..config(1) };
    assert_eq!(Engine::new(&bits).err(), Some(ConfigError::CounterBits));
    let hashes = EngineConfig { hash_count: 0, ..config(1) };
    assert_eq!(Engine::new(&hashes).err(), Some(ConfigError::HashCount));
    let huge = EngineConfig { estimated_total_kmers: u64::MAX, hash_count: 32, ..config(1) };
    assert_eq!(Engine::new(&huge).err(), Some(ConfigError::Capacity));
}

#[test]
fn shards_count_only_their_own_families() {
    let cfg = config(4);
    let mut e = Engine::new(&cfg).unwrap();
    for _ in 0..3 {
        e.observe_read(b"GATTACAGATTACA");
    }
    let c = e.codec();
    let key = c.family_key(c.encode(b"GATTA").unwrap());
    let owner = (key % 4) as usize;
    for i in 0..4 {
        let total: u32 = e.shard(i).family_counts(key).iter().sum();
        if i == owner {
            assert!(total >= 3);
        } else {
            assert_eq!(total, 0);
        }
    }
}
