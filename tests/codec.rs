use hetkmers::codec::{InvalidBase, InvalidLength, KmerCodec};
use hetkmers::shard::shard_of;

fn codec(k: usize) -> KmerCodec {
    KmerCodec::new(k).unwrap()
}

#[test]
fn encode_packs_most_significant_base_first() {
    let c = codec(5);
    assert_eq!(c.encode(b"AAAAA"), Ok(0));
    assert_eq!(c.encode(b"AAAAC"), Ok(1));
    assert_eq!(c.encode(b"CAAAA"), Ok(256));
    assert_eq!(c.encode(b"ACGTA"), Ok(0b00_01_10_11_00));
    assert_eq!(c.encode(b"TTTTT"), Ok(1023));
}

#[test]
fn encode_ignores_case() {
    let c = codec(5);
    assert_eq!(c.encode(b"acgta"), c.encode(b"ACGTA"));
}

#[test]
fn encode_rejects_other_letters() {
    let c = codec(5);
    assert_eq!(c.encode(b"ACNTA"), Err(InvalidBase));
    assert_eq!(c.encode(b"ACGT-"), Err(InvalidBase));
}

#[test]
fn encode_at_reads_a_window() {
    let c = codec(3);
    let read = b"GGACGTT";
    assert_eq!(c.encode_at(read, 2), c.encode(b"ACG"));
    assert_eq!(c.encode_at(read, 4), c.encode(b"GTT"));
}

#[test]
fn even_and_long_lengths_are_refused() {
    assert_eq!(KmerCodec::new(4).err(), Some(InvalidLength::Even));
    assert_eq!(KmerCodec::new(0).err(), Some(InvalidLength::Even));
    assert_eq!(KmerCodec::new(33).err(), Some(InvalidLength::TooLong));
    assert!(KmerCodec::new(31).is_ok());
    assert_eq!(KmerCodec::new(31).unwrap().kmer_length(), 31);
}

#[test]
fn reverse_complement_of_known_kmers() {
    let c = codec(5);
    let x = c.encode(b"AACGT").unwrap();
    assert_eq!(c.reverse_complement(x), c.encode(b"ACGTT").unwrap());
    let y = c.encode(b"GATTC").unwrap();
    assert_eq!(c.to_string(c.reverse_complement(y)), "GAATC");
}

#[test]
fn canonical_is_the_smaller_strand() {
    let c = codec(5);
    let t = c.encode(b"TTGCA").unwrap();
    let a = c.encode(b"TGCAA").unwrap();
    assert_eq!(c.canonical(t), a);
    assert_eq!(c.canonical(a), a);
}

#[test]
fn canonical_is_idempotent_and_strand_symmetric() {
    let c = codec(7);
    for read in [&b"GATTACA"[..], b"TTTTTTT", b"CAGTCGA", b"ACGTACG"] {
        let x = c.encode(read).unwrap();
        let k = c.canonical(x);
        assert_eq!(c.canonical(k), k);
        assert_eq!(c.canonical(c.reverse_complement(x)), k);
    }
}

#[test]
fn with_middle_base_sets_only_the_middle() {
    let c = codec(5);
    let x = c.encode(b"ACGTA").unwrap();
    assert_eq!(c.to_string(c.with_middle_base(x, 0)), "ACATA");
    assert_eq!(c.to_string(c.with_middle_base(x, 3)), "ACTTA");
    assert_eq!(c.with_middle_base(x, 2), x);
}

#[test]
fn family_key_clears_the_middle_of_the_canonical_form() {
    let c = codec(5);
    let x = c.encode(b"TTGCA").unwrap();
    assert_eq!(c.to_string(c.family_key(x)), "TGAAA");
}

#[test]
fn family_variants_include_the_kmer() {
    let c = codec(5);
    for read in [&b"TTGCA"[..], b"ACAGT", b"GGGCC", b"CATGA"] {
        let x = c.encode(read).unwrap();
        let fk = c.family_key(x);
        let found = (0..4u64).any(|b| c.canonical(c.with_middle_base(fk, b)) == c.canonical(x));
        assert!(found);
    }
}

#[test]
fn variants_route_to_the_same_shard() {
    let c = codec(5);
    let x = c.encode(b"CATGA").unwrap();
    let fk = c.family_key(x);
    for b in 0..4u64 {
        let v = c.with_middle_base(x, b);
        assert_eq!(c.family_key(v), fk);
        assert_eq!(shard_of(c.family_key(v), 4), shard_of(fk, 4));
    }
    assert_eq!(c.family_key(c.reverse_complement(x)), fk);
}

#[test]
fn palindromic_flanks_share_a_family() {
    let c = codec(5);
    let a = c.encode(b"ACAGT").unwrap();
    let t = c.encode(b"ACTGT").unwrap();
    assert_eq!(c.canonical(t), a);
    assert_eq!(c.family_key(a), c.family_key(t));
}

#[test]
fn to_string_writes_upper_case() {
    let c = codec(7);
    let x = c.encode(b"gattaca").unwrap();
    assert_eq!(c.to_string(x), "GATTACA");
}

#[test]
fn shard_of_is_the_key_modulo_the_count() {
    assert_eq!(shard_of(10, 4), 2);
    assert_eq!(shard_of(7, 1), 0);
    assert_eq!(shard_of(0, 3), 0);
}
