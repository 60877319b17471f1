use read_grouper::kmer::Kmer;
use read_grouper::kmer_bits::{Kmer16, Kmer32, KmerReverse};

type K16 = Kmer<Kmer16>;
type K32 = Kmer<Kmer32>;

#[test]
fn test_kmer16() {
    assert_eq!(Kmer16(3 << 30).reverse_complement(), Kmer16(!3));
    assert_eq!(Kmer16(3).reverse_complement(), Kmer16(!(3 << 30)));
    assert_eq!(Kmer16(3 << 2).reverse_complement(), Kmer16(!(3 << 28)));
    assert_eq!(Kmer16(3 << 18).reverse_complement(), Kmer16(!(3 << 12)));
    assert_eq!(Kmer16(3 << 16).reverse_complement(), Kmer16(!(3 << 14)));
    assert_eq!(Kmer16(3 << 14).reverse_complement(), Kmer16(!(3 << 16)));
    assert_eq!(Kmer16(3 << 12).reverse_complement(), Kmer16(!(3 << 18)));
    let value = Kmer16(12345 | 6789 << 8 | 65432 << 16 | 23456 << 24);
    let reverse = value.reverse_complement();
    let original = reverse.reverse_complement();
    assert_eq!(value, original);
}

#[test]
fn test_kmer32() {
    assert_eq!(Kmer32(3 << 62).reverse_complement(), Kmer32(!3));
    assert_eq!(Kmer32(3).reverse_complement(), Kmer32(!(3 << 62)));
    assert_eq!(Kmer32(3 << 2).reverse_complement(), Kmer32(!(3 << 60)));
    assert_eq!(Kmer32(3 << 16).reverse_complement(), Kmer32(!(3 << 46)));
    assert_eq!(Kmer32(3 << 46).reverse_complement(), Kmer32(!(3 << 16)));
    assert_eq!(Kmer32(3 << 34).reverse_complement(), Kmer32(!(3 << 28)));
    assert_eq!(Kmer32(3 << 32).reverse_complement(), Kmer32(!(3 << 30)));
    assert_eq!(Kmer32(3 << 30).reverse_complement(), Kmer32(!(3 << 32)));
    assert_eq!(Kmer32(3 << 28).reverse_complement(), Kmer32(!(3 << 34)));
    let value = Kmer32(
        12345
            | 6789 << 8
            | 65432 << 16
            | 23456 << 24
            | 12345 << 32
            | 6789 << 40
            | 65432 << 48
            | 23456 << 56,
    );
    let reverse = value.reverse_complement();
    let original = reverse.reverse_complement();
    assert_eq!(value, original);
}

#[test]
fn test_build_kmer_pair16() {
    let seq = b"ACGTACGTACGTGTAC";
    let qual = [
        40, 40, 40, 40, 40, 40, 40, 40, 40, 40, 40, 40, 40, 40, 40, 40,
    ];
    let (kmer, reverse_complement) = K16::build_kmer_pair(seq, &qual, 40).unwrap();
    assert_eq!(kmer, Kmer16(0x1B1B1BB1));
    assert_eq!(reverse_complement, kmer.reverse_complement());

    let qual = [
        40, 40, 40, 40, 40, 40, 40, 40, 40, 40, 40, 40, 40, 40, 40, 39,
    ];
    assert_eq!(K16::build_kmer_pair(seq, &qual, 40), None);
}

#[test]
fn test_build_kmer_pair32() {
    let seq = b"ACGTACGTACGTGTACACGTACGTACGTGTAC";
    let qual = [
        40, 40, 40, 40, 40, 40, 40, 40, 40, 40, 40, 40, 40, 40, 40, 40, 40, 40, 40, 40, 40, 40,
        40, 40, 40, 40, 40, 40, 40, 40, 40, 40,
    ];
    let (kmer, reverse_complement) = K32::build_kmer_pair(seq, &qual, 40).unwrap();
    assert_eq!(kmer, Kmer32(1953185310873164721));
    assert_eq!(reverse_complement, kmer.reverse_complement());

    let qual = [
        40, 40, 40, 40, 40, 40, 40, 40, 40, 40, 40, 40, 40, 40, 40, 40, 40, 40, 40, 40, 40, 40,
        40, 40, 40, 40, 40, 40, 40, 40, 40, 39,
    ];
    assert_eq!(K32::build_kmer_pair(seq, &qual, 40), None);
}

#[test]
fn test_kmers_from_record_incremental16() {
    let seq = b"ACGTACGTACGTGTACACGTACGTACGTGTAC";
    let qual = [
        40, 40, 40, 40, 40, 40, 40, 40, 40, 40, 40, 40, 40, 40, 40, 40, 40, 40, 40, 40, 40, 40,
        40, 40, 40, 40, 40, 40, 40, 40, 40, 40,
    ];
    let kmers = K16::kmers_from_record(seq, &qual, 40);
    assert_eq!(
        kmers,
        [
            296858043, 454761393, 454799643, 1187432172, 1819045572, 1819198572, 1858366572,
            2981214993, 2981826993
        ]
        .into_iter()
        .map(Kmer16)
        .collect::<Vec<Kmer16>>()
    );
}

// A single bad-quality base inside the first window poisons the whole read.
#[test]
fn bad_base_in_first_window_yields_nothing() {
    let seq = b"ACGTACGTACGTGTACACGTACGTACGTGTAC";
    let mut qual = [40u8; 32];
    qual[15] = 39;
    let kmers = K16::kmers_from_record(seq, &qual, 40);
    assert!(kmers.is_empty());
}

// A bad base after the first window abandons the rest of the read.
#[test]
fn bad_base_later_stops_emission() {
    let seq = b"ACGTACGTACGTGTACACGTACGTACGTGTAC";
    let mut qual = [40u8; 32];
    qual[16] = 39;
    let kmers = K16::kmers_from_record(seq, &qual, 40);
    // only the first window survives, already canonical
    let first = Kmer16(0x1B1B1BB1);
    let rc = first.reverse_complement();
    let canonical = if rc.0 < first.0 { rc } else { first };
    assert_eq!(kmers, vec![canonical]);
}

// A letter outside ACGT is treated like a bad-quality base.
#[test]
fn non_acgt_letter_stops_emission() {
    let seq = b"ACGTACGTACGTGTACNCGTACGTACGTGTAC";
    let qual = [40u8; 32];
    let kmers = K16::kmers_from_record(seq, &qual, 40);
    assert_eq!(kmers.len(), 1);
}

// A read shorter than K yields nothing.
#[test]
fn short_read_yields_nothing() {
    let seq = b"ACGTACGTACGTGTA";
    let qual = [40u8; 15];
    let kmers = K16::kmers_from_record(seq, &qual, 40);
    assert!(kmers.is_empty());
}

// Every emitted k-mer is its own canonical form: w == min(w, revcomp(w)).
#[test]
fn emitted_kmers_are_canonical() {
    let seq = b"ACGTACGTACGTGTACACGTACGTACGTGTAC";
    let qual = [40u8; 32];
    let kmers = K16::kmers_from_record(seq, &qual, 40);
    assert_eq!(kmers.len(), 9);
    for w in kmers.iter() {
        let rc = w.reverse_complement();
        let canonical = if rc.0 < w.0 { rc } else { *w };
        assert_eq!(*w, canonical);
    }
    // and the output is strictly ascending
    for i in 1..kmers.len() {
        assert!(kmers[i - 1].0 < kmers[i].0);
    }
}

// E1: the reverse complement of the packed ACGTACGTACGTGTAC word equals its
// bitwise complement after the 2-bit-group reversal.
#[test]
fn revcomp_matches_group_reversal() {
    let w: u32 = 0x1B1B1BB1;
    let mut grev = ((w & 0x33333333) << 2) | ((w & 0xCCCCCCCC) >> 2);
    grev = ((grev & 0x0F0F0F0F) << 4) | ((grev & 0xF0F0F0F0) >> 4);
    grev = grev.swap_bytes();
    assert_eq!(Kmer16(w).reverse_complement(), Kmer16(!grev));
}

// The packed word spells back out as its base letters, most significant
// group first.
#[test]
fn kmer_spells_its_bases() {
    let w = Kmer::new(Kmer16(0x1B1B1BB1));
    assert_eq!(w.to_base_string(), "ACGTACGTACGTGTAC");
    let z = Kmer::new(Kmer16(0));
    assert_eq!(z.to_base_string(), "AAAAAAAAAAAAAAAA");
    let w32 = Kmer::new(Kmer32(1953185310873164721));
    assert_eq!(w32.to_base_string(), "ACGTACGTACGTGTACACGTACGTACGTGTAC");
}

// Equality of wrapped words follows the packed values.
#[test]
fn kmer_same_compares_values() {
    let a = Kmer::new(Kmer16(7));
    let b = Kmer::new(Kmer16(7));
    let c = Kmer::new(Kmer16(8));
    assert!(a.same(&b));
    assert!(!a.same(&c));
}
