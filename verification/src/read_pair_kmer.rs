//! An ordered pair of reads that share a k-mer: the record type of phase-2
//! buckets.
use vstd::bytes::{spec_u32_from_le_bytes, spec_u32_to_le_bytes, u32_from_le_bytes, u32_to_le_bytes};
use vstd::prelude::*;

use crate::data_bucket::{BucketDataRead, BucketDataWrite};
use crate::kmer::Kmer;
use crate::kmer_bits::KmerReverse;
use crate::order::RecordOrder;
use crate::ReadId;

verus! {

/// Two distinct reads sharing a k-mer, with the invariant read1 < read2.
/// Ordered by read1, then read2, then k-mer; serialized as the two
/// little-endian read ids followed by the k-mer's bytes.
#[derive(Clone, Copy, Debug)]
pub struct ReadPairKmer<KmerBits> {
    read1: ReadId,
    read2: ReadId,
    kmer: Kmer<KmerBits>,
}

impl<KmerBits: KmerReverse> ReadPairKmer<KmerBits> {
    pub closed spec fn spec_read1(self) -> ReadId {
        self.read1
    }

    pub closed spec fn spec_read2(self) -> ReadId {
        self.read2
    }

    pub closed spec fn spec_kmer(self) -> Kmer<KmerBits> {
        self.kmer
    }

    /// The pair names two distinct reads in ascending order.
    pub open spec fn wf(self) -> bool {
        self.spec_read1() < self.spec_read2()
    }

    pub proof fn lemma_fields_injective(a: Self, b: Self)
        requires
            a.spec_read1() == b.spec_read1(),
            a.spec_read2() == b.spec_read2(),
            a.spec_kmer() == b.spec_kmer(),
        ensures
            a == b,
    {
    }

    /// The record with the given fields, at the specification level.
    pub closed spec fn spec_make(read1: ReadId, read2: ReadId, kmer: Kmer<KmerBits>) -> Self {
        ReadPairKmer { read1, read2, kmer }
    }

    pub proof fn lemma_spec_make(read1: ReadId, read2: ReadId, kmer: Kmer<KmerBits>)
        ensures
            Self::spec_make(read1, read2, kmer).spec_read1() == read1,
            Self::spec_make(read1, read2, kmer).spec_read2() == read2,
            Self::spec_make(read1, read2, kmer).spec_kmer() == kmer,
    {
    }

    pub fn new(read1: ReadId, read2: ReadId, kmer: &Kmer<KmerBits>) -> (r: Self)
        requires
            read1 < read2,
        ensures
            r.spec_read1() == read1,
            r.spec_read2() == read2,
            r.spec_kmer() == *kmer,
            r.wf(),
            r == Self::spec_make(read1, read2, *kmer),
    {
        Self { read1, read2, kmer: *kmer }
    }

    pub fn read1(&self) -> (r: ReadId)
        ensures
            r == self.spec_read1(),
    {
        self.read1
    }

    pub fn read2(&self) -> (r: ReadId)
        ensures
            r == self.spec_read2(),
    {
        self.read2
    }

    pub fn kmer(&self) -> (r: &Kmer<KmerBits>)
        ensures
            *r == self.spec_kmer(),
    {
        &self.kmer
    }
}

impl<KmerBits: KmerReverse> RecordOrder for ReadPairKmer<KmerBits> {
    /// read1 ascending, then read2, then the k-mer value.
    open spec fn le_spec(&self, other: &Self) -> bool {
        self.spec_read1() < other.spec_read1() || (self.spec_read1() == other.spec_read1() && (
        self.spec_read2() < other.spec_read2() || (self.spec_read2() == other.spec_read2()
            && self.spec_kmer().value() <= other.spec_kmer().value())))
    }

    proof fn lemma_le_total(a: &Self, b: &Self) {
    }

    proof fn lemma_le_transitive(a: &Self, b: &Self, c: &Self) {
    }

    proof fn lemma_le_antisymmetric(a: &Self, b: &Self) {
        Kmer::<KmerBits>::lemma_value_injective(a.spec_kmer(), b.spec_kmer());
    }

    fn le(&self, other: &Self) -> (r: bool) {
        if self.read1 != other.read1 {
            self.read1 < other.read1
        } else if self.read2 != other.read2 {
            self.read2 < other.read2
        } else {
            let a = self.kmer.bits();
            let b = other.kmer.bits();
            proof {
                KmerBits::lemma_le_value(a, b);
            }
            a.le(&b)
        }
    }
}

impl<KmerBits: KmerReverse> BucketDataWrite for ReadPairKmer<KmerBits> {
    closed spec fn spec_serial(&self) -> Seq<u8> {
        spec_u32_to_le_bytes(self.read1) + spec_u32_to_le_bytes(self.read2)
            + self.kmer.spec_serial()
    }

    open spec fn spec_size() -> nat {
        8 + KmerBits::spec_bytes()
    }

    proof fn lemma_serial_len(&self) {
        self.kmer.spec_bits().lemma_serial_round();
        self.kmer.spec_bits().lemma_wf();
        vstd::bytes::lemma_auto_spec_u32_to_from_le_bytes();
        assert(spec_u32_to_le_bytes(self.read1).len() == 4);
        assert(spec_u32_to_le_bytes(self.read2).len() == 4);
    }

    fn write(&self, buffer: &mut Vec<u8>) {
        let mut r1 = u32_to_le_bytes(self.read1);
        buffer.append(&mut r1);
        let mut r2 = u32_to_le_bytes(self.read2);
        buffer.append(&mut r2);
        self.kmer.write(buffer);
        proof {
            assert(final(buffer)@ =~= old(buffer)@ + self.spec_serial());
        }
    }

    proof fn lemma_size_pos() {
        KmerBits::lemma_dims();
    }

    fn size() -> (r: usize) {
        proof {
            KmerBits::lemma_dims();
        }
        8 + KmerBits::bytes()
    }
}

impl<KmerBits: KmerReverse> BucketDataRead for ReadPairKmer<KmerBits> {
    closed spec fn spec_of_bytes(s: Seq<u8>) -> Self {
        ReadPairKmer {
            read1: spec_u32_from_le_bytes(s.subrange(0, 4)),
            read2: spec_u32_from_le_bytes(s.subrange(4, 8)),
            kmer: Kmer::spec_make(
                KmerBits::spec_from_bytes(s.subrange(8, (8 + KmerBits::spec_bytes()) as int)),
            ),
        }
    }

    proof fn lemma_round_trip(&self) {
        let bits = self.kmer.spec_bits();
        bits.lemma_serial_round();
        bits.lemma_wf();
        vstd::bytes::lemma_auto_spec_u32_to_from_le_bytes();
        let b1 = spec_u32_to_le_bytes(self.read1);
        let b2 = spec_u32_to_le_bytes(self.read2);
        assert(b1.len() == 4 && spec_u32_from_le_bytes(b1) == self.read1);
        assert(b2.len() == 4 && spec_u32_from_le_bytes(b2) == self.read2);
        let s = self.spec_serial();
        assert(s.subrange(0, 4) =~= b1);
        assert(s.subrange(4, 8) =~= b2);
        assert(s.subrange(8, (8 + KmerBits::spec_bytes()) as int) =~= bits.spec_serial());
        Kmer::<KmerBits>::lemma_spec_make(bits);
        Kmer::<KmerBits>::lemma_bits_injective(Kmer::spec_make(bits), self.spec_kmer());
    }

    fn read_at(bytes: &[u8], pos: usize) -> (r: Self) {
        let n = bytes.len();
        let r1s = vstd::slice::slice_subrange(bytes, pos, pos + 4);
        let read1 = u32_from_le_bytes(r1s);
        let r2s = vstd::slice::slice_subrange(bytes, pos + 4, pos + 8);
        let read2 = u32_from_le_bytes(r2s);
        let bits = KmerBits::read_at(bytes, pos + 8);
        let r = ReadPairKmer { read1, read2, kmer: Kmer::new(bits) };
        proof {
            let s = bytes@.subrange(pos as int, pos + Self::spec_size());
            assert(s.subrange(0, 4) =~= bytes@.subrange(pos as int, pos + 4));
            assert(s.subrange(4, 8) =~= bytes@.subrange(pos + 4, pos + 8));
            assert(s.subrange(8, (8 + KmerBits::spec_bytes()) as int) =~= bytes@.subrange(
                pos + 8,
                pos + 8 + KmerBits::spec_bytes(),
            ));
            Kmer::<KmerBits>::lemma_spec_make(bits);
            Kmer::<KmerBits>::lemma_bits_injective(Kmer::spec_make(bits), r.spec_kmer());
        }
        r
    }
}

} // verus!
