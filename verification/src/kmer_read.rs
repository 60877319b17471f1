//! A k-mer paired with the id of a read it occurs in: the record type of
//! phase-1 buckets.
use vstd::bytes::{spec_u32_from_le_bytes, spec_u32_to_le_bytes, u32_from_le_bytes, u32_to_le_bytes};
use vstd::prelude::*;

use crate::data_bucket::{BucketDataRead, BucketDataWrite};
use crate::kmer::Kmer;
use crate::kmer_bits::KmerReverse;
use crate::order::RecordOrder;
use crate::ReadId;

verus! {

/// A k-mer paired with a read id. Ordered by k-mer first, then read id;
/// serialized as the k-mer's bytes followed by the little-endian read id.
#[derive(Clone, Copy, Debug)]
pub struct KmerRead<KmerBits> {
    kmer: Kmer<KmerBits>,
    read_id: ReadId,
}

impl<KmerBits: KmerReverse> KmerRead<KmerBits> {
    /// The k-mer of the record.
    pub closed spec fn spec_kmer(self) -> Kmer<KmerBits> {
        self.kmer
    }

    /// The read id of the record.
    pub closed spec fn spec_read_id(self) -> ReadId {
        self.read_id
    }

    pub proof fn lemma_fields_injective(a: Self, b: Self)
        requires
            a.spec_kmer() == b.spec_kmer(),
            a.spec_read_id() == b.spec_read_id(),
        ensures
            a == b,
    {
    }

    /// The record with the given fields, at the specification level.
    pub closed spec fn spec_make(kmer: Kmer<KmerBits>, read_id: ReadId) -> Self {
        KmerRead { kmer, read_id }
    }

    pub proof fn lemma_spec_make(kmer: Kmer<KmerBits>, read_id: ReadId)
        ensures
            Self::spec_make(kmer, read_id).spec_kmer() == kmer,
            Self::spec_make(kmer, read_id).spec_read_id() == read_id,
    {
    }

    pub fn new(kmer: Kmer<KmerBits>, read_id: ReadId) -> (r: Self)
        ensures
            r.spec_kmer() == kmer,
            r.spec_read_id() == read_id,
            r == Self::spec_make(kmer, read_id),
    {
        Self { kmer, read_id }
    }

    pub fn kmer(&self) -> (r: &Kmer<KmerBits>)
        ensures
            *r == self.spec_kmer(),
    {
        &self.kmer
    }

    pub fn read_id(&self) -> (r: ReadId)
        ensures
            r == self.spec_read_id(),
    {
        self.read_id
    }
}

impl<KmerBits: KmerReverse> RecordOrder for KmerRead<KmerBits> {
    /// K-mer value ascending, then read id ascending.
    open spec fn le_spec(&self, other: &Self) -> bool {
        self.spec_kmer().value() < other.spec_kmer().value() || (self.spec_kmer().value()
            == other.spec_kmer().value() && self.spec_read_id() <= other.spec_read_id())
    }

    proof fn lemma_le_total(a: &Self, b: &Self) {
    }

    proof fn lemma_le_transitive(a: &Self, b: &Self, c: &Self) {
    }

    proof fn lemma_le_antisymmetric(a: &Self, b: &Self) {
        Kmer::<KmerBits>::lemma_value_injective(a.spec_kmer(), b.spec_kmer());
    }

    fn le(&self, other: &Self) -> (r: bool) {
        let a = self.kmer.bits();
        let b = other.kmer.bits();
        proof {
            KmerBits::lemma_le_value(a, b);
            KmerBits::lemma_le_value(b, a);
        }
        if a.le(&b) {
            if b.le(&a) {
                self.read_id <= other.read_id
            } else {
                true
            }
        } else {
            false
        }
    }
}

impl<KmerBits: KmerReverse> BucketDataWrite for KmerRead<KmerBits> {
    closed spec fn spec_serial(&self) -> Seq<u8> {
        self.kmer.spec_serial() + spec_u32_to_le_bytes(self.read_id)
    }

    open spec fn spec_size() -> nat {
        KmerBits::spec_bytes() + 4
    }

    proof fn lemma_serial_len(&self) {
        self.kmer.spec_bits().lemma_serial_round();
        self.kmer.spec_bits().lemma_wf();
        vstd::bytes::lemma_auto_spec_u32_to_from_le_bytes();
        let bs = spec_u32_to_le_bytes(self.read_id);
        assert(bs.len() == 4);
    }

    fn write(&self, buffer: &mut Vec<u8>) {
        self.kmer.write(buffer);
        let mut idb = u32_to_le_bytes(self.read_id);
        buffer.append(&mut idb);
    }

    proof fn lemma_size_pos() {
        KmerBits::lemma_dims();
    }

    fn size() -> (r: usize) {
        proof {
            KmerBits::lemma_dims();
        }
        KmerBits::bytes() + 4
    }
}

impl<KmerBits: KmerReverse> BucketDataRead for KmerRead<KmerBits> {
    closed spec fn spec_of_bytes(s: Seq<u8>) -> Self {
        KmerRead {
            kmer: Kmer::spec_make(
                KmerBits::spec_from_bytes(s.subrange(0, KmerBits::spec_bytes() as int)),
            ),
            read_id: spec_u32_from_le_bytes(
                s.subrange(KmerBits::spec_bytes() as int, (KmerBits::spec_bytes() + 4) as int),
            ),
        }
    }

    proof fn lemma_round_trip(&self) {
        let bits = self.kmer.spec_bits();
        bits.lemma_serial_round();
        bits.lemma_wf();
        vstd::bytes::lemma_auto_spec_u32_to_from_le_bytes();
        let idb = spec_u32_to_le_bytes(self.read_id);
        assert(idb.len() == 4 && spec_u32_from_le_bytes(idb) == self.read_id);
        let s = self.spec_serial();
        assert(s.subrange(0, KmerBits::spec_bytes() as int) =~= bits.spec_serial());
        assert(s.subrange(KmerBits::spec_bytes() as int, (KmerBits::spec_bytes() + 4) as int) =~= idb);
        Kmer::<KmerBits>::lemma_spec_make(bits);
        Kmer::<KmerBits>::lemma_bits_injective(
            Kmer::spec_make(bits),
            self.spec_kmer(),
        );
    }

    fn read_at(bytes: &[u8], pos: usize) -> (r: Self) {
        proof {
            KmerBits::from_value(0).lemma_wf();
        }
        let bw = KmerBits::bytes();
        let bits = KmerBits::read_at(bytes, pos);
        let n = bytes.len();
        let ids = vstd::slice::slice_subrange(bytes, pos + bw, pos + bw + 4);
        let read_id = u32_from_le_bytes(ids);
        let r = KmerRead { kmer: Kmer::new(bits), read_id };
        proof {
            let s = bytes@.subrange(pos as int, pos + Self::spec_size());
            assert(s.subrange(0, KmerBits::spec_bytes() as int) =~= bytes@.subrange(
                pos as int,
                pos + KmerBits::spec_bytes(),
            ));
            assert(s.subrange(KmerBits::spec_bytes() as int, (KmerBits::spec_bytes() + 4) as int)
                =~= bytes@.subrange(pos + KmerBits::spec_bytes(), pos + (KmerBits::spec_bytes() + 4) as int));
            Kmer::<KmerBits>::lemma_spec_make(bits);
            Kmer::<KmerBits>::lemma_bits_injective(
                Kmer::spec_make(bits),
                r.spec_kmer(),
            );
        }
        r
    }
}

} // verus!
