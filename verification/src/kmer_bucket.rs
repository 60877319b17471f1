//! A single bounded bucket of k-mer/read records with an explicit bucket id:
//! the one-at-a-time counterpart of the generic bucket engine.
use vstd::prelude::*;
use vstd::string::StringExecFns;

use crate::data_bucket::{serial_concat, spec_filename, BucketDataWrite};
use crate::kmer_bits::KmerReverse;
use crate::kmer_read::KmerRead;
use crate::order::{record_le, sorted};
use crate::sorting::sort_records;

verus! {

/// One bounded buffer of `KmerRead` records. Unlike the engine, which keeps
/// every spill it produced, this bucket is used one at a time: when it is
/// full the caller serializes it with `write_to_disk` and moves on to
/// `next_bucket`.
pub struct KmerBucket<KmerBits> {
    kmer_reads: Vec<KmerRead<KmerBits>>,
    bucket_id: u32,
    bucket_size: usize,
    bucket_dir: String,
    sample_name: String,
}

impl<KmerBits: KmerReverse> KmerBucket<KmerBits> {
    /// The buffered records, in arrival order.
    pub closed spec fn spec_kmer_reads(self) -> Seq<KmerRead<KmerBits>> {
        self.kmer_reads@
    }

    pub closed spec fn spec_bucket_id(self) -> u32 {
        self.bucket_id
    }

    pub closed spec fn spec_bucket_size(self) -> usize {
        self.bucket_size
    }

    pub closed spec fn spec_bucket_dir(self) -> Seq<char> {
        self.bucket_dir@
    }

    pub closed spec fn spec_sample_name(self) -> Seq<char> {
        self.sample_name@
    }

    pub fn new(bucket_size: usize, bucket_dir: &str, sample_name: &str) -> (r: Self)
        ensures
            r.spec_kmer_reads() == Seq::<KmerRead<KmerBits>>::empty(),
            r.spec_bucket_id() == 0,
            r.spec_bucket_size() == bucket_size,
            r.spec_bucket_dir() == bucket_dir@,
            r.spec_sample_name() == sample_name@,
    {
        Self {
            bucket_id: 0,
            bucket_size,
            bucket_dir: bucket_dir.to_owned(),
            sample_name: sample_name.to_owned(),
            kmer_reads: Vec::new(),
        }
    }

    /// An empty bucket with the next id and the same configuration.
    pub fn next_bucket(&self) -> (r: Self)
        requires
            self.spec_bucket_id() < u32::MAX,
        ensures
            r.spec_kmer_reads() == Seq::<KmerRead<KmerBits>>::empty(),
            r.spec_bucket_id() == self.spec_bucket_id() + 1,
            r.spec_bucket_size() == self.spec_bucket_size(),
            r.spec_bucket_dir() == self.spec_bucket_dir(),
            r.spec_sample_name() == self.spec_sample_name(),
    {
        Self {
            bucket_id: self.bucket_id + 1,
            bucket_size: self.bucket_size,
            bucket_dir: self.bucket_dir.clone(),
            sample_name: self.sample_name.clone(),
            kmer_reads: Vec::new(),
        }
    }

    pub fn add(&mut self, kmer_read: KmerRead<KmerBits>)
        ensures
            final(self).spec_kmer_reads() == old(self).spec_kmer_reads().push(kmer_read),
            final(self).spec_bucket_id() == old(self).spec_bucket_id(),
            final(self).spec_bucket_size() == old(self).spec_bucket_size(),
            final(self).spec_bucket_dir() == old(self).spec_bucket_dir(),
            final(self).spec_sample_name() == old(self).spec_sample_name(),
    {
        self.kmer_reads.push(kmer_read);
    }

    pub fn len(&self) -> (r: usize)
        ensures
            r == self.spec_kmer_reads().len(),
    {
        self.kmer_reads.len()
    }

    pub fn is_empty(&self) -> (r: bool)
        ensures
            r == (self.spec_kmer_reads().len() == 0),
    {
        self.kmer_reads.is_empty()
    }

    pub fn is_full(&self) -> (r: bool)
        ensures
            r == (self.spec_kmer_reads().len() >= self.spec_bucket_size()),
    {
        self.kmer_reads.len() >= self.bucket_size
    }

    /// Sort the buffered records and serialize them under the bucket's
    /// deterministic file name; an empty bucket yields no file. The caller
    /// owns the write to disk.
    pub fn write_to_disk(&mut self) -> (r: Option<(String, Vec<u8>)>)
        ensures
            final(self).spec_bucket_id() == old(self).spec_bucket_id(),
            final(self).spec_bucket_size() == old(self).spec_bucket_size(),
            final(self).spec_bucket_dir() == old(self).spec_bucket_dir(),
            final(self).spec_sample_name() == old(self).spec_sample_name(),
            match r {
                None => {
                    &&& old(self).spec_kmer_reads().len() == 0
                    &&& final(self).spec_kmer_reads() == old(self).spec_kmer_reads()
                },
                Some(f) => {
                    &&& old(self).spec_kmer_reads().len() > 0
                    &&& f.0@ == spec_filename(
                        old(self).spec_bucket_dir(),
                        old(self).spec_sample_name(),
                        old(self).spec_bucket_size() as nat,
                        old(self).spec_bucket_id() as nat,
                        "kmer_reads"@,
                    )
                    &&& final(self).spec_kmer_reads() == old(self).spec_kmer_reads().sort_by(
                        record_le::<KmerRead<KmerBits>>(),
                    )
                    &&& sorted(final(self).spec_kmer_reads())
                    &&& f.1@ == serial_concat(final(self).spec_kmer_reads())
                },
            },
    {
        if self.kmer_reads.is_empty() {
            return None;
        }
        proof {
            reveal_strlit("/");
            reveal_strlit("_");
            reveal_strlit(".");
        }
        let mut filename = self.bucket_dir.clone();
        filename.append("/");
        filename.append(self.sample_name.as_str());
        filename.append("_");
        let cap = crate::data_bucket::dec_string(self.bucket_size);
        filename.append(cap.as_str());
        filename.append("_");
        let ids = crate::data_bucket::dec_string(self.bucket_id as usize);
        filename.append(ids.as_str());
        filename.append(".");
        filename.append("kmer_reads");
        proof {
            assert(filename@ =~= spec_filename(
                self.spec_bucket_dir(),
                self.spec_sample_name(),
                self.spec_bucket_size() as nat,
                self.spec_bucket_id() as nat,
                "kmer_reads"@,
            ));
        }
        sort_records(&mut self.kmer_reads);
        let mut bytes: Vec<u8> = Vec::new();
        let ghost recs = self.kmer_reads@;
        let mut i: usize = 0;
        while i < self.kmer_reads.len()
            invariant
                i <= self.kmer_reads@.len(),
                self.kmer_reads@ == recs,
                bytes@ == serial_concat(recs.take(i as int)),
            decreases self.kmer_reads@.len() - i,
        {
            let rec = &self.kmer_reads[i];
            rec.write(&mut bytes);
            proof {
                let t = recs.take(i as int + 1);
                assert(t.drop_last() =~= recs.take(i as int));
                assert(t.last() == recs[i as int]);
            }
            i += 1;
        }
        proof {
            assert(recs.take(recs.len() as int) =~= recs);
        }
        Some((filename, bytes))
    }
}

} // verus!
