//! The manifest a finished phase returns: the sample, the spill files, and
//! how many reads went in.
use vstd::prelude::*;

use crate::ReadId;

verus! {

/// The immutable manifest of one bucket series: sample name, the spill file
/// names in bucket-id order, and the number of reads ingested (0 for the
/// merge phase).
#[derive(Debug)]
pub struct BucketList {
    filenames: Vec<String>,
    number_of_reads: ReadId,
    sample_name: String,
}

impl BucketList {
    pub closed spec fn spec_filenames(self) -> Seq<Seq<char>> {
        self.filenames@.map_values(|f: String| f@)
    }

    pub closed spec fn spec_number_of_reads(self) -> ReadId {
        self.number_of_reads
    }

    pub closed spec fn spec_sample_name(self) -> Seq<char> {
        self.sample_name@
    }

    pub fn new(sample_name: String, filenames: Vec<String>, number_of_reads: ReadId) -> (r: Self)
        ensures
            r.spec_filenames() == filenames@.map_values(|f: String| f@),
            r.spec_number_of_reads() == number_of_reads,
            r.spec_sample_name() == sample_name@,
    {
        Self { filenames, number_of_reads, sample_name }
    }

    pub fn filenames(&self) -> (r: &Vec<String>)
        ensures
            r@.map_values(|f: String| f@) == self.spec_filenames(),
            r@.len() == self.spec_filenames().len(),
    {
        proof {
            assert(self.filenames@.map_values(|f: String| f@).len() == self.filenames@.len());
        }
        &self.filenames
    }

    pub fn number_of_reads(&self) -> (r: ReadId)
        ensures
            r == self.spec_number_of_reads(),
    {
        self.number_of_reads
    }

    pub fn sample_name(&self) -> (r: &str)
        ensures
            r@ == self.spec_sample_name(),
    {
        self.sample_name.as_str()
    }
}

} // verus!
