//! The serialization interface of bucket records, and the bucketing engine
//! that sorts full buffers and serializes them into spill files.
use vstd::multiset::Multiset;
use vstd::prelude::*;
use vstd::string::StringExecFns;

use crate::order::{record_le, sorted, RecordOrder};
use crate::sorting::sort_records;

verus! {

/// A record with a fixed-width on-disk form that can be appended to a byte
/// buffer.
pub trait BucketDataWrite: Sized {
    /// The record's on-disk bytes.
    spec fn spec_serial(&self) -> Seq<u8>;

    /// The record's on-disk width.
    spec fn spec_size() -> nat;

    proof fn lemma_serial_len(&self)
        ensures
            self.spec_serial().len() == Self::spec_size(),
            Self::spec_size() >= 1,
    ;

    /// A record occupies at least one byte.
    proof fn lemma_size_pos()
        ensures
            Self::spec_size() >= 1,
    ;

    /// Append the record's on-disk bytes to `buffer`.
    fn write(&self, buffer: &mut Vec<u8>)
        ensures
            final(buffer)@ == old(buffer)@ + self.spec_serial(),
    ;

    /// The record's on-disk width.
    fn size() -> (r: usize)
        ensures
            r == Self::spec_size(),
            r >= 1,
    ;
}

/// A record that can be read back from its fixed-width on-disk form.
pub trait BucketDataRead: BucketDataWrite {
    /// The record read back from one record's width of bytes.
    spec fn spec_of_bytes(s: Seq<u8>) -> Self;

    /// Serialization followed by deserialization is the identity.
    proof fn lemma_round_trip(&self)
        ensures
            Self::spec_of_bytes(self.spec_serial()) == *self,
    ;

    /// Read one record at byte offset `pos`.
    fn read_at(bytes: &[u8], pos: usize) -> (r: Self)
        requires
            pos + Self::spec_size() <= bytes@.len(),
        ensures
            r == Self::spec_of_bytes(bytes@.subrange(pos as int, pos + Self::spec_size())),
    ;
}

/// The concatenated on-disk form of a sequence of records.
pub open spec fn serial_concat<T: BucketDataWrite>(s: Seq<T>) -> Seq<u8>
    decreases s.len(),
{
    if s.len() == 0 {
        Seq::empty()
    } else {
        serial_concat(s.drop_last()) + s.last().spec_serial()
    }
}

/// The decimal digit d as a character.
pub open spec fn spec_digit(d: nat) -> char {
    if d == 0 {
        '0'
    } else if d == 1 {
        '1'
    } else if d == 2 {
        '2'
    } else if d == 3 {
        '3'
    } else if d == 4 {
        '4'
    } else if d == 5 {
        '5'
    } else if d == 6 {
        '6'
    } else if d == 7 {
        '7'
    } else if d == 8 {
        '8'
    } else {
        '9'
    }
}

/// The decimal form of n, most significant digit first.
pub open spec fn spec_dec(n: nat) -> Seq<char>
    decreases n,
{
    if n < 10 {
        seq![spec_digit(n)]
    } else {
        spec_dec(n / 10).push(spec_digit(n % 10))
    }
}

/// The decimal form of n as a string.
pub fn dec_string(n: usize) -> (r: String)
    ensures
        r@ == spec_dec(n as nat),
    decreases n,
{
    let d = n % 10;
    let ds: &str = if d == 0 {
        proof {
            reveal_strlit("0");
        }
        "0"
    } else if d == 1 {
        proof {
            reveal_strlit("1");
        }
        "1"
    } else if d == 2 {
        proof {
            reveal_strlit("2");
        }
        "2"
    } else if d == 3 {
        proof {
            reveal_strlit("3");
        }
        "3"
    } else if d == 4 {
        proof {
            reveal_strlit("4");
        }
        "4"
    } else if d == 5 {
        proof {
            reveal_strlit("5");
        }
        "5"
    } else if d == 6 {
        proof {
            reveal_strlit("6");
        }
        "6"
    } else if d == 7 {
        proof {
            reveal_strlit("7");
        }
        "7"
    } else if d == 8 {
        proof {
            reveal_strlit("8");
        }
        "8"
    } else {
        proof {
            reveal_strlit("9");
        }
        "9"
    };
    proof {
        assert(ds@ =~= seq![spec_digit((n % 10) as nat)]);
    }
    if n < 10 {
        ds.to_owned()
    } else {
        let mut s = dec_string(n / 10);
        s.append(ds);
        proof {
            assert(spec_dec((n / 10) as nat).push(spec_digit((n % 10) as nat)) =~= spec_dec(
                (n / 10) as nat,
            ) + ds@);
        }
        s
    }
}

/// The deterministic name of a spill file:
/// `{dir}/{sample}_{capacity}_{id}.{ending}`.
pub open spec fn spec_filename(
    dir: Seq<char>,
    sample: Seq<char>,
    capacity: nat,
    id: nat,
    ending: Seq<char>,
) -> Seq<char> {
    dir + seq!['/'] + sample + seq!['_'] + spec_dec(capacity) + seq!['_'] + spec_dec(id) + seq![
        '.',
    ] + ending
}

/// One spilled bucket: the file's deterministic name, its exact content, and
/// (as ghost data) the sorted records the content serializes.
pub struct SpillFile<T> {
    pub filename: String,
    pub bytes: Vec<u8>,
    pub records: Ghost<Seq<T>>,
}

impl<T: RecordOrder + BucketDataWrite> SpillFile<T> {
    /// The content is the serialization of the sorted record sequence.
    pub open spec fn wf(self) -> bool {
        &&& sorted(self.records@)
        &&& self.bytes@ == serial_concat(self.records@)
    }
}

/// The multiset of all records held by a sequence of spill files.
pub open spec fn pending_records<T>(p: Seq<SpillFile<T>>) -> Multiset<T>
    decreases p.len(),
{
    if p.len() == 0 {
        Multiset::empty()
    } else {
        pending_records(p.drop_last()).add(p.last().records@.to_multiset())
    }
}

/// A bounded in-memory buffer of records. When it fills up, the buffer is
/// sorted and serialized into a spill file with a deterministic name; the
/// engine keeps every spill file it produced and the list of their names.
pub struct DataBucket<T> {
    entries: Vec<T>,
    bucket_size: usize,
    bucket_dir: String,
    sample_name: String,
    ending: String,
    filenames: Vec<String>,
    pending: Vec<SpillFile<T>>,
    history: Ghost<Seq<T>>,
}

impl<T: RecordOrder + BucketDataWrite + Copy> DataBucket<T> {
    /// The records currently buffered, in arrival order.
    pub closed spec fn buffered(self) -> Seq<T> {
        self.entries@
    }

    /// The capacity at which the buffer spills.
    pub closed spec fn spec_bucket_size(self) -> usize {
        self.bucket_size
    }

    pub closed spec fn spec_bucket_dir(self) -> Seq<char> {
        self.bucket_dir@
    }

    pub closed spec fn spec_sample_name(self) -> Seq<char> {
        self.sample_name@
    }

    pub closed spec fn spec_ending(self) -> Seq<char> {
        self.ending@
    }

    /// The names of the spill files produced so far, in bucket-id order.
    pub closed spec fn spec_filenames(self) -> Seq<Seq<char>> {
        self.filenames@.map_values(|f: String| f@)
    }

    /// The spill files produced so far, in bucket-id order.
    pub closed spec fn spec_pending(self) -> Seq<SpillFile<T>> {
        self.pending@
    }

    /// Every record ever added, in arrival order.
    pub closed spec fn spec_history(self) -> Seq<T> {
        self.history@
    }

    /// The engine's invariant: the buffer is below capacity, each spill file
    /// is the serialization of a sorted buffer and carries its deterministic
    /// name in id order, and nothing ever added has been lost.
    pub open spec fn wf(self) -> bool {
        &&& self.spec_bucket_size() >= 1
        &&& self.buffered().len() < self.spec_bucket_size()
        &&& self.spec_filenames().len() == self.spec_pending().len()
        &&& forall|i: int|
            0 <= i < self.spec_pending().len() ==> (#[trigger] self.spec_pending()[i]).wf()
        &&& forall|i: int|
            0 <= i < self.spec_pending().len() ==> (#[trigger] self.spec_pending()[i]).filename@
                == self.spec_filenames()[i]
        &&& forall|i: int|
            0 <= i < self.spec_filenames().len() ==> #[trigger] self.spec_filenames()[i]
                == spec_filename(
                self.spec_bucket_dir(),
                self.spec_sample_name(),
                self.spec_bucket_size() as nat,
                i as nat,
                self.spec_ending(),
            )
        &&& pending_records(self.spec_pending()).add(self.buffered().to_multiset())
            == self.spec_history().to_multiset()
    }

    pub fn new(bucket_size: usize, bucket_dir: &str, sample_name: &str, ending: &str) -> (r: Self)
        requires
            bucket_size >= 1,
        ensures
            r.wf(),
            r.buffered() == Seq::<T>::empty(),
            r.spec_history() == Seq::<T>::empty(),
            r.spec_pending() == Seq::<SpillFile<T>>::empty(),
            r.spec_filenames() == Seq::<Seq<char>>::empty(),
            r.spec_bucket_size() == bucket_size,
            r.spec_bucket_dir() == bucket_dir@,
            r.spec_sample_name() == sample_name@,
            r.spec_ending() == ending@,
    {
        let r = Self {
            entries: Vec::new(),
            bucket_size,
            bucket_dir: bucket_dir.to_owned(),
            sample_name: sample_name.to_owned(),
            ending: ending.to_owned(),
            filenames: Vec::new(),
            pending: Vec::new(),
            history: Ghost(Seq::empty()),
        };
        proof {
            broadcast use vstd::seq_lib::group_to_multiset_ensures;
            broadcast use vstd::multiset::group_multiset_axioms;

            assert(r.spec_filenames() =~= Seq::<Seq<char>>::empty());
            assert(r.buffered().to_multiset() =~= Multiset::<T>::empty());
            assert(r.spec_history().to_multiset() =~= Multiset::<T>::empty());
            assert(pending_records(r.spec_pending()).add(r.buffered().to_multiset())
                =~= r.spec_history().to_multiset());
        }
        r
    }

    /// The deterministic name of the spill file with the given id.
    fn construct_filename(&self, id: usize) -> (r: String)
        ensures
            r@ == spec_filename(
                self.spec_bucket_dir(),
                self.spec_sample_name(),
                self.spec_bucket_size() as nat,
                id as nat,
                self.spec_ending(),
            ),
    {
        proof {
            reveal_strlit("/");
            reveal_strlit("_");
            reveal_strlit(".");
        }
        let mut s = self.bucket_dir.clone();
        s.append("/");
        s.append(self.sample_name.as_str());
        s.append("_");
        let cap = dec_string(self.bucket_size);
        s.append(cap.as_str());
        s.append("_");
        let ids = dec_string(id);
        s.append(ids.as_str());
        s.append(".");
        s.append(self.ending.as_str());
        proof {
            assert(s@ =~= spec_filename(
                self.spec_bucket_dir(),
                self.spec_sample_name(),
                self.spec_bucket_size() as nat,
                id as nat,
                self.spec_ending(),
            ));
        }
        s
    }

    /// Whether the buffer has reached capacity.
    fn is_full(&self) -> (r: bool)
        ensures
            r == (self.buffered().len() >= self.spec_bucket_size()),
    {
        self.entries.len() >= self.bucket_size
    }

    /// Sort the buffered records, serialize them into a new spill file under
    /// the next bucket id, and clear the buffer.
    fn flush(&mut self)
        requires
            old(self).spec_bucket_size() >= 1,
            old(self).buffered().len() >= 1,
            old(self).spec_filenames().len() == old(self).spec_pending().len(),
        ensures
            final(self).buffered() == Seq::<T>::empty(),
            final(self).spec_history() == old(self).spec_history(),
            final(self).spec_bucket_size() == old(self).spec_bucket_size(),
            final(self).spec_bucket_dir() == old(self).spec_bucket_dir(),
            final(self).spec_sample_name() == old(self).spec_sample_name(),
            final(self).spec_ending() == old(self).spec_ending(),
            final(self).spec_pending() == old(self).spec_pending().push(
                final(self).spec_pending().last(),
            ),
            final(self).spec_pending().last().records@ == old(self).buffered().sort_by(
                record_le::<T>(),
            ),
            final(self).spec_pending().last().wf(),
            final(self).spec_pending().last().filename@ == spec_filename(
                old(self).spec_bucket_dir(),
                old(self).spec_sample_name(),
                old(self).spec_bucket_size() as nat,
                old(self).spec_pending().len() as nat,
                old(self).spec_ending(),
            ),
            final(self).spec_filenames() == old(self).spec_filenames().push(
                final(self).spec_pending().last().filename@,
            ),
            pending_records(final(self).spec_pending()) == pending_records(
                old(self).spec_pending(),
            ).add(old(self).buffered().to_multiset()),
    {
        let id = self.filenames.len();
        let filename = self.construct_filename(id);
        let mut batch: Vec<T> = Vec::new();
        core::mem::swap(&mut batch, &mut self.entries);
        sort_records(&mut batch);
        let mut bytes: Vec<u8> = Vec::new();
        let ghost recs = batch@;
        let mut i: usize = 0;
        while i < batch.len()
            invariant
                i <= batch@.len(),
                batch@ == recs,
                bytes@ == serial_concat(recs.take(i as int)),
            decreases batch@.len() - i,
        {
            let r = &batch[i];
            r.write(&mut bytes);
            proof {
                let t = recs.take(i as int + 1);
                assert(t.drop_last() =~= recs.take(i as int));
                assert(t.last() == recs[i as int]);
            }
            i += 1;
        }
        proof {
            assert(recs.take(recs.len() as int) =~= recs);
        }
        let sf = SpillFile { filename: filename.clone(), bytes, records: Ghost(recs) };
        self.filenames.push(filename);
        self.pending.push(sf);
        proof {
            assert(final(self).spec_pending().drop_last() =~= old(self).spec_pending());
            assert(final(self).spec_filenames() =~= old(self).spec_filenames().push(
                final(self).spec_pending().last().filename@,
            ));
        }
    }

    /// Append a record; when the buffer reaches capacity, spill it.
    pub fn add(&mut self, entry: T)
        requires
            old(self).wf(),
        ensures
            final(self).wf(),
            final(self).spec_history() == old(self).spec_history().push(entry),
            final(self).spec_bucket_size() == old(self).spec_bucket_size(),
            final(self).spec_bucket_dir() == old(self).spec_bucket_dir(),
            final(self).spec_sample_name() == old(self).spec_sample_name(),
            final(self).spec_ending() == old(self).spec_ending(),
            if old(self).buffered().len() + 1 == old(self).spec_bucket_size() {
                &&& final(self).buffered() == Seq::<T>::empty()
                &&& final(self).spec_pending() == old(self).spec_pending().push(
                    final(self).spec_pending().last(),
                )
                &&& final(self).spec_pending().last().records@ == old(self).buffered().push(
                    entry,
                ).sort_by(record_le::<T>())
            } else {
                &&& final(self).buffered() == old(self).buffered().push(entry)
                &&& final(self).spec_pending() == old(self).spec_pending()
            },
    {
        self.entries.push(entry);
        self.history = Ghost(self.history@.push(entry));
        proof {
            broadcast use vstd::seq_lib::group_to_multiset_ensures;
            broadcast use vstd::multiset::group_multiset_axioms;

            assert(self.entries@.to_multiset() =~= old(self).buffered().to_multiset().insert(
                entry,
            ));
            assert(self.history@.to_multiset() =~= old(self).spec_history().to_multiset().insert(
                entry,
            ));
            assert(pending_records(self.spec_pending()).add(self.entries@.to_multiset())
                =~= self.history@.to_multiset());
        }
        if self.is_full() {
            self.flush();
            proof {
                broadcast use vstd::multiset::group_multiset_axioms;

                assert(final(self).buffered().to_multiset() =~= Multiset::<T>::empty());
                assert(pending_records(final(self).spec_pending()).add(
                    final(self).buffered().to_multiset(),
                ) =~= final(self).spec_history().to_multiset());
            }
        }
    }

    /// Spill whatever is still buffered and return the names of all spill
    /// files, in bucket-id order. Afterwards the spill files together hold
    /// exactly the records ever added.
    pub fn finish(&mut self) -> (r: Vec<String>)
        requires
            old(self).wf(),
        ensures
            final(self).wf(),
            final(self).spec_history() == old(self).spec_history(),
            final(self).buffered() == Seq::<T>::empty(),
            final(self).spec_bucket_size() == old(self).spec_bucket_size(),
            final(self).spec_bucket_dir() == old(self).spec_bucket_dir(),
            final(self).spec_sample_name() == old(self).spec_sample_name(),
            final(self).spec_ending() == old(self).spec_ending(),
            if old(self).buffered().len() > 0 {
                &&& final(self).spec_pending() == old(self).spec_pending().push(
                    final(self).spec_pending().last(),
                )
                &&& final(self).spec_pending().last().records@ == old(self).buffered().sort_by(
                    record_le::<T>(),
                )
            } else {
                final(self).spec_pending() == old(self).spec_pending()
            },
            r@.map_values(|f: String| f@) == final(self).spec_filenames(),
            pending_records(final(self).spec_pending()) == final(self).spec_history().to_multiset(),
    {
        if !self.entries.is_empty() {
            self.flush();
        }
        proof {
            broadcast use vstd::seq_lib::group_to_multiset_ensures;
            broadcast use vstd::multiset::group_multiset_axioms;

            assert(self.buffered().to_multiset() =~= Multiset::<T>::empty());
            assert(pending_records(self.spec_pending()).add(self.buffered().to_multiset())
                =~= pending_records(self.spec_pending()));
        }
        let ghost snap = *self;
        let mut r: Vec<String> = Vec::new();
        let mut i: usize = 0;
        while i < self.filenames.len()
            invariant
                *self == snap,
                i <= self.filenames@.len(),
                r@.len() == i,
                forall|t: int| 0 <= t < i ==> (#[trigger] r@[t])@ == self.filenames@[t]@,
            decreases self.filenames@.len() - i,
        {
            r.push(self.filenames[i].clone());
            i += 1;
        }
        proof {
            assert(r@.map_values(|f: String| f@) =~= self.spec_filenames());
        }
        r
    }

    /// The spill files produced so far: what still has to reach the disk.
    pub fn pending_files(&self) -> (r: &Vec<SpillFile<T>>)
        ensures
            r@ == self.spec_pending(),
    {
        &self.pending
    }
}

} // verus!
