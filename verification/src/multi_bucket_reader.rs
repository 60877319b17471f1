//! The k-way merge over sorted bucket buffers: a lazy, monotonically
//! non-decreasing stream of all their records.
use vstd::multiset::Multiset;
use vstd::prelude::*;

use crate::buf_reader_entry::{parse_records, BufReaderEntry};
use crate::data_bucket::{BucketDataRead, BucketDataWrite};
use crate::order::{sorted, RecordOrder};
use crate::GrouperError;

verus! {

broadcast use vstd::seq_lib::group_to_multiset_ensures, vstd::multiset::group_multiset_axioms;

/// The multiset of records a row of readers has not yet returned.
pub open spec fn readers_remaining<T: BucketDataRead + RecordOrder + Copy>(
    rs: Seq<BufReaderEntry<T>>,
) -> Multiset<T>
    decreases rs.len(),
{
    if rs.len() == 0 {
        Multiset::empty()
    } else {
        readers_remaining(rs.drop_last()).add(rs.last().remaining().to_multiset())
    }
}

/// The multiset of all records encoded in a row of buffers.
pub open spec fn buffers_records<T: BucketDataRead + RecordOrder + Copy>(
    bufs: Seq<Seq<u8>>,
) -> Multiset<T>
    decreases bufs.len(),
{
    if bufs.len() == 0 {
        Multiset::empty()
    } else {
        buffers_records::<T>(bufs.drop_last()).add(
            parse_records::<T>(bufs.last()).to_multiset(),
        )
    }
}

/// Splitting one reader out of the row splits its remaining records out of
/// the total.
proof fn lemma_readers_remaining_split<T: BucketDataRead + RecordOrder + Copy>(
    rs: Seq<BufReaderEntry<T>>,
    i: int,
)
    requires
        0 <= i < rs.len(),
    ensures
        readers_remaining(rs) == readers_remaining(rs.remove(i)).add(
            rs[i].remaining().to_multiset(),
        ),
    decreases rs.len(),
{
    if i == rs.len() - 1 {
        assert(rs.remove(i) =~= rs.drop_last());
    } else {
        let d = rs.drop_last();
        lemma_readers_remaining_split(d, i);
        assert(rs.remove(i).drop_last() =~= d.remove(i));
        assert(rs.remove(i).last() == rs.last());
        assert(readers_remaining(rs) =~= readers_remaining(rs.remove(i)).add(
            rs[i].remaining().to_multiset(),
        ));
    }
}

/// A record still remaining comes from some reader.
proof fn lemma_readers_remaining_member<T: BucketDataRead + RecordOrder + Copy>(
    rs: Seq<BufReaderEntry<T>>,
    y: T,
)
    requires
        readers_remaining(rs).contains(y),
    ensures
        exists|i: int| 0 <= i < rs.len() && (#[trigger] rs[i]).remaining().contains(y),
    decreases rs.len(),
{
    if rs.len() > 0 {
        if rs.last().remaining().to_multiset().contains(y) {
            assert(rs[rs.len() - 1].remaining().contains(y));
        } else {
            lemma_readers_remaining_member(rs.drop_last(), y);
            let i = choose|i: int|
                0 <= i < rs.drop_last().len() && (#[trigger] rs.drop_last()[i]).remaining()
                    .contains(y);
            assert(rs[i].remaining().contains(y));
        }
    }
}

/// All records of a row of buffers, in buffer order.
pub open spec fn all_records<T: BucketDataRead + RecordOrder + Copy>(bufs: Seq<Seq<u8>>) -> Seq<T>
    decreases bufs.len(),
{
    if bufs.len() == 0 {
        Seq::empty()
    } else {
        all_records::<T>(bufs.drop_last()) + parse_records::<T>(bufs.last())
    }
}

/// The stream the merge yields over sorted buffers: all their records in
/// ascending order.
pub open spec fn merged_records<T: BucketDataRead + RecordOrder + Copy>(bufs: Seq<Seq<u8>>) -> Seq<
    T,
> {
    all_records::<T>(bufs).sort_by(crate::order::record_le::<T>())
}

/// The records of a row of buffers, counted either way.
pub proof fn lemma_all_records_multiset<T: BucketDataRead + RecordOrder + Copy>(bufs: Seq<Seq<u8>>)
    ensures
        all_records::<T>(bufs).to_multiset() == buffers_records::<T>(bufs),
    decreases bufs.len(),
{
    if bufs.len() == 0 {
        assert(all_records::<T>(bufs).to_multiset() =~= Multiset::<T>::empty());
    } else {
        lemma_all_records_multiset::<T>(bufs.drop_last());
        vstd::seq_lib::lemma_multiset_commutative(
            all_records::<T>(bufs.drop_last()),
            parse_records::<T>(bufs.last()),
        );
    }
}

/// An exact copy of a byte buffer.
fn clone_bytes(v: &Vec<u8>) -> (r: Vec<u8>)
    ensures
        r@ == v@,
{
    let r = v.clone();
    proof {
        assert(r@ =~= v@);
    }
    r
}

/// A priority selection over per-file readers that yields the union of all
/// their records as a single non-decreasing stream.
pub struct MultiBucketReader<T> {
    readers: Vec<BufReaderEntry<T>>,
}

impl<T: BucketDataRead + RecordOrder + Copy> MultiBucketReader<T> {
    /// The live readers, in input order with exhausted ones removed.
    pub closed spec fn spec_readers(self) -> Seq<BufReaderEntry<T>> {
        self.readers@
    }

    /// The multiset of records not yet yielded.
    pub open spec fn remaining(self) -> Multiset<T> {
        readers_remaining(self.spec_readers())
    }

    /// Every reader is well-formed over a sorted stream.
    pub open spec fn wf(self) -> bool {
        forall|i: int|
            0 <= i < self.spec_readers().len() ==> ((#[trigger] self.spec_readers()[i]).wf()
                && sorted(self.spec_readers()[i].stream()))
    }

    /// Open one reader per buffer; a buffer without a single complete record
    /// fails the construction. Requires each buffer to hold a sorted run, as
    /// the bucket engine wrote them.
    pub fn new(buffers: &Vec<Vec<u8>>) -> (r: Result<Self, GrouperError>)
        requires
            forall|i: int|
                0 <= i < buffers@.len() ==> sorted(parse_records::<T>(#[trigger] buffers@[i]@)),
        ensures
            match r {
                Ok(m) => {
                    &&& m.wf()
                    &&& m.remaining() == buffers_records::<T>(
                        buffers@.map_values(|b: Vec<u8>| b@),
                    )
                },
                Err(e) => {
                    &&& e == GrouperError::EmptyBucket
                    &&& exists|i: int|
                        0 <= i < buffers@.len() && parse_records::<T>(
                            #[trigger] buffers@[i]@,
                        ).len() == 0
                },
            },
    {
        let n = buffers.len();
        let mut readers: Vec<BufReaderEntry<T>> = Vec::new();
        let mut idx: usize = 0;
        while idx < n
            invariant
                n == buffers@.len(),
                readers@.len() == idx <= n,
                forall|i: int|
                    0 <= i < buffers@.len() ==> sorted(parse_records::<T>(#[trigger] buffers@[i]@)),
                forall|i: int|
                    0 <= i < readers@.len() ==> {
                        &&& (#[trigger] readers@[i]).wf()
                        &&& readers@[i].stream() == parse_records::<T>(buffers@[i]@)
                        &&& readers@[i].remaining() == parse_records::<T>(buffers@[i]@)
                    },
            decreases n - idx,
        {
            let b = clone_bytes(&buffers[idx]);
            match BufReaderEntry::<T>::new(b) {
                Ok(rdr) => {
                    readers.push(rdr);
                },
                Err(e) => {
                    return Err(e);
                },
            }
            idx += 1;
        }
        let m = MultiBucketReader { readers };
        proof {
            lemma_new_remaining::<T>(m.readers@, buffers@.map_values(|b: Vec<u8>| b@));
        }
        Ok(m)
    }

    /// Yield the smallest head among the live readers (ties to the first),
    /// advance that reader, and discard it once exhausted. What comes back is
    /// a lower bound on everything still remaining, so consecutive results
    /// never decrease.
    #[verifier::spinoff_prover]
    #[verifier::rlimit(100)]
    pub fn next(&mut self) -> (r: Option<T>)
        requires
            old(self).wf(),
        ensures
            final(self).wf(),
            match r {
                None => {
                    &&& old(self).remaining() == Multiset::<T>::empty()
                    &&& *final(self) == *old(self)
                },
                Some(x) => {
                    &&& old(self).remaining().contains(x)
                    &&& final(self).remaining() == old(self).remaining().remove(x)
                    &&& final(self).remaining().len() == old(self).remaining().len() - 1
                    &&& forall|y: T| final(self).remaining().contains(y) ==> x.le_spec(&y)
                },
            },
    {
        let n = self.readers.len();
        if n == 0 {
            return None;
        }
        let ghost rs = self.readers@;
        let mut min_key: usize = 0;
        let mut j: usize = 1;
        proof {
            T::lemma_le_total(&rs[0].head(), &rs[0].head());
        }
        while j < n
            invariant
                self.readers@ == rs,
                n == rs.len(),
                min_key < j <= n,
                old(self).wf(),
                forall|t: int|
                    0 <= t < j ==> rs[min_key as int].head().le_spec(&(#[trigger] rs[t]).head()),
            decreases n - j,
        {
            let hj = self.readers[j].last_entry_read();
            let hm = self.readers[min_key].last_entry_read();
            let strictly_less = hj.le(hm) && !hm.le(hj);
            proof {
                T::lemma_le_total(&rs[j as int].head(), &rs[min_key as int].head());
                if strictly_less {
                    assert forall|t: int| 0 <= t < j + 1 implies rs[j as int].head().le_spec(
                        &(#[trigger] rs[t]).head(),
                    ) by {
                        if t < j {
                            T::lemma_le_transitive(
                                &rs[j as int].head(),
                                &rs[min_key as int].head(),
                                &rs[t].head(),
                            );
                        } else {
                            T::lemma_le_total(&rs[j as int].head(), &rs[j as int].head());
                        }
                    }
                }
            }
            if strictly_less {
                min_key = j;
            }
            j += 1;
        }
        let ret = *self.readers[min_key].last_entry_read();
        let ghost x = ret;
        let mut rdr = self.readers.remove(min_key);
        proof {
            assert(old(self).spec_readers() == rs);
            assert(old(self).spec_readers()[min_key as int].wf());
            assert(sorted(old(self).spec_readers()[min_key as int].stream()));
            lemma_readers_remaining_split(rs, min_key as int);
            rs.remove_ensures(min_key as int);
            rdr.lemma_remaining_head();
            rs[min_key as int].lemma_head_min();
        }
        let ghost base = self.readers@;
        let eof = rdr.read_next_entry_failed();
        proof {
            assert(rs[min_key as int].remaining().to_multiset().contains(x)) by {
                assert(rs[min_key as int].remaining()[0] == x);
            }
            assert(old(self).remaining().contains(x));
        }
        if !eof {
            self.readers.insert(min_key, rdr);
            proof {
                base.insert_ensures(min_key as int, rdr);
                assert(self.readers@.remove(min_key as int) =~= base);
                lemma_readers_remaining_split(self.readers@, min_key as int);
                let oldrem = rs[min_key as int].remaining();
                assert(rdr.remaining().to_multiset() == oldrem.to_multiset().remove(x)) by {
                    assert(oldrem.remove(0) =~= oldrem.drop_first());
                    assert(oldrem.remove(0).to_multiset() == oldrem.to_multiset().remove(
                        oldrem[0],
                    ));
                }
                assert(final(self).remaining() =~= old(self).remaining().remove(x));
            }
        } else {
            proof {
                assert(rs[min_key as int].remaining() =~= seq![x]);
                assert(rs[min_key as int].remaining().to_multiset() =~= Multiset::singleton(x));
                assert(final(self).remaining() =~= old(self).remaining().remove(x));
            }
        }
        proof {
            assert(old(self).remaining() =~= final(self).remaining().insert(x));
            assert forall|y: T| final(self).remaining().contains(y) implies x.le_spec(&y) by {
                lemma_readers_remaining_member(self.readers@, y);
                let i = choose|i: int|
                    0 <= i < self.readers@.len() && (#[trigger] self.readers@[i]).remaining()
                        .contains(y);
                let rdr_i = self.readers@[i];
                assert(rdr_i.wf() && sorted(rdr_i.stream())) by {
                    if !eof {
                        if i < min_key as int {
                            assert(rdr_i == rs[i]);
                            assert(old(self).spec_readers()[i].wf());
                            assert(sorted(old(self).spec_readers()[i].stream()));
                        } else if i == min_key as int {
                            assert(rdr_i == rdr);
                        } else {
                            assert(rdr_i == rs[i]);
                            assert(old(self).spec_readers()[i].wf());
                            assert(sorted(old(self).spec_readers()[i].stream()));
                        }
                    } else {
                        if i < min_key as int {
                            assert(rdr_i == rs[i]);
                            assert(old(self).spec_readers()[i].wf());
                            assert(sorted(old(self).spec_readers()[i].stream()));
                        } else {
                            assert(rdr_i == rs[i + 1]);
                            assert(old(self).spec_readers()[i + 1].wf());
                            assert(sorted(old(self).spec_readers()[i + 1].stream()));
                        }
                    }
                }
                rdr_i.lemma_head_min();
                let jy = choose|jy: int| 0 <= jy < rdr_i.remaining().len() && rdr_i.remaining()[jy] == y;
                assert(rdr_i.head().le_spec(&y));
                // the yielded record is at most this reader's head
                if !eof && i == min_key as int {
                    // the advanced reader's head came right after x in its stream
                    assert(x.le_spec(&rdr_i.head()));
                    T::lemma_le_transitive(&x, &rdr_i.head(), &y);
                } else {
                    let ghost oi: int = if eof && i >= min_key as int {
                        i + 1
                    } else {
                        i
                    };
                    assert(rs[min_key as int].head().le_spec(&rs[oi].head()));
                    assert(rdr_i.head() == rs[oi].head());
                    T::lemma_le_transitive(&x, &rdr_i.head(), &y);
                }
            }
        }
        Some(ret)
    }
}

/// Freshly opened readers hold exactly the records of their buffers.
proof fn lemma_new_remaining<T: BucketDataRead + RecordOrder + Copy>(
    rs: Seq<BufReaderEntry<T>>,
    bufs: Seq<Seq<u8>>,
)
    requires
        rs.len() == bufs.len(),
        forall|i: int|
            0 <= i < rs.len() ==> (#[trigger] rs[i]).remaining() == parse_records::<T>(bufs[i]),
    ensures
        readers_remaining(rs) == buffers_records::<T>(bufs),
    decreases rs.len(),
{
    if rs.len() > 0 {
        lemma_new_remaining(rs.drop_last(), bufs.drop_last());
    }
}

} // verus!
