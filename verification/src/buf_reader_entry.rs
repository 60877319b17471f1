//! A sequential reader over one spilled bucket's bytes, holding the record
//! it read last as its head.
use vstd::arithmetic::div_mod::{lemma_fundamental_div_mod, lemma_fundamental_div_mod_converse};
use vstd::prelude::*;

use crate::data_bucket::{BucketDataRead, BucketDataWrite};
use crate::order::RecordOrder;
use crate::GrouperError;

verus! {

/// The records encoded back-to-back in a byte buffer; a trailing fragment
/// shorter than one record is ignored.
pub open spec fn parse_records<T: BucketDataRead>(bytes: Seq<u8>) -> Seq<T> {
    Seq::new(
        bytes.len() / T::spec_size(),
        |i: int|
            T::spec_of_bytes(
                bytes.subrange(i * T::spec_size() as int, (i + 1) * T::spec_size() as int),
            ),
    )
}

/// The serialization of n fixed-width records spans n records' widths.
pub proof fn lemma_serial_concat_len<T: BucketDataRead>(s: Seq<T>)
    ensures
        crate::data_bucket::serial_concat(s).len() == s.len() * T::spec_size(),
    decreases s.len(),
{
    if s.len() == 0 {
        assert(0 * T::spec_size() == 0) by (nonlinear_arith);
    } else {
        lemma_serial_concat_len(s.drop_last());
        s.last().lemma_serial_len();
        assert((s.len() - 1) * T::spec_size() + T::spec_size() == s.len() * T::spec_size())
            by (nonlinear_arith);
    }
}

/// Law: what the bucket engine serializes, the readers parse back — the
/// round trip over a whole record sequence is the identity.
pub proof fn lemma_parse_serial<T: BucketDataRead>(s: Seq<T>)
    ensures
        parse_records::<T>(crate::data_bucket::serial_concat(s)) == s,
    decreases s.len(),
{
    let b = crate::data_bucket::serial_concat(s);
    let sz = T::spec_size() as int;
    lemma_serial_concat_len(s);
    T::lemma_size_pos();
    if s.len() == 0 {
        assert(parse_records::<T>(b) =~= s) by {
            assert(b.len() == 0) by (nonlinear_arith)
                requires
                    b.len() == s.len() * sz,
                    s.len() == 0,
            ;
            lemma_fundamental_div_mod_converse(b.len() as int, sz, 0, 0);
        }
    } else {
        let d = s.drop_last();
        let x = s.last();
        x.lemma_serial_len();
        lemma_parse_serial(d);
        lemma_serial_concat_len(d);
        let bd = crate::data_bucket::serial_concat(d);
        assert(b == bd + x.spec_serial());
        assert(parse_records::<T>(b).len() == s.len()) by {
            lemma_fundamental_div_mod_converse(b.len() as int, sz, s.len() as int, 0);
        }
        assert(parse_records::<T>(bd).len() == d.len()) by {
            lemma_fundamental_div_mod_converse(bd.len() as int, sz, d.len() as int, 0);
        }
        assert forall|i: int| 0 <= i < s.len() implies parse_records::<T>(b)[i] == s[i] by {
            assert((i + 1) * sz == i * sz + sz) by (nonlinear_arith);
            assert(0 <= i * sz && (i + 1) * sz <= b.len()) by (nonlinear_arith)
                requires
                    0 <= i < s.len(),
                    sz >= 1,
                    b.len() == s.len() * sz,
                    (i + 1) * sz == i * sz + sz,
            ;
            if i < s.len() - 1 {
                assert((i + 1) * sz <= bd.len()) by (nonlinear_arith)
                    requires
                        0 <= i < d.len(),
                        sz >= 1,
                        bd.len() == d.len() * sz,
                        (i + 1) * sz == i * sz + sz,
                ;
                assert(b.subrange(i * sz, (i + 1) * sz) =~= bd.subrange(i * sz, (i + 1) * sz));
                assert(parse_records::<T>(bd)[i] == d[i]);
                assert(s[i] == d[i]);
            } else {
                assert(b.subrange(i * sz, (i + 1) * sz) =~= x.spec_serial());
                x.lemma_round_trip();
            }
        }
        assert(parse_records::<T>(b) =~= s);
    }
}

/// Decide whether a bucket buffer holds an ascending run of records, as the
/// bucket engine writes them: what the merge reader's contract asks of its
/// inputs, checkable at the trust boundary before a merge is built.
pub fn buffer_is_sorted<T: BucketDataRead + RecordOrder + Copy>(bytes: &Vec<u8>) -> (r: bool)
    ensures
        r == crate::order::sorted(parse_records::<T>(bytes@)),
{
    let size = T::size();
    let n = bytes.len();
    let count = n / size;
    let ghost s = parse_records::<T>(bytes@);
    proof {
        assert(s.len() == count);
    }
    if count == 0 {
        return true;
    }
    proof {
        lemma_fundamental_div_mod(n as int, size as int);
        assert(count * size <= n) by (nonlinear_arith)
            requires
                size >= 1,
                count == n as int / size as int,
                n == (n as int / size as int) * size + n as int % size as int,
                n as int % size as int >= 0,
        ;
    }
    proof {
        assert(1 * size as int <= count * size as int) by (nonlinear_arith)
            requires
                count >= 1,
                size >= 1,
        ;
        assert(size <= n);
    }
    let mut prev = T::read_at(bytes.as_slice(), 0);
    proof {
        assert(s[0] == T::spec_of_bytes(bytes@.subrange(0, size as int)));
    }
    let mut i: usize = 1;
    while i < count
        invariant
            1 <= i <= count,
            size == T::spec_size(),
            size >= 1,
            n == bytes@.len(),
            count == s.len(),
            s == parse_records::<T>(bytes@),
            count * size <= n,
            crate::order::sorted(s.take(i as int)),
            prev == s[i - 1],
        decreases count - i,
    {
        proof {
            assert((i + 1) * size == i * size + size) by (nonlinear_arith);
            assert(i * size + size <= n) by (nonlinear_arith)
                requires
                    i + 1 <= count,
                    size >= 1,
                    count * size <= n,
                    (i + 1) * size == i * size + size,
            ;
        }
        let cur = T::read_at(bytes.as_slice(), i * size);
        proof {
            assert(s[i as int] == T::spec_of_bytes(
                bytes@.subrange(i as int * size as int, (i as int + 1) * size as int),
            ));
        }
        if !prev.le(&cur) {
            proof {
                assert(s.take(s.len() as int) =~= s);
                assert(!s[i - 1].le_spec(&s[i as int]));
            }
            return false;
        }
        proof {
            let t = s.take(i as int + 1);
            assert forall|p: int, q: int| 0 <= p < q < t.len() implies #[trigger] t[p].le_spec(
                &t[q],
            ) by {
                assert(t[p] == s[p] && t[q] == s[q]);
                if q < i as int {
                    assert(s.take(i as int)[p].le_spec(&s.take(i as int)[q]));
                } else {
                    assert(s[i - 1].le_spec(&s[i as int]));
                    if p < i - 1 {
                        assert(s.take(i as int)[p].le_spec(&s.take(i as int)[i - 1]));
                        T::lemma_le_transitive(&s[p], &s[i - 1], &s[i as int]);
                    }
                }
            }
        }
        prev = cur;
        i += 1;
    }
    proof {
        assert(s.take(s.len() as int) =~= s);
    }
    true
}

/// A reader over one bucket's bytes. Construction reads the first record
/// into the head and fails on a buffer without one; `read_next_entry_failed`
/// replaces the head by the next record until the buffer is exhausted.
pub struct BufReaderEntry<T> {
    bytes: Vec<u8>,
    pos: usize,
    last_entry_read: T,
    consumed: Ghost<int>,
}

impl<T: BucketDataRead + RecordOrder + Copy> BufReaderEntry<T> {
    /// All records of the buffer.
    pub closed spec fn stream(self) -> Seq<T> {
        parse_records(self.bytes@)
    }

    /// How many records have been read so far, the head included.
    pub closed spec fn consumed(self) -> int {
        self.consumed@
    }

    /// The record read last.
    pub closed spec fn head(self) -> T {
        self.last_entry_read
    }

    /// The records not yet returned by the merge, the head first.
    pub open spec fn remaining(self) -> Seq<T> {
        self.stream().subrange(self.consumed() - 1, self.stream().len() as int)
    }

    pub closed spec fn wf(self) -> bool {
        &&& 1 <= self.consumed() <= self.stream().len()
        &&& self.pos == self.consumed() * T::spec_size()
        &&& self.last_entry_read == self.stream()[self.consumed() - 1]
    }

    /// The head is always part of what remains.
    pub proof fn lemma_remaining_head(self)
        requires
            self.wf(),
        ensures
            self.remaining().len() >= 1,
            self.remaining()[0] == self.head(),
            self.remaining().len() == self.stream().len() - self.consumed() + 1,
            1 <= self.consumed() <= self.stream().len(),
    {
    }

    /// Over a sorted stream the head is a lower bound on what remains.
    pub proof fn lemma_head_min(self)
        requires
            self.wf(),
            crate::order::sorted(self.stream()),
        ensures
            forall|j: int|
                0 <= j < self.remaining().len() ==> self.head().le_spec(
                    &(#[trigger] self.remaining()[j]),
                ),
    {
        self.lemma_remaining_head();
        assert forall|j: int| 0 <= j < self.remaining().len() implies self.head().le_spec(
            &(#[trigger] self.remaining()[j]),
        ) by {
            let c = self.consumed();
            if j == 0 {
                T::lemma_le_total(&self.head(), &self.head());
            } else {
                assert(self.remaining()[j] == self.stream()[c - 1 + j]);
                assert(self.stream()[c - 1].le_spec(&self.stream()[c - 1 + j]));
            }
        }
    }

    /// Open a reader over the bytes of one bucket; a buffer without a single
    /// complete record is refused.
    pub fn new(bytes: Vec<u8>) -> (r: Result<Self, GrouperError>)
        ensures
            match r {
                Ok(b) => {
                    &&& b.wf()
                    &&& b.stream() == parse_records::<T>(bytes@)
                    &&& b.consumed() == 1
                    &&& b.remaining() == parse_records::<T>(bytes@)
                },
                Err(e) => {
                    &&& e == GrouperError::EmptyBucket
                    &&& parse_records::<T>(bytes@).len() == 0
                },
            },
    {
        let n = bytes.len();
        let size = T::size();
        if n < size {
            proof {
                lemma_fundamental_div_mod_converse(n as int, size as int, 0, n as int);
            }
            return Err(GrouperError::EmptyBucket);
        }
        let first = T::read_at(bytes.as_slice(), 0);
        let r = BufReaderEntry { bytes, pos: size, last_entry_read: first, consumed: Ghost(1) };
        proof {
            let s = T::spec_size() as int;
            let bn = r.bytes@.len() as int;
            lemma_fundamental_div_mod(bn, s);
            assert(r.stream().len() == bn / s);
            assert(r.stream().len() >= 1) by {
                if bn / s <= 0 {
                    assert(bn < s) by (nonlinear_arith)
                        requires
                            s > 0,
                            bn == (bn / s) * s + bn % s,
                            bn / s <= 0,
                            0 <= bn % s < s,
                            0 <= bn / s,
                    ;
                }
                vstd::arithmetic::div_mod::lemma_div_basics_4(bn, s);
            }
            assert(r.stream()[0] == T::spec_of_bytes(r.bytes@.subrange(0, s)));
            assert(r.remaining() =~= r.stream());
        }
        Ok(r)
    }

    /// The current head.
    pub fn last_entry_read(&self) -> (r: &T)
        ensures
            *r == self.head(),
    {
        &self.last_entry_read
    }

    /// Try to replace the head with the next record; true means the buffer is
    /// exhausted and the reader should be discarded.
    pub fn read_next_entry_failed(&mut self) -> (eof: bool)
        requires
            old(self).wf(),
        ensures
            eof == (old(self).remaining().len() == 1),
            eof ==> *final(self) == *old(self),
            !eof ==> {
                &&& final(self).wf()
                &&& final(self).stream() == old(self).stream()
                &&& final(self).consumed() == old(self).consumed() + 1
                &&& final(self).remaining() == old(self).remaining().drop_first()
                &&& final(self).head() == old(self).remaining()[1]
            },
    {
        let size = T::size();
        let n = self.bytes.len();
        proof {
            let s = T::spec_size() as int;
            let c = self.consumed@;
            let len = self.stream().len() as int;
            lemma_fundamental_div_mod(n as int, s);
            assert(len == n as int / s);
            // the cursor sits at or before the last full record's end
            assert(c * s <= len * s) by (nonlinear_arith)
                requires
                    c <= len,
                    s > 0,
            ;
            assert(len * s <= n) by (nonlinear_arith)
                requires
                    s > 0,
                    len == n as int / s,
                    n == (n as int / s) * s + n as int % s,
                    n as int % s >= 0,
            ;
        }
        if n - self.pos >= size {
            let ghost oldc = self.consumed@;
            let r = T::read_at(self.bytes.as_slice(), self.pos);
            self.last_entry_read = r;
            self.pos = self.pos + size;
            self.consumed = Ghost(self.consumed@ + 1);
            proof {
                let s = T::spec_size() as int;
                let len = self.stream().len() as int;
                assert(self.pos == (oldc + 1) * s) by (nonlinear_arith)
                    requires
                        self.pos == oldc * s + s,
                ;
                // another full record fits, so the stream is longer
                assert(oldc + 1 <= len) by {
                    assert((oldc + 1) * s <= n) by (nonlinear_arith)
                        requires
                            self.pos == (oldc + 1) * s,
                            self.pos <= n,
                    ;
                    if oldc + 1 > len {
                        assert((oldc + 1) * s >= (len + 1) * s) by (nonlinear_arith)
                            requires
                                oldc + 1 >= len + 1,
                                s > 0,
                        ;
                        assert((len + 1) * s > n) by (nonlinear_arith)
                            requires
                                s > 0,
                                len == n as int / s,
                                n == (n as int / s) * s + n as int % s,
                                n as int % s < s,
                        ;
                    }
                }
                assert(self.stream()[oldc] == T::spec_of_bytes(
                    self.bytes@.subrange(oldc * s, (oldc + 1) * s),
                ));
                assert(final(self).remaining() =~= old(self).remaining().drop_first());
            }
            false
        } else {
            proof {
                let s = T::spec_size() as int;
                let c = self.consumed@;
                let len = self.stream().len() as int;
                // no further record fits, so the head was the last one
                assert(c == len) by {
                    if c < len {
                        assert(c * s + s <= len * s) by (nonlinear_arith)
                            requires
                                c + 1 <= len,
                                s > 0,
                        ;
                    }
                }
            }
            true
        }
    }
}

} // verus!
