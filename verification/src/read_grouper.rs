//! The two-phase pipeline driver: phase 1 fans decoded reads into sorted
//! k-mer buckets; phase 2 merges them, groups equal k-mers and emits one
//! record per pair of distinct reads in every group of admissible size,
//! keeping a histogram of group sizes.
use vstd::multiset::Multiset;
use vstd::prelude::*;

use crate::bucket_list::BucketList;
use crate::data_bucket::DataBucket;
use crate::kmer::{canon_kmers, Kmer};
use crate::kmer_bits::KmerReverse;
use crate::kmer_read::KmerRead;
use crate::min_max_reads::MinMaxReads;
use crate::buf_reader_entry::parse_records;
use crate::multi_bucket_reader::{
    all_records, buffers_records, lemma_all_records_multiset, merged_records, MultiBucketReader,
};
use crate::order::{record_le, sorted, RecordOrder};
use crate::read_pair_kmer::ReadPairKmer;
use crate::sorting::{
    dedup_records, dedup_spec, lemma_dedup_sorted, lemma_record_total_ordering,
    lemma_sorted_is_sorted_by,
};
use crate::{GrouperError, ReadId};

verus! {

broadcast use vstd::seq_lib::group_to_multiset_ensures, vstd::multiset::group_multiset_axioms;

/// The default quality floor a base must reach to enter a k-mer.
pub const DEFAULT_MIN_BASE_QUALITY: u8 = 20;

/// The default number of records an in-memory bucket holds before it spills.
pub const MAX_BUCKET_SIZE: usize = 1000000;

/// The count stored under `key` in an association list, 0 when absent.
pub open spec fn assoc_count(s: Seq<(usize, usize)>, key: nat) -> nat
    decreases s.len(),
{
    if s.len() == 0 {
        0nat
    } else if s.last().0 == key {
        s.last().1 as nat
    } else {
        assoc_count(s.drop_last(), key)
    }
}

/// The sum of all counts in an association list.
pub open spec fn assoc_sum(s: Seq<(usize, usize)>) -> nat
    decreases s.len(),
{
    if s.len() == 0 {
        0nat
    } else {
        assoc_sum(s.drop_last()) + s.last().1 as nat
    }
}

/// The keys of an association list are distinct.
pub open spec fn assoc_unique(s: Seq<(usize, usize)>) -> bool {
    forall|i: int, j: int| 0 <= i < j < s.len() ==> (#[trigger] s[i]).0 != (#[trigger] s[j]).0
}

proof fn lemma_assoc_found(s: Seq<(usize, usize)>, i: int)
    requires
        assoc_unique(s),
        0 <= i < s.len(),
    ensures
        assoc_count(s, s[i].0 as nat) == s[i].1,
    decreases s.len(),
{
    if i < s.len() - 1 {
        assert(s.drop_last()[i] == s[i]);
        lemma_assoc_found(s.drop_last(), i);
    }
}

proof fn lemma_assoc_missing(s: Seq<(usize, usize)>, key: nat)
    requires
        forall|i: int| 0 <= i < s.len() ==> (#[trigger] s[i]).0 != key,
    ensures
        assoc_count(s, key) == 0,
    decreases s.len(),
{
    if s.len() > 0 {
        assert forall|i: int| 0 <= i < s.drop_last().len() implies (#[trigger] s.drop_last()[i]).0
            != key by {
            assert(s.drop_last()[i] == s[i]);
        }
        lemma_assoc_missing(s.drop_last(), key);
    }
}

proof fn lemma_assoc_remove(s: Seq<(usize, usize)>, i: int, key: nat)
    requires
        assoc_unique(s),
        0 <= i < s.len(),
    ensures
        assoc_count(s.remove(i), key) == (if s[i].0 == key {
            0nat
        } else {
            assoc_count(s, key)
        }),
        assoc_sum(s.remove(i)) + s[i].1 == assoc_sum(s),
        assoc_unique(s.remove(i)),
    decreases s.len(),
{
    s.remove_ensures(i);
    assert forall|p: int, q: int| 0 <= p < q < s.remove(i).len() implies (#[trigger] s.remove(
        i,
    )[p]).0 != (#[trigger] s.remove(i)[q]).0 by {
        if q < i {
            assert(s.remove(i)[p] == s[p] && s.remove(i)[q] == s[q]);
        } else if p < i {
            assert(s.remove(i)[p] == s[p] && s.remove(i)[q] == s[q + 1]);
        } else {
            assert(s.remove(i)[p] == s[p + 1] && s.remove(i)[q] == s[q + 1]);
        }
    }
    if i == s.len() - 1 {
        assert(s.remove(i) =~= s.drop_last());
        if s[i].0 == key {
            assert forall|t: int| 0 <= t < s.drop_last().len() implies (#[trigger] s.drop_last()[t]).0
                != key by {
                assert(s.drop_last()[t] == s[t]);
            }
            lemma_assoc_missing(s.drop_last(), key);
        }
    } else {
        let d = s.drop_last();
        lemma_assoc_remove(d, i, key);
        assert(s.remove(i).drop_last() =~= d.remove(i));
        assert(s.remove(i).last() == s.last());
    }
}

/// A histogram over group sizes, stored as an association list from size to
/// number of groups of that size.
pub struct Histogram {
    counts: Vec<(usize, usize)>,
}

impl Histogram {
    pub closed spec fn spec_counts(self) -> Seq<(usize, usize)> {
        self.counts@
    }

    /// How many groups of the given size were recorded.
    pub open spec fn spec_count(self, size: nat) -> nat {
        assoc_count(self.spec_counts(), size)
    }

    /// How many groups were recorded in all.
    pub open spec fn spec_total(self) -> nat {
        assoc_sum(self.spec_counts())
    }

    pub open spec fn wf(self) -> bool {
        &&& assoc_unique(self.spec_counts())
        &&& self.spec_total() <= usize::MAX
    }

    pub fn new() -> (r: Self)
        ensures
            r.wf(),
            r.spec_total() == 0,
            forall|size: nat| r.spec_count(size) == 0,
            r.spec_counts() == Seq::<(usize, usize)>::empty(),
    {
        Histogram { counts: Vec::new() }
    }

    /// Record one more group of the given size.
    pub fn bump(&mut self, size: usize)
        requires
            old(self).wf(),
            old(self).spec_total() < usize::MAX,
        ensures
            final(self).wf(),
            final(self).spec_total() == old(self).spec_total() + 1,
            final(self).spec_count(size as nat) == old(self).spec_count(size as nat) + 1,
            forall|other: nat|
                other != size ==> final(self).spec_count(other) == old(self).spec_count(other),
    {
        let ghost orig = self.counts@;
        let n = self.counts.len();
        let mut idx: usize = 0;
        let mut found = false;
        while idx < n && !found
            invariant
                self.counts@ == orig,
                n == orig.len(),
                idx <= n,
                !found ==> forall|t: int| 0 <= t < idx ==> (#[trigger] orig[t]).0 != size,
                found ==> idx < n && orig[idx as int].0 == size,
            decreases n - idx + (if found {
                0int
            } else {
                1int
            }),
        {
            if self.counts[idx].0 == size {
                found = true;
            } else {
                idx += 1;
            }
        }
        if found {
            proof {
                lemma_assoc_found(orig, idx as int);
                lemma_assoc_remove(orig, idx as int, size as nat);
            }
            let pair = self.counts.remove(idx);
            let ghost mid = self.counts@;
            self.counts.push((pair.0, pair.1 + 1));
            proof {
                assert(self.counts@.drop_last() =~= mid);
                assert forall|other: nat|
                    other != size implies final(self).spec_count(other) == old(self).spec_count(
                    other,
                ) by {
                    lemma_assoc_remove(orig, idx as int, other);
                }
            }
        } else {
            proof {
                lemma_assoc_missing(orig, size as nat);
            }
            self.counts.push((size, 1));
            proof {
                assert(self.counts@.drop_last() =~= orig);
                assert forall|i: int, j: int|
                    0 <= i < j < self.counts@.len() implies (#[trigger] self.counts@[i]).0 != (
                #[trigger] self.counts@[j]).0 by {
                    if j < self.counts@.len() - 1 {
                        assert(orig[i] == self.counts@[i] && orig[j] == self.counts@[j]);
                    } else {
                        assert(orig[i] == self.counts@[i]);
                    }
                }
            }
        }
    }

    /// Drop the entry for group size 0: the sentinel group that precedes the
    /// first real k-mer.
    pub fn remove_zero(&mut self)
        requires
            old(self).wf(),
        ensures
            final(self).wf(),
            final(self).spec_count(0) == 0,
            forall|other: nat|
                other != 0 ==> final(self).spec_count(other) == old(self).spec_count(other),
            final(self).spec_total() == old(self).spec_total() - old(self).spec_count(0),
    {
        let ghost orig = self.counts@;
        let n = self.counts.len();
        let mut idx: usize = 0;
        let mut found = false;
        while idx < n && !found
            invariant
                self.counts@ == orig,
                n == orig.len(),
                idx <= n,
                !found ==> forall|t: int| 0 <= t < idx ==> (#[trigger] orig[t]).0 != 0,
                found ==> idx < n && orig[idx as int].0 == 0,
            decreases n - idx + (if found {
                0int
            } else {
                1int
            }),
        {
            if self.counts[idx].0 == 0 {
                found = true;
            } else {
                idx += 1;
            }
        }
        if found {
            proof {
                lemma_assoc_found(orig, idx as int);
                lemma_assoc_remove(orig, idx as int, 0);
            }
            let _ = self.counts.remove(idx);
            proof {
                assert forall|other: nat|
                    other != 0 implies final(self).spec_count(other) == old(self).spec_count(
                    other,
                ) by {
                    lemma_assoc_remove(orig, idx as int, other);
                }
            }
        } else {
            proof {
                lemma_assoc_missing(orig, 0);
            }
        }
    }

    /// The recorded count for a group size.
    pub fn get(&self, size: usize) -> (r: usize)
        requires
            self.wf(),
        ensures
            r == self.spec_count(size as nat),
    {
        let ghost orig = self.counts@;
        let n = self.counts.len();
        let mut idx: usize = 0;
        while idx < n
            invariant
                self.counts@ == orig,
                self.wf(),
                n == orig.len(),
                idx <= n,
                forall|t: int| 0 <= t < idx ==> (#[trigger] orig[t]).0 != size,
            decreases n - idx,
        {
            if self.counts[idx].0 == size {
                proof {
                    lemma_assoc_found(orig, idx as int);
                }
                return self.counts[idx].1;
            }
            idx += 1;
        }
        proof {
            lemma_assoc_missing(orig, size as nat);
        }
        0
    }

    /// The total number of recorded groups.
    pub fn total(&self) -> (r: usize)
        requires
            self.wf(),
        ensures
            r == self.spec_total(),
    {
        let ghost orig = self.counts@;
        let n = self.counts.len();
        let mut sum: usize = 0;
        let mut idx: usize = 0;
        while idx < n
            invariant
                self.counts@ == orig,
                assoc_unique(orig),
                assoc_sum(orig) <= usize::MAX,
                n == orig.len(),
                idx <= n,
                sum == assoc_sum(orig.take(idx as int)),
            decreases n - idx,
        {
            proof {
                let t = orig.take(idx as int + 1);
                assert(t.drop_last() =~= orig.take(idx as int));
                assert(t.last() == orig[idx as int]);
                lemma_assoc_sum_prefix(orig, idx as int + 1);
            }
            sum = sum + self.counts[idx].1;
            idx += 1;
        }
        proof {
            assert(orig.take(n as int) =~= orig);
        }
        sum
    }
}

/// A prefix sum never exceeds the full sum.
proof fn lemma_assoc_sum_prefix(s: Seq<(usize, usize)>, k: int)
    requires
        0 <= k <= s.len(),
    ensures
        assoc_sum(s.take(k)) <= assoc_sum(s),
    decreases s.len() - k,
{
    if k < s.len() {
        lemma_assoc_sum_prefix(s, k + 1);
        let t = s.take(k + 1);
        assert(t.drop_last() =~= s.take(k));
        assert(t.last() == s[k]);
    } else {
        assert(s.take(k) =~= s);
    }
}

/// One decoded read: its base letters and the parallel quality scores.
pub struct DecodedRead {
    pub sequence: Vec<u8>,
    pub qualities: Vec<u8>,
}

impl DecodedRead {
    /// The two arrays run in parallel.
    pub open spec fn wf(self) -> bool {
        self.sequence@.len() == self.qualities@.len()
    }

    pub fn new(sequence: Vec<u8>, qualities: Vec<u8>) -> (r: Self)
        requires
            sequence@.len() == qualities@.len(),
        ensures
            r.sequence@ == sequence@,
            r.qualities@ == qualities@,
            r.wf(),
    {
        DecodedRead { sequence, qualities }
    }
}

/// The phase-1 records of one read: one `KmerRead` per canonical k-mer the
/// extractor yields, all carrying the read's id.
pub open spec fn read_records<B: KmerReverse>(rd: DecodedRead, q: u8, id: ReadId) -> Seq<
    KmerRead<B>,
> {
    canon_kmers::<B>(rd.sequence@, rd.qualities@, q).map_values(
        |b: B| KmerRead::spec_make(Kmer::spec_make(b), id),
    )
}

/// The phase-1 records of a whole stream of reads, ids assigned in order.
pub open spec fn phase1_records<B: KmerReverse>(reads: Seq<DecodedRead>, q: u8) -> Seq<
    KmerRead<B>,
>
    decreases reads.len(),
{
    if reads.len() == 0 {
        Seq::empty()
    } else {
        phase1_records::<B>(reads.drop_last(), q) + read_records::<B>(
            reads.last(),
            q,
            (reads.len() - 1) as ReadId,
        )
    }
}

/// Law: every k-mer stored by phase 1 is canonical, w == min(w, revcomp(w)).
pub proof fn lemma_phase1_canonical<B: KmerReverse>(reads: Seq<DecodedRead>, q: u8)
    ensures
        forall|t: int|
            0 <= t < phase1_records::<B>(reads, q).len() ==> {
                let w = (#[trigger] phase1_records::<B>(reads, q)[t]).spec_kmer().value();
                w == crate::kmer_bits::canonical::<B>(w)
            },
    decreases reads.len(),
{
    if reads.len() > 0 {
        lemma_phase1_canonical::<B>(reads.drop_last(), q);
        let d = phase1_records::<B>(reads.drop_last(), q);
        let rd = reads.last();
        let id = (reads.len() - 1) as ReadId;
        let ks = canon_kmers::<B>(rd.sequence@, rd.qualities@, q);
        crate::kmer::lemma_canon_kmers_shape::<B>(rd.sequence@, rd.qualities@, q);
        let tail = read_records::<B>(rd, q, id);
        assert forall|t: int|
            0 <= t < phase1_records::<B>(reads, q).len() implies {
            let w = (#[trigger] phase1_records::<B>(reads, q)[t]).spec_kmer().value();
            w == crate::kmer_bits::canonical::<B>(w)
        } by {
            if t >= d.len() {
                let j = t - d.len();
                assert(phase1_records::<B>(reads, q)[t] == tail[j]);
                assert(tail[j] == KmerRead::spec_make(Kmer::spec_make(ks[j]), id));
                KmerRead::<B>::lemma_spec_make(Kmer::spec_make(ks[j]), id);
                Kmer::<B>::lemma_spec_make(ks[j]);
                assert(ks[j].value() == crate::kmer_bits::canonical::<B>(ks[j].value()));
            } else {
                assert(phase1_records::<B>(reads, q)[t] == d[t]);
            }
        }
    }
}

/// The zero-valued sentinel k-mer the grouping state starts from.
pub open spec fn zero_kmer<B: KmerReverse>() -> Kmer<B> {
    Kmer::spec_make(B::from_value(0))
}

/// The occurrences of a value in a sequence.
pub open spec fn count_val(s: Seq<nat>, v: nat) -> nat
    decreases s.len(),
{
    if s.len() == 0 {
        0nat
    } else {
        count_val(s.drop_last(), v) + (if s.last() == v {
            1nat
        } else {
            0nat
        })
    }
}

/// One pair record for every two positions of a read-id list, ordered by the
/// later position first ascending, all carrying the group's k-mer.
pub open spec fn group_pairs<B: KmerReverse>(ids: Seq<ReadId>, kmer: Kmer<B>) -> Seq<
    ReadPairKmer<B>,
>
    decreases ids.len(),
{
    if ids.len() <= 1 {
        Seq::empty()
    } else {
        group_pairs(ids.drop_last(), kmer) + Seq::new(
            (ids.len() - 1) as nat,
            |i: int| ReadPairKmer::spec_make(ids[i], ids.last(), kmer),
        )
    }
}

/// The pair records one flushed group contributes: after removing adjacent
/// duplicate read ids, all pairs if the group size lies within the bounds,
/// none otherwise.
pub open spec fn flush_pairs<B: KmerReverse>(
    kmer: Kmer<B>,
    ids: Seq<ReadId>,
    mm: MinMaxReads,
) -> Seq<ReadPairKmer<B>> {
    let d = dedup_spec(ids);
    if mm.spec_is_valid(d.len() as int) {
        group_pairs(d, kmer)
    } else {
        Seq::empty()
    }
}

/// The grouping state after a prefix of the merged stream: the current
/// k-mer, the read ids collected for it, the pre-dedup sizes of the groups
/// flushed so far, and the pair records emitted so far.
pub open spec fn phase2_fold<B: KmerReverse>(s: Seq<KmerRead<B>>, mm: MinMaxReads) -> (
    Kmer<B>,
    Seq<ReadId>,
    Seq<nat>,
    Seq<ReadPairKmer<B>>,
)
    decreases s.len(),
{
    if s.len() == 0 {
        (zero_kmer::<B>(), Seq::empty(), Seq::empty(), Seq::empty())
    } else {
        let (k, reads, sizes, pairs) = phase2_fold(s.drop_last(), mm);
        let r = s.last();
        if r.spec_kmer() == k {
            (k, reads.push(r.spec_read_id()), sizes, pairs)
        } else {
            (
                r.spec_kmer(),
                seq![r.spec_read_id()],
                sizes.push(reads.len()),
                pairs + flush_pairs(k, reads, mm),
            )
        }
    }
}

/// What phase 2 emits over a merged stream: the fold's pairs plus the final
/// flush.
pub open spec fn phase2_pairs<B: KmerReverse>(s: Seq<KmerRead<B>>, mm: MinMaxReads) -> Seq<
    ReadPairKmer<B>,
> {
    let (k, reads, sizes, pairs) = phase2_fold(s, mm);
    pairs + flush_pairs(k, reads, mm)
}

/// The pre-dedup sizes of all groups of a merged stream, the final flush
/// included.
pub open spec fn phase2_sizes<B: KmerReverse>(s: Seq<KmerRead<B>>, mm: MinMaxReads) -> Seq<nat> {
    let (k, reads, sizes, pairs) = phase2_fold(s, mm);
    sizes.push(reads.len())
}

/// The number of runs of equal consecutive k-mers; on a sorted stream, the
/// number of distinct k-mers.
pub open spec fn group_count<B: KmerReverse>(s: Seq<KmerRead<B>>) -> nat
    decreases s.len(),
{
    if s.len() == 0 {
        0nat
    } else if s.len() == 1 {
        1nat
    } else {
        group_count(s.drop_last()) + (if s.last().spec_kmer() == s[s.len() - 2].spec_kmer() {
            0nat
        } else {
            1nat
        })
    }
}

/// Law: on a sorted stream, the number of runs of equal consecutive k-mers
/// is the number of distinct k-mer values, so the phase-2 histogram total
/// counts the distinct k-mers observed in phase 1.
pub proof fn lemma_group_count_distinct<B: KmerReverse>(s: Seq<KmerRead<B>>)
    requires
        sorted(s),
    ensures
        group_count(s) == s.map_values(|r: KmerRead<B>| r.spec_kmer().value()).to_set().len(),
    decreases s.len(),
{
    broadcast use vstd::set::group_set_axioms, vstd::seq_lib::seq_to_set_is_finite;

    let vals = s.map_values(|r: KmerRead<B>| r.spec_kmer().value());
    if s.len() == 0 {
        assert(vals.to_set() =~= Set::<nat>::empty());
    } else if s.len() == 1 {
        assert(vals.to_set() =~= Set::<nat>::empty().insert(s[0].spec_kmer().value())) by {
            assert(vals[0] == s[0].spec_kmer().value());
        }
    } else {
        let d = s.drop_last();
        assert(sorted(d)) by {
            assert forall|p: int, q: int| 0 <= p < q < d.len() implies #[trigger] d[p].le_spec(
                &d[q],
            ) by {
                assert(s[p].le_spec(&s[q]));
            }
        }
        lemma_group_count_distinct(d);
        let dvals = d.map_values(|r: KmerRead<B>| r.spec_kmer().value());
        let lastv = s.last().spec_kmer().value();
        assert(vals.to_set() =~= dvals.to_set().insert(lastv)) by {
            assert forall|x: nat| vals.to_set().contains(x) implies dvals.to_set().insert(
                lastv,
            ).contains(x) by {
                let i = choose|i: int| 0 <= i < vals.len() && vals[i] == x;
                if i < vals.len() - 1 {
                    assert(dvals[i] == x);
                    assert(dvals.to_set().contains(x));
                }
            }
            assert forall|x: nat| dvals.to_set().insert(lastv).contains(x) implies vals.to_set()
                .contains(x) by {
                if x == lastv {
                    assert(vals[vals.len() - 1] == x);
                } else {
                    let i = choose|i: int| 0 <= i < dvals.len() && dvals[i] == x;
                    assert(vals[i] == x);
                }
            }
        }
        if s.last().spec_kmer() == s[s.len() - 2].spec_kmer() {
            assert(dvals.to_set().contains(lastv)) by {
                assert(dvals[d.len() - 1] == lastv);
            }
            assert(dvals.to_set().insert(lastv) =~= dvals.to_set());
        } else {
            // the last k-mer is new: every earlier k-mer value is at most the
            // one before the last, which is strictly below the last
            assert(!dvals.to_set().contains(lastv)) by {
                if dvals.to_set().contains(lastv) {
                    let i = choose|i: int| 0 <= i < dvals.len() && dvals[i] == lastv;
                    assert(s[i].le_spec(&s[s.len() - 2]));
                    assert(s[s.len() - 2].le_spec(&s[s.len() - 1]));
                    assert(s[s.len() - 2].spec_kmer().value() == lastv);
                    Kmer::<B>::lemma_value_injective(
                        s[s.len() - 2].spec_kmer(),
                        s.last().spec_kmer(),
                    );
                }
            }
        }
    }
}

/// Whether a stream opens with a k-mer other than the sentinel, which makes
/// the driver flush one empty group before the first real one.
pub open spec fn sentinel_flush<B: KmerReverse>(s: Seq<KmerRead<B>>) -> nat {
    if s.len() > 0 && s[0].spec_kmer() != zero_kmer::<B>() {
        1nat
    } else {
        0nat
    }
}

/// Law: a group of reads sharing a k-mer contributes one record per pair of
/// distinct positions, so twice the record count equals g·(g−1) for the
/// deduplicated group size g when g lies within the bounds, and the group
/// contributes nothing otherwise. Every record pairs two distinct reads in
/// ascending order and carries the group's k-mer.
pub proof fn lemma_flush_pairs<B: KmerReverse>(kmer: Kmer<B>, ids: Seq<ReadId>, mm: MinMaxReads)
    requires
        sorted(ids),
    ensures
        ({
            let g = dedup_spec(ids).len() as int;
            &&& (mm.spec_is_valid(g) ==> 2 * flush_pairs(kmer, ids, mm).len() == g * (g - 1))
            &&& (!mm.spec_is_valid(g) ==> flush_pairs(kmer, ids, mm).len() == 0)
            &&& forall|t: int|
                0 <= t < flush_pairs(kmer, ids, mm).len() ==> ((#[trigger] flush_pairs(
                    kmer,
                    ids,
                    mm,
                )[t]).wf() && flush_pairs(kmer, ids, mm)[t].spec_kmer() == kmer)
        }),
{
    lemma_dedup_sorted(ids);
    let d = dedup_spec(ids);
    assert forall|p: int, q: int| 0 <= p < q < d.len() implies d[p] < d[q] by {
        assert(d[p].le_spec(&d[q]));
    }
    lemma_group_pairs(d, kmer);
}

/// Counting and shape of `group_pairs` over a strictly ascending id list.
proof fn lemma_group_pairs<B: KmerReverse>(ids: Seq<ReadId>, kmer: Kmer<B>)
    requires
        forall|p: int, q: int| 0 <= p < q < ids.len() ==> ids[p] < ids[q],
    ensures
        2 * group_pairs(ids, kmer).len() == ids.len() * (ids.len() - 1),
        forall|t: int|
            0 <= t < group_pairs(ids, kmer).len() ==> ((#[trigger] group_pairs(ids, kmer)[t]).wf()
                && group_pairs(ids, kmer)[t].spec_kmer() == kmer),
    decreases ids.len(),
{
    if ids.len() <= 1 {
        assert(ids.len() * (ids.len() - 1) == 0) by (nonlinear_arith)
            requires
                ids.len() <= 1,
        ;
    } else {
        let d = ids.drop_last();
        assert forall|p: int, q: int| 0 <= p < q < d.len() implies d[p] < d[q] by {
            assert(ids[p] < ids[q]);
        }
        lemma_group_pairs(d, kmer);
        let n = ids.len() as int;
        assert(2 * group_pairs(ids, kmer).len() == (n - 1) * (n - 2) + 2 * (n - 1));
        assert((n - 1) * (n - 2) + 2 * (n - 1) == n * (n - 1)) by (nonlinear_arith);
        let tail = Seq::new(
            (ids.len() - 1) as nat,
            |i: int| ReadPairKmer::<B>::spec_make(ids[i], ids.last(), kmer),
        );
        assert forall|t: int| 0 <= t < group_pairs(ids, kmer).len() implies ((#[trigger] group_pairs(
            ids,
            kmer,
        )[t]).wf() && group_pairs(ids, kmer)[t].spec_kmer() == kmer) by {
            if t >= group_pairs(d, kmer).len() {
                let i = t - group_pairs(d, kmer).len();
                assert(group_pairs(ids, kmer)[t] == tail[i]);
                ReadPairKmer::<B>::lemma_spec_make(ids[i], ids.last(), kmer);
                assert(ids[i] < ids[n - 1]);
            }
        }
    }
}

/// How the grouping state evolves over a sorted stream: the current k-mer is
/// the last one seen, its collected read ids are ascending and end with the
/// last read id, one group was flushed per completed run of equal k-mers
/// (plus one empty sentinel group when the stream does not open on the
/// sentinel k-mer), the sentinel group is the only flushed group of size 0,
/// and every pair record emitted is well-formed.
pub proof fn lemma_fold_props<B: KmerReverse>(s: Seq<KmerRead<B>>, mm: MinMaxReads)
    requires
        sorted(s),
    ensures
        ({
            let (k, reads, sizes, pairs) = phase2_fold(s, mm);
            &&& (s.len() == 0 ==> k == zero_kmer::<B>() && reads.len() == 0 && sizes.len() == 0
                && pairs.len() == 0)
            &&& (s.len() > 0 ==> k == s.last().spec_kmer())
            &&& (s.len() > 0 ==> reads.len() >= 1 && reads.last() == s.last().spec_read_id())
            &&& sorted(reads)
            &&& sizes.len() <= s.len()
            &&& sizes.len() == (if s.len() == 0 {
                0int
            } else {
                group_count(s) - 1 + sentinel_flush(s)
            })
            &&& count_val(sizes, 0) == sentinel_flush(s)
            &&& forall|t: int| 0 <= t < pairs.len() ==> (#[trigger] pairs[t]).wf()
        }),
    decreases s.len(),
{
    if s.len() == 0 {
    } else {
        let d = s.drop_last();
        assert(sorted(d)) by {
            assert forall|p: int, q: int| 0 <= p < q < d.len() implies #[trigger] d[p].le_spec(
                &d[q],
            ) by {
                assert(s[p].le_spec(&s[q]));
            }
        }
        lemma_fold_props(d, mm);
        let (k, reads, sizes, pairs) = phase2_fold(d, mm);
        let r = s.last();
        if s.len() > 1 {
            assert(sentinel_flush(s) == sentinel_flush(d)) by {
                assert(s[0] == d[0]);
            }
            assert(k == s[s.len() - 2].spec_kmer());
        }
        if r.spec_kmer() == k {
            // the run continues: the new read id extends the ascending list
            let reads2 = reads.push(r.spec_read_id());
            if s.len() > 1 {
                assert(s[s.len() - 2].le_spec(&r));
                assert(reads.last() <= r.spec_read_id());
                assert(sorted(reads2)) by {
                    assert forall|p: int, q: int|
                        0 <= p < q < reads2.len() implies #[trigger] reads2[p].le_spec(
                        &reads2[q],
                    ) by {
                        if q < reads2.len() - 1 {
                            assert(reads[p].le_spec(&reads[q]));
                        } else {
                            if p < reads.len() - 1 {
                                assert(reads[p].le_spec(&reads[reads.len() - 1]));
                            }
                        }
                    }
                }
                assert(group_count(s) == group_count(d));
            } else {
                // a first record carrying the sentinel k-mer starts its group
                // without a flush
                assert(reads.len() == 0);
                assert(sorted(reads2));
                assert(group_count(s) == 1 && sentinel_flush(s) == 0);
            }
        } else {
            let sizes2 = sizes.push(reads.len());
            assert(count_val(sizes2, 0) == count_val(sizes, 0) + (if reads.len() == 0 {
                1nat
            } else {
                0nat
            })) by {
                assert(sizes2.drop_last() =~= sizes);
            }
            if s.len() > 1 {
                assert(group_count(s) == group_count(d) + 1);
                assert(reads.len() >= 1);
            } else {
                assert(group_count(s) == 1 && sentinel_flush(s) == 1);
                assert(reads.len() == 0 && sizes.len() == 0);
            }
            assert(sorted(seq![r.spec_read_id()]));
            // the flushed pairs are all well-formed
            lemma_flush_pairs(k, reads, mm);
            let pairs2 = pairs + flush_pairs(k, reads, mm);
            assert forall|t: int| 0 <= t < pairs2.len() implies (#[trigger] pairs2[t]).wf() by {
                if t < pairs.len() {
                    assert(pairs2[t] == pairs[t]);
                } else {
                    assert(pairs2[t] == flush_pairs(k, reads, mm)[t - pairs.len()]);
                }
            }
        }
    }
}

/// The driver of the two phases, configured with the bucket directory, the
/// base-quality floor and the bucket capacity.
pub struct ReadGrouper<KmerBits> {
    bucket_dir: String,
    min_base_quality: u8,
    max_bucket_size: usize,
    kmer_bits_dummy: core::marker::PhantomData<KmerBits>,
}

impl<KmerBits: KmerReverse> ReadGrouper<KmerBits> {
    pub closed spec fn spec_bucket_dir(self) -> Seq<char> {
        self.bucket_dir@
    }

    pub closed spec fn spec_min_base_quality(self) -> u8 {
        self.min_base_quality
    }

    pub closed spec fn spec_max_bucket_size(self) -> usize {
        self.max_bucket_size
    }

    pub open spec fn wf(self) -> bool {
        self.spec_max_bucket_size() >= 1
    }

    pub fn new(bucket_dir: &str) -> (r: Self)
        ensures
            r.wf(),
            r.spec_bucket_dir() == bucket_dir@,
            r.spec_min_base_quality() == DEFAULT_MIN_BASE_QUALITY,
            r.spec_max_bucket_size() == MAX_BUCKET_SIZE,
    {
        ReadGrouper {
            bucket_dir: bucket_dir.to_owned(),
            min_base_quality: DEFAULT_MIN_BASE_QUALITY,
            max_bucket_size: MAX_BUCKET_SIZE,
            kmer_bits_dummy: core::marker::PhantomData,
        }
    }

    /// Extract the canonical k-mers of one read and add one record per k-mer
    /// to the phase-1 bucket series.
    pub fn ingest_read(
        &self,
        bucket: &mut DataBucket<KmerRead<KmerBits>>,
        read_id: ReadId,
        read: &DecodedRead,
    )
        requires
            old(bucket).wf(),
            read.wf(),
        ensures
            final(bucket).wf(),
            final(bucket).spec_history() == old(bucket).spec_history() + read_records::<KmerBits>(
                *read,
                self.spec_min_base_quality(),
                read_id,
            ),
            final(bucket).spec_bucket_size() == old(bucket).spec_bucket_size(),
            final(bucket).spec_bucket_dir() == old(bucket).spec_bucket_dir(),
            final(bucket).spec_sample_name() == old(bucket).spec_sample_name(),
            final(bucket).spec_ending() == old(bucket).spec_ending(),
    {
        let kmers = Kmer::<KmerBits>::kmers_from_record(
            read.sequence.as_slice(),
            read.qualities.as_slice(),
            self.min_base_quality,
        );
        let ghost ks = kmers@;
        let ghost target = read_records::<KmerBits>(
            *read,
            self.spec_min_base_quality(),
            read_id,
        );
        let ghost start = bucket.spec_history();
        let n = kmers.len();
        let mut i: usize = 0;
        while i < n
            invariant
                i <= n,
                n == ks.len(),
                kmers@ == ks,
                target.len() == ks.len(),
                forall|t: int|
                    0 <= t < ks.len() ==> #[trigger] target[t] == KmerRead::spec_make(
                        Kmer::spec_make(ks[t]),
                        read_id,
                    ),
                bucket.wf(),
                bucket.spec_history() == start + target.take(i as int),
                bucket.spec_bucket_size() == old(bucket).spec_bucket_size(),
                bucket.spec_bucket_dir() == old(bucket).spec_bucket_dir(),
                bucket.spec_sample_name() == old(bucket).spec_sample_name(),
                bucket.spec_ending() == old(bucket).spec_ending(),
            decreases n - i,
        {
            let rec = KmerRead::new(Kmer::new(kmers[i]), read_id);
            proof {
                Kmer::<KmerBits>::lemma_spec_make(ks[i as int]);
                Kmer::<KmerBits>::lemma_bits_injective(
                    rec.spec_kmer(),
                    Kmer::spec_make(ks[i as int]),
                );
                KmerRead::<KmerBits>::lemma_spec_make(Kmer::spec_make(ks[i as int]), read_id);
                KmerRead::<KmerBits>::lemma_fields_injective(rec, target[i as int]);
            }
            bucket.add(rec);
            proof {
                assert(start + target.take(i as int + 1) =~= (start + target.take(i as int)).push(
                    target[i as int],
                ));
            }
            i += 1;
        }
        proof {
            assert(target.take(target.len() as int) =~= target);
        }
    }

    /// Flush one k-mer group: deduplicate its ascending read-id list, and if
    /// the deduplicated size lies within the bounds, emit one record per pair
    /// of distinct reads; the list is cleared either way.
    pub fn process_kmer_grouped_reads(
        &self,
        kmer: &Kmer<KmerBits>,
        reads: &mut Vec<ReadId>,
        min_max: &MinMaxReads,
        bucket: &mut DataBucket<ReadPairKmer<KmerBits>>,
    )
        requires
            old(bucket).wf(),
            sorted(old(reads)@),
        ensures
            final(bucket).wf(),
            final(reads)@ == Seq::<ReadId>::empty(),
            final(bucket).spec_history() == old(bucket).spec_history() + flush_pairs(
                *kmer,
                old(reads)@,
                *min_max,
            ),
            final(bucket).spec_bucket_size() == old(bucket).spec_bucket_size(),
            final(bucket).spec_bucket_dir() == old(bucket).spec_bucket_dir(),
            final(bucket).spec_sample_name() == old(bucket).spec_sample_name(),
            final(bucket).spec_ending() == old(bucket).spec_ending(),
    {
        let ghost orig = reads@;
        let ghost start = bucket.spec_history();
        dedup_records(reads);
        proof {
            lemma_dedup_sorted(orig);
        }
        let ghost d = reads@;
        proof {
            assert forall|p: int, q: int| 0 <= p < q < d.len() implies d[p] < d[q] by {
                assert(d[p].le_spec(&d[q]));
                assert(d[p] != d[q]);
            }
        }
        let g = reads.len();
        if min_max.is_valid(g) {
            proof {
                if g >= 2 {
                    assert(d.take(1int).len() == 1);
                    assert(group_pairs(d.take(1int), *kmer) == Seq::<
                        ReadPairKmer<KmerBits>,
                    >::empty());
                    assert(start + group_pairs(d.take(1int), *kmer) =~= start);
                }
            }
            let mut read2_pos: usize = 1;
            while read2_pos < g
                invariant
                    1 <= read2_pos,
                    read2_pos <= g || g <= 1,
                    g == d.len(),
                    reads@ == d,
                    forall|p: int, q: int| 0 <= p < q < d.len() ==> d[p] < d[q],
                    bucket.wf(),
                    g >= 2 ==> bucket.spec_history() == start + group_pairs(
                        d.take(read2_pos as int),
                        *kmer,
                    ),
                    g <= 1 ==> bucket.spec_history() == start,
                    bucket.spec_bucket_size() == old(bucket).spec_bucket_size(),
                    bucket.spec_bucket_dir() == old(bucket).spec_bucket_dir(),
                    bucket.spec_sample_name() == old(bucket).spec_sample_name(),
                    bucket.spec_ending() == old(bucket).spec_ending(),
                decreases g - read2_pos,
            {
                let ghost jj = read2_pos as int;
                let ghost tail = Seq::new(
                    jj as nat,
                    |i: int| ReadPairKmer::<KmerBits>::spec_make(d[i], d[jj], *kmer),
                );
                let mut read1_pos: usize = 0;
                while read1_pos < read2_pos
                    invariant
                        read1_pos <= read2_pos < g,
                        g == d.len(),
                        reads@ == d,
                        forall|p: int, q: int| 0 <= p < q < d.len() ==> d[p] < d[q],
                        tail == Seq::new(
                            jj as nat,
                            |i: int| ReadPairKmer::<KmerBits>::spec_make(d[i], d[jj], *kmer),
                        ),
                        jj == read2_pos,
                        bucket.wf(),
                        bucket.spec_history() == start + group_pairs(d.take(jj), *kmer)
                            + tail.take(read1_pos as int),
                        bucket.spec_bucket_size() == old(bucket).spec_bucket_size(),
                        bucket.spec_bucket_dir() == old(bucket).spec_bucket_dir(),
                        bucket.spec_sample_name() == old(bucket).spec_sample_name(),
                        bucket.spec_ending() == old(bucket).spec_ending(),
                    decreases read2_pos - read1_pos,
                {
                    let rpk = ReadPairKmer::new(reads[read1_pos], reads[read2_pos], kmer);
                    bucket.add(rpk);
                    proof {
                        let ii = read1_pos as int;
                        assert(tail.take(ii + 1) =~= tail.take(ii).push(tail[ii]));
                        assert((start + group_pairs(d.take(jj), *kmer) + tail.take(ii)).push(
                            tail[ii],
                        ) =~= start + group_pairs(d.take(jj), *kmer) + tail.take(ii + 1));
                    }
                    read1_pos += 1;
                }
                proof {
                    let t = d.take(jj + 1);
                    assert(t.drop_last() =~= d.take(jj));
                    assert(t.last() == d[jj]);
                    assert(group_pairs(t, *kmer) == group_pairs(d.take(jj), *kmer) + Seq::new(
                        jj as nat,
                        |i: int| ReadPairKmer::<KmerBits>::spec_make(t[i], t.last(), *kmer),
                    ));
                    assert(Seq::new(
                        jj as nat,
                        |i: int| ReadPairKmer::<KmerBits>::spec_make(t[i], t.last(), *kmer),
                    ) =~= tail);
                    assert(tail.take(jj) =~= tail);
                    assert(start + group_pairs(t, *kmer) =~= start + group_pairs(d.take(jj), *kmer)
                        + tail);
                }
                read2_pos += 1;
            }
            proof {
                if g >= 2 {
                    assert(d.take(g as int) =~= d);
                } else {
                    assert(group_pairs(d, *kmer) == Seq::<ReadPairKmer<KmerBits>>::empty());
                    assert(start + group_pairs(d, *kmer) =~= start);
                }
            }
        } else {
            proof {
                assert(start + Seq::<ReadPairKmer<KmerBits>>::empty() =~= start);
            }
        }
        reads.clear();
    }

    /// Phase 1 over an already decoded stream of reads: assign ids in order,
    /// extract each read's canonical k-mers, bucket the records, and spill
    /// what is left. Returns the manifest and the bucket series holding the
    /// spill files.
    pub fn read_decoded_reads(&self, sample_name: &str, reads: &Vec<DecodedRead>) -> (r: (
        BucketList,
        DataBucket<KmerRead<KmerBits>>,
    ))
        requires
            self.wf(),
            reads@.len() <= u32::MAX,
            forall|i: int| 0 <= i < reads@.len() ==> (#[trigger] reads@[i]).wf(),
        ensures
            r.1.wf(),
            r.1.buffered() == Seq::<KmerRead<KmerBits>>::empty(),
            r.1.spec_history() == phase1_records::<KmerBits>(
                reads@,
                self.spec_min_base_quality(),
            ),
            crate::data_bucket::pending_records(r.1.spec_pending()) == r.1.spec_history()
                .to_multiset(),
            r.0.spec_sample_name() == sample_name@,
            r.0.spec_number_of_reads() == reads@.len(),
            r.0.spec_filenames() == r.1.spec_filenames(),
            r.1.spec_bucket_dir() == self.spec_bucket_dir(),
            r.1.spec_bucket_size() == self.spec_max_bucket_size(),
            r.1.spec_sample_name() == sample_name@,
            r.1.spec_ending() == "pairs"@,
    {
        let mut out_bucket: DataBucket<KmerRead<KmerBits>> = DataBucket::new(
            self.max_bucket_size,
            self.bucket_dir.as_str(),
            sample_name,
            "pairs",
        );
        let n = reads.len();
        let mut read_number: ReadId = 0;
        let mut i: usize = 0;
        while i < n
            invariant
                i <= n,
                n == reads@.len(),
                n <= u32::MAX,
                forall|t: int| 0 <= t < reads@.len() ==> (#[trigger] reads@[t]).wf(),
                read_number == i,
                out_bucket.wf(),
                out_bucket.spec_history() == phase1_records::<KmerBits>(
                    reads@.take(i as int),
                    self.spec_min_base_quality(),
                ),
                out_bucket.spec_bucket_size() == self.spec_max_bucket_size(),
                out_bucket.spec_bucket_dir() == self.spec_bucket_dir(),
                out_bucket.spec_sample_name() == sample_name@,
                out_bucket.spec_ending() == "pairs"@,
            decreases n - i,
        {
            let read = &reads[i];
            self.ingest_read(&mut out_bucket, read_number, read);
            proof {
                let t = reads@.take(i as int + 1);
                assert(t.drop_last() =~= reads@.take(i as int));
                assert(t.last() == reads@[i as int]);
            }
            read_number = read_number + 1;
            i += 1;
        }
        proof {
            assert(reads@.take(n as int) =~= reads@);
        }
        let filenames = out_bucket.finish();
        let bucket_list = BucketList::new(sample_name.to_owned(), filenames, read_number);
        (bucket_list, out_bucket)
    }

    /// Phase 2: merge the phase-1 bucket buffers into one ascending stream,
    /// group records with equal k-mers, and emit the pair records of every
    /// group whose deduplicated size lies within the bounds into a new bucket
    /// series, keeping a histogram of pre-dedup group sizes. The histogram
    /// total equals the number of distinct k-mers of the merged stream.
    #[verifier::spinoff_prover]
    #[verifier::rlimit(100)]
    pub fn process_read_kmer_buckets(
        &self,
        bucket_list: &BucketList,
        buffers: &Vec<Vec<u8>>,
        min_max: &MinMaxReads,
    ) -> (r: Result<(BucketList, Histogram, DataBucket<ReadPairKmer<KmerBits>>), GrouperError>)
        requires
            self.wf(),
            forall|i: int|
                0 <= i < buffers@.len() ==> sorted(
                    parse_records::<KmerRead<KmerBits>>(#[trigger] buffers@[i]@),
                ),
            buffers_records::<KmerRead<KmerBits>>(buffers@.map_values(|b: Vec<u8>| b@)).len()
                < usize::MAX,
        ensures
            ({
                let merged = merged_records::<KmerRead<KmerBits>>(
                    buffers@.map_values(|b: Vec<u8>| b@),
                );
                match r {
                    Ok(out) => {
                        &&& out.2.wf()
                        &&& out.2.buffered().len() == 0
                        &&& out.2.spec_history() == phase2_pairs(merged, *min_max)
                        &&& crate::data_bucket::pending_records(out.2.spec_pending()) == out.2
                            .spec_history().to_multiset()
                        &&& forall|t: int|
                            0 <= t < out.2.spec_history().len() ==> (#[trigger] out.2
                                .spec_history()[t]).wf()
                        &&& out.1.wf()
                        &&& out.1.spec_count(0) == 0
                        &&& (forall|sz: nat|
                            sz != 0 ==> out.1.spec_count(sz) == count_val(
                                phase2_sizes(merged, *min_max),
                                sz,
                            ))
                        &&& out.1.spec_total() == group_count(merged)
                        &&& out.0.spec_sample_name() == bucket_list.spec_sample_name()
                        &&& out.0.spec_number_of_reads() == 0
                        &&& out.0.spec_filenames() == out.2.spec_filenames()
                        &&& out.2.spec_bucket_dir() == self.spec_bucket_dir()
                        &&& out.2.spec_bucket_size() == self.spec_max_bucket_size()
                        &&& out.2.spec_sample_name() == bucket_list.spec_sample_name()
                        &&& out.2.spec_ending() == "read_pairs"@
                    },
                    Err(e) => {
                        &&& e == GrouperError::EmptyBucket
                        &&& exists|i: int|
                            0 <= i < buffers@.len() && parse_records::<KmerRead<KmerBits>>(
                                #[trigger] buffers@[i]@,
                            ).len() == 0
                    },
                }
            }),
    {
        let ghost bviews = buffers@.map_values(|b: Vec<u8>| b@);
        let ghost total = buffers_records::<KmerRead<KmerBits>>(bviews);
        let sample_name = bucket_list.sample_name().to_owned();
        let mut mbr = match MultiBucketReader::<KmerRead<KmerBits>>::new(buffers) {
            Ok(m) => m,
            Err(e) => {
                return Err(e);
            },
        };
        let mut out_bucket: DataBucket<ReadPairKmer<KmerBits>> = DataBucket::new(
            self.max_bucket_size,
            self.bucket_dir.as_str(),
            sample_name.as_str(),
            "read_pairs",
        );
        let mut stats = Histogram::new();
        let mut last_kmer: Kmer<KmerBits> = Kmer::default();
        let mut last_reads_ids: Vec<ReadId> = Vec::new();
        let ghost mut emitted: Seq<KmerRead<KmerBits>> = Seq::empty();
        let mut done = false;
        proof {
            broadcast use vstd::seq_lib::group_to_multiset_ensures;
            broadcast use vstd::multiset::group_multiset_axioms;

            Kmer::<KmerBits>::lemma_spec_make(KmerBits::from_value(0));
            crate::kmer_bits::lemma_pow4_pos(KmerBits::spec_bases());
            KmerBits::lemma_from_value(0);
            Kmer::<KmerBits>::lemma_value_injective(last_kmer, zero_kmer::<KmerBits>());
            assert(emitted.to_multiset().add(mbr.remaining()) =~= total);
        }
        while !done
            invariant
                mbr.wf(),
                out_bucket.wf(),
                stats.wf(),
                sorted(emitted),
                emitted.to_multiset().add(mbr.remaining()) == total,
                total.len() < usize::MAX,
                done ==> mbr.remaining() == Multiset::<KmerRead<KmerBits>>::empty(),
                forall|y: KmerRead<KmerBits>|
                    mbr.remaining().contains(y) ==> (emitted.len() > 0 ==> emitted.last().le_spec(
                        &y,
                    )),
                ({
                    let (k, reads, sizes, pairs) = phase2_fold(emitted, *min_max);
                    &&& last_kmer == k
                    &&& last_reads_ids@ == reads
                    &&& out_bucket.spec_history() == pairs
                    &&& stats.spec_total() == sizes.len()
                    &&& (forall|sz: nat| stats.spec_count(sz) == count_val(sizes, sz))
                }),
                out_bucket.spec_bucket_size() == self.spec_max_bucket_size(),
                out_bucket.spec_bucket_dir() == self.spec_bucket_dir(),
                out_bucket.spec_sample_name() == sample_name@,
                out_bucket.spec_ending() == "read_pairs"@,
                sample_name@ == bucket_list.spec_sample_name(),
            decreases mbr.remaining().len() + (if done {
                0int
            } else {
                1int
            }),
        {
            let ghost prev = emitted;
            let ghost prev_fold = phase2_fold(emitted, *min_max);
            match mbr.next() {
                None => {
                    done = true;
                },
                Some(kmer_read) => {
                    proof {
                        broadcast use vstd::seq_lib::group_to_multiset_ensures;
                        broadcast use vstd::multiset::group_multiset_axioms;

                        lemma_fold_props(emitted, *min_max);
                        // the flushed-group count stays below the total record count
                        assert(emitted.to_multiset().len() == emitted.len());
                        assert(emitted.len() + 1 <= total.len());
                    }
                    let keq = last_kmer.same(kmer_read.kmer());
                    if !keq {
                        stats.bump(last_reads_ids.len());
                        self.process_kmer_grouped_reads(
                            &last_kmer,
                            &mut last_reads_ids,
                            min_max,
                            &mut out_bucket,
                        );
                        last_kmer = *kmer_read.kmer();
                    }
                    last_reads_ids.push(kmer_read.read_id());
                    proof {
                        broadcast use vstd::seq_lib::group_to_multiset_ensures;
                        broadcast use vstd::multiset::group_multiset_axioms;

                        emitted = prev.push(kmer_read);
                        assert(emitted.drop_last() =~= prev);
                        assert(emitted.last() == kmer_read);
                        // the stream stays sorted as it grows
                        assert(sorted(emitted)) by {
                            assert forall|p: int, q: int|
                                0 <= p < q < emitted.len() implies #[trigger] emitted[p].le_spec(
                                &emitted[q],
                            ) by {
                                if q < emitted.len() - 1 {
                                    assert(prev[p].le_spec(&prev[q]));
                                } else {
                                    assert(emitted[q] == kmer_read);
                                    if p < prev.len() - 1 {
                                        assert(prev[p].le_spec(&prev[prev.len() - 1]));
                                        KmerRead::<KmerBits>::lemma_le_transitive(
                                            &prev[p],
                                            &prev[prev.len() - 1],
                                            &kmer_read,
                                        );
                                    }
                                }
                            }
                        }
                        assert(emitted.to_multiset().add(mbr.remaining()) =~= total);
                        if !keq {
                            let (k2, reads2, sizes2, pairs2) = phase2_fold(emitted, *min_max);
                            assert(sizes2 =~= prev_fold.2.push(prev_fold.1.len()));
                            assert(sizes2.drop_last() =~= prev_fold.2);
                            assert(last_reads_ids@ =~= seq![kmer_read.spec_read_id()]);
                            assert forall|sz: nat| stats.spec_count(sz) == count_val(
                                sizes2,
                                sz,
                            ) by {
                            }
                        } else {
                            assert(last_reads_ids@ =~= prev_fold.1.push(
                                kmer_read.spec_read_id(),
                            ));
                        }
                    }
                },
            }
        }
        proof {
            broadcast use vstd::seq_lib::group_to_multiset_ensures;
            broadcast use vstd::multiset::group_multiset_axioms;

            lemma_fold_props(emitted, *min_max);
            assert(emitted.to_multiset().len() == emitted.len());
            assert(emitted.len() <= total.len());
        }
        let ghost final_fold = phase2_fold(emitted, *min_max);
        stats.bump(last_reads_ids.len());
        self.process_kmer_grouped_reads(&last_kmer, &mut last_reads_ids, min_max, &mut out_bucket);
        proof {
            assert(stats.spec_total() == final_fold.2.len() + 1);
            assert(phase2_sizes(emitted, *min_max).drop_last() =~= final_fold.2);
            assert forall|sz: nat| stats.spec_count(sz) == count_val(
                phase2_sizes(emitted, *min_max),
                sz,
            ) by {
            }
        }
        let ghost pre_remove = stats;
        stats.remove_zero();
        proof {
            broadcast use vstd::seq_lib::group_to_multiset_ensures;
            broadcast use vstd::multiset::group_multiset_axioms;

            // the merged stream is pinned: it is the unique ascending
            // arrangement of all buffered records
            let merged = merged_records::<KmerRead<KmerBits>>(bviews);
            lemma_all_records_multiset::<KmerRead<KmerBits>>(bviews);
            lemma_record_total_ordering::<KmerRead<KmerBits>>();
            all_records::<KmerRead<KmerBits>>(bviews).lemma_sort_by_ensures(
                record_le::<KmerRead<KmerBits>>(),
            );
            lemma_sorted_is_sorted_by::<KmerRead<KmerBits>>(emitted);
            lemma_sorted_is_sorted_by::<KmerRead<KmerBits>>(merged);
            assert(emitted.to_multiset() =~= total);
            vstd::seq_lib::lemma_sorted_unique(
                emitted,
                merged,
                record_le::<KmerRead<KmerBits>>(),
            );
            assert(emitted == merged);
            // the histogram total counts exactly the distinct k-mers
            let sizes_all = phase2_sizes(emitted, *min_max);
            assert(count_val(sizes_all, 0) == sentinel_flush(emitted) + (if emitted.len() == 0 {
                1nat
            } else {
                0nat
            })) by {
                assert(sizes_all.drop_last() =~= final_fold.2);
                if emitted.len() > 0 {
                    assert(final_fold.1.len() >= 1);
                }
            }
            assert(stats.spec_total() == group_count(emitted));
            // every emitted pair is well-formed
            let pairs_all = phase2_pairs(emitted, *min_max);
            assert(out_bucket.spec_history() == pairs_all);
            lemma_flush_pairs(final_fold.0, final_fold.1, *min_max);
            assert forall|t: int| 0 <= t < pairs_all.len() implies (#[trigger] pairs_all[t]).wf() by {
                if t < final_fold.3.len() {
                    assert(pairs_all[t] == final_fold.3[t]);
                } else {
                    assert(pairs_all[t] == flush_pairs(final_fold.0, final_fold.1, *min_max)[t
                        - final_fold.3.len()]);
                }
            }
        }
        let filenames = out_bucket.finish();
        let out_list = BucketList::new(sample_name, filenames, 0);
        Ok((out_list, stats, out_bucket))
    }
}

} // verus!
