//! The per-read k-mer extractor: the canonical k-mers of every clean window
//! of a read, produced by incremental bit-shift updates.
use vstd::arithmetic::div_mod::{lemma_mod_multiples_vanish, lemma_small_mod};
use vstd::prelude::*;
use vstd::string::StringExecFns;

use crate::kmer_bits::{
    base_group, canonical, lemma_canonical_idempotent, lemma_pow4_le, lemma_pow4_pos, pow4,
    KmerReverse,
};
use crate::order::{record_le, sorted, RecordOrder};
use crate::sorting::{dedup_records, dedup_spec, lemma_dedup_sorted, sort_records};

verus! {

broadcast use vstd::seq_lib::group_to_multiset_ensures;

/// The four letters the 2-bit encoding covers.
pub open spec fn is_acgt(c: u8) -> bool {
    c == 65 || c == 67 || c == 71 || c == 84
}

/// The 2-bit code of a base letter.
pub open spec fn base_code(c: u8) -> nat {
    if c == 67 {
        1
    } else if c == 71 {
        2
    } else if c == 84 {
        3
    } else {
        0
    }
}

/// Position i of the read holds a known base of sufficient quality.
pub open spec fn clean_at(seq: Seq<u8>, qual: Seq<u8>, min_q: u8, i: int) -> bool {
    is_acgt(seq[i]) && qual[i] >= min_q
}

/// Positions lo..hi are all clean.
pub open spec fn clean_range(seq: Seq<u8>, qual: Seq<u8>, min_q: u8, lo: int, hi: int) -> bool {
    forall|i: int| lo <= i < hi ==> clean_at(seq, qual, min_q, i)
}

/// The packed value of the window of `len` bases starting at `start`, the
/// first base in the most significant 2-bit group.
pub open spec fn pack(seq: Seq<u8>, start: int, len: nat) -> nat
    decreases len,
{
    if len == 0 {
        0nat
    } else {
        pack(seq, start, (len - 1) as nat) * 4 + base_code(seq[start + len - 1])
    }
}

pub proof fn lemma_pack_bound(seq: Seq<u8>, start: int, len: nat)
    ensures
        pack(seq, start, len) < pow4(len),
    decreases len,
{
    if len != 0 {
        lemma_pack_bound(seq, start, (len - 1) as nat);
    }
}

/// Splitting the first base off a packed window.
pub proof fn lemma_pack_front(seq: Seq<u8>, start: int, len: nat)
    requires
        len >= 1,
    ensures
        pack(seq, start, len) == base_code(seq[start]) * pow4((len - 1) as nat) + pack(
            seq,
            start + 1,
            (len - 1) as nat,
        ),
    decreases len,
{
    if len == 1 {
        assert(pack(seq, start, 1) == pack(seq, start, 0) * 4 + base_code(seq[start]));
        assert(pack(seq, start + 1, 0) == 0);
        assert(pow4(0) == 1);
        assert(base_code(seq[start]) * 1 == base_code(seq[start])) by (nonlinear_arith);
    } else {
        let c0 = base_code(seq[start]);
        let cl = base_code(seq[start + len - 1]);
        let p2 = pow4((len - 2) as nat);
        let t = pack(seq, start + 1, (len - 2) as nat);
        lemma_pack_front(seq, start, (len - 1) as nat);
        assert((c0 * p2 + t) * 4 + cl == c0 * (4 * p2) + (t * 4 + cl)) by (nonlinear_arith);
        assert(pow4((len - 1) as nat) == 4 * p2);
        assert(pack(seq, start, len) == pack(seq, start, (len - 1) as nat) * 4 + cl);
        assert(pack(seq, start, (len - 1) as nat) == c0 * p2 + t);
        assert(pack(seq, start, len) == (c0 * p2 + t) * 4 + cl) by (nonlinear_arith)
            requires
                pack(seq, start, len) == pack(seq, start, (len - 1) as nat) * 4 + cl,
                pack(seq, start, (len - 1) as nat) == c0 * p2 + t,
        ;
        assert(pack(seq, start + 1, (len - 1) as nat) == t * 4 + cl);
        assert(c0 * (4 * p2) == c0 * pow4((len - 1) as nat));
    }
}

/// Advancing a window of k bases by one position is a shift, an insertion
/// and a truncation of the packed value.
pub proof fn lemma_pack_roll(seq: Seq<u8>, start: int, k: nat)
    requires
        k >= 1,
    ensures
        pack(seq, start + 1, k) == (pack(seq, start, k) * 4 + base_code(seq[start + k])) % pow4(k),
{
    let c0 = base_code(seq[start]);
    let cn = base_code(seq[start + k]);
    let tail = pack(seq, start + 1, (k - 1) as nat);
    lemma_pack_front(seq, start, k);
    assert(pack(seq, start + 1, k) == tail * 4 + cn);
    assert(pack(seq, start, k) * 4 + cn == c0 * pow4((k - 1) as nat) * 4 + (tail * 4 + cn))
        by (nonlinear_arith)
        requires
            pack(seq, start, k) == c0 * pow4((k - 1) as nat) + tail,
    ;
    assert(c0 * pow4((k - 1) as nat) * 4 == pow4(k) * c0) by (nonlinear_arith)
        requires
            pow4(k) == 4 * pow4((k - 1) as nat),
    ;
    lemma_pow4_pos(k);
    lemma_mod_multiples_vanish(c0 as int, (tail * 4 + cn) as int, pow4(k) as int);
    lemma_pack_bound(seq, start + 1, k);
    lemma_small_mod(pack(seq, start + 1, k), pow4(k));
}

/// The first position at or after `i` that is not clean, or the length of
/// the read if every position from `i` on is clean.
pub open spec fn scan_end(seq: Seq<u8>, qual: Seq<u8>, min_q: u8, i: int) -> int
    decreases seq.len() - i,
{
    if i >= seq.len() || !clean_at(seq, qual, min_q, i) {
        i
    } else {
        scan_end(seq, qual, min_q, i + 1)
    }
}

/// `scan_end` is pinned by cleanness up to a dirty position or the end.
pub proof fn lemma_scan_end_pins(seq: Seq<u8>, qual: Seq<u8>, min_q: u8, i: int, e: int)
    requires
        0 <= i <= e <= seq.len(),
        clean_range(seq, qual, min_q, i, e),
        e < seq.len() ==> !clean_at(seq, qual, min_q, e),
    ensures
        scan_end(seq, qual, min_q, i) == e,
    decreases e - i,
{
    if i < e {
        lemma_scan_end_pins(seq, qual, min_q, i + 1, e);
    }
}

/// How many windows the extractor emits before sorting: none unless the read
/// reaches K bases and the first window is clean; otherwise one window per
/// position up to the first dirty position.
pub open spec fn emit_count<B: KmerReverse>(seq: Seq<u8>, qual: Seq<u8>, min_q: u8) -> int {
    let k = B::spec_bases() as int;
    if seq.len() < k || !clean_range(seq, qual, min_q, 0, k) {
        0
    } else {
        scan_end(seq, qual, min_q, k) - k + 1
    }
}

/// The canonical k-mers of the emitted windows, in window order.
pub open spec fn window_kmers<B: KmerReverse>(seq: Seq<u8>, qual: Seq<u8>, min_q: u8) -> Seq<B> {
    Seq::new(
        emit_count::<B>(seq, qual, min_q) as nat,
        |w: int| B::from_value(canonical::<B>(pack(seq, w, B::spec_bases()))),
    )
}

/// What the extractor returns: the canonical window k-mers, sorted and with
/// duplicates removed.
pub open spec fn canon_kmers<B: KmerReverse>(seq: Seq<u8>, qual: Seq<u8>, min_q: u8) -> Seq<B> {
    dedup_spec(window_kmers::<B>(seq, qual, min_q).sort_by(record_le::<B>()))
}

/// The base letter of a 2-bit code.
pub open spec fn base_char(g: nat) -> char {
    if g == 0 {
        'A'
    } else if g == 1 {
        'C'
    } else if g == 2 {
        'G'
    } else {
        'T'
    }
}

/// A DNA word wrapping its packed bit representation.
#[derive(Clone, Copy, Debug, PartialEq, Eq, Structural)]
pub struct Kmer<KmerBits> {
    bits: KmerBits,
}

impl<KmerBits: KmerReverse> Kmer<KmerBits> {
    /// The wrapped word.
    pub closed spec fn spec_bits(self) -> KmerBits {
        self.bits
    }

    /// The packed value of the word.
    pub open spec fn value(self) -> nat {
        self.spec_bits().value()
    }

    pub fn new(kmer: KmerBits) -> (r: Self)
        ensures
            r.spec_bits() == kmer,
    {
        Kmer { bits: kmer }
    }

    /// The wrapped word, by copy.
    pub fn bits(&self) -> (r: KmerBits)
        ensures
            r == self.spec_bits(),
    {
        self.bits
    }

    /// The word wrapping the given bits, at the specification level.
    pub closed spec fn spec_make(bits: KmerBits) -> Self {
        Kmer { bits }
    }

    pub proof fn lemma_spec_make(bits: KmerBits)
        ensures
            Self::spec_make(bits).spec_bits() == bits,
    {
    }

    pub proof fn lemma_bits_injective(a: Self, b: Self)
        requires
            a.spec_bits() == b.spec_bits(),
        ensures
            a == b,
    {
    }

    pub proof fn lemma_value_injective(a: Self, b: Self)
        requires
            a.value() == b.value(),
        ensures
            a == b,
    {
        KmerBits::lemma_value_injective(a.spec_bits(), b.spec_bits());
    }

    /// The on-disk bytes of the word.
    pub open spec fn spec_serial(self) -> Seq<u8> {
        self.spec_bits().spec_serial()
    }

    /// Append the word's on-disk bytes to `buffer`.
    pub fn write(&self, buffer: &mut Vec<u8>)
        ensures
            final(buffer)@ == old(buffer)@ + self.spec_serial(),
    {
        self.bits.write(buffer)
    }

    /// The word spelled out as K letters A/C/G/T, the most significant 2-bit
    /// group first.
    pub fn to_base_string(&self) -> (r: String)
        ensures
            r@.len() == KmerBits::spec_bases(),
            forall|p: int|
                0 <= p < r@.len() ==> r@[p] == base_char(
                    base_group(self.value(), (KmerBits::spec_bases() - 1 - p) as nat),
                ),
    {
        let k = KmerBits::bases();
        let mut s = String::new();
        let mut pos: usize = 0;
        while pos < k
            invariant
                k == KmerBits::spec_bases(),
                pos <= k,
                s@.len() == pos,
                forall|p: int|
                    0 <= p < pos ==> s@[p] == base_char(
                        base_group(self.value(), (k - 1 - p) as nat),
                    ),
            decreases k - pos,
        {
            let code = self.bits.base_at(k - 1 - pos);
            let letter: &str = if code == 0 {
                proof {
                    reveal_strlit("A");
                }
                "A"
            } else if code == 1 {
                proof {
                    reveal_strlit("C");
                }
                "C"
            } else if code == 2 {
                proof {
                    reveal_strlit("G");
                }
                "G"
            } else {
                proof {
                    reveal_strlit("T");
                }
                "T"
            };
            proof {
                assert(letter@ =~= seq![
                    base_char(base_group(self.value(), (k - 1 - pos) as nat)),
                ]);
            }
            s.append(letter);
            pos += 1;
        }
        s
    }

    /// Decide equality of two words.
    pub fn same(&self, other: &Self) -> (r: bool)
        ensures
            r == (*self == *other),
    {
        let a = self.bits();
        let b = other.bits();
        proof {
            KmerBits::lemma_le_value(a, b);
            KmerBits::lemma_le_value(b, a);
        }
        let r = a.le(&b) && b.le(&a);
        proof {
            if r {
                KmerBits::lemma_value_injective(a, b);
                Self::lemma_bits_injective(*self, *other);
            }
        }
        r
    }

    /// Decide whether the first K positions of a read form a clean window,
    /// and pack them together with their reverse complement if they do.
    pub fn build_kmer_pair(
        sequence_bases: &[u8],
        quality_scores: &[u8],
        min_base_quality: u8,
    ) -> (r: Option<(KmerBits, KmerBits)>)
        requires
            KmerBits::spec_bases() <= sequence_bases@.len(),
            KmerBits::spec_bases() <= quality_scores@.len(),
        ensures
            match r {
                Some(p) => {
                    &&& clean_range(
                        sequence_bases@,
                        quality_scores@,
                        min_base_quality,
                        0,
                        KmerBits::spec_bases() as int,
                    )
                    &&& p.0.value() == pack(sequence_bases@, 0, KmerBits::spec_bases())
                    &&& p.1.value() == KmerBits::rc_spec(p.0.value())
                },
                None => !clean_range(
                    sequence_bases@,
                    quality_scores@,
                    min_base_quality,
                    0,
                    KmerBits::spec_bases() as int,
                ),
            },
    {
        let k = KmerBits::bases();
        let mut kmer = KmerBits::zero();
        let mut i: usize = 0;
        while i < k
            invariant
                i <= k,
                k == KmerBits::spec_bases(),
                k <= sequence_bases@.len(),
                k <= quality_scores@.len(),
                clean_range(sequence_bases@, quality_scores@, min_base_quality, 0, i as int),
                kmer.value() == pack(sequence_bases@, 0, i as nat),
            decreases k - i,
        {
            if quality_scores[i] < min_base_quality {
                proof {
                    assert(!clean_at(
                        sequence_bases@,
                        quality_scores@,
                        min_base_quality,
                        i as int,
                    ));
                }
                return None;
            }
            let c = sequence_bases[i];
            let base: u8 = if c == 65 {
                0
            } else if c == 67 {
                1
            } else if c == 71 {
                2
            } else if c == 84 {
                3
            } else {
                proof {
                    assert(!clean_at(
                        sequence_bases@,
                        quality_scores@,
                        min_base_quality,
                        i as int,
                    ));
                }
                return None;
            };
            proof {
                assert(base == base_code(sequence_bases@[i as int]));
                assert(clean_at(sequence_bases@, quality_scores@, min_base_quality, i as int));
            }
            let ghost prev = kmer.value();
            kmer.add_base(base);
            proof {
                lemma_pack_bound(sequence_bases@, 0, i as nat);
                lemma_pow4_pos(i as nat);
                lemma_pow4_le((i + 1) as nat, k as nat);
                assert(prev * 4 + base < pow4((i + 1) as nat)) by (nonlinear_arith)
                    requires
                        prev < pow4(i as nat),
                        base < 4,
                        pow4((i + 1) as nat) == 4 * pow4(i as nat),
                ;
                lemma_small_mod((prev * 4 + base) as nat, pow4(k as nat));
                assert(kmer.value() == pack(sequence_bases@, 0, (i + 1) as nat));
            }
            i += 1;
        }
        let reverse_kmer = kmer.reverse_complement();
        Some((kmer, reverse_kmer))
    }

    /// The canonical k-mers of every clean window of the read: sorted,
    /// duplicate-free, each its own canonical form; emission stops at the
    /// first dirty position and a short read yields nothing.
    pub fn kmers_from_record(
        sequence: &[u8],
        quality_scores: &[u8],
        min_base_quality: u8,
    ) -> (r: Vec<KmerBits>)
        requires
            sequence@.len() == quality_scores@.len(),
        ensures
            r@ == canon_kmers::<KmerBits>(sequence@, quality_scores@, min_base_quality),
            sorted(r@),
            r@.no_duplicates(),
            forall|w: int|
                0 <= w < r@.len() ==> (#[trigger] r@[w].value() == canonical::<KmerBits>(
                    r@[w].value(),
                ) && r@[w].value() < pow4(KmerBits::spec_bases())),
    {
        let ghost sq = sequence@;
        let ghost ql = quality_scores@;
        let ghost q = min_base_quality;
        let k = KmerBits::bases();
        let n = sequence.len();
        let mut ret: Vec<KmerBits> = Vec::new();
        if n < k {
            proof {
                lemma_empty_canon::<KmerBits>(sq, ql, q);
            }
            return ret;
        }
        let pair = Self::build_kmer_pair(sequence, quality_scores, min_base_quality);
        let (mut kmer, mut reverse_complement_kmer) = match pair {
            Some(x) => x,
            None => {
                proof {
                    lemma_empty_canon::<KmerBits>(sq, ql, q);
                }
                return ret;
            },
        };
        let c0 = if reverse_complement_kmer.le(&kmer) {
            reverse_complement_kmer
        } else {
            kmer
        };
        proof {
            kmer.lemma_wf();
            lemma_canon_choice::<KmerBits>(kmer, reverse_complement_kmer, c0, sq, 0);
        }
        ret.push(c0);
        let mut i = k;
        let mut stopped = false;
        while i < n && !stopped
            invariant
                sequence@ == sq,
                quality_scores@ == ql,
                q == min_base_quality,
                k == KmerBits::spec_bases(),
                k >= 1,
                n == sq.len(),
                sq.len() == ql.len(),
                k <= i <= n,
                clean_range(sq, ql, q, 0, i as int),
                stopped ==> i < n && !clean_at(sq, ql, q, i as int),
                !stopped ==> kmer.value() == pack(sq, i - k, k as nat),
                ret@.len() == i - k + 1,
                forall|w: int|
                    0 <= w < ret@.len() ==> ret@[w] == KmerBits::from_value(
                        #[trigger] canonical::<KmerBits>(pack(sq, w, k as nat)),
                    ),
            decreases n - i + (if stopped {
                0int
            } else {
                1int
            }),
        {
            let qok = quality_scores[i] >= min_base_quality;
            let mut code: u8 = 0;
            let mut ok = false;
            if qok {
                let c = sequence[i];
                if c == 65 {
                    code = 0;
                    ok = true;
                } else if c == 67 {
                    code = 1;
                    ok = true;
                } else if c == 71 {
                    code = 2;
                    ok = true;
                } else if c == 84 {
                    code = 3;
                    ok = true;
                }
            }
            if ok {
                proof {
                    assert(clean_at(sq, ql, q, i as int));
                    assert(code == base_code(sq[i as int]));
                }
                let ghost prev = kmer.value();
                kmer.add_base(code);
                proof {
                    lemma_pack_roll(sq, i - k, k as nat);
                    assert(kmer.value() == pack(sq, i - k + 1, k as nat));
                }
                reverse_complement_kmer = kmer.reverse_complement();
                let c = if reverse_complement_kmer.le(&kmer) {
                    reverse_complement_kmer
                } else {
                    kmer
                };
                proof {
                    lemma_canon_choice::<KmerBits>(
                        kmer,
                        reverse_complement_kmer,
                        c,
                        sq,
                        i - k + 1,
                    );
                }
                ret.push(c);
                i += 1;
            } else {
                stopped = true;
            }
        }
        proof {
            let ki = k as int;
            let m = ret@.len() as int;
            if stopped {
                lemma_scan_end_pins(sq, ql, q, ki, i as int);
            } else {
                lemma_scan_end_pins(sq, ql, q, ki, n as int);
            }
            assert(emit_count::<KmerBits>(sq, ql, q) == m);
            assert(ret@ =~= window_kmers::<KmerBits>(sq, ql, q));
        }
        sort_records(&mut ret);
        dedup_records(&mut ret);
        proof {
            lemma_canon_kmers_shape::<KmerBits>(sq, ql, q);
        }
        ret
    }
}

impl<KmerBits: KmerReverse> Default for Kmer<KmerBits> {
    /// The all-A word, the zero-valued sentinel.
    fn default() -> (r: Self)
        ensures
            r.value() == 0,
    {
        Kmer { bits: KmerBits::zero() }
    }
}

/// A read without a clean first window yields no k-mers.
proof fn lemma_empty_canon<B: KmerReverse>(seq: Seq<u8>, qual: Seq<u8>, min_q: u8)
    requires
        emit_count::<B>(seq, qual, min_q) == 0,
    ensures
        canon_kmers::<B>(seq, qual, min_q) == Seq::<B>::empty(),
{
    let w = window_kmers::<B>(seq, qual, min_q);
    assert(w =~= Seq::<B>::empty());
    let leq = record_le::<B>();
    crate::sorting::lemma_record_total_ordering::<B>();
    w.lemma_sort_by_ensures(leq);
    assert(w.sort_by(leq).to_multiset() == w.to_multiset());
    assert(w.to_multiset().len() == w.len());
    assert(w.sort_by(leq).to_multiset().len() == w.sort_by(leq).len());
    assert(w.sort_by(leq) =~= Seq::<B>::empty());
    assert(dedup_spec(Seq::<B>::empty()) == Seq::<B>::empty());
}

/// Choosing the not-greater of a word and its reverse complement yields the
/// element carrying the canonical value of the window.
proof fn lemma_canon_choice<B: KmerReverse>(f: B, rc: B, c: B, seq: Seq<u8>, start: int)
    requires
        f.value() == pack(seq, start, B::spec_bases()),
        rc.value() == B::rc_spec(f.value()),
        c == (if rc.le_spec(&f) {
            rc
        } else {
            f
        }),
    ensures
        c == B::from_value(canonical::<B>(pack(seq, start, B::spec_bases()))),
{
    let v = f.value();
    let cv = canonical::<B>(v);
    B::lemma_le_value(rc, f);
    lemma_pack_bound(seq, start, B::spec_bases());
    B::lemma_rc_groups(v);
    B::lemma_from_value(cv);
    if rc.le_spec(&f) {
        assert(c.value() == cv);
    } else {
        assert(c.value() == cv);
    }
    B::lemma_value_injective(c, B::from_value(cv));
}

/// Law: the extractor's k-mer list is sorted, duplicate-free, and every
/// element is its own canonical form.
pub proof fn lemma_canon_kmers_shape<B: KmerReverse>(seq: Seq<u8>, qual: Seq<u8>, min_q: u8)
    ensures
        sorted(canon_kmers::<B>(seq, qual, min_q)),
        canon_kmers::<B>(seq, qual, min_q).no_duplicates(),
        forall|w: int|
            0 <= w < canon_kmers::<B>(seq, qual, min_q).len() ==> (#[trigger] canon_kmers::<B>(
                seq,
                qual,
                min_q,
            )[w].value() == canonical::<B>(canon_kmers::<B>(seq, qual, min_q)[w].value())
                && canon_kmers::<B>(seq, qual, min_q)[w].value() < pow4(B::spec_bases())),
{
    let w = window_kmers::<B>(seq, qual, min_q);
    let leq = record_le::<B>();
    crate::sorting::lemma_record_total_ordering::<B>();
    w.lemma_sort_by_ensures(leq);
    let s = w.sort_by(leq);
    assert(sorted(s)) by {
        crate::sorting::lemma_sorted_is_sorted_by::<B>(s);
    }
    lemma_dedup_sorted(s);
    let d = dedup_spec(s);
    assert forall|t: int| 0 <= t < d.len() implies (#[trigger] d[t].value() == canonical::<B>(
        d[t].value(),
    ) && d[t].value() < pow4(B::spec_bases())) by {
        assert(d.contains(d[t]));
        assert(s.contains(d[t]));
        assert(w.contains(d[t]));
        let p = choose|p: int| 0 <= p < w.len() && w[p] == d[t];
        let pv = pack(seq, p, B::spec_bases());
        lemma_pack_bound(seq, p, B::spec_bases());
        lemma_canonical_idempotent::<B>(pv);
        B::lemma_from_value(canonical::<B>(pv));
        assert(d[t].value() == canonical::<B>(pv));
    }
}

} // verus!
