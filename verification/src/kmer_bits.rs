//! Fixed-width DNA words in 2-bit encoding, with reverse complement and
//! canonical form.
//!
//! A word of K bases (K = 16 or 32) is packed into a 2K-bit unsigned integer,
//! one base per 2-bit group with the mapping A=0, C=1, G=2, T=3; the first
//! base occupies the most significant group. The reverse complement is the
//! bitwise NOT composed with a reversal of the 2-bit groups, and the
//! canonical form of a word is the smaller of the word and its reverse
//! complement.
use vstd::arithmetic::div_mod::{
    lemma_div_denominator, lemma_fundamental_div_mod, lemma_multiply_divide_lt,
};
use vstd::arithmetic::power2::{lemma2_to64, lemma2_to64_rest, lemma_pow2_adds, pow2};
use vstd::bits::{
    lemma_low_bits_mask_values, lemma_u32_low_bits_mask_is_mod, lemma_u32_shr_is_div,
    lemma_u64_low_bits_mask_is_mod, lemma_u64_shr_is_div,
};
use vstd::bytes::{
    spec_u32_from_le_bytes, spec_u32_to_le_bytes, spec_u64_from_le_bytes, spec_u64_to_le_bytes,
    u32_from_le_bytes, u32_to_le_bytes, u64_from_le_bytes, u64_to_le_bytes,
};
use vstd::prelude::*;

use crate::order::RecordOrder;

verus! {

/// 4 raised to the power k: the number of DNA words of k bases.
pub open spec fn pow4(k: nat) -> nat
    decreases k,
{
    if k == 0 {
        1nat
    } else {
        4 * pow4((k - 1) as nat)
    }
}

pub proof fn lemma_pow4_pow2(k: nat)
    ensures
        pow4(k) == pow2(2 * k),
    decreases k,
{
    lemma2_to64();
    if k != 0 {
        lemma_pow4_pow2((k - 1) as nat);
        lemma_pow2_adds(2, 2 * (k - 1) as nat);
    }
}

pub proof fn lemma_pow4_le(a: nat, b: nat)
    ensures
        a <= b ==> pow4(a) <= pow4(b),
    decreases b,
{
    if a < b {
        lemma_pow4_le(a, (b - 1) as nat);
        lemma_pow4_pos((b - 1) as nat);
    }
}

pub proof fn lemma_pow4_pos(k: nat)
    ensures
        pow4(k) >= 1,
    decreases k,
{
    if k != 0 {
        lemma_pow4_pos((k - 1) as nat);
    }
}

pub proof fn lemma_pow4_values()
    ensures
        pow4(16) == 0x1_0000_0000,
        pow4(32) == 0x1_0000_0000_0000_0000,
{
    lemma_pow4_pow2(16);
    lemma_pow4_pow2(32);
    lemma2_to64();
    lemma2_to64_rest();
}

/// The i-th 2-bit group of a packed word, counting from the least
/// significant end (the base added last is group 0).
pub open spec fn base_group(v: nat, i: nat) -> nat {
    (v / pow4(i)) % 4
}

/// Two packed words of k groups with equal groups are equal.
pub proof fn lemma_group_ext(a: nat, b: nat, k: nat)
    requires
        a < pow4(k),
        b < pow4(k),
        forall|i: nat| i < k ==> base_group(a, i) == base_group(b, i),
    ensures
        a == b,
    decreases k,
{
    if k == 0 {
    } else {
        assert(base_group(a, 0) == a % 4 && base_group(b, 0) == b % 4) by {
            vstd::arithmetic::div_mod::lemma_div_basics(a as int);
            vstd::arithmetic::div_mod::lemma_div_basics(b as int);
        }
        let a1 = a / 4;
        let b1 = b / 4;
        assert(a1 < pow4((k - 1) as nat)) by {
            lemma_multiply_divide_lt(a as int, 4, pow4((k - 1) as nat) as int);
        }
        assert(b1 < pow4((k - 1) as nat)) by {
            lemma_multiply_divide_lt(b as int, 4, pow4((k - 1) as nat) as int);
        }
        assert forall|i: nat| i < (k - 1) as nat implies base_group(a1, i) == base_group(
            b1,
            i,
        ) by {
            lemma_pow4_pos(i);
            lemma_div_denominator(a as int, 4, pow4(i) as int);
            lemma_div_denominator(b as int, 4, pow4(i) as int);
            assert(base_group(a, i + 1) == base_group(b, i + 1));
        }
        lemma_group_ext(a1, b1, (k - 1) as nat);
        lemma_fundamental_div_mod(a as int, 4);
        lemma_fundamental_div_mod(b as int, 4);
    }
}

/// A fixed-width 2-bit-encoded DNA word: the interface the extractor, the
/// records and the buckets are generic over.
pub trait KmerReverse: RecordOrder + Sized + Copy {
    /// The packed word as a plain integer.
    spec fn value(self) -> nat;

    /// The number of bases K in a word.
    spec fn spec_bases() -> nat;

    /// The on-disk width in bytes.
    spec fn spec_bytes() -> nat;

    /// The reverse complement of a packed value: each 2-bit group is
    /// complemented and the group order is reversed (see `lemma_rc_groups`).
    spec fn rc_spec(v: nat) -> nat;

    /// The little-endian on-disk form of the word.
    spec fn spec_serial(self) -> Seq<u8>;

    /// The word read back from its little-endian on-disk form.
    spec fn spec_from_bytes(s: Seq<u8>) -> Self;

    /// The word with packed value v.
    spec fn from_value(v: nat) -> Self;

    proof fn lemma_wf(self)
        ensures
            self.value() < pow4(Self::spec_bases()),
            Self::spec_bases() == 4 * Self::spec_bytes(),
            1 <= Self::spec_bytes() <= 8,
    ;

    /// The fixed dimensions of the word, independent of any value.
    proof fn lemma_dims()
        ensures
            Self::spec_bases() == 4 * Self::spec_bytes(),
            1 <= Self::spec_bytes() <= 8,
    ;

    proof fn lemma_value_injective(self, other: Self)
        requires
            self.value() == other.value(),
        ensures
            self == other,
    ;

    proof fn lemma_from_value(v: nat)
        requires
            v < pow4(Self::spec_bases()),
        ensures
            Self::from_value(v).value() == v,
    ;

    /// The order of words is the order of their packed values.
    proof fn lemma_le_value(a: Self, b: Self)
        ensures
            a.le_spec(&b) == (a.value() <= b.value()),
    ;

    /// Group i of the reverse complement is the complement of group K-1-i.
    proof fn lemma_rc_groups(v: nat)
        requires
            v < pow4(Self::spec_bases()),
        ensures
            Self::rc_spec(v) < pow4(Self::spec_bases()),
            forall|i: nat|
                i < Self::spec_bases() ==> #[trigger] base_group(Self::rc_spec(v), i) == 3
                    - base_group(v, (Self::spec_bases() - 1 - i) as nat),
    ;

    proof fn lemma_serial_round(self)
        ensures
            self.spec_serial().len() == Self::spec_bytes(),
            Self::spec_from_bytes(self.spec_serial()) == self,
    ;

    proof fn lemma_bytes_round(s: Seq<u8>)
        requires
            s.len() == Self::spec_bytes(),
        ensures
            Self::spec_from_bytes(s).spec_serial() == s,
    ;

    /// The on-disk width in bytes.
    fn bytes() -> (r: usize)
        ensures
            r == Self::spec_bytes(),
    ;

    /// The number of bases K in a word.
    fn bases() -> (r: usize)
        ensures
            r == Self::spec_bases(),
    ;

    /// The all-A word.
    fn zero() -> (r: Self)
        ensures
            r.value() == 0,
    ;

    /// Shift the word left by one base and put `base` in the lowest group;
    /// the base that falls off the top is discarded.
    fn add_base(&mut self, base: u8)
        requires
            base < 4,
        ensures
            final(self).value() == ((old(self).value() * 4 + base) as nat) % pow4(Self::spec_bases()),
    ;

    /// The reverse complement.
    fn reverse_complement(&self) -> (r: Self)
        ensures
            r.value() == Self::rc_spec(self.value()),
    ;

    /// Append the little-endian on-disk form to `buffer`.
    fn write(&self, buffer: &mut Vec<u8>)
        ensures
            final(buffer)@ == old(buffer)@ + self.spec_serial(),
    ;

    /// Read a word back from `bytes` at byte offset `pos`.
    fn read_at(bytes: &[u8], pos: usize) -> (r: Self)
        requires
            pos + Self::spec_bytes() <= bytes@.len(),
        ensures
            r == Self::spec_from_bytes(bytes@.subrange(pos as int, pos + Self::spec_bytes())),
    ;

    /// The 2-bit code of the base in group i.
    fn base_at(&self, i: usize) -> (b: u8)
        requires
            i < Self::spec_bases(),
        ensures
            b as nat == base_group(self.value(), i as nat),
            b < 4,
    ;
}

/// The canonical (strand-agnostic) form of a packed value: the smaller of
/// the value and its reverse complement.
pub open spec fn canonical<B: KmerReverse>(v: nat) -> nat {
    if B::rc_spec(v) < v {
        B::rc_spec(v)
    } else {
        v
    }
}

/// Law: the reverse complement is an involution.
pub proof fn lemma_rc_involutive<B: KmerReverse>(v: nat)
    requires
        v < pow4(B::spec_bases()),
    ensures
        B::rc_spec(B::rc_spec(v)) == v,
        B::rc_spec(v) < pow4(B::spec_bases()),
{
    let k = B::spec_bases();
    let r = B::rc_spec(v);
    B::lemma_rc_groups(v);
    B::lemma_rc_groups(r);
    assert forall|i: nat| i < k implies base_group(B::rc_spec(r), i) == base_group(v, i) by {
        let j = (k - 1 - i) as nat;
        assert(base_group(B::rc_spec(r), i) == 3 - base_group(r, j));
        assert(base_group(r, j) == 3 - base_group(v, (k - 1 - j) as nat));
        assert((k - 1 - j) as nat == i);
    }
    lemma_group_ext(B::rc_spec(r), v, k);
}

/// Law: a canonical value is its own canonical form, so every emitted k-mer
/// w satisfies w == min(w, revcomp(w)).
pub proof fn lemma_canonical_idempotent<B: KmerReverse>(v: nat)
    requires
        v < pow4(B::spec_bases()),
    ensures
        canonical::<B>(canonical::<B>(v)) == canonical::<B>(v),
        canonical::<B>(v) < pow4(B::spec_bases()),
{
    lemma_rc_involutive::<B>(v);
}

/// A 16-base word packed into a u32.
#[derive(Clone, Copy, Debug, PartialEq, Eq, Structural)]
pub struct Kmer16(pub u32);

/// The 2-bit-group reversal of a u32: pairwise swap, then nibble swap, then
/// byte swap, then word swap.
pub open spec fn grev16(v: u32) -> u32 {
    let p = ((v & 0x33333333) << 2u32) | ((v & 0xCCCCCCCC) >> 2u32);
    let q = ((p & 0x0F0F0F0F) << 4u32) | ((p & 0xF0F0F0F0) >> 4u32);
    ((q & 0x000000FF) << 24u32) | ((q & 0x0000FF00) << 8u32) | ((q & 0x00FF0000) >> 8u32) | ((q
        & 0xFF000000) >> 24u32)
}

/// Reverse complement on the packed u32: complement then group reversal.
pub open spec fn rc16_bits(v: u32) -> u32 {
    !grev16(v)
}

#[verifier::spinoff_prover]
proof fn lemma_rc16_group_bits(v: u32)
    by (bit_vector)
    ensures
        forall|i: u32|
            i < 16 ==> #[trigger] ((rc16_bits(v) >> vstd::prelude::mul(2, i)) & 3) == 3 - ((v
                >> vstd::prelude::sub(30, vstd::prelude::mul(2, i))) & 3),
{
}

proof fn lemma_base_group_u32(x: u32, i: u32)
    requires
        i < 16,
    ensures
        base_group(x as nat, i as nat) == ((x >> vstd::prelude::mul(2, i)) & 3),
{
    let s: u32 = vstd::prelude::mul(2, i);
    assert(s == 2 * i) by (bit_vector)
        requires
            i < 16 && s == vstd::prelude::mul(2, i),
    ;
    lemma_u32_shr_is_div(x, s);
    lemma_u32_low_bits_mask_is_mod(x >> s, 2);
    lemma_low_bits_mask_values();
    lemma2_to64();
    lemma_pow4_pow2(i as nat);
}

impl RecordOrder for Kmer16 {
    open spec fn le_spec(&self, other: &Self) -> bool {
        self.0 <= other.0
    }

    proof fn lemma_le_total(a: &Self, b: &Self) {
    }

    proof fn lemma_le_transitive(a: &Self, b: &Self, c: &Self) {
    }

    proof fn lemma_le_antisymmetric(a: &Self, b: &Self) {
    }

    fn le(&self, other: &Self) -> (r: bool) {
        self.0 <= other.0
    }
}

impl KmerReverse for Kmer16 {
    open spec fn value(self) -> nat {
        self.0 as nat
    }

    open spec fn spec_bases() -> nat {
        16
    }

    open spec fn spec_bytes() -> nat {
        4
    }

    open spec fn rc_spec(v: nat) -> nat {
        rc16_bits(v as u32) as nat
    }

    open spec fn spec_serial(self) -> Seq<u8> {
        spec_u32_to_le_bytes(self.0)
    }

    open spec fn spec_from_bytes(s: Seq<u8>) -> Self {
        Kmer16(spec_u32_from_le_bytes(s))
    }

    open spec fn from_value(v: nat) -> Self {
        Kmer16(v as u32)
    }

    proof fn lemma_wf(self) {
        lemma_pow4_values();
    }

    proof fn lemma_dims() {
    }

    proof fn lemma_value_injective(self, other: Self) {
    }

    proof fn lemma_from_value(v: nat) {
        lemma_pow4_values();
    }

    proof fn lemma_le_value(a: Self, b: Self) {
    }

    proof fn lemma_rc_groups(v: nat) {
        lemma_pow4_values();
        let vu = v as u32;
        lemma_rc16_group_bits(vu);
        assert forall|i: nat| i < 16 implies #[trigger] base_group(rc16_bits(vu) as nat, i) == 3
            - base_group(v, (16 - 1 - i) as nat) by {
            let iu = i as u32;
            lemma_base_group_u32(rc16_bits(vu), iu);
            lemma_base_group_u32(vu, vstd::prelude::sub(15u32, iu));
            assert(vstd::prelude::mul(2, vstd::prelude::sub(15u32, iu)) == vstd::prelude::sub(
                30,
                vstd::prelude::mul(2, iu),
            )) by (bit_vector)
                requires
                    iu < 16,
            ;
        }
    }

    proof fn lemma_serial_round(self) {
        vstd::bytes::lemma_auto_spec_u32_to_from_le_bytes();
        let bs = spec_u32_to_le_bytes(self.0);
        assert(bs.len() == 4 && spec_u32_from_le_bytes(bs) == self.0);
    }

    proof fn lemma_bytes_round(s: Seq<u8>) {
        vstd::bytes::lemma_auto_spec_u32_to_from_le_bytes();
    }

    fn bytes() -> (r: usize) {
        4
    }

    fn bases() -> (r: usize) {
        16
    }

    fn zero() -> (r: Self) {
        Kmer16(0)
    }

    fn add_base(&mut self, base: u8) {
        let v = self.0;
        let b = base as u32;
        self.0 = (v << 2u32) | b;
        proof {
            lemma_pow4_values();
            assert(((v << 2u32) | b) == (v * 4 + b) % 0x1_0000_0000) by (bit_vector)
                requires
                    b < 4,
            ;
        }
    }

    fn reverse_complement(&self) -> (r: Self) {
        let v = self.0;
        let p = ((v & 0x33333333) << 2u32) | ((v & 0xCCCCCCCC) >> 2u32);
        let q = ((p & 0x0F0F0F0F) << 4u32) | ((p & 0xF0F0F0F0) >> 4u32);
        let w = ((q & 0x000000FF) << 24u32) | ((q & 0x0000FF00) << 8u32) | ((q & 0x00FF0000)
            >> 8u32) | ((q & 0xFF000000) >> 24u32);
        Kmer16(!w)
    }

    fn write(&self, buffer: &mut Vec<u8>) {
        let mut bs = u32_to_le_bytes(self.0);
        buffer.append(&mut bs);
    }

    fn read_at(bytes: &[u8], pos: usize) -> (r: Self) {
        let n = bytes.len();
        let s = vstd::slice::slice_subrange(bytes, pos, pos + 4);
        Kmer16(u32_from_le_bytes(s))
    }

    fn base_at(&self, i: usize) -> (b: u8) {
        let sh: u32 = 2 * (i as u32);
        let g = (self.0 >> sh) & 3;
        proof {
            lemma_base_group_u32(self.0, i as u32);
            let iu = i as u32;
            let x = self.0;
            assert(sh == vstd::prelude::mul(2, iu) && ((x >> sh) & 3) < 4) by (bit_vector)
                requires
                    iu < 16 && sh == 2 * iu,
            ;
        }
        g as u8
    }
}

/// A 32-base word packed into a u64.
#[derive(Clone, Copy, Debug, PartialEq, Eq, Structural)]
pub struct Kmer32(pub u64);

/// The 2-bit-group reversal of a u64: pairwise swap, then nibble swap, then
/// a full byte reversal.
pub open spec fn grev32(v: u64) -> u64 {
    let p = ((v & 0x3333333333333333) << 2u64) | ((v & 0xCCCCCCCCCCCCCCCC) >> 2u64);
    let q = ((p & 0x0F0F0F0F0F0F0F0F) << 4u64) | ((p & 0xF0F0F0F0F0F0F0F0) >> 4u64);
    ((q & 0x00000000000000FF) << 56u64) | ((q & 0x000000000000FF00) << 40u64) | ((q
        & 0x0000000000FF0000) << 24u64) | ((q & 0x00000000FF000000) << 8u64) | ((q
        & 0x000000FF00000000) >> 8u64) | ((q & 0x0000FF0000000000) >> 24u64) | ((q
        & 0x00FF000000000000) >> 40u64) | ((q & 0xFF00000000000000) >> 56u64)
}

/// Reverse complement on the packed u64: complement then group reversal.
pub open spec fn rc32_bits(v: u64) -> u64 {
    !grev32(v)
}

#[verifier::spinoff_prover]
#[verifier::rlimit(60)]
proof fn lemma_rc32_group_bits(v: u64)
    by (bit_vector)
    ensures
        forall|i: u64|
            i < 32 ==> #[trigger] ((rc32_bits(v) >> vstd::prelude::mul(2, i)) & 3) == 3 - ((v
                >> vstd::prelude::sub(62, vstd::prelude::mul(2, i))) & 3),
{
}

proof fn lemma_base_group_u64(x: u64, i: u64)
    requires
        i < 32,
    ensures
        base_group(x as nat, i as nat) == ((x >> vstd::prelude::mul(2, i)) & 3),
{
    let s: u64 = vstd::prelude::mul(2, i);
    assert(s == 2 * i) by (bit_vector)
        requires
            i < 32 && s == vstd::prelude::mul(2, i),
    ;
    lemma_u64_shr_is_div(x, s);
    lemma_u64_low_bits_mask_is_mod(x >> s, 2);
    lemma_low_bits_mask_values();
    lemma2_to64();
    lemma_pow4_pow2(i as nat);
}

impl RecordOrder for Kmer32 {
    open spec fn le_spec(&self, other: &Self) -> bool {
        self.0 <= other.0
    }

    proof fn lemma_le_total(a: &Self, b: &Self) {
    }

    proof fn lemma_le_transitive(a: &Self, b: &Self, c: &Self) {
    }

    proof fn lemma_le_antisymmetric(a: &Self, b: &Self) {
    }

    fn le(&self, other: &Self) -> (r: bool) {
        self.0 <= other.0
    }
}

impl KmerReverse for Kmer32 {
    open spec fn value(self) -> nat {
        self.0 as nat
    }

    open spec fn spec_bases() -> nat {
        32
    }

    open spec fn spec_bytes() -> nat {
        8
    }

    open spec fn rc_spec(v: nat) -> nat {
        rc32_bits(v as u64) as nat
    }

    open spec fn spec_serial(self) -> Seq<u8> {
        spec_u64_to_le_bytes(self.0)
    }

    open spec fn spec_from_bytes(s: Seq<u8>) -> Self {
        Kmer32(spec_u64_from_le_bytes(s))
    }

    open spec fn from_value(v: nat) -> Self {
        Kmer32(v as u64)
    }

    proof fn lemma_wf(self) {
        lemma_pow4_values();
    }

    proof fn lemma_dims() {
    }

    proof fn lemma_value_injective(self, other: Self) {
    }

    proof fn lemma_from_value(v: nat) {
        lemma_pow4_values();
    }

    proof fn lemma_le_value(a: Self, b: Self) {
    }

    proof fn lemma_rc_groups(v: nat) {
        lemma_pow4_values();
        let vu = v as u64;
        lemma_rc32_group_bits(vu);
        assert forall|i: nat| i < 32 implies #[trigger] base_group(rc32_bits(vu) as nat, i) == 3
            - base_group(v, (32 - 1 - i) as nat) by {
            let iu = i as u64;
            lemma_base_group_u64(rc32_bits(vu), iu);
            lemma_base_group_u64(vu, vstd::prelude::sub(31u64, iu));
            assert(vstd::prelude::mul(2, vstd::prelude::sub(31u64, iu)) == vstd::prelude::sub(
                62,
                vstd::prelude::mul(2, iu),
            )) by (bit_vector)
                requires
                    iu < 32,
            ;
        }
    }

    proof fn lemma_serial_round(self) {
        vstd::bytes::lemma_auto_spec_u64_to_from_le_bytes();
        let bs = spec_u64_to_le_bytes(self.0);
        assert(bs.len() == 8 && spec_u64_from_le_bytes(bs) == self.0);
    }

    proof fn lemma_bytes_round(s: Seq<u8>) {
        vstd::bytes::lemma_auto_spec_u64_to_from_le_bytes();
    }

    fn bytes() -> (r: usize) {
        8
    }

    fn bases() -> (r: usize) {
        32
    }

    fn zero() -> (r: Self) {
        Kmer32(0)
    }

    fn add_base(&mut self, base: u8) {
        let v = self.0;
        let b = base as u64;
        self.0 = (v << 2u64) | b;
        proof {
            lemma_pow4_values();
            assert(((v << 2u64) | b) == (v * 4 + b) % 0x1_0000_0000_0000_0000) by (bit_vector)
                requires
                    b < 4,
            ;
        }
    }

    fn reverse_complement(&self) -> (r: Self) {
        let v = self.0;
        let p = ((v & 0x3333333333333333) << 2u64) | ((v & 0xCCCCCCCCCCCCCCCC) >> 2u64);
        let q = ((p & 0x0F0F0F0F0F0F0F0F) << 4u64) | ((p & 0xF0F0F0F0F0F0F0F0) >> 4u64);
        let w = ((q & 0x00000000000000FF) << 56u64) | ((q & 0x000000000000FF00) << 40u64) | ((q
            & 0x0000000000FF0000) << 24u64) | ((q & 0x00000000FF000000) << 8u64) | ((q
            & 0x000000FF00000000) >> 8u64) | ((q & 0x0000FF0000000000) >> 24u64) | ((q
            & 0x00FF000000000000) >> 40u64) | ((q & 0xFF00000000000000) >> 56u64);
        Kmer32(!w)
    }

    fn write(&self, buffer: &mut Vec<u8>) {
        let mut bs = u64_to_le_bytes(self.0);
        buffer.append(&mut bs);
    }

    fn read_at(bytes: &[u8], pos: usize) -> (r: Self) {
        let n = bytes.len();
        let s = vstd::slice::slice_subrange(bytes, pos, pos + 8);
        Kmer32(u64_from_le_bytes(s))
    }

    fn base_at(&self, i: usize) -> (b: u8) {
        let sh: u64 = 2 * (i as u64);
        let g = (self.0 >> sh) & 3;
        proof {
            lemma_base_group_u64(self.0, i as u64);
            let iu = i as u64;
            let x = self.0;
            assert(sh == vstd::prelude::mul(2, iu) && ((x >> sh) & 3) < 4) by (bit_vector)
                requires
                    iu < 32 && sh == 2 * iu,
            ;
        }
        g as u8
    }
}

} // verus!
