//! Elements of GF(2^n) stored as arrays of machine words, word 0 holding the
//! least significant coefficients.

use crate::model::{coef, place, xor_seq, Modulus};
use crate::reduction::{
    lemma_reduce_add, lemma_reduce_carry, lemma_reduce_elem_all, lemma_reduce_low, lemma_times_x_pow_comp,
    lemma_times_x_pow_reduce,
};
use crate::text::{all_hex, hex_bytes, hex_chars, hex_decode, hex_encode};
use crate::word::Word;
use vstd::arithmetic::div_mod::lemma_fundamental_div_mod_converse;
use vstd::arithmetic::mul::lemma_mul_strict_inequality;
use vstd::prelude::*;

verus! {

/// An element of the binary field GF(2^n), n = `NWORDS` times the width of
/// `W`, with the reduction polynomial x^n + x^A + x^B + x^C + 1.
#[derive(Clone, Copy, PartialEq, Eq, Debug, Hash)]
pub struct GF2n<W: Word, const NWORDS: usize, const A: usize, const B: usize, const C: usize> {
    words: [W; NWORDS],
}

/// GF(2^8) with x^8 + x^4 + x^3 + x + 1, on one 8-bit word.
pub type GF8 = GF2n<u8, 1, 4, 3, 1>;

/// GF(2^16) with x^16 + x^5 + x^3 + x + 1, on one 16-bit word.
pub type GF16 = GF2n<u16, 1, 5, 3, 1>;

/// GF(2^32) with x^32 + x^7 + x^3 + x^2 + 1, on one 32-bit word.
pub type GF32 = GF2n<u32, 1, 7, 3, 2>;

/// GF(2^64) with x^64 + x^4 + x^3 + x + 1, on one 64-bit word.
pub type GF64 = GF2n<u64, 1, 4, 3, 1>;

/// GF(2^64) with x^64 + x^4 + x^3 + x + 1, on two 32-bit words.
pub type GF64u32 = GF2n<u32, 2, 4, 3, 1>;

/// GF(2^128) with x^128 + x^7 + x^2 + x + 1, on two 64-bit words.
pub type GF128 = GF2n<u64, 2, 7, 2, 1>;

/// GF(2^128) with x^128 + x^7 + x^2 + x + 1, on four 32-bit words.
pub type GF128u32 = GF2n<u32, 4, 7, 2, 1>;

/// GF(2^128) with x^128 + x^7 + x^2 + x + 1, on one 128-bit word.
pub type GF128u128 = GF2n<u128, 1, 7, 2, 1>;

/// GF(2^256) with x^256 + x^10 + x^5 + x^2 + 1, on two 128-bit words.
pub type GF256u128 = GF2n<u128, 2, 10, 5, 2>;

/// GF(2^192) with x^192 + x^7 + x^2 + x + 1, on three 64-bit words.
pub type GF192 = GF2n<u64, 3, 7, 2, 1>;

/// GF(2^256) with x^256 + x^10 + x^5 + x^2 + 1, on four 64-bit words.
pub type GF256 = GF2n<u64, 4, 10, 5, 2>;

/// GF(2^256) with x^256 + x^10 + x^5 + x^2 + 1, on eight 32-bit words.
pub type GF256u32 = GF2n<u32, 8, 10, 5, 2>;

/// GF(2^384) with x^384 + x^12 + x^3 + x^2 + 1, on six 64-bit words.
pub type GF384 = GF2n<u64, 6, 12, 3, 2>;

/// GF(2^512) with x^512 + x^8 + x^5 + x^2 + 1, on eight 64-bit words.
pub type GF512 = GF2n<u64, 8, 8, 5, 2>;

/// GF(2^768) with x^768 + x^19 + x^17 + x^4 + 1, on twelve 64-bit words.
pub type GF768 = GF2n<u64, 12, 19, 17, 4>;

/// GF(2^1024) with x^1024 + x^19 + x^6 + x + 1, on sixteen 64-bit words.
pub type GF1024 = GF2n<u64, 16, 19, 6, 1>;

/// GF(2^1536) with x^1536 + x^21 + x^6 + x^2 + 1, on 24 64-bit words.
pub type GF1536 = GF2n<u64, 24, 21, 6, 2>;

/// GF(2^2048) with x^2048 + x^19 + x^14 + x^13 + 1, on 32 64-bit words.
pub type GF2048 = GF2n<u64, 32, 19, 14, 13>;

/// The bits of a word.
pub open spec fn word_bits<W: Word>(w: W) -> Seq<bool> {
    Seq::new(W::nbits(), |t: int| w.bit(t as nat))
}

/// Bit `k` of a word array, counting from bit 0 of word 0.
pub open spec fn array_bit<W: Word, const NWORDS: usize>(words: [W; NWORDS], k: int) -> bool {
    words@[k / (W::nbits() as int)].bit((k % (W::nbits() as int)) as nat)
}

/// The bits of a word array, as a sequence of `nbits` times `NWORDS` bits.
pub open spec fn array_bits<W: Word, const NWORDS: usize>(words: [W; NWORDS]) -> Seq<bool> {
    Seq::new((W::nbits() * NWORDS) as nat, |k: int| array_bit(words, k))
}

/// Bit `u` of byte `v`.
pub open spec fn byte_bit(v: u8, u: int) -> bool {
    (v >> (u as u8)) & 1 == 1
}

/// Coefficient `k` of the element that a byte string encodes with `wb`-bit
/// words: words follow each other from the least significant one, and each
/// word is stored with its most significant byte first.
pub open spec fn bytes_coefficient(bs: Seq<u8>, wb: int, k: int) -> bool {
    let i = k / wb;
    let t = k % wb;
    let nb = wb / 8;
    byte_bit(bs[i * nb + (nb - 1 - t / 8)], t % 8)
}

impl<W: Word, const NWORDS: usize, const A: usize, const B: usize, const C: usize> View for GF2n<
    W,
    NWORDS,
    A,
    B,
    C,
> {
    type V = Seq<bool>;

    closed spec fn view(&self) -> Seq<bool> {
        array_bits(self.words)
    }
}

impl<W: Word, const NWORDS: usize, const A: usize, const B: usize, const C: usize> GF2n<
    W,
    NWORDS,
    A,
    B,
    C,
> {
    /// Degree n of the field.
    pub open spec fn nbits() -> nat {
        (W::nbits() * NWORDS) as nat
    }

    /// The reduction polynomial of this field.
    pub open spec fn modulus() -> Modulus {
        Modulus { n: Self::nbits(), a: A as nat, b: B as nat, c: C as nat }
    }

    /// The parameters describe a field that this representation supports:
    /// 0 < C < B < A < word width, and a word count that keeps bit indices
    /// within `usize`.
    pub open spec fn valid() -> bool {
        &&& 0 < C < B < A < W::nbits()
        &&& 8 <= W::nbits() <= 128
        &&& W::nbits() % 8 == 0
        &&& 1 <= NWORDS <= 0x1_0000
    }

    /// The words of the element.
    pub closed spec fn spec_words(&self) -> Seq<W> {
        self.words@
    }

    /// The view has n coefficients.
    pub proof fn lemma_view_len(&self)
        ensures
            self@.len() == Self::nbits(),
    {
    }

    /// The reduction polynomial of a valid field has the required shape.
    pub proof fn lemma_modulus_wf()
        requires
            Self::valid(),
        ensures
            Self::modulus().wf(),
            Self::modulus().n >= W::nbits(),
    {
        assert(W::nbits() * NWORDS >= W::nbits()) by (nonlinear_arith)
            requires
                NWORDS >= 1,
        ;
    }

    /// Bit `t` of word `i` is coefficient i * wbits + t.
    pub proof fn lemma_index(i: int, t: int)
        requires
            Self::valid(),
            0 <= i < NWORDS,
            0 <= t < W::nbits(),
        ensures
            0 <= i * (W::nbits() as int) + t < Self::nbits(),
            (i * (W::nbits() as int) + t) / (W::nbits() as int) == i,
            (i * (W::nbits() as int) + t) % (W::nbits() as int) == t,
            i >= 1 ==> i * (W::nbits() as int) + t >= W::nbits(),
    {
        let wb = W::nbits() as int;
        lemma_fundamental_div_mod_converse(i * wb + t, wb, i, t);
        lemma_mul_strict_inequality(i, NWORDS as int, wb);
        assert(i * wb + wb <= NWORDS * wb) by (nonlinear_arith)
            requires
                i < NWORDS,
                wb > 0,
        ;
        assert(0 <= i * wb && (i >= 1 ==> i * wb >= wb)) by (nonlinear_arith)
            requires
                i >= 0,
                wb > 0,
        ;
    }

    /// Coefficient i * wbits + t of an array is bit t of word i.
    pub proof fn lemma_array_bit(x: [W; NWORDS], i: int, t: int)
        requires
            Self::valid(),
            0 <= i < NWORDS,
            0 <= t < W::nbits(),
        ensures
            array_bits(x)[i * (W::nbits() as int) + t] == x@[i].bit(t as nat),
    {
        Self::lemma_index(i, t);
    }

    /// Every coefficient index splits into a word index and a bit index.
    pub proof fn lemma_split_index(k: int)
        requires
            Self::valid(),
            0 <= k < Self::nbits(),
        ensures
            0 <= k / (W::nbits() as int) < NWORDS,
            0 <= k % (W::nbits() as int) < W::nbits(),
            k == (k / (W::nbits() as int)) * (W::nbits() as int) + k % (W::nbits() as int),
    {
        let wb = W::nbits() as int;
        assert(k == (k / wb) * wb + k % wb && 0 <= k % wb < wb && k / wb >= 0) by (nonlinear_arith)
            requires
                wb > 0,
                k >= 0,
        ;
        if k / wb >= NWORDS {
            assert((k / wb) * wb >= NWORDS * wb) by (nonlinear_arith)
                requires
                    k / wb >= NWORDS,
                    wb > 0,
            ;
        }
    }

    /// Two word arrays whose words have the same bits have the same bits.
    pub proof fn lemma_bits_eq(x: [W; NWORDS], p: Seq<bool>)
        requires
            Self::valid(),
            p.len() == Self::nbits(),
            forall|i: int, t: nat|
                0 <= i < NWORDS && t < W::nbits() ==> #[trigger] x@[i].bit(t) == p[i * (
                W::nbits() as int) + t],
        ensures
            array_bits(x) == p,
    {
        assert forall|k: int| 0 <= k < Self::nbits() implies #[trigger] array_bits(x)[k] == p[k] by {
            Self::lemma_split_index(k);
            let wb = W::nbits() as int;
            assert(x@[k / wb].bit((k % wb) as nat) == p[(k / wb) * wb + (k % wb) as nat]);
        }
        assert(array_bits(x) =~= p);
    }

    /// Builds an element from its words.
    pub fn new(words: [W; NWORDS]) -> (r: Self)
        ensures
            r.spec_words() == words@,
            r@ == array_bits(words),
    {
        Self { words }
    }

    /// The words of the element, word 0 holding the lowest coefficients.
    pub fn words(&self) -> (r: [W; NWORDS])
        ensures
            r@ == self.spec_words(),
            array_bits(r) == self@,
    {
        self.words
    }

    /// The element whose word 0 is `word` and whose other words are zero.
    fn new_small(word: W) -> (r: Self)
        requires
            Self::valid(),
        ensures
            r@ == Seq::new(Self::nbits(), |k: int| k < W::nbits() && word.bit(k as nat)),
    {
        let z = W::zero();
        let mut words = [z; NWORDS];
        words[0] = word;
        proof {
            let p = Seq::new(Self::nbits(), |k: int| k < W::nbits() && word.bit(k as nat));
            assert forall|i: int, t: nat|
                0 <= i < NWORDS && t < W::nbits() implies #[trigger] words@[i].bit(t) == p[i * (
            W::nbits() as int) + t] by {
                Self::lemma_index(i, t as int);
                assert(0 * (W::nbits() as int) == 0);
                if i == 0 {
                    assert(words@[i] == word);
                } else {
                    assert(words@[i] == z);
                }
            }
            Self::lemma_bits_eq(words, p);
        }
        Self { words }
    }

    /// The additive identity.
    pub fn zero() -> (r: Self)
        requires
            Self::valid(),
        ensures
            r@ == Self::modulus().zero(),
    {
        let r = Self::new_small(W::zero());
        assert(r@ =~= Self::modulus().zero());
        r
    }

    /// The multiplicative identity.
    pub fn one() -> (r: Self)
        requires
            Self::valid(),
        ensures
            r@ == Self::modulus().one(),
    {
        let r = Self::new_small(Self::word_one());
        assert(r@ =~= Self::modulus().one());
        r
    }

    /// The element whose coefficients are the bits of `v`.
    pub fn from_byte(v: u8) -> (r: Self)
        requires
            Self::valid(),
        ensures
            r@ == Self::modulus().from_byte(v),
    {
        let r = Self::new_small(W::from_byte(v));
        assert(r@ =~= Self::modulus().from_byte(v));
        r
    }

    /// Sum of two elements: the exclusive or of their words.
    pub fn add(self, other: Self) -> (r: Self)
        requires
            Self::valid(),
        ensures
            r@ == Self::modulus().add(self@, other@),
    {
        let mut words = [W::zero(); NWORDS];
        for i in 0..NWORDS
            invariant
                Self::valid(),
                forall|j: int, t: nat|
                    0 <= j < i ==> #[trigger] words@[j].bit(t) == (self.words@[j].bit(t)
                        != other.words@[j].bit(t)),
        {
            words[i] = self.words[i].xor(other.words[i]);
        }
        proof {
            let p = Self::modulus().add(self@, other@);
            assert forall|i: int, t: nat|
                0 <= i < NWORDS && t < W::nbits() implies #[trigger] words@[i].bit(t) == p[i * (
            W::nbits() as int) + t] by {
                Self::lemma_array_bit(self.words, i, t as int);
                Self::lemma_array_bit(other.words, i, t as int);
                Self::lemma_index(i, t as int);
            }
            Self::lemma_bits_eq(words, p);
        }
        Self { words }
    }

    /// Adds `other` into `self`.
    pub fn add_assign(&mut self, other: &Self)
        requires
            Self::valid(),
        ensures
            final(self)@ == Self::modulus().add(old(self)@, other@),
    {
        *self = self.add(*other);
    }

    /// Difference of two elements, which in characteristic 2 is their sum.
    pub fn sub(self, other: Self) -> (r: Self)
        requires
            Self::valid(),
        ensures
            r@ == Self::modulus().add(self@, other@),
    {
        self.add(other)
    }

    /// The element from_byte(lhs) - from_byte(rhs), computed on the bytes.
    pub fn from_diff(lhs: u8, rhs: u8) -> (r: Self)
        requires
            Self::valid(),
        ensures
            r@ == Self::modulus().add(Self::modulus().from_byte(lhs), Self::modulus().from_byte(rhs)),
    {
        let r = Self::from_byte(lhs ^ rhs);
        proof {
            crate::laws::lemma_from_diff::<W, NWORDS, A, B, C>(lhs, rhs);
        }
        r
    }

    /// Whether two elements are equal.
    pub fn equals(&self, other: &Self) -> (r: bool)
        requires
            Self::valid(),
        ensures
            r == (self@ == other@),
    {
        let mut i: usize = 0;
        while i < NWORDS
            invariant
                Self::valid(),
                i <= NWORDS,
                forall|j: int, t: nat| 0 <= j < i ==> #[trigger] self.words@[j].bit(t) == other.words@[j].bit(t),
            decreases NWORDS - i,
        {
            let d = self.words[i].xor(other.words[i]);
            if !d.is_zero() {
                proof {
                    let t = choose|t: nat| #[trigger] d.bit(t);
                    if t >= W::nbits() {
                        W::lemma_bit_range(d, t);
                    }
                    Self::lemma_array_bit(self.words, i as int, t as int);
                    Self::lemma_array_bit(other.words, i as int, t as int);
                    Self::lemma_index(i as int, t as int);
                    let k = i * (W::nbits() as int) + t;
                    assert(self@[k] != other@[k]);
                }
                return false;
            }
            assert(forall|t: nat| #[trigger] self.words@[i as int].bit(t) == other.words@[i as int].bit(t)
                <== !d.bit(t));
            i += 1;
        }
        proof {
            assert forall|k: int| 0 <= k < Self::nbits() implies #[trigger] self@[k] == other@[k] by {
                Self::lemma_split_index(k);
            }
            assert(self@ =~= other@);
        }
        true
    }

    /// Whether the element is zero.
    pub fn is_zero(&self) -> (r: bool)
        requires
            Self::valid(),
        ensures
            r == (self@ == Self::modulus().zero()),
    {
        self.equals(&Self::zero())
    }

    /// The number of bits n, at run time.
    pub fn nbits_exec() -> (r: usize)
        requires
            Self::valid(),
        ensures
            r == Self::nbits(),
    {
        proof {
            assert(W::nbits() * NWORDS <= 128 * 0x1_0000) by (nonlinear_arith)
                requires
                    W::nbits() <= 128,
                    NWORDS <= 0x1_0000,
            ;
        }
        W::nbits_exec() * NWORDS
    }

    /// The word 1.
    fn word_one() -> (r: W)
        requires
            Self::valid(),
        ensures
            forall|t: nat| #[trigger] r.bit(t) == (t == 0),
    {
        let one = W::from_byte(1);
        proof {
            assert((1u8 >> 0u8) & 1 == 1) by (bit_vector);
            assert(forall|j: u8| 0 < j < 8 ==> (1u8 >> j) & 1 != 1) by (bit_vector);
            assert forall|t: nat| #[trigger] one.bit(t) == (t == 0) by {
                if 0 < t < 8 {
                    assert((1u8 >> (t as u8)) & 1 != 1);
                }
            }
        }
        one
    }

    /// The word with bits 0, A, B and C set: the low part x^A + x^B + x^C + 1
    /// of the reduction polynomial.
    fn tail_word() -> (r: W)
        requires
            Self::valid(),
        ensures
            forall|t: nat| #[trigger] r.bit(t) == (t == 0 || t == A || t == B || t == C),
    {
        let one = Self::word_one();
        let r = one.xor(one.shl(A)).xor(one.shl(B)).xor(one.shl(C));
        proof {
            assert forall|t: nat| #[trigger] r.bit(t) == (t == 0 || t == A || t == B || t == C) by {
                if t >= W::nbits() {
                    W::lemma_bit_range(r, t);
                }
            }
        }
        r
    }

    /// Multiplies the element by x in place.
    fn shl1(&mut self)
        requires
            Self::valid(),
        ensures
            final(self)@ == Self::modulus().times_x(old(self)@),
    {
        let ghost old_words = self.words;
        let wb = W::nbits_exec();
        let mut carry = W::zero();
        for i in 0..NWORDS
            invariant
                Self::valid(),
                wb == W::nbits(),
                forall|j: int| i <= j < NWORDS ==> self.words@[j] == old_words@[j],
                forall|j: int, t: nat|
                    0 <= j < i && t < wb ==> #[trigger] self.words@[j].bit(t) == (if t > 0 {
                        old_words@[j].bit((t - 1) as nat)
                    } else {
                        j > 0 && old_words@[j - 1].bit((wb - 1) as nat)
                    }),
                forall|t: nat| #[trigger] carry.bit(t) == (t == 0 && i > 0 && old_words@[i - 1].bit((wb - 1) as nat)),
        {
            let d = self.words[i];
            self.words[i] = d.shl(1).xor(carry);
            carry = d.shr(wb - 1);
            proof {
                assert forall|t: nat| #[trigger] carry.bit(t) == (t == 0 && old_words@[i as int].bit((wb - 1) as nat)) by {
                    if t > 0 {
                        W::lemma_bit_range(d, (t + wb - 1) as nat);
                    }
                }
            }
        }
        let ghost before = self.words;
        if !carry.is_zero() {
            self.words[0] = self.words[0].xor(Self::tail_word());
        }
        proof {
            let m = Self::modulus();
            let n = Self::nbits() as int;
            let w = wb as int;
            let p = m.times_x(array_bits(old_words));
            let top = array_bits(old_words)[n - 1];
            Self::lemma_array_bit(old_words, NWORDS - 1, w - 1);
            assert((NWORDS - 1) * w + w - 1 == n - 1) by (nonlinear_arith)
                requires
                    n == w * NWORDS,
            ;
            assert(carry.bit(0) == top);
            assert forall|i: int, t: nat|
                0 <= i < NWORDS && t < W::nbits() implies #[trigger] self.words@[i].bit(t) == p[i * w + t] by {
                Self::lemma_index(i, t as int);
                let k = i * w + t;
                if t > 0 {
                    Self::lemma_array_bit(old_words, i, t - 1);
                } else if i > 0 {
                    Self::lemma_array_bit(old_words, i - 1, w - 1);
                    assert((i - 1) * w + w - 1 == i * w - 1) by (nonlinear_arith);
                }
                if i > 0 {
                    assert(k >= w);
                }
                if i == 0 {
                    assert(k == t);
                }
            }
            Self::lemma_bits_eq(self.words, p);
        }
    }

    /// Product by shift-and-add: runs over the bits of `other` from the least
    /// significant one, adding x^k `self` for each set bit k.
    fn mul_as_add(self, other: &Self) -> (r: Self)
        requires
            Self::valid(),
        ensures
            r@ == Self::modulus().mul(self@, other@),
    {
        let ghost m = Self::modulus();
        let ghost p = self@;
        let ghost q = other@;
        let wb = W::nbits_exec();
        let one = Self::word_one();
        let mut v = self;
        let mut result = Self::zero();
        assert(0 * wb == 0);
        assert(m.times_x_pow(p, 0) == p);
        assert(m.mul_upto(p, q, 0) == m.zero());
        for i in 0..NWORDS
            invariant
                Self::valid(),
                wb == W::nbits(),
                m == Self::modulus(),
                p == self@,
                q == other@,
                forall|t: nat| #[trigger] one.bit(t) == (t == 0),
                v@ == m.times_x_pow(p, (i * wb) as nat),
                result@ == m.mul_upto(p, q, (i * wb) as nat),
        {
            let word = other.words[i];
            for j in 0..wb
                invariant
                    Self::valid(),
                    wb == W::nbits(),
                    m == Self::modulus(),
                    p == self@,
                    q == other@,
                    0 <= i < NWORDS,
                    word == other.words@[i as int],
                    forall|t: nat| #[trigger] one.bit(t) == (t == 0),
                    v@ == m.times_x_pow(p, (i * wb + j) as nat),
                    result@ == m.mul_upto(p, q, (i * wb + j) as nat),
            {
                let mask = one.shl(j);
                let masked = word.and(mask);
                let set = !masked.is_zero();
                proof {
                    Self::lemma_array_bit(other.words, i as int, j as int);
                    let k = i * wb + j;
                    Self::lemma_index(i as int, j as int);
                    if word.bit(j as nat) {
                        assert(masked.bit(j as nat));
                    }
                    if set {
                        let t = choose|t: nat| #[trigger] masked.bit(t);
                        assert(mask.bit(t));
                    }
                    assert(set == q[k]);
                }
                if set {
                    result.add_assign(&v);
                }
                v.shl1();
            }
            assert((i + 1) * wb == i * wb + wb) by (nonlinear_arith);
        }
        assert(NWORDS * wb == Self::nbits()) by (nonlinear_arith)
            requires
                wb == W::nbits(),
        ;
        result
    }

    /// Product of two elements modulo the reduction polynomial.
    pub fn mul(self, other: &Self) -> (r: Self)
        requires
            Self::valid(),
        ensures
            r@ == Self::modulus().mul(self@, other@),
    {
        self.mul_as_add(other)
    }

    /// Multiplies `self` by `other`.
    pub fn mul_assign(&mut self, other: &Self)
        requires
            Self::valid(),
        ensures
            final(self)@ == Self::modulus().mul(old(self)@, other@),
    {
        *self = self.mul(other);
    }

    /// The inverse by Fermat's little theorem, self^(2^n - 2), computed as
    /// n - 1 rounds of "square the base, multiply it into the result". The
    /// inverse of zero is not meaningful.
    pub fn invert(self) -> (r: Self)
        requires
            Self::valid(),
        ensures
            r@ == Self::modulus().inv(self@),
    {
        let ghost m = Self::modulus();
        let nbits = Self::nbits_exec();
        let mut base = self;
        let mut result = Self::one();
        assert(W::nbits() * NWORDS >= W::nbits()) by (nonlinear_arith)
            requires
                NWORDS >= 1,
        ;
        for i in 1..nbits
            invariant
                Self::valid(),
                m == Self::modulus(),
                nbits == Self::nbits(),
                base@ == m.square_pow(self@, (i - 1) as nat),
                result@ == m.fermat_chain(self@, (i - 1) as nat),
        {
            base = base.mul(&base);
            result.mul_assign(&base);
        }
        proof {
            Self::lemma_modulus_wf();
            self.lemma_view_len();
            crate::laws::lemma_fermat_chain(m, self@, (Self::nbits() - 1) as nat);
            assert((Self::nbits() - 1) as nat + 1 == Self::nbits());
        }
        result
    }

    /// An element with uniformly random words, drawn from the thread's CSPRNG.
    pub fn uniform() -> (r: Self)
        requires
            Self::valid(),
    {
        let z = W::zero();
        let mut words = [z; NWORDS];
        for i in 0..NWORDS {
            words[i] = W::sample();
        }
        Self { words }
    }

    /// The monomial x^k.
    pub fn xn(k: usize) -> (r: Self)
        requires
            Self::valid(),
            k < Self::nbits(),
        ensures
            r@ == Self::modulus().monomial(k as nat),
    {
        let wb = W::nbits_exec();
        let z = W::zero();
        let mut words = [z; NWORDS];
        let i = k / wb;
        let t = k % wb;
        proof {
            Self::lemma_split_index(k as int);
        }
        words[i] = Self::word_one().shl(t);
        proof {
            let p = Self::modulus().monomial(k as nat);
            assert forall|j: int, u: nat|
                0 <= j < NWORDS && u < W::nbits() implies #[trigger] words@[j].bit(u) == p[j * (
            W::nbits() as int) + u] by {
                Self::lemma_index(j, u as int);
                if j != i {
                    assert(words@[j] == z);
                    if j * (wb as int) + u == k {
                        assert(((j * (wb as int) + u) / (wb as int)) == i);
                    }
                } else {
                    if u != t {
                        assert(((j * (wb as int) + u) % (wb as int)) == u);
                    }
                }
            }
            Self::lemma_bits_eq(words, p);
        }
        Self { words }
    }

    /// Coefficient `k` of the element.
    pub fn get_bit(&self, k: usize) -> (r: bool)
        requires
            Self::valid(),
            k < Self::nbits(),
        ensures
            r == self@[k as int],
    {
        let wb = W::nbits_exec();
        proof {
            Self::lemma_split_index(k as int);
        }
        let w = self.words[k / wb].shr(k % wb).and(Self::word_one());
        let r = !w.is_zero();
        proof {
            if r {
                let u = choose|u: nat| #[trigger] w.bit(u);
                assert(u == 0);
            } else {
                assert(!w.bit(0));
            }
        }
        r
    }

    /// Number of bytes in the encoding of an element.
    pub open spec fn nbytes() -> nat {
        Self::nbits() / 8
    }

    /// The element that a byte string of `nbytes()` bytes encodes.
    pub open spec fn bits_of_bytes(bs: Seq<u8>) -> Seq<bool> {
        Seq::new(Self::nbits(), |k: int| bytes_coefficient(bs, W::nbits() as int, k))
    }

    proof fn lemma_byte_index(i: int, j: int)
        requires
            Self::valid(),
            0 <= i < NWORDS,
            0 <= j < W::nbits() / 8,
        ensures
            0 <= i * (W::nbits() / 8) as int + j < Self::nbytes(),
            (i + 1) * (W::nbits() / 8) as int == i * (W::nbits() / 8) as int + (W::nbits() / 8) as int,
    {
        let nb = (W::nbits() / 8) as int;
        assert(W::nbits() == 8 * nb);
        assert(Self::nbits() == 8 * (nb * NWORDS)) by (nonlinear_arith)
            requires
                W::nbits() == 8 * nb,
                Self::nbits() == W::nbits() * NWORDS,
        ;
        assert(0 <= i * nb + j < nb * NWORDS && (i + 1) * nb == i * nb + nb) by (nonlinear_arith)
            requires
                0 <= i < NWORDS,
                0 <= j < nb,
        ;
    }

    /// The word stored big-endian at `bs[start..start + wbits / 8]`.
    fn word_from_bytes(bs: &[u8], start: usize) -> (r: W)
        requires
            Self::valid(),
            start + W::nbits() / 8 <= bs@.len(),
        ensures
            forall|t: nat|
                t < W::nbits() ==> #[trigger] r.bit(t) == byte_bit(
                    bs@[start + (W::nbits() / 8 - 1 - t / 8)],
                    (t % 8) as int,
                ),
    {
        let nb = W::nbits_exec() / 8;
        let len = bs.len();
        let mut w = W::zero();
        for j in 0..nb
            invariant
                Self::valid(),
                nb == W::nbits() / 8,
                start + nb <= bs@.len(),
                len == bs@.len(),
                forall|t: nat|
                    t < W::nbits() ==> #[trigger] w.bit(t) == (nb - 1 - t / 8 < j && byte_bit(
                        bs@[start + (nb - 1 - t / 8)],
                        (t % 8) as int,
                    )),
        {
            let s = 8 * (nb - 1 - j);
            let part = W::from_byte(bs[start + j]).shl(s);
            let ghost old_w = w;
            w = w.xor(part);
            proof {
                assert forall|t: nat| t < W::nbits() implies #[trigger] w.bit(t) == (nb - 1 - t / 8 < j + 1
                    && byte_bit(bs@[start + (nb - 1 - t / 8)], (t % 8) as int)) by {
                    assert(old_w.bit(t) == (nb - 1 - t / 8 < j && byte_bit(bs@[start + (nb - 1 - t / 8)], (t % 8) as int)));
                    if t >= s && t - s < 8 {
                        assert(t / 8 == nb - 1 - j);
                        assert((t - s) as nat == t % 8);
                    } else {
                        assert(t / 8 != nb - 1 - j);
                    }
                }
            }
        }
        w
    }

    /// Parses the big-endian encoding of an element: exactly `nbytes()` bytes,
    /// word 0 first.
    pub fn from_bytes(bytes: &[u8]) -> (r: Option<Self>)
        requires
            Self::valid(),
        ensures
            r is Some <==> bytes@.len() == Self::nbytes(),
            r is Some ==> r->0@ == Self::bits_of_bytes(bytes@),
    {
        let nb = W::nbits_exec() / 8;
        proof {
            assert(nb * NWORDS <= 16 * 0x1_0000) by (nonlinear_arith)
                requires
                    nb <= 16,
                    NWORDS <= 0x1_0000,
            ;
            assert(Self::nbytes() == nb * NWORDS) by (nonlinear_arith)
                requires
                    W::nbits() == 8 * nb,
                    Self::nbits() == W::nbits() * NWORDS,
                    Self::nbytes() == Self::nbits() / 8,
            ;
        }
        if bytes.len() != nb * NWORDS {
            return None;
        }
        let z = W::zero();
        let mut words = [z; NWORDS];
        for i in 0..NWORDS
            invariant
                Self::valid(),
                nb == W::nbits() / 8,
                bytes@.len() == nb * NWORDS,
                bytes@.len() == Self::nbytes(),
                nb * NWORDS <= 16 * 0x1_0000,
                forall|j: int, t: nat|
                    0 <= j < i && t < W::nbits() ==> #[trigger] words@[j].bit(t) == byte_bit(
                        bytes@[j * nb + (nb - 1 - t / 8)],
                        (t % 8) as int,
                    ),
        {
            proof {
                Self::lemma_byte_index(i as int, 0);
                Self::lemma_byte_index(i as int, nb - 1);
            }
            words[i] = Self::word_from_bytes(bytes, i * nb);
        }
        proof {
            let p = Self::bits_of_bytes(bytes@);
            assert forall|i: int, t: nat|
                0 <= i < NWORDS && t < W::nbits() implies #[trigger] words@[i].bit(t) == p[i * (
            W::nbits() as int) + t] by {
                Self::lemma_index(i, t as int);
            }
            Self::lemma_bits_eq(words, p);
        }
        Some(Self { words })
    }

    /// The big-endian encoding of the element, which `from_bytes` reads back.
    pub fn to_bytes(&self) -> (r: Vec<u8>)
        requires
            Self::valid(),
        ensures
            r@.len() == Self::nbytes(),
            Self::bits_of_bytes(r@) == self@,
    {
        let nb = W::nbits_exec() / 8;
        let mut r: Vec<u8> = Vec::new();
        assert(0 * nb == 0);
        for i in 0..NWORDS
            invariant
                Self::valid(),
                nb == W::nbits() / 8,
                r@.len() == i * nb,
                forall|i2: int, j: int, u: int|
                    0 <= i2 < i && 0 <= j < nb && 0 <= u < 8 ==> #[trigger] byte_bit(r@[i2 * nb + j], u)
                        == self.words@[i2].bit((8 * (nb - 1 - j) + u) as nat),
        {
            let w = self.words[i];
            for j in 0..nb
                invariant
                    Self::valid(),
                    nb == W::nbits() / 8,
                    0 <= i < NWORDS,
                    w == self.words@[i as int],
                    r@.len() == i * nb + j,
                    forall|i2: int, j2: int, u: int|
                        0 <= i2 < i && 0 <= j2 < nb && 0 <= u < 8 ==> #[trigger] byte_bit(r@[i2 * nb + j2], u)
                            == self.words@[i2].bit((8 * (nb - 1 - j2) + u) as nat),
                    forall|j2: int, u: int|
                        0 <= j2 < j && 0 <= u < 8 ==> #[trigger] byte_bit(r@[i * nb + j2], u)
                            == w.bit((8 * (nb - 1 - j2) + u) as nat),
            {
                let shifted = w.shr(8 * (nb - 1 - j));
                let v = shifted.low_byte();
                proof {
                    Self::lemma_byte_index(i as int, j as int);
                }
                r.push(v);
                proof {
                    assert forall|i2: int, j2: int, u: int|
                        0 <= i2 < i && 0 <= j2 < nb && 0 <= u < 8 implies #[trigger] byte_bit(r@[i2 * nb + j2], u)
                            == self.words@[i2].bit((8 * (nb - 1 - j2) + u) as nat) by {
                        Self::lemma_byte_index(i2, j2);
                        assert(i2 * nb + nb <= i * nb) by (nonlinear_arith)
                            requires
                                i2 < i,
                                nb > 0,
                        ;
                    }
                    assert forall|u: int| 0 <= u < 8 implies #[trigger] byte_bit(r@[i * nb + j], u)
                            == w.bit((8 * (nb - 1 - j) + u) as nat) by {
                        assert(byte_bit(v, u) == shifted.bit(u as nat));
                    }
                }
            }
            proof {
                Self::lemma_byte_index(i as int, 0);
            }
        }
        proof {
            Self::lemma_byte_index(0, 0);
            assert(NWORDS * nb == Self::nbytes()) by (nonlinear_arith)
                requires
                    W::nbits() == 8 * nb,
                    Self::nbits() == W::nbits() * NWORDS,
                    Self::nbytes() == Self::nbits() / 8,
            ;
            assert forall|k: int| 0 <= k < Self::nbits() implies #[trigger] Self::bits_of_bytes(r@)[k] == self@[k] by {
                Self::lemma_split_index(k);
                let wb = W::nbits() as int;
                let i = k / wb;
                let t = k % wb;
                Self::lemma_byte_index(i, nb - 1 - t / 8);
                assert(8 * (nb - 1 - (nb - 1 - t / 8)) + t % 8 == t);
            }
            assert(Self::bits_of_bytes(r@) =~= self@);
        }
        r
    }

    /// The element written as hexadecimal digits: two per byte of its
    /// big-endian encoding, lower case.
    pub fn to_hex(&self) -> (r: String)
        requires
            Self::valid(),
        ensures
            exists|b: Seq<u8>|
                b.len() == Self::nbytes() && Self::bits_of_bytes(b) == self@ && r@ == hex_chars(b),
    {
        let b = self.to_bytes();
        hex_encode(b.as_slice())
    }

    /// Parses an element written as hexadecimal digits, either case: exactly
    /// two per byte of its big-endian encoding.
    pub fn from_hex(s: &[u8]) -> (r: Option<Self>)
        requires
            Self::valid(),
        ensures
            r is Some <==> (all_hex(s@) && s@.len() == 2 * Self::nbytes()),
            r is Some ==> r->0@ == Self::bits_of_bytes(hex_bytes(s@)),
    {
        match hex_decode(s) {
            Some(bytes) => Self::from_bytes(bytes.as_slice()),
            None => None,
        }
    }

    /// The low word of c (1 + x^A + x^B + x^C), for a carry word c.
    fn fold_lo(c: W) -> (r: W)
        requires
            Self::valid(),
        ensures
            forall|u: nat|
                u < W::nbits() ==> #[trigger] r.bit(u) == (c.bit(u) != (u >= A && c.bit((u - A) as nat)) != (
                u >= B && c.bit((u - B) as nat)) != (u >= C && c.bit((u - C) as nat))),
    {
        c.xor(c.shl(A)).xor(c.shl(B)).xor(c.shl(C))
    }

    /// The high word of c (1 + x^A + x^B + x^C), for a carry word c.
    fn fold_hi(c: W) -> (r: W)
        requires
            Self::valid(),
        ensures
            forall|u: nat|
                #[trigger] r.bit(u) == (c.bit((u + W::nbits() - A) as nat) != c.bit(
                    (u + W::nbits() - B) as nat,
                ) != c.bit((u + W::nbits() - C) as nat)),
    {
        let wb = W::nbits_exec();
        c.shr(wb - A).xor(c.shr(wb - B)).xor(c.shr(wb - C))
    }

    /// c (1 + x^A + x^B + x^C) placed at `off` is the low word placed at `off`
    /// plus the high word placed one word higher.
    proof fn lemma_fold_spread(c: W, lo: W, hi: W, off: int, len: nat)
        requires
            Self::valid(),
            0 <= off,
            off + 2 * W::nbits() <= len,
            forall|u: nat|
                u < W::nbits() ==> #[trigger] lo.bit(u) == (c.bit(u) != (u >= A && c.bit((u - A) as nat)) != (
                u >= B && c.bit((u - B) as nat)) != (u >= C && c.bit((u - C) as nat))),
            forall|u: nat|
                #[trigger] hi.bit(u) == (c.bit((u + W::nbits() - A) as nat) != c.bit(
                    (u + W::nbits() - B) as nat,
                ) != c.bit((u + W::nbits() - C) as nat)),
        ensures
            place(Self::modulus().spread(word_bits(c), len), off, len) == xor_seq(
                place(word_bits(lo), off, len),
                place(word_bits(hi), off + W::nbits(), len),
            ),
    {
        let m = Self::modulus();
        let wb = W::nbits() as int;
        let cb = word_bits(c);
        assert forall|k: int| 0 <= k < len implies #[trigger] place(m.spread(cb, len), off, len)[k] == xor_seq(
            place(word_bits(lo), off, len),
            place(word_bits(hi), off + wb, len),
        )[k] by {
            let u = k - off;
            if 0 <= u < wb {
                assert(lo.bit(u as nat) == m.spread(cb, len)[u]);
            } else if wb <= u < 2 * wb {
                W::lemma_bit_range(c, u as nat);
                if u - A >= wb {
                    W::lemma_bit_range(c, (u - A) as nat);
                }
                if u - B >= wb {
                    W::lemma_bit_range(c, (u - B) as nat);
                }
                if u - C >= wb {
                    W::lemma_bit_range(c, (u - C) as nat);
                }
                assert(((u - wb) as nat + W::nbits() - A) as nat == (u - A) as nat);
                assert(((u - wb) as nat + W::nbits() - B) as nat == (u - B) as nat);
                assert(((u - wb) as nat + W::nbits() - C) as nat == (u - C) as nat);
                assert(hi.bit((u - wb) as nat) == m.spread(cb, len)[u]);
            } else if u >= 2 * wb {
                W::lemma_bit_range(c, (u - A) as nat);
                W::lemma_bit_range(c, (u - B) as nat);
                W::lemma_bit_range(c, (u - C) as nat);
            }
        }
        assert(place(m.spread(cb, len), off, len) =~= xor_seq(
            place(word_bits(lo), off, len),
            place(word_bits(hi), off + wb, len),
        ));
    }

    /// Exclusive or of the word `d` into word j of an array adds d placed at
    /// j * wbits to its bits.
    proof fn lemma_update_word(x: [W; NWORDS], y: [W; NWORDS], j: int, d: W)
        requires
            Self::valid(),
            0 <= j < NWORDS,
            forall|t: nat| #[trigger] y@[j].bit(t) == (x@[j].bit(t) != d.bit(t)),
            forall|i: int| 0 <= i < NWORDS && i != j ==> y@[i] == x@[i],
        ensures
            array_bits(y) == xor_seq(array_bits(x), place(word_bits(d), j * W::nbits(), Self::nbits())),
    {
        let wb = W::nbits() as int;
        let p = xor_seq(array_bits(x), place(word_bits(d), j * wb, Self::nbits()));
        assert forall|i: int, t: nat|
            0 <= i < NWORDS && t < W::nbits() implies #[trigger] y@[i].bit(t) == p[i * wb + t] by {
            Self::lemma_index(i, t as int);
            Self::lemma_array_bit(x, i, t as int);
            if i < j {
                assert(i * wb + t - j * wb < 0) by (nonlinear_arith)
                    requires
                        i < j,
                        t < wb,
                ;
            } else if i > j {
                assert(i * wb + t - j * wb >= wb) by (nonlinear_arith)
                    requires
                        i > j,
                        t >= 0,
                        wb > 0,
                ;
            } else {
                assert(i * wb + t - j * wb == t);
            }
        }
        Self::lemma_bits_eq(y, p);
    }

    /// The element that word ++ carry reduces to, for single-word fields: the
    /// carry is folded back until nothing overflows.
    fn reduce_single(word: W, carry: W) -> (r: W)
        requires
            Self::valid(),
            NWORDS == 1,
        ensures
            word_bits(r) == Self::modulus().reduce(word_bits(word) + word_bits(carry)),
    {
        let ghost m = Self::modulus();
        let ghost wb = W::nbits() as int;
        let ghost target = m.reduce(word_bits(word) + word_bits(carry));
        let mut w = word;
        let mut c = carry;
        let ghost mut cleared: int = 0;
        proof {
            assert(Self::nbits() == wb) by (nonlinear_arith)
                requires
                    NWORDS == 1,
                    Self::nbits() == W::nbits() * NWORDS,
                    wb == W::nbits(),
            ;
        }
        assert forall|t: nat| t >= wb - cleared implies !#[trigger] c.bit(t) by {
            W::lemma_bit_range(c, t);
        }
        while !c.is_zero()
            invariant
                Self::valid(),
                NWORDS == 1,
                m == Self::modulus(),
                wb == W::nbits(),
                m.n == wb,
                0 <= cleared <= wb,
                forall|t: nat| t >= wb - cleared ==> !#[trigger] c.bit(t),
                m.reduce(word_bits(w) + word_bits(c)) == target,
            decreases wb - cleared,
        {
            let lo = Self::fold_lo(c);
            let hi = Self::fold_hi(c);
            let nw = w.xor(lo);
            proof {
                let len = (2 * wb) as nat;
                let cb = word_bits(c);
                let wbits = word_bits(w);
                assert(m.wf());
                let zero_w = Seq::new(wb as nat, |k: int| false);
                assert(wbits + cb =~= xor_seq(wbits + zero_w, place(cb, m.n as int, len)));
                lemma_reduce_add(m, wbits + zero_w, place(cb, m.n as int, len));
                lemma_reduce_carry(m, cb, 0, len);
                assert((0 + m.n) as int == m.n as int);
                Self::lemma_fold_spread(c, lo, hi, 0, len);
                let new_w = Seq::new(wb as nat, |t: int| w.bit(t as nat) != lo.bit(t as nat));
                assert(xor_seq(place(word_bits(lo), 0, len), place(word_bits(hi), wb, len)) =~= word_bits(lo)
                    + word_bits(hi));
                assert(new_w + word_bits(hi) =~= xor_seq(wbits + zero_w, word_bits(lo) + word_bits(hi)));
                lemma_reduce_add(m, wbits + zero_w, word_bits(lo) + word_bits(hi));
                assert(forall|t: nat| t >= wb - cleared - 1 ==> !#[trigger] hi.bit(t)) by {
                    assert forall|t: nat| t >= wb - cleared - 1 implies !#[trigger] hi.bit(t) by {
                        assert(t + wb - A >= wb - cleared);
                        assert(t + wb - B >= wb - cleared);
                        assert(t + wb - C >= wb - cleared);
                    }
                }
                if cleared == wb {
                    assert(forall|t: nat| !#[trigger] c.bit(t));
                }
                assert(new_w =~= word_bits(nw));
            }
            w = nw;
            c = hi;
            proof {
                cleared = cleared + 1;
            }
        }
        proof {
            let zero_w = Seq::new(wb as nat, |k: int| false);
            assert(word_bits(c) =~= zero_w);
            lemma_reduce_low(m, word_bits(w) + word_bits(c));
            assert(Seq::new(m.n, |k: int| coef(word_bits(w) + word_bits(c), k)) =~= word_bits(w));
        }
        w
    }

    /// For a single word, the bits of the array are the bits of the word.
    proof fn lemma_single_word(x: [W; NWORDS])
        requires
            Self::valid(),
            NWORDS == 1,
        ensures
            array_bits(x) == word_bits(x@[0]),
            Self::nbits() == W::nbits(),
    {
        assert(Self::nbits() == W::nbits()) by (nonlinear_arith)
            requires
                NWORDS == 1,
                Self::nbits() == W::nbits() * NWORDS,
        ;
        assert forall|t: int| 0 <= t < W::nbits() implies #[trigger] array_bits(x)[t] == word_bits(x@[0])[t] by {
            Self::lemma_array_bit(x, 0, t);
            assert(0 * (W::nbits() as int) + t == t);
        }
        assert(array_bits(x) =~= word_bits(x@[0]));
    }

    /// The element with the single word `w`.
    fn from_single(w: W) -> (r: Self)
        requires
            Self::valid(),
            NWORDS == 1,
        ensures
            r@ == word_bits(w),
    {
        let mut words = [w; NWORDS];
        proof {
            Self::lemma_single_word(words);
        }
        Self { words }
    }

    /// Adding p, placed within the low half, to the low half of a double-width
    /// polynomial adds the reduction of p.
    proof fn lemma_reduce_low_xor(x: Seq<bool>, t: Seq<bool>, p: Seq<bool>)
        requires
            Self::valid(),
            x.len() == Self::nbits(),
            t.len() == Self::nbits(),
            p.len() == Self::nbits(),
        ensures
            Self::modulus().reduce(xor_seq(x, p) + t) == Self::modulus().add(
                Self::modulus().reduce(x + t),
                Self::modulus().reduce(p + Seq::new(Self::nbits(), |k: int| false)),
            ),
    {
        let z = Seq::new(Self::nbits(), |k: int| false);
        assert(xor_seq(x, p) + t =~= xor_seq(x + t, p + z));
        lemma_reduce_add(Self::modulus(), x + t, p + z);
    }

    /// v placed at `off` in n coefficients, then padded with n zeros, is v
    /// placed at `off` in 2n coefficients, when it fits in the low half.
    proof fn lemma_place_pad(v: Seq<bool>, off: int)
        requires
            Self::valid(),
            0 <= off,
            off + v.len() <= Self::nbits(),
        ensures
            place(v, off, Self::nbits()) + Seq::new(Self::nbits(), |k: int| false) == place(
                v,
                off,
                2 * Self::nbits(),
            ),
    {
        assert(place(v, off, Self::nbits()) + Seq::new(Self::nbits(), |k: int| false) =~= place(
            v,
            off,
            2 * Self::nbits(),
        ));
    }

    /// Reduces the double-width product words + x^n carry modulo the
    /// reduction polynomial, folding each carry word back with
    /// x^n = x^A + x^B + x^C + 1.
    pub fn propagate_carries(words: [W; NWORDS], carry: [W; NWORDS]) -> (r: Self)
        requires
            Self::valid(),
        ensures
            r@ == Self::modulus().reduce(array_bits(words) + array_bits(carry)),
    {
        if NWORDS == 1 {
            proof {
                Self::lemma_single_word(words);
                Self::lemma_single_word(carry);
            }
            let w = Self::reduce_single(words[0], carry[0]);
            return Self::from_single(w);
        }
        let ghost m = Self::modulus();
        let ghost n = Self::nbits() as int;
        let ghost wb = W::nbits() as int;
        let ghost target = m.reduce(array_bits(words) + array_bits(carry));
        let ghost cbits = array_bits(carry);
        let mut words = words;
        proof {
            Self::lemma_modulus_wf();
            assert(n == wb * NWORDS);
            assert(Seq::new(n as nat, |k: int| k >= 0 * wb && cbits[k]) =~= cbits);
        }
        for i in 0..NWORDS
            invariant
                Self::valid(),
                NWORDS >= 2,
                m == Self::modulus(),
                m.wf(),
                n == Self::nbits(),
                wb == W::nbits(),
                n == wb * NWORDS,
                cbits == array_bits(carry),
                m.reduce(array_bits(words) + Seq::new(n as nat, |k: int| k >= i * wb && cbits[k])) == target,
        {
            let c = carry[i];
            let lo = Self::fold_lo(c);
            let hi = Self::fold_hi(c);
            let ghost x0 = words;
            let ghost tail = Seq::new(n as nat, |k: int| k >= i * wb && cbits[k]);
            let ghost rest = Seq::new(n as nat, |k: int| k >= (i + 1) * wb && cbits[k]);
            let ghost cb = word_bits(c);
            let ghost len = (2 * n) as nat;
            proof {
                assert((i + 1) * wb == i * wb + wb) by (nonlinear_arith);
                assert((i + 1) * wb <= n) by (nonlinear_arith)
                    requires
                        i + 1 <= NWORDS,
                        n == wb * NWORDS,
                        wb > 0,
                ;
                assert forall|k: int| 0 <= k < len implies #[trigger] (array_bits(x0) + tail)[k] == xor_seq(
                    array_bits(x0) + rest,
                    place(cb, n + i * wb, len),
                )[k] by {
                    if n + i * wb <= k < n + i * wb + wb {
                        let t = k - n - i * wb;
                        Self::lemma_array_bit(carry, i as int, t);
                    }
                }
                assert(array_bits(x0) + tail =~= xor_seq(array_bits(x0) + rest, place(cb, n + i * wb, len)));
                lemma_reduce_add(m, array_bits(x0) + rest, place(cb, n + i * wb, len));
                lemma_reduce_carry(m, cb, (i * wb) as nat, len);
                assert(((i * wb) as nat + m.n) as int == n + i * wb);
                Self::lemma_fold_spread(c, lo, hi, i * wb, len);
                lemma_reduce_add(m, place(word_bits(lo), i * wb, len), place(word_bits(hi), i * wb + wb, len));
            }
            let nlo = words[i].xor(lo);
            words[i] = nlo;
            let ghost x1 = words;
            proof {
                Self::lemma_update_word(x0, x1, i as int, lo);
                Self::lemma_place_pad(word_bits(lo), i * wb);
                Self::lemma_reduce_low_xor(array_bits(x0), rest, place(word_bits(lo), i * wb, n as nat));
            }
            if i + 1 < NWORDS {
                let nhi = words[i + 1].xor(hi);
                words[i + 1] = nhi;
                proof {
                    let x2 = words;
                    Self::lemma_update_word(x1, x2, i + 1, hi);
                    assert((i + 1) * wb + wb <= n) by (nonlinear_arith)
                        requires
                            i + 2 <= NWORDS,
                            n == wb * NWORDS,
                            wb > 0,
                    ;
                    Self::lemma_place_pad(word_bits(hi), (i + 1) * wb);
                    Self::lemma_reduce_low_xor(array_bits(x1), rest, place(word_bits(hi), (i + 1) * wb, n as nat));
                    lemma_reduce_elem_all(m, array_bits(x0) + rest, place(word_bits(lo), i * wb, len), place(word_bits(hi), i * wb + wb, len));
                }
            } else {
                let lo2 = Self::fold_lo(hi);
                let hi2 = Self::fold_hi(hi);
                let n0 = words[0].xor(lo2);
                words[0] = n0;
                let ghost x2 = words;
                let n1 = words[1].xor(hi2);
                words[1] = n1;
                proof {
                    let x3 = words;
                    let hb = word_bits(hi);
                    assert(i * wb + wb == n) by (nonlinear_arith)
                        requires
                            i + 1 == NWORDS,
                            n == wb * NWORDS,
                    ;
                    lemma_reduce_carry(m, hb, 0, len);
                    assert((0 + m.n) as int == n);
                    Self::lemma_fold_spread(hi, lo2, hi2, 0, len);
                    lemma_reduce_add(m, place(word_bits(lo2), 0, len), place(word_bits(hi2), wb, len));
                    Self::lemma_update_word(x1, x2, 0, lo2);
                    Self::lemma_update_word(x2, x3, 1, hi2);
                    assert(2 * wb <= n) by (nonlinear_arith)
                        requires
                            NWORDS >= 2,
                            n == wb * NWORDS,
                            wb > 0,
                    ;
                    Self::lemma_place_pad(word_bits(lo2), 0);
                    Self::lemma_place_pad(word_bits(hi2), wb);
                    assert(0 * wb == 0);
                    Self::lemma_reduce_low_xor(array_bits(x1), rest, place(word_bits(lo2), 0, n as nat));
                    Self::lemma_reduce_low_xor(array_bits(x2), rest, place(word_bits(hi2), wb, n as nat));
                    lemma_reduce_elem_all(m, array_bits(x0) + rest, place(word_bits(lo), i * wb, len), place(word_bits(hi), n, len));
                    lemma_reduce_elem_all(m, array_bits(x1) + rest, place(word_bits(lo2), 0, len), place(word_bits(hi2), wb, len));
                }
            }
        }
        proof {
            assert(NWORDS * wb == n) by (nonlinear_arith)
                requires
                    n == wb * NWORDS,
            ;
            let z = Seq::new(n as nat, |k: int| k >= NWORDS * wb && cbits[k]);
            assert(z =~= Seq::new(n as nat, |k: int| false));
            lemma_reduce_low(m, array_bits(words) + z);
            assert(Seq::new(m.n, |k: int| coef(array_bits(words) + z, k)) =~= array_bits(words));
        }
        Self { words }
    }

    /// Folding a carry word c standing at x^n into words 0 and 1 gives the
    /// reduction of the words plus that carry.
    proof fn lemma_fold_top(x0: [W; NWORDS], x1: [W; NWORDS], x2: [W; NWORDS], c: W, lo: W, hi: W)
        requires
            Self::valid(),
            NWORDS >= 2,
            forall|u: nat|
                u < W::nbits() ==> #[trigger] lo.bit(u) == (c.bit(u) != (u >= A && c.bit((u - A) as nat)) != (
                u >= B && c.bit((u - B) as nat)) != (u >= C && c.bit((u - C) as nat))),
            forall|u: nat|
                #[trigger] hi.bit(u) == (c.bit((u + W::nbits() - A) as nat) != c.bit(
                    (u + W::nbits() - B) as nat,
                ) != c.bit((u + W::nbits() - C) as nat)),
            forall|t: nat| #[trigger] x1@[0].bit(t) == (x0@[0].bit(t) != lo.bit(t)),
            forall|i: int| 0 < i < NWORDS ==> x1@[i] == x0@[i],
            forall|t: nat| #[trigger] x2@[1].bit(t) == (x1@[1].bit(t) != hi.bit(t)),
            forall|i: int| 0 <= i < NWORDS && i != 1 ==> x2@[i] == x1@[i],
        ensures
            array_bits(x2) == Self::modulus().reduce(
                xor_seq(
                    array_bits(x0) + Seq::new(Self::nbits(), |k: int| false),
                    place(word_bits(c), Self::nbits() as int, 2 * Self::nbits()),
                ),
            ),
    {
        let m = Self::modulus();
        let n = Self::nbits() as int;
        let wb = W::nbits() as int;
        let len = (2 * n) as nat;
        let z = Seq::new(n as nat, |k: int| false);
        Self::lemma_modulus_wf();
        assert(2 * wb <= n) by (nonlinear_arith)
            requires
                NWORDS >= 2,
                n == wb * NWORDS,
                wb > 0,
        ;
        lemma_reduce_add(m, array_bits(x0) + z, place(word_bits(c), n, len));
        lemma_reduce_carry(m, word_bits(c), 0, len);
        assert((0 + m.n) as int == n);
        Self::lemma_fold_spread(c, lo, hi, 0, len);
        lemma_reduce_add(m, place(word_bits(lo), 0, len), place(word_bits(hi), wb, len));
        Self::lemma_update_word(x0, x1, 0, lo);
        Self::lemma_update_word(x1, x2, 1, hi);
        Self::lemma_place_pad(word_bits(lo), 0);
        Self::lemma_place_pad(word_bits(hi), wb);
        assert(0 * wb == 0);
        assert(1 * wb == wb);
        Self::lemma_reduce_low_xor(array_bits(x0), z, place(word_bits(lo), 0, n as nat));
        Self::lemma_reduce_low_xor(array_bits(x1), z, place(word_bits(hi), wb, n as nat));
        lemma_reduce_elem_all(m, array_bits(x0) + z, place(word_bits(lo), 0, len), place(word_bits(hi), wb, len));
        lemma_reduce_low(m, array_bits(x2) + z);
        assert(Seq::new(m.n, |k: int| coef(array_bits(x2) + z, k)) =~= array_bits(x2));
        lemma_reduce_low(m, array_bits(x0) + z);
        assert(Seq::new(m.n, |k: int| coef(array_bits(x0) + z, k)) =~= array_bits(x0));
    }

    /// Multiplies the element by x^shift in place, for 0 < shift < wbits:
    /// all words shift at once and the overflow is folded back.
    pub fn shl_word(&mut self, shift: usize)
        requires
            Self::valid(),
            0 < shift < W::nbits(),
        ensures
            final(self)@ == Self::modulus().times_x_pow(old(self)@, shift as nat),
    {
        let ghost m = Self::modulus();
        let ghost v = self@;
        let ghost n = Self::nbits() as int;
        let ghost wb = W::nbits() as int;
        let wbe = W::nbits_exec();
        proof {
            Self::lemma_modulus_wf();
            self.lemma_view_len();
            lemma_times_x_pow_reduce(m, v, shift as nat, (2 * n) as nat);
        }
        if NWORDS == 1 {
            let d = self.words[0];
            let low = d.shl(shift);
            let carry = d.shr(wbe - shift);
            proof {
                Self::lemma_single_word(self.words);
                assert forall|k: int| 0 <= k < 2 * n implies #[trigger] (word_bits(low) + word_bits(carry))[k]
                    == place(v, shift as int, (2 * n) as nat)[k] by {
                    if k >= wb + shift {
                        W::lemma_bit_range(d, (k - shift) as nat);
                    }
                }
                assert(word_bits(low) + word_bits(carry) =~= place(v, shift as int, (2 * n) as nat));
            }
            let w = Self::reduce_single(low, carry);
            *self = Self::from_single(w);
            return;
        }
        let ghost old_words = self.words;
        let mut carry = W::zero();
        assert(0 * wb == 0);
        for i in 0..NWORDS
            invariant
                Self::valid(),
                NWORDS >= 2,
                wbe == W::nbits(),
                wb == W::nbits(),
                0 < shift < wb,
                v == array_bits(old_words),
                forall|j: int| i <= j < NWORDS ==> self.words@[j] == old_words@[j],
                forall|j: int, t: nat|
                    0 <= j < i && t < wb ==> #[trigger] self.words@[j].bit(t) == coef(v, j * wb + t - shift),
                forall|t: nat| #[trigger] carry.bit(t) == (t < shift && coef(v, i * wb + t - shift)),
        {
            let d = self.words[i];
            let nw = d.shl(shift).xor(carry);
            let ncarry = d.shr(wbe - shift);
            proof {
                assert forall|t: nat| t < wb implies #[trigger] nw.bit(t) == coef(v, i * wb + t - shift) by {
                    if t >= shift {
                        Self::lemma_array_bit(old_words, i as int, t - shift);
                        Self::lemma_index(i as int, t - shift);
                    }
                }
                assert forall|t: nat| #[trigger] ncarry.bit(t) == (t < shift && coef(v, (i + 1) * wb + t - shift)) by {
                    assert((i + 1) * wb == i * wb + wb) by (nonlinear_arith);
                    if t < shift {
                        Self::lemma_array_bit(old_words, i as int, (t + wb - shift) as int);
                        Self::lemma_index(i as int, (t + wb - shift) as int);
                    } else {
                        W::lemma_bit_range(d, (t + wb - shift) as nat);
                    }
                }
            }
            self.words[i] = nw;
            carry = ncarry;
        }
        let ghost x0 = self.words;
        let lo = Self::fold_lo(carry);
        let hi = Self::fold_hi(carry);
        let n0 = self.words[0].xor(lo);
        self.words[0] = n0;
        let ghost x1 = self.words;
        let n1 = self.words[1].xor(hi);
        self.words[1] = n1;
        proof {
            Self::lemma_fold_top(x0, x1, self.words, carry, lo, hi);
            assert(NWORDS * wb == n) by (nonlinear_arith)
                requires
                    n == wb * NWORDS,
            ;
            assert forall|k: int| 0 <= k < 2 * n implies #[trigger] place(v, shift as int, (2 * n) as nat)[k]
                == xor_seq(
                array_bits(x0) + Seq::new(n as nat, |k: int| false),
                place(word_bits(carry), n, (2 * n) as nat),
            )[k] by {
                if k < n {
                    Self::lemma_split_index(k);
                    Self::lemma_array_bit(x0, k / wb, k % wb);
                } else if k >= n + shift {
                    assert(k - shift >= n);
                }
            }
            assert(place(v, shift as int, (2 * n) as nat) =~= xor_seq(
                array_bits(x0) + Seq::new(n as nat, |k: int| false),
                place(word_bits(carry), n, (2 * n) as nat),
            ));
        }
    }

    /// Multiplies the element by x^wbits in place: the words move up by one
    /// and the top word is folded back.
    pub fn shlt(&mut self)
        requires
            Self::valid(),
        ensures
            final(self)@ == Self::modulus().times_x_pow(old(self)@, W::nbits()),
    {
        let ghost m = Self::modulus();
        let ghost v = self@;
        let ghost n = Self::nbits() as int;
        let ghost wb = W::nbits() as int;
        proof {
            Self::lemma_modulus_wf();
            self.lemma_view_len();
            lemma_times_x_pow_reduce(m, v, W::nbits(), (2 * n) as nat);
        }
        if NWORDS == 1 {
            let carry = self.words[0];
            let z = W::zero();
            proof {
                Self::lemma_single_word(self.words);
                assert(word_bits(z) + word_bits(carry) =~= place(v, wb, (2 * n) as nat));
            }
            let w = Self::reduce_single(z, carry);
            *self = Self::from_single(w);
            return;
        }
        let ghost old_words = self.words;
        let carry = self.words[NWORDS - 1];
        let mut i: usize = NWORDS - 1;
        while i > 0
            invariant
                Self::valid(),
                NWORDS >= 2,
                i < NWORDS,
                forall|j: int| 0 <= j <= i ==> self.words@[j] == old_words@[j],
                forall|j: int| i < j < NWORDS ==> self.words@[j] == old_words@[j - 1],
            decreases i,
        {
            self.words[i] = self.words[i - 1];
            i -= 1;
        }
        self.words[0] = W::zero();
        let ghost x0 = self.words;
        let lo = Self::fold_lo(carry);
        let hi = Self::fold_hi(carry);
        let n0 = self.words[0].xor(lo);
        self.words[0] = n0;
        let ghost x1 = self.words;
        let n1 = self.words[1].xor(hi);
        self.words[1] = n1;
        proof {
            Self::lemma_fold_top(x0, x1, self.words, carry, lo, hi);
            assert(NWORDS * wb == n) by (nonlinear_arith)
                requires
                    n == wb * NWORDS,
            ;
            assert forall|k: int| 0 <= k < 2 * n implies #[trigger] place(v, wb, (2 * n) as nat)[k] == xor_seq(
                array_bits(x0) + Seq::new(n as nat, |k: int| false),
                place(word_bits(carry), n, (2 * n) as nat),
            )[k] by {
                if k < n {
                    Self::lemma_split_index(k);
                    let i = k / wb;
                    let t = k % wb;
                    Self::lemma_array_bit(x0, i, t);
                    if i > 0 {
                        Self::lemma_array_bit(old_words, i - 1, t);
                        assert((i - 1) * wb + t == k - wb) by (nonlinear_arith)
                            requires
                                k == i * wb + t,
                        ;
                        assert(x0@[i] == old_words@[i - 1]);
                        assert(array_bits(x0)[k] == v[k - wb]);
                    } else {
                        assert(!x0@[0].bit(t as nat));
                        assert(0 * wb == 0);
                        assert(k < wb);
                    }
                } else if k < n + wb {
                    Self::lemma_array_bit(old_words, NWORDS - 1, k - n);
                    assert(carry == old_words@[NWORDS - 1]);
                    assert((NWORDS - 1) * wb + (k - n) == k - wb) by (nonlinear_arith)
                        requires
                            n == wb * NWORDS,
                    ;
                }
            }
            assert(place(v, wb, (2 * n) as nat) =~= xor_seq(
                array_bits(x0) + Seq::new(n as nat, |k: int| false),
                place(word_bits(carry), n, (2 * n) as nat),
            ));
        }
    }

    /// The product by x^shift, for shift < n: whole words first, then the
    /// remaining bits.
    pub fn shl(self, shift: usize) -> (r: Self)
        requires
            Self::valid(),
            shift < Self::nbits(),
        ensures
            r@ == Self::modulus().times_x_pow(self@, shift as nat),
    {
        let ghost m = Self::modulus();
        let wb = W::nbits_exec();
        let mut v = self;
        let mut rest = shift;
        while rest >= wb
            invariant
                Self::valid(),
                wb == W::nbits(),
                m == Self::modulus(),
                rest <= shift,
                v@ == m.times_x_pow(self@, (shift - rest) as nat),
            decreases rest,
        {
            v.shlt();
            proof {
                lemma_times_x_pow_comp(m, self@, (shift - rest) as nat, W::nbits());
            }
            rest = rest - wb;
        }
        if rest != 0 {
            v.shl_word(rest);
            proof {
                lemma_times_x_pow_comp(m, self@, (shift - rest) as nat, rest as nat);
            }
        }
        v
    }

    /// The product by x.
    pub fn shl1_ret(self) -> (r: Self)
        requires
            Self::valid(),
        ensures
            r@ == Self::modulus().times_x(self@),
    {
        let mut v = self;
        v.shl1();
        v
    }

    /// Exclusive or of `d` into word `j` of the double-width pair (low, high),
    /// j < 2 NWORDS, adds d placed at j * wbits to its bits.
    proof fn lemma_update_pair(
        lo0: [W; NWORDS],
        hi0: [W; NWORDS],
        lo1: [W; NWORDS],
        hi1: [W; NWORDS],
        j: int,
        d: W,
    )
        requires
            Self::valid(),
            0 <= j < 2 * NWORDS,
            j < NWORDS ==> hi1 == hi0,
            j < NWORDS ==> forall|t: nat| #[trigger] lo1@[j].bit(t) == (lo0@[j].bit(t) != d.bit(t)),
            j < NWORDS ==> forall|i: int| 0 <= i < NWORDS && i != j ==> lo1@[i] == lo0@[i],
            j >= NWORDS ==> lo1 == lo0,
            j >= NWORDS ==> forall|t: nat| #[trigger] hi1@[j - NWORDS].bit(t) == (hi0@[j - NWORDS].bit(t) != d.bit(t)),
            j >= NWORDS ==> forall|i: int| 0 <= i < NWORDS && i != j - NWORDS ==> hi1@[i] == hi0@[i],
        ensures
            array_bits(lo1) + array_bits(hi1) == xor_seq(
                array_bits(lo0) + array_bits(hi0),
                place(word_bits(d), j * W::nbits(), 2 * Self::nbits()),
            ),
    {
        let wb = W::nbits() as int;
        let n = Self::nbits() as int;
        if j < NWORDS {
            Self::lemma_update_word(lo0, lo1, j, d);
            assert(j * wb + wb <= n) by (nonlinear_arith)
                requires
                    j + 1 <= NWORDS,
                    n == wb * NWORDS,
                    wb > 0,
            ;
            assert(array_bits(lo1) + array_bits(hi1) =~= xor_seq(
                array_bits(lo0) + array_bits(hi0),
                place(word_bits(d), j * wb, (2 * n) as nat),
            ));
        } else {
            Self::lemma_update_word(hi0, hi1, j - NWORDS, d);
            assert((j - NWORDS) * wb == j * wb - n) by (nonlinear_arith)
                requires
                    n == wb * NWORDS,
            ;
            assert(array_bits(lo1) + array_bits(hi1) =~= xor_seq(
                array_bits(lo0) + array_bits(hi0),
                place(word_bits(d), j * wb, (2 * n) as nat),
            ));
        }
    }

    /// The coefficients of p that word k holds.
    pub open spec fn word_part(p: Seq<bool>, k: int) -> Seq<bool> {
        Seq::new(
            p.len(),
            |q: int| k * (W::nbits() as int) <= q < k * (W::nbits() as int) + W::nbits() && p[q],
        )
    }

    /// The two pieces that the fused product adds for word k of `self` and
    /// bit j of word i of `other` are word k of `self` placed at i * wbits + j.
    proof fn lemma_fused_piece(x: [W; NWORDS], k: int, i: int, j: int, d: W, c: W)
        requires
            Self::valid(),
            0 <= k < NWORDS,
            0 <= i < NWORDS,
            0 <= j < W::nbits(),
            forall|t: nat| #[trigger] d.bit(t) == (t < W::nbits() && t >= j && x@[k].bit((t - j) as nat)),
            j != 0 ==> forall|t: nat| #[trigger] c.bit(t) == x@[k].bit((t + W::nbits() - j) as nat),
        ensures
            ({
                let wb = W::nbits() as int;
                let len = 2 * Self::nbits();
                let first = place(word_bits(d), (k + i) * wb, len);
                let both = if j != 0 {
                    xor_seq(first, place(word_bits(c), (k + i + 1) * wb, len))
                } else {
                    first
                };
                both == place(Self::word_part(array_bits(x), k), i * wb + j, len)
            }),
    {
        let wb = W::nbits() as int;
        let n = Self::nbits() as int;
        let len = (2 * n) as nat;
        let p = array_bits(x);
        let first = place(word_bits(d), (k + i) * wb, len);
        let target = place(Self::word_part(p, k), i * wb + j, len);
        assert((k + i) * wb == k * wb + i * wb && (k + i + 1) * wb == k * wb + i * wb + wb) by (nonlinear_arith);
        assert(k * wb + wb <= n) by (nonlinear_arith)
            requires
                k + 1 <= NWORDS,
                n == wb * NWORDS,
                wb > 0,
        ;
        assert forall|q: int| 0 <= q < len implies #[trigger] target[q] == (coef(word_bits(d), q - (k + i) * wb) != (
        j != 0 && coef(word_bits(c), q - (k + i + 1) * wb))) by {
            let u = q - i * wb - j;
            if k * wb <= u < k * wb + wb {
                let t = u - k * wb;
                Self::lemma_array_bit(x, k, t);
                if t + j < wb {
                    assert(q - (k + i) * wb == t + j);
                } else {
                    assert(q - (k + i + 1) * wb == t + j - wb);
                    W::lemma_bit_range(x@[k], (t + j) as nat);
                }
            } else {
                if 0 <= q - (k + i) * wb < wb {
                    let t = q - (k + i) * wb;
                    if t >= j {
                        W::lemma_bit_range(x@[k], (t - j) as nat);
                    }
                }
                if j != 0 && 0 <= q - (k + i + 1) * wb < wb {
                    let t = q - (k + i + 1) * wb;
                    W::lemma_bit_range(x@[k], (t + wb - j) as nat);
                }
            }
        }
        if j != 0 {
            assert(xor_seq(first, place(word_bits(c), (k + i + 1) * wb, len)) =~= target);
        } else {
            assert(first =~= target);
        }
    }

    /// Product with a fused carry: the full double-width product is
    /// accumulated in two halves, without reduction, then the high half is
    /// folded into the low one.
    pub fn mul_fused_carry(&self, other: &Self) -> (r: Self)
        requires
            Self::valid(),
        ensures
            r@ == Self::modulus().mul(self@, other@),
    {
        let ghost m = Self::modulus();
        let ghost p = self@;
        let ghost q = other@;
        let ghost n = Self::nbits() as int;
        let ghost wb = W::nbits() as int;
        let ghost len = (2 * n) as nat;
        let wbe = W::nbits_exec();
        let one = Self::word_one();
        let z = W::zero();
        let mut words = [z; NWORDS];
        let mut carry = [z; NWORDS];
        proof {
            Self::lemma_modulus_wf();
            self.lemma_view_len();
            assert forall|k: int| 0 <= k < n implies !#[trigger] array_bits(words)[k] && !array_bits(carry)[k] by {
                Self::lemma_split_index(k);
            }
            assert(array_bits(words) + array_bits(carry) =~= Seq::new(len, |k: int| false));
            crate::reduction::lemma_reduce_zero(m, len);
            assert(0 * wb == 0);
        }
        for i in 0..NWORDS
            invariant
                Self::valid(),
                m == Self::modulus(),
                m.wf(),
                p == self@,
                q == other@,
                n == Self::nbits(),
                n == wb * NWORDS,
                wb == W::nbits(),
                wbe == W::nbits(),
                len == 2 * n,
                forall|t: nat| #[trigger] one.bit(t) == (t == 0),
                m.reduce(array_bits(words) + array_bits(carry)) == m.mul_upto(p, q, (i * wb) as nat),
        {
            let word = other.words[i];
            for j in 0..wbe
                invariant
                    Self::valid(),
                    m == Self::modulus(),
                    m.wf(),
                    p == self@,
                    q == other@,
                    n == Self::nbits(),
                    n == wb * NWORDS,
                    wb == W::nbits(),
                    wbe == W::nbits(),
                    len == 2 * n,
                    0 <= i < NWORDS,
                    word == other.words@[i as int],
                    forall|t: nat| #[trigger] one.bit(t) == (t == 0),
                    m.reduce(array_bits(words) + array_bits(carry)) == m.mul_upto(p, q, (i * wb + j) as nat),
            {
                let mask = one.shl(j);
                let masked = word.and(mask);
                let set = !masked.is_zero();
                let ghost e = i * wb + j;
                proof {
                    Self::lemma_array_bit(other.words, i as int, j as int);
                    Self::lemma_index(i as int, j as int);
                    if word.bit(j as nat) {
                        assert(masked.bit(j as nat));
                    }
                    if set {
                        let t = choose|t: nat| #[trigger] masked.bit(t);
                        assert(mask.bit(t));
                    }
                    assert(set == q[e]);
                }
                if set {
                    let ghost before = array_bits(words) + array_bits(carry);
                    proof {
                        assert(0 * wb == 0);
                        assert(xor_seq(before, place(Seq::new(n as nat, |u: int| u < 0 * wb && p[u]), e, len))
                            =~= before);
                    }
                    for k in 0..NWORDS
                        invariant
                            Self::valid(),
                            n == Self::nbits(),
                            n == wb * NWORDS,
                            wb == W::nbits(),
                            wbe == W::nbits(),
                            len == 2 * n,
                            0 <= i < NWORDS,
                            0 <= j < wb,
                            e == i * wb + j,
                            p == array_bits(self.words),
                            array_bits(words) + array_bits(carry) == xor_seq(
                                before,
                                place(Seq::new(n as nat, |u: int| u < k * wb && p[u]), e, len),
                            ),
                    {
                        let sw = self.words[k];
                        let d = sw.shl(j);
                        let ki = k + i;
                        let ghost w0 = words;
                        let ghost c0 = carry;
                        if ki < NWORDS {
                            let nd = words[ki].xor(d);
                            words[ki] = nd;
                        } else {
                            let nd = carry[ki - NWORDS].xor(d);
                            carry[ki - NWORDS] = nd;
                        }
                        proof {
                            Self::lemma_update_pair(w0, c0, words, carry, ki as int, d);
                        }
                        let ghost w1 = words;
                        let ghost c1 = carry;
                        let mut c = z;
                        if j != 0 {
                            c = sw.shr(wbe - j);
                            let kic = ki + 1;
                            if kic < NWORDS {
                                let nc = words[kic].xor(c);
                                words[kic] = nc;
                            } else {
                                let nc = carry[kic - NWORDS].xor(c);
                                carry[kic - NWORDS] = nc;
                            }
                            proof {
                                Self::lemma_update_pair(w1, c1, words, carry, kic as int, c);
                            }
                        }
                        proof {
                            Self::lemma_fused_piece(self.words, k as int, i as int, j as int, d, c);
                            let pk = Seq::new(n as nat, |u: int| u < k * wb && p[u]);
                            let pk1 = Seq::new(n as nat, |u: int| u < (k + 1) * wb && p[u]);
                            assert((k + 1) * wb == k * wb + wb) by (nonlinear_arith);
                            assert(pk1 =~= xor_seq(pk, Self::word_part(p, k as int)));
                            assert(place(pk1, e, len) =~= xor_seq(
                                place(pk, e, len),
                                place(Self::word_part(p, k as int), e, len),
                            ));
                            let first = place(word_bits(d), (k + i) * wb, len);
                            if j != 0 {
                                let second = place(word_bits(c), (k + i + 1) * wb, len);
                                assert(array_bits(words) + array_bits(carry) =~= xor_seq(
                                    before,
                                    place(pk1, e, len),
                                ));
                            } else {
                                assert(array_bits(words) + array_bits(carry) =~= xor_seq(
                                    before,
                                    place(pk1, e, len),
                                ));
                            }
                        }
                    }
                    proof {
                        let all = Seq::new(n as nat, |u: int| u < NWORDS * wb && p[u]);
                        assert(NWORDS * wb == n) by (nonlinear_arith)
                            requires
                                n == wb * NWORDS,
                        ;
                        assert(all =~= p);
                        lemma_reduce_add(m, before, place(p, e, len));
                        lemma_times_x_pow_reduce(m, p, e as nat, len);
                    }
                }
            }
            assert((i + 1) * wb == i * wb + wb) by (nonlinear_arith);
        }
        assert(NWORDS * wb == n) by (nonlinear_arith)
            requires
                n == wb * NWORDS,
        ;
        Self::propagate_carries(words, carry)
    }

    /// The element with every coefficient set.
    pub fn all_ones() -> (r: Self)
        requires
            Self::valid(),
        ensures
            r@ == Seq::new(Self::nbits(), |k: int| true),
    {
        let words = [W::ones(); NWORDS];
        proof {
            let p = Seq::new(Self::nbits(), |k: int| true);
            assert forall|i: int, t: nat|
                0 <= i < NWORDS && t < W::nbits() implies #[trigger] words@[i].bit(t) == p[i * (
            W::nbits() as int) + t] by {
                Self::lemma_index(i, t as int);
            }
            Self::lemma_bits_eq(words, p);
        }
        Self { words }
    }

    /// Test value i: all ones for i = 0, then for each coefficient k, x^k
    /// and all ones with coefficient k cleared.
    pub open spec fn test_value(i: int) -> Seq<bool> {
        let ones = Seq::new(Self::nbits(), |k: int| true);
        if i == 0 {
            ones
        } else if i % 2 == 1 {
            Self::modulus().monomial(((i - 1) / 2) as nat)
        } else {
            Self::modulus().add(ones, Self::modulus().monomial(((i - 2) / 2) as nat))
        }
    }

    /// The non-zero elements on which the laws are checked: all ones, then
    /// for each coefficient k, x^k and all ones with coefficient k cleared.
    pub fn get_nonzero_test_values() -> (r: Vec<Self>)
        requires
            Self::valid(),
        ensures
            r@.len() == 2 * Self::nbits() + 1,
            forall|i: int| 0 <= i < r@.len() ==> #[trigger] r@[i]@ == Self::test_value(i),
    {
        let ones = Self::all_ones();
        let nbits = Self::nbits_exec();
        let mut values: Vec<Self> = Vec::new();
        values.push(ones);
        for k in 0..nbits
            invariant
                Self::valid(),
                nbits == Self::nbits(),
                ones@ == Seq::new(Self::nbits(), |k: int| true),
                values@.len() == 2 * k + 1,
                forall|i: int| 0 <= i < values@.len() ==> #[trigger] values@[i]@ == Self::test_value(i),
        {
            let b = Self::xn(k);
            values.push(b);
            values.push(ones.add(b));
            proof {
                assert((2 * k + 1 - 1) / 2 == k);
                assert((2 * k + 2 - 2) / 2 == k);
            }
        }
        values
    }

    /// The non-zero test values followed by zero.
    pub fn get_test_values() -> (r: Vec<Self>)
        requires
            Self::valid(),
        ensures
            r@.len() == 2 * Self::nbits() + 2,
            forall|i: int| 0 <= i < r@.len() - 1 ==> #[trigger] r@[i]@ == Self::test_value(i),
            r@[r@.len() - 1]@ == Self::modulus().zero(),
    {
        let mut values = Self::get_nonzero_test_values();
        values.push(Self::zero());
        values
    }

    /// The product by x^shift, for 0 < shift < wbits.
    pub fn shl_word_ret(self, shift: usize) -> (r: Self)
        requires
            Self::valid(),
            0 < shift < W::nbits(),
        ensures
            r@ == Self::modulus().times_x_pow(self@, shift as nat),
    {
        let mut v = self;
        v.shl_word(shift);
        v
    }

    /// The product by x^wbits.
    pub fn shlt_ret(self) -> (r: Self)
        requires
            Self::valid(),
        ensures
            r@ == Self::modulus().times_x_pow(self@, W::nbits()),
    {
        let mut v = self;
        v.shlt();
        v
    }
}

} // verus!
