//! Machine words that make up the representation of a field element.

use vstd::prelude::*;

verus! {

/// An unsigned machine word, seen as a sequence of `nbits()` bits, bit 0 being
/// the least significant one.
pub trait Word: Copy + Eq + core::fmt::Debug + core::hash::Hash + Sized {
    /// Number of bits in the word.
    spec fn nbits() -> nat;

    /// Bit `i` of the word (false beyond the width).
    spec fn bit(self, i: nat) -> bool;

    /// Two words with the same bits are the same word.
    proof fn lemma_bits_ext(a: Self, b: Self)
        requires
            forall|i: nat| i < Self::nbits() ==> a.bit(i) == b.bit(i),
        ensures
            a == b,
    ;

    /// Bits beyond the width are clear.
    proof fn lemma_bit_range(a: Self, i: nat)
        requires
            i >= Self::nbits(),
        ensures
            !a.bit(i),
    ;

    /// Number of bits in the word, at run time.
    fn nbits_exec() -> (r: usize)
        ensures
            r as nat == Self::nbits(),
            8 <= r <= 128,
            r % 8 == 0,
    ;

    /// The word with no bit set.
    fn zero() -> (r: Self)
        ensures
            forall|i: nat| !#[trigger] r.bit(i),
    ;

    /// The word `v` (its low eight bits).
    fn from_byte(v: u8) -> (r: Self)
        ensures
            forall|i: nat| i < 8 ==> #[trigger] r.bit(i) == (((v >> (i as u8)) & 1) == 1),
            forall|i: nat| i >= 8 ==> !#[trigger] r.bit(i),
    ;

    /// The word with every bit set.
    fn ones() -> (r: Self)
        ensures
            forall|i: nat| i < Self::nbits() ==> #[trigger] r.bit(i),
    ;

    /// The low eight bits of the word, as a byte.
    fn low_byte(self) -> (r: u8)
        ensures
            forall|i: nat| i < 8 ==> (((r >> (i as u8)) & 1) == 1) == #[trigger] self.bit(i),
    ;

    /// Bitwise exclusive or.
    fn xor(self, o: Self) -> (r: Self)
        ensures
            forall|i: nat| #[trigger] r.bit(i) == (self.bit(i) != o.bit(i)),
    ;

    /// Bitwise and.
    fn and(self, o: Self) -> (r: Self)
        ensures
            forall|i: nat| #[trigger] r.bit(i) == (self.bit(i) && o.bit(i)),
    ;

    /// Logical left shift by `s` bits.
    fn shl(self, s: usize) -> (r: Self)
        requires
            (s as nat) < Self::nbits(),
        ensures
            forall|i: nat| #[trigger] r.bit(i) == (i < Self::nbits() && i >= s && self.bit((i - s) as nat)),
    ;

    /// Logical right shift by `s` bits.
    fn shr(self, s: usize) -> (r: Self)
        requires
            (s as nat) < Self::nbits(),
        ensures
            forall|i: nat| #[trigger] r.bit(i) == self.bit((i + s) as nat),
    ;

    /// Whether no bit is set.
    fn is_zero(self) -> (r: bool)
        ensures
            r == (forall|i: nat| !#[trigger] self.bit(i)),
    ;

    /// A word of uniformly random bits from the thread's CSPRNG.
    fn sample() -> Self;
}

impl Word for u8 {
    open spec fn nbits() -> nat {
        8
    }

    open spec fn bit(self, i: nat) -> bool {
        i < 8 && (self >> (i as u8)) & 1 == 1
    }

    proof fn lemma_bits_ext(a: u8, b: u8) {
        lemma_agree_below_8(a, b, 8);
        assert(agree_below_8(a, b, 8) ==> a == b) by (bit_vector);
    }

    proof fn lemma_bit_range(a: u8, i: nat) {
    }

    fn nbits_exec() -> (r: usize) {
        8
    }

    fn zero() -> (r: u8) {
        proof {
            lemma_const_bits_8();
        }
        0
    }

    fn ones() -> (r: u8) {
        proof {
            lemma_const_bits_8();
        }
        u8::MAX
    }

    fn from_byte(v: u8) -> (r: u8) {
        let r = v as u8;
        assert((forall|i: u8| i < 8 ==> (((r >> i) & 1) == 1) == (((v >> (i as u8)) & 1) == 1))) by (bit_vector)
            requires
                r == v as u8,
        ;
        assert forall|i: nat| i < 8 implies #[trigger] r.bit(i) == (((v >> i) & 1) == 1) by {
            assert((v >> (i as u8)) == (v >> i));
        }
        r
    }

    fn low_byte(self) -> (r: u8) {
        let r = self as u8;
        assert(forall|i: u8| i < 8 ==> (((r >> (i as u8)) & 1) == 1) == (((self >> i) & 1) == 1))
            by (bit_vector)
            requires
                r == self as u8,
        ;
        assert forall|i: nat| i < 8 implies (((r >> i) & 1) == 1) == #[trigger] self.bit(i) by {
            assert((r >> (i as u8)) == (r >> i));
        }
        r
    }

    fn xor(self, o: u8) -> (r: u8) {
        let r = self ^ o;
        assert(forall|i: u8| i < 8 ==> (((r >> i) & 1) == 1) == ((((self >> i) & 1) == 1) != (((o >> i) & 1) == 1)))
            by (bit_vector)
            requires
                r == self ^ o,
        ;
        r
    }

    fn and(self, o: u8) -> (r: u8) {
        let r = self & o;
        assert(forall|i: u8| i < 8 ==> (((r >> i) & 1) == 1) == ((((self >> i) & 1) == 1) && (((o >> i) & 1) == 1)))
            by (bit_vector)
            requires
                r == self & o,
        ;
        r
    }

    fn shl(self, s: usize) -> (r: u8) {
        let t = s as u8;
        let r = self << t;
        assert(forall|i: u8| i < 8 ==> (((r >> i) & 1) == 1) == (i >= t && ((self >> ((i - t) as u8)) & 1) == 1))
            by (bit_vector)
            requires
                r == self << t,
                t < 8,
        ;
        assert forall|i: nat| #[trigger] r.bit(i) == (i < 8 && i >= s && self.bit((i - s) as nat)) by {
            if i < 8 && i >= s {
                assert(((i as u8) - t) as u8 == (i - s) as u8);
            }
        }
        r
    }

    fn shr(self, s: usize) -> (r: u8) {
        let t = s as u8;
        let r = self >> t;
        assert(forall|i: u8| i < 8 ==> (((r >> i) & 1) == 1) == (i + t < 8 && ((self >> ((i + t) as u8)) & 1) == 1))
            by (bit_vector)
            requires
                r == self >> t,
                t < 8,
        ;
        assert forall|i: nat| #[trigger] r.bit(i) == self.bit((i + s) as nat) by {
            if i < 8 {
                assert(((i as u8) + t) as u8 == (i + s) as u8);
            }
        }
        r
    }

    fn is_zero(self) -> (r: bool) {
        if self == 0 {
            proof {
                lemma_const_bits_8();
            }
            true
        } else {
            assert(!(forall|i: nat| !#[trigger] self.bit(i))) by {
                if forall|i: nat| !#[trigger] self.bit(i) {
                    lemma_const_bits_8();
                    Self::lemma_bits_ext(self, 0u8);
                }
            }
            false
        }
    }

    fn sample() -> u8 {
        rand::random::<u8>()
    }
}

/// The bits of zero and of the largest word, and the range of a bit.
proof fn lemma_const_bits_8()
    ensures
        forall|i: u8| i < 8 ==> (0u8 >> i) & 1 != 1,
        forall|i: u8| i < 8 ==> (u8::MAX >> i) & 1 == 1,
        forall|x: u8, j: u8| #[trigger] ((x >> j) & 1) <= 1,
{
    assert((forall|i: u8| i < 8 ==> (0u8 >> i) & 1 != 1) && (forall|i: u8| i < 8 ==> (u8::MAX >> i) & 1
        == 1) && (forall|x: u8, j: u8| ((x >> j) & 1) <= 1)) by (bit_vector);
}

/// Bits below `n` of `a` and `b` agree.
pub open spec fn agree_below_8(a: u8, b: u8, n: u8) -> bool
    decreases n,
{
    if n == 0 {
        true
    } else {
        ((a >> ((n - 1) as u8)) & 1) == ((b >> ((n - 1) as u8)) & 1) && agree_below_8(a, b, (n - 1) as u8)
    }
}

proof fn lemma_agree_below_8(a: u8, b: u8, n: u8)
    requires
        n <= 8,
        forall|i: nat| i < 8 ==> a.bit(i) == b.bit(i),
    ensures
        agree_below_8(a, b, n),
    decreases n,
{
    if n > 0 {
        let j = (n - 1) as u8;
        assert(a.bit(j as nat) == b.bit(j as nat));
        lemma_const_bits_8();
        assert(((a >> j) & 1) <= 1 && ((b >> j) & 1) <= 1);
        lemma_agree_below_8(a, b, j);
    }
}

impl Word for u16 {
    open spec fn nbits() -> nat {
        16
    }

    open spec fn bit(self, i: nat) -> bool {
        i < 16 && (self >> (i as u16)) & 1 == 1
    }

    proof fn lemma_bits_ext(a: u16, b: u16) {
        lemma_agree_below_16(a, b, 16);
        assert(agree_below_16(a, b, 16) ==> a == b) by (bit_vector);
    }

    proof fn lemma_bit_range(a: u16, i: nat) {
    }

    fn nbits_exec() -> (r: usize) {
        16
    }

    fn zero() -> (r: u16) {
        proof {
            lemma_const_bits_16();
        }
        0
    }

    fn ones() -> (r: u16) {
        proof {
            lemma_const_bits_16();
        }
        u16::MAX
    }

    fn from_byte(v: u8) -> (r: u16) {
        let r = v as u16;
        assert((forall|i: u16| i < 8 ==> (((r >> i) & 1) == 1) == (((v >> (i as u8)) & 1) == 1)) && (
        forall|i: u16| 8 <= i < 16 ==> ((r >> i) & 1) != 1)) by (bit_vector)
            requires
                r == v as u16,
        ;
        assert forall|i: nat| i < 8 implies #[trigger] r.bit(i) == (((v >> i) & 1) == 1) by {
            assert((v >> (i as u8)) == (v >> i));
        }
        r
    }

    fn low_byte(self) -> (r: u8) {
        let r = self as u8;
        assert(forall|i: u16| i < 8 ==> (((r >> (i as u8)) & 1) == 1) == (((self >> i) & 1) == 1))
            by (bit_vector)
            requires
                r == self as u8,
        ;
        assert forall|i: nat| i < 8 implies (((r >> i) & 1) == 1) == #[trigger] self.bit(i) by {
            assert((r >> (i as u8)) == (r >> i));
        }
        r
    }

    fn xor(self, o: u16) -> (r: u16) {
        let r = self ^ o;
        assert(forall|i: u16| i < 16 ==> (((r >> i) & 1) == 1) == ((((self >> i) & 1) == 1) != (((o >> i) & 1) == 1)))
            by (bit_vector)
            requires
                r == self ^ o,
        ;
        r
    }

    fn and(self, o: u16) -> (r: u16) {
        let r = self & o;
        assert(forall|i: u16| i < 16 ==> (((r >> i) & 1) == 1) == ((((self >> i) & 1) == 1) && (((o >> i) & 1) == 1)))
            by (bit_vector)
            requires
                r == self & o,
        ;
        r
    }

    fn shl(self, s: usize) -> (r: u16) {
        let t = s as u16;
        let r = self << t;
        assert(forall|i: u16| i < 16 ==> (((r >> i) & 1) == 1) == (i >= t && ((self >> ((i - t) as u16)) & 1) == 1))
            by (bit_vector)
            requires
                r == self << t,
                t < 16,
        ;
        assert forall|i: nat| #[trigger] r.bit(i) == (i < 16 && i >= s && self.bit((i - s) as nat)) by {
            if i < 16 && i >= s {
                assert(((i as u16) - t) as u16 == (i - s) as u16);
            }
        }
        r
    }

    fn shr(self, s: usize) -> (r: u16) {
        let t = s as u16;
        let r = self >> t;
        assert(forall|i: u16| i < 16 ==> (((r >> i) & 1) == 1) == (i + t < 16 && ((self >> ((i + t) as u16)) & 1) == 1))
            by (bit_vector)
            requires
                r == self >> t,
                t < 16,
        ;
        assert forall|i: nat| #[trigger] r.bit(i) == self.bit((i + s) as nat) by {
            if i < 16 {
                assert(((i as u16) + t) as u16 == (i + s) as u16);
            }
        }
        r
    }

    fn is_zero(self) -> (r: bool) {
        if self == 0 {
            proof {
                lemma_const_bits_16();
            }
            true
        } else {
            assert(!(forall|i: nat| !#[trigger] self.bit(i))) by {
                if forall|i: nat| !#[trigger] self.bit(i) {
                    lemma_const_bits_16();
                    Self::lemma_bits_ext(self, 0u16);
                }
            }
            false
        }
    }

    fn sample() -> u16 {
        rand::random::<u16>()
    }
}

/// The bits of zero and of the largest word, and the range of a bit.
proof fn lemma_const_bits_16()
    ensures
        forall|i: u16| i < 16 ==> (0u16 >> i) & 1 != 1,
        forall|i: u16| i < 16 ==> (u16::MAX >> i) & 1 == 1,
        forall|x: u16, j: u16| #[trigger] ((x >> j) & 1) <= 1,
{
    assert((forall|i: u16| i < 16 ==> (0u16 >> i) & 1 != 1) && (forall|i: u16| i < 16 ==> (u16::MAX >> i) & 1
        == 1) && (forall|x: u16, j: u16| ((x >> j) & 1) <= 1)) by (bit_vector);
}

/// Bits below `n` of `a` and `b` agree.
pub open spec fn agree_below_16(a: u16, b: u16, n: u16) -> bool
    decreases n,
{
    if n == 0 {
        true
    } else {
        ((a >> ((n - 1) as u16)) & 1) == ((b >> ((n - 1) as u16)) & 1) && agree_below_16(a, b, (n - 1) as u16)
    }
}

proof fn lemma_agree_below_16(a: u16, b: u16, n: u16)
    requires
        n <= 16,
        forall|i: nat| i < 16 ==> a.bit(i) == b.bit(i),
    ensures
        agree_below_16(a, b, n),
    decreases n,
{
    if n > 0 {
        let j = (n - 1) as u16;
        assert(a.bit(j as nat) == b.bit(j as nat));
        lemma_const_bits_16();
        assert(((a >> j) & 1) <= 1 && ((b >> j) & 1) <= 1);
        lemma_agree_below_16(a, b, j);
    }
}

impl Word for u32 {
    open spec fn nbits() -> nat {
        32
    }

    open spec fn bit(self, i: nat) -> bool {
        i < 32 && (self >> (i as u32)) & 1 == 1
    }

    proof fn lemma_bits_ext(a: u32, b: u32) {
        lemma_agree_below_32(a, b, 32);
        assert(agree_below_32(a, b, 32) ==> a == b) by (bit_vector);
    }

    proof fn lemma_bit_range(a: u32, i: nat) {
    }

    fn nbits_exec() -> (r: usize) {
        32
    }

    fn zero() -> (r: u32) {
        proof {
            lemma_const_bits_32();
        }
        0
    }

    fn ones() -> (r: u32) {
        proof {
            lemma_const_bits_32();
        }
        u32::MAX
    }

    fn from_byte(v: u8) -> (r: u32) {
        let r = v as u32;
        assert((forall|i: u32| i < 8 ==> (((r >> i) & 1) == 1) == (((v >> (i as u8)) & 1) == 1)) && (
        forall|i: u32| 8 <= i < 32 ==> ((r >> i) & 1) != 1)) by (bit_vector)
            requires
                r == v as u32,
        ;
        assert forall|i: nat| i < 8 implies #[trigger] r.bit(i) == (((v >> i) & 1) == 1) by {
            assert((v >> (i as u8)) == (v >> i));
        }
        r
    }

    fn low_byte(self) -> (r: u8) {
        let r = self as u8;
        assert(forall|i: u32| i < 8 ==> (((r >> (i as u8)) & 1) == 1) == (((self >> i) & 1) == 1))
            by (bit_vector)
            requires
                r == self as u8,
        ;
        assert forall|i: nat| i < 8 implies (((r >> i) & 1) == 1) == #[trigger] self.bit(i) by {
            assert((r >> (i as u8)) == (r >> i));
        }
        r
    }

    fn xor(self, o: u32) -> (r: u32) {
        let r = self ^ o;
        assert(forall|i: u32| i < 32 ==> (((r >> i) & 1) == 1) == ((((self >> i) & 1) == 1) != (((o >> i) & 1) == 1)))
            by (bit_vector)
            requires
                r == self ^ o,
        ;
        r
    }

    fn and(self, o: u32) -> (r: u32) {
        let r = self & o;
        assert(forall|i: u32| i < 32 ==> (((r >> i) & 1) == 1) == ((((self >> i) & 1) == 1) && (((o >> i) & 1) == 1)))
            by (bit_vector)
            requires
                r == self & o,
        ;
        r
    }

    fn shl(self, s: usize) -> (r: u32) {
        let t = s as u32;
        let r = self << t;
        assert(forall|i: u32| i < 32 ==> (((r >> i) & 1) == 1) == (i >= t && ((self >> ((i - t) as u32)) & 1) == 1))
            by (bit_vector)
            requires
                r == self << t,
                t < 32,
        ;
        assert forall|i: nat| #[trigger] r.bit(i) == (i < 32 && i >= s && self.bit((i - s) as nat)) by {
            if i < 32 && i >= s {
                assert(((i as u32) - t) as u32 == (i - s) as u32);
            }
        }
        r
    }

    fn shr(self, s: usize) -> (r: u32) {
        let t = s as u32;
        let r = self >> t;
        assert(forall|i: u32| i < 32 ==> (((r >> i) & 1) == 1) == (i + t < 32 && ((self >> ((i + t) as u32)) & 1) == 1))
            by (bit_vector)
            requires
                r == self >> t,
                t < 32,
        ;
        assert forall|i: nat| #[trigger] r.bit(i) == self.bit((i + s) as nat) by {
            if i < 32 {
                assert(((i as u32) + t) as u32 == (i + s) as u32);
            }
        }
        r
    }

    fn is_zero(self) -> (r: bool) {
        if self == 0 {
            proof {
                lemma_const_bits_32();
            }
            true
        } else {
            assert(!(forall|i: nat| !#[trigger] self.bit(i))) by {
                if forall|i: nat| !#[trigger] self.bit(i) {
                    lemma_const_bits_32();
                    Self::lemma_bits_ext(self, 0u32);
                }
            }
            false
        }
    }

    fn sample() -> u32 {
        rand::random::<u32>()
    }
}

/// The bits of zero and of the largest word, and the range of a bit.
proof fn lemma_const_bits_32()
    ensures
        forall|i: u32| i < 32 ==> (0u32 >> i) & 1 != 1,
        forall|i: u32| i < 32 ==> (u32::MAX >> i) & 1 == 1,
        forall|x: u32, j: u32| #[trigger] ((x >> j) & 1) <= 1,
{
    assert((forall|i: u32| i < 32 ==> (0u32 >> i) & 1 != 1) && (forall|i: u32| i < 32 ==> (u32::MAX >> i) & 1
        == 1) && (forall|x: u32, j: u32| ((x >> j) & 1) <= 1)) by (bit_vector);
}

/// Bits below `n` of `a` and `b` agree.
pub open spec fn agree_below_32(a: u32, b: u32, n: u32) -> bool
    decreases n,
{
    if n == 0 {
        true
    } else {
        ((a >> ((n - 1) as u32)) & 1) == ((b >> ((n - 1) as u32)) & 1) && agree_below_32(a, b, (n - 1) as u32)
    }
}

proof fn lemma_agree_below_32(a: u32, b: u32, n: u32)
    requires
        n <= 32,
        forall|i: nat| i < 32 ==> a.bit(i) == b.bit(i),
    ensures
        agree_below_32(a, b, n),
    decreases n,
{
    if n > 0 {
        let j = (n - 1) as u32;
        assert(a.bit(j as nat) == b.bit(j as nat));
        lemma_const_bits_32();
        assert(((a >> j) & 1) <= 1 && ((b >> j) & 1) <= 1);
        lemma_agree_below_32(a, b, j);
    }
}

impl Word for u64 {
    open spec fn nbits() -> nat {
        64
    }

    open spec fn bit(self, i: nat) -> bool {
        i < 64 && (self >> (i as u64)) & 1 == 1
    }

    proof fn lemma_bits_ext(a: u64, b: u64) {
        lemma_agree_below_64(a, b, 64);
        assert(agree_below_64(a, b, 64) ==> a == b) by (bit_vector);
    }

    proof fn lemma_bit_range(a: u64, i: nat) {
    }

    fn nbits_exec() -> (r: usize) {
        64
    }

    fn zero() -> (r: u64) {
        proof {
            lemma_const_bits_64();
        }
        0
    }

    fn ones() -> (r: u64) {
        proof {
            lemma_const_bits_64();
        }
        u64::MAX
    }

    fn from_byte(v: u8) -> (r: u64) {
        let r = v as u64;
        assert((forall|i: u64| i < 8 ==> (((r >> i) & 1) == 1) == (((v >> (i as u8)) & 1) == 1)) && (
        forall|i: u64| 8 <= i < 64 ==> ((r >> i) & 1) != 1)) by (bit_vector)
            requires
                r == v as u64,
        ;
        assert forall|i: nat| i < 8 implies #[trigger] r.bit(i) == (((v >> i) & 1) == 1) by {
            assert((v >> (i as u8)) == (v >> i));
        }
        r
    }

    fn low_byte(self) -> (r: u8) {
        let r = self as u8;
        assert(forall|i: u64| i < 8 ==> (((r >> (i as u8)) & 1) == 1) == (((self >> i) & 1) == 1))
            by (bit_vector)
            requires
                r == self as u8,
        ;
        assert forall|i: nat| i < 8 implies (((r >> i) & 1) == 1) == #[trigger] self.bit(i) by {
            assert((r >> (i as u8)) == (r >> i));
        }
        r
    }

    fn xor(self, o: u64) -> (r: u64) {
        let r = self ^ o;
        assert(forall|i: u64| i < 64 ==> (((r >> i) & 1) == 1) == ((((self >> i) & 1) == 1) != (((o >> i) & 1) == 1)))
            by (bit_vector)
            requires
                r == self ^ o,
        ;
        r
    }

    fn and(self, o: u64) -> (r: u64) {
        let r = self & o;
        assert(forall|i: u64| i < 64 ==> (((r >> i) & 1) == 1) == ((((self >> i) & 1) == 1) && (((o >> i) & 1) == 1)))
            by (bit_vector)
            requires
                r == self & o,
        ;
        r
    }

    fn shl(self, s: usize) -> (r: u64) {
        let t = s as u64;
        let r = self << t;
        assert(forall|i: u64| i < 64 ==> (((r >> i) & 1) == 1) == (i >= t && ((self >> ((i - t) as u64)) & 1) == 1))
            by (bit_vector)
            requires
                r == self << t,
                t < 64,
        ;
        assert forall|i: nat| #[trigger] r.bit(i) == (i < 64 && i >= s && self.bit((i - s) as nat)) by {
            if i < 64 && i >= s {
                assert(((i as u64) - t) as u64 == (i - s) as u64);
            }
        }
        r
    }

    fn shr(self, s: usize) -> (r: u64) {
        let t = s as u64;
        let r = self >> t;
        assert(forall|i: u64| i < 64 ==> (((r >> i) & 1) == 1) == (i + t < 64 && ((self >> ((i + t) as u64)) & 1) == 1))
            by (bit_vector)
            requires
                r == self >> t,
                t < 64,
        ;
        assert forall|i: nat| #[trigger] r.bit(i) == self.bit((i + s) as nat) by {
            if i < 64 {
                assert(((i as u64) + t) as u64 == (i + s) as u64);
            }
        }
        r
    }

    fn is_zero(self) -> (r: bool) {
        if self == 0 {
            proof {
                lemma_const_bits_64();
            }
            true
        } else {
            assert(!(forall|i: nat| !#[trigger] self.bit(i))) by {
                if forall|i: nat| !#[trigger] self.bit(i) {
                    lemma_const_bits_64();
                    Self::lemma_bits_ext(self, 0u64);
                }
            }
            false
        }
    }

    fn sample() -> u64 {
        rand::random::<u64>()
    }
}

/// The bits of zero and of the largest word, and the range of a bit.
proof fn lemma_const_bits_64()
    ensures
        forall|i: u64| i < 64 ==> (0u64 >> i) & 1 != 1,
        forall|i: u64| i < 64 ==> (u64::MAX >> i) & 1 == 1,
        forall|x: u64, j: u64| #[trigger] ((x >> j) & 1) <= 1,
{
    assert((forall|i: u64| i < 64 ==> (0u64 >> i) & 1 != 1) && (forall|i: u64| i < 64 ==> (u64::MAX >> i) & 1
        == 1) && (forall|x: u64, j: u64| ((x >> j) & 1) <= 1)) by (bit_vector);
}

/// Bits below `n` of `a` and `b` agree.
pub open spec fn agree_below_64(a: u64, b: u64, n: u64) -> bool
    decreases n,
{
    if n == 0 {
        true
    } else {
        ((a >> ((n - 1) as u64)) & 1) == ((b >> ((n - 1) as u64)) & 1) && agree_below_64(a, b, (n - 1) as u64)
    }
}

proof fn lemma_agree_below_64(a: u64, b: u64, n: u64)
    requires
        n <= 64,
        forall|i: nat| i < 64 ==> a.bit(i) == b.bit(i),
    ensures
        agree_below_64(a, b, n),
    decreases n,
{
    if n > 0 {
        let j = (n - 1) as u64;
        assert(a.bit(j as nat) == b.bit(j as nat));
        lemma_const_bits_64();
        assert(((a >> j) & 1) <= 1 && ((b >> j) & 1) <= 1);
        lemma_agree_below_64(a, b, j);
    }
}

impl Word for u128 {
    open spec fn nbits() -> nat {
        128
    }

    open spec fn bit(self, i: nat) -> bool {
        i < 128 && (self >> (i as u128)) & 1 == 1
    }

    proof fn lemma_bits_ext(a: u128, b: u128) {
        lemma_agree_below_128(a, b, 128);
        assert(agree_below_128(a, b, 128) ==> a == b) by (bit_vector);
    }

    proof fn lemma_bit_range(a: u128, i: nat) {
    }

    fn nbits_exec() -> (r: usize) {
        128
    }

    fn zero() -> (r: u128) {
        proof {
            lemma_const_bits_128();
        }
        0
    }

    fn ones() -> (r: u128) {
        proof {
            lemma_const_bits_128();
        }
        u128::MAX
    }

    fn from_byte(v: u8) -> (r: u128) {
        let r = v as u128;
        assert((forall|i: u128| i < 8 ==> (((r >> i) & 1) == 1) == (((v >> (i as u8)) & 1) == 1)) && (
        forall|i: u128| 8 <= i < 128 ==> ((r >> i) & 1) != 1)) by (bit_vector)
            requires
                r == v as u128,
        ;
        assert forall|i: nat| i < 8 implies #[trigger] r.bit(i) == (((v >> i) & 1) == 1) by {
            assert((v >> (i as u8)) == (v >> i));
        }
        r
    }

    fn low_byte(self) -> (r: u8) {
        let r = self as u8;
        assert(forall|i: u128| i < 8 ==> (((r >> (i as u8)) & 1) == 1) == (((self >> i) & 1) == 1))
            by (bit_vector)
            requires
                r == self as u8,
        ;
        assert forall|i: nat| i < 8 implies (((r >> i) & 1) == 1) == #[trigger] self.bit(i) by {
            assert((r >> (i as u8)) == (r >> i));
        }
        r
    }

    fn xor(self, o: u128) -> (r: u128) {
        let r = self ^ o;
        assert(forall|i: u128| i < 128 ==> (((r >> i) & 1) == 1) == ((((self >> i) & 1) == 1) != (((o >> i) & 1) == 1)))
            by (bit_vector)
            requires
                r == self ^ o,
        ;
        r
    }

    fn and(self, o: u128) -> (r: u128) {
        let r = self & o;
        assert(forall|i: u128| i < 128 ==> (((r >> i) & 1) == 1) == ((((self >> i) & 1) == 1) && (((o >> i) & 1) == 1)))
            by (bit_vector)
            requires
                r == self & o,
        ;
        r
    }

    fn shl(self, s: usize) -> (r: u128) {
        let t = s as u128;
        let r = self << t;
        assert(forall|i: u128| i < 128 ==> (((r >> i) & 1) == 1) == (i >= t && ((self >> ((i - t) as u128)) & 1) == 1))
            by (bit_vector)
            requires
                r == self << t,
                t < 128,
        ;
        assert forall|i: nat| #[trigger] r.bit(i) == (i < 128 && i >= s && self.bit((i - s) as nat)) by {
            if i < 128 && i >= s {
                assert(((i as u128) - t) as u128 == (i - s) as u128);
            }
        }
        r
    }

    fn shr(self, s: usize) -> (r: u128) {
        let t = s as u128;
        let r = self >> t;
        assert(forall|i: u128| i < 128 ==> (((r >> i) & 1) == 1) == (i + t < 128 && ((self >> ((i + t) as u128)) & 1) == 1))
            by (bit_vector)
            requires
                r == self >> t,
                t < 128,
        ;
        assert forall|i: nat| #[trigger] r.bit(i) == self.bit((i + s) as nat) by {
            if i < 128 {
                assert(((i as u128) + t) as u128 == (i + s) as u128);
            }
        }
        r
    }

    fn is_zero(self) -> (r: bool) {
        if self == 0 {
            proof {
                lemma_const_bits_128();
            }
            true
        } else {
            assert(!(forall|i: nat| !#[trigger] self.bit(i))) by {
                if forall|i: nat| !#[trigger] self.bit(i) {
                    lemma_const_bits_128();
                    Self::lemma_bits_ext(self, 0u128);
                }
            }
            false
        }
    }

    fn sample() -> u128 {
        rand::random::<u128>()
    }
}

/// The bits of zero and of the largest word, and the range of a bit.
proof fn lemma_const_bits_128()
    ensures
        forall|i: u128| i < 128 ==> (0u128 >> i) & 1 != 1,
        forall|i: u128| i < 128 ==> (u128::MAX >> i) & 1 == 1,
        forall|x: u128, j: u128| #[trigger] ((x >> j) & 1) <= 1,
{
    assert((forall|i: u128| i < 128 ==> (0u128 >> i) & 1 != 1) && (forall|i: u128| i < 128 ==> (u128::MAX >> i) & 1
        == 1) && (forall|x: u128, j: u128| ((x >> j) & 1) <= 1)) by (bit_vector);
}

/// Bits below `n` of `a` and `b` agree.
pub open spec fn agree_below_128(a: u128, b: u128, n: u128) -> bool
    decreases n,
{
    if n == 0 {
        true
    } else {
        ((a >> ((n - 1) as u128)) & 1) == ((b >> ((n - 1) as u128)) & 1) && agree_below_128(a, b, (n - 1) as u128)
    }
}

proof fn lemma_agree_below_128(a: u128, b: u128, n: u128)
    requires
        n <= 128,
        forall|i: nat| i < 128 ==> a.bit(i) == b.bit(i),
    ensures
        agree_below_128(a, b, n),
    decreases n,
{
    if n > 0 {
        let j = (n - 1) as u128;
        assert(a.bit(j as nat) == b.bit(j as nat));
        lemma_const_bits_128();
        assert(((a >> j) & 1) <= 1 && ((b >> j) & 1) <= 1);
        lemma_agree_below_128(a, b, j);
    }
}

} // verus!
