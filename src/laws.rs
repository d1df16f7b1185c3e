//! Algebraic laws of the field operations, proved over the model.

use crate::gf2n::GF2n;
use crate::model::Modulus;
use crate::reduction::{lemma_times_x_pow_add, lemma_times_x_pow_comp, lemma_times_x_pow_elem};
use crate::word::Word;
use vstd::arithmetic::power2::{lemma_pow2_pos, lemma_pow2_unfold, pow2};
use vstd::prelude::*;

verus! {

/// Adding the zero polynomial changes nothing.
pub(crate) proof fn lemma_add_zero(m: Modulus, p: Seq<bool>)
    requires
        m.elem(p),
    ensures
        m.add(p, m.zero()) == p,
        m.add(m.zero(), p) == p,
{
    assert(m.add(p, m.zero()) =~= p);
    assert(m.add(m.zero(), p) =~= p);
}

/// Multiplying by x keeps the zero polynomial.
proof fn lemma_times_x_pow_zero(m: Modulus, j: nat)
    requires
        m.wf(),
    ensures
        m.times_x_pow(m.zero(), j) == m.zero(),
    decreases j,
{
    if j > 0 {
        lemma_times_x_pow_zero(m, (j - 1) as nat);
        assert(m.times_x(m.zero()) =~= m.zero());
    }
}

/// x^k 1 is the monomial x^k for k < n.
pub proof fn lemma_times_x_pow_one(m: Modulus, k: nat)
    requires
        m.wf(),
        k < m.n,
    ensures
        m.times_x_pow(m.one(), k) == m.monomial(k),
    decreases k,
{
    if k == 0 {
        assert(m.one() =~= m.monomial(0));
    } else {
        lemma_times_x_pow_one(m, (k - 1) as nat);
        assert(m.times_x(m.monomial((k - 1) as nat)) =~= m.monomial(k));
    }
}

/// The partial products of p by zero are zero.
pub(crate) proof fn lemma_mul_upto_by_zero(m: Modulus, p: Seq<bool>, j: nat)
    requires
        m.wf(),
        j <= m.n,
    ensures
        m.mul_upto(p, m.zero(), j) == m.zero(),
    decreases j,
{
    if j > 0 {
        lemma_mul_upto_by_zero(m, p, (j - 1) as nat);
    }
}

/// The partial products of zero are zero.
pub(crate) proof fn lemma_mul_upto_of_zero(m: Modulus, q: Seq<bool>, j: nat)
    requires
        m.wf(),
    ensures
        m.mul_upto(m.zero(), q, j) == m.zero(),
    decreases j,
{
    if j > 0 {
        lemma_mul_upto_of_zero(m, q, (j - 1) as nat);
        lemma_times_x_pow_zero(m, (j - 1) as nat);
        lemma_add_zero(m, m.zero());
    }
}

/// The partial products of p by one are p once the constant term is in.
pub(crate) proof fn lemma_mul_upto_by_one(m: Modulus, p: Seq<bool>, j: nat)
    requires
        m.wf(),
        m.elem(p),
        1 <= j <= m.n,
    ensures
        m.mul_upto(p, m.one(), j) == p,
    decreases j,
{
    if j == 1 {
        lemma_add_zero(m, p);
        assert(m.one()[0]);
        assert(m.times_x_pow(p, 0) == p);
        assert(m.mul_upto(p, m.one(), 0) == m.zero());
    } else {
        lemma_mul_upto_by_one(m, p, (j - 1) as nat);
        assert(!m.one()[j - 1]);
    }
}

/// The partial products of one by q are the low coefficients of q.
pub(crate) proof fn lemma_mul_upto_of_one(m: Modulus, q: Seq<bool>, j: nat)
    requires
        m.wf(),
        m.elem(q),
        j <= m.n,
    ensures
        m.mul_upto(m.one(), q, j) == Seq::new(m.n, |i: int| i < j && q[i]),
    decreases j,
{
    if j == 0 {
        assert(m.zero() =~= Seq::new(m.n, |i: int| i < j && q[i]));
    } else {
        lemma_mul_upto_of_one(m, q, (j - 1) as nat);
        lemma_times_x_pow_one(m, (j - 1) as nat);
        assert(m.mul_upto(m.one(), q, j) =~= Seq::new(m.n, |i: int| i < j && q[i]));
    }
}

/// The partial products distribute over a sum in the second factor.
pub(crate) proof fn lemma_mul_upto_distributes(m: Modulus, x: Seq<bool>, y: Seq<bool>, z: Seq<bool>, j: nat)
    requires
        m.wf(),
        m.elem(x),
        m.elem(y),
        m.elem(z),
        j <= m.n,
    ensures
        m.mul_upto(x, m.add(y, z), j) == m.add(m.mul_upto(x, y, j), m.mul_upto(x, z, j)),
    decreases j,
{
    if j == 0 {
        assert(m.zero() =~= m.add(m.zero(), m.zero()));
    } else {
        lemma_mul_upto_distributes(m, x, y, z, (j - 1) as nat);
        assert(m.mul_upto(x, m.add(y, z), j) =~= m.add(m.mul_upto(x, y, j), m.mul_upto(x, z, j)));
    }
}

/// Addition makes the field an abelian group in which every element is its
/// own opposite: (x + y) + z = x + (y + z), x + y = y + x, x + 0 = x, x - x = 0.
pub proof fn lemma_add_group<W: Word, const N: usize, const A: usize, const B: usize, const C: usize>(
    x: GF2n<W, N, A, B, C>,
    y: GF2n<W, N, A, B, C>,
    z: GF2n<W, N, A, B, C>,
)
    requires
        GF2n::<W, N, A, B, C>::valid(),
    ensures
        ({
            let m = GF2n::<W, N, A, B, C>::modulus();
            &&& m.add(m.add(x@, y@), z@) == m.add(x@, m.add(y@, z@))
            &&& m.add(x@, y@) == m.add(y@, x@)
            &&& m.add(x@, m.zero()) == x@
            &&& m.add(x@, x@) == m.zero()
        }),
{
    let m = GF2n::<W, N, A, B, C>::modulus();
    x.lemma_view_len();
    assert(m.add(m.add(x@, y@), z@) =~= m.add(x@, m.add(y@, z@)));
    assert(m.add(x@, y@) =~= m.add(y@, x@));
    assert(m.add(x@, m.zero()) =~= x@);
    assert(m.add(x@, x@) =~= m.zero());
}

/// One is the unit of multiplication and zero annihilates:
/// 1 x = x 1 = x and 0 x = x 0 = 0.
pub proof fn lemma_mul_unit_zero<W: Word, const N: usize, const A: usize, const B: usize, const C: usize>(
    x: GF2n<W, N, A, B, C>,
)
    requires
        GF2n::<W, N, A, B, C>::valid(),
    ensures
        ({
            let m = GF2n::<W, N, A, B, C>::modulus();
            &&& m.mul(m.one(), x@) == x@
            &&& m.mul(x@, m.one()) == x@
            &&& m.mul(m.zero(), x@) == m.zero()
            &&& m.mul(x@, m.zero()) == m.zero()
        }),
{
    let m = GF2n::<W, N, A, B, C>::modulus();
    x.lemma_view_len();
    GF2n::<W, N, A, B, C>::lemma_modulus_wf();
    lemma_mul_upto_of_one(m, x@, m.n);
    assert(Seq::new(m.n, |i: int| i < m.n && x@[i]) =~= x@);
    lemma_mul_upto_by_one(m, x@, m.n);
    lemma_mul_upto_of_zero(m, x@, m.n);
    lemma_mul_upto_by_zero(m, x@, m.n);
}

/// Multiplication distributes over addition: x (y + z) = x y + x z.
pub proof fn lemma_mul_distributes<W: Word, const N: usize, const A: usize, const B: usize, const C: usize>(
    x: GF2n<W, N, A, B, C>,
    y: GF2n<W, N, A, B, C>,
    z: GF2n<W, N, A, B, C>,
)
    requires
        GF2n::<W, N, A, B, C>::valid(),
    ensures
        ({
            let m = GF2n::<W, N, A, B, C>::modulus();
            m.mul(x@, m.add(y@, z@)) == m.add(m.mul(x@, y@), m.mul(x@, z@))
        }),
{
    let m = GF2n::<W, N, A, B, C>::modulus();
    x.lemma_view_len();
    y.lemma_view_len();
    z.lemma_view_len();
    GF2n::<W, N, A, B, C>::lemma_modulus_wf();
    lemma_mul_upto_distributes(m, x@, y@, z@, m.n);
}

/// The byte difference is the field difference: from_diff(u, v) =
/// from_byte(u) - from_byte(v), for every pair of bytes.
pub proof fn lemma_from_diff<W: Word, const N: usize, const A: usize, const B: usize, const C: usize>(u: u8, v: u8)
    requires
        GF2n::<W, N, A, B, C>::valid(),
    ensures
        ({
            let m = GF2n::<W, N, A, B, C>::modulus();
            m.add(m.from_byte(u), m.from_byte(v)) == m.from_byte(u ^ v)
        }),
{
    let m = GF2n::<W, N, A, B, C>::modulus();
    assert forall|k: int| 0 <= k < m.n implies #[trigger] m.add(m.from_byte(u), m.from_byte(v))[k]
        == m.from_byte(u ^ v)[k] by {
        if k < 8 {
            let j = k as u8;
            assert(j < 8 ==> ((((u ^ v) >> j) & 1 == 1) == ((((u >> j) & 1) == 1) != (((v >> j) & 1)
                == 1)))) by (bit_vector);
        }
    }
    assert(m.add(m.from_byte(u), m.from_byte(v)) =~= m.from_byte(u ^ v));
}

/// The partial products of p by the monomial x^k.
proof fn lemma_mul_upto_monomial(m: Modulus, p: Seq<bool>, k: nat, j: nat)
    requires
        m.wf(),
        m.elem(p),
        k < m.n,
        j <= m.n,
    ensures
        m.mul_upto(p, m.monomial(k), j) == if j <= k {
            m.zero()
        } else {
            m.times_x_pow(p, k)
        },
    decreases j,
{
    if j > 0 {
        lemma_mul_upto_monomial(m, p, k, (j - 1) as nat);
        if j - 1 == k {
            lemma_times_x_pow_elem(m, p, k);
            lemma_add_zero(m, m.times_x_pow(p, k));
        }
    }
}

/// The shifts by one word, applied j times.
pub open spec fn repeat_word_shift(m: Modulus, p: Seq<bool>, wb: nat, j: nat) -> Seq<bool>
    decreases j,
{
    if j == 0 {
        p
    } else {
        m.times_x_pow(repeat_word_shift(m, p, wb, (j - 1) as nat), wb)
    }
}

/// The shifts agree: multiplying by x once is a one-bit word shift, a shift
/// by wbits - 1 bits followed by one more bit is a word shift, and j word
/// shifts multiply by x^(j wbits) reduced, which is the monomial x^(j wbits)
/// while j wbits < n.
pub proof fn lemma_shift_consistency<W: Word, const N: usize, const A: usize, const B: usize, const C: usize>(
    x: GF2n<W, N, A, B, C>,
    j: nat,
)
    requires
        GF2n::<W, N, A, B, C>::valid(),
    ensures
        ({
            let m = GF2n::<W, N, A, B, C>::modulus();
            let wb = W::nbits();
            &&& m.times_x(x@) == m.times_x_pow(x@, 1)
            &&& m.times_x_pow(m.times_x_pow(x@, (wb - 1) as nat), 1) == m.times_x_pow(x@, wb)
            &&& repeat_word_shift(m, x@, wb, j) == m.mul(x@, m.xpow(j * wb))
            &&& j * wb < m.n ==> repeat_word_shift(m, x@, wb, j) == m.mul(x@, m.monomial(j * wb))
        }),
{
    let m = GF2n::<W, N, A, B, C>::modulus();
    let wb = W::nbits();
    x.lemma_view_len();
    GF2n::<W, N, A, B, C>::lemma_modulus_wf();
    lemma_times_x_pow_comp(m, x@, (wb - 1) as nat, 1);
    assert(m.times_x_pow(x@, 0) == x@);
    assert(m.times_x_pow(x@, 1) == m.times_x(m.times_x_pow(x@, 0)));
    assert((wb - 1) as nat + 1 == wb);
    lemma_repeat_word_shift(m, x@, wb, j);
    if j * wb < m.n {
        lemma_mul_upto_monomial(m, x@, j * wb, m.n);
    }
    lemma_times_x_pow_elem(m, m.one(), j * wb);
    lemma_mul_comm(m, x@, m.xpow(j * wb));
    lemma_mul_times_x_pow(m, m.one(), x@, j * wb);
    lemma_mul_upto_of_one(m, x@, m.n);
    assert(Seq::new(m.n, |i: int| i < m.n && x@[i]) =~= x@);
}

proof fn lemma_repeat_word_shift(m: Modulus, p: Seq<bool>, wb: nat, j: nat)
    ensures
        repeat_word_shift(m, p, wb, j) == m.times_x_pow(p, j * wb),
    decreases j,
{
    if j > 0 {
        lemma_repeat_word_shift(m, p, wb, (j - 1) as nat);
        lemma_times_x_pow_comp(m, p, ((j - 1) * wb) as nat, wb);
        assert(((j - 1) * wb) as nat + wb == j * wb) by (nonlinear_arith)
            requires
                j > 0,
        ;
    } else {
        assert(j * wb == 0) by (nonlinear_arith)
            requires
                j == 0,
        ;
    }
}

/// Partial products have n coefficients.
pub(crate) proof fn lemma_mul_upto_elem(m: Modulus, p: Seq<bool>, q: Seq<bool>, j: nat)
    ensures
        m.elem(m.mul_upto(p, q, j)),
    decreases j,
{
    if j > 0 {
        lemma_mul_upto_elem(m, p, q, (j - 1) as nat);
    }
}

/// Partial products are additive in the first factor.
proof fn lemma_mul_upto_add_left(m: Modulus, p1: Seq<bool>, p2: Seq<bool>, q: Seq<bool>, j: nat)
    requires
        m.wf(),
        m.elem(p1),
        m.elem(p2),
    ensures
        m.mul_upto(m.add(p1, p2), q, j) == m.add(m.mul_upto(p1, q, j), m.mul_upto(p2, q, j)),
    decreases j,
{
    if j == 0 {
        assert(m.zero() =~= m.add(m.zero(), m.zero()));
    } else {
        let j1 = (j - 1) as nat;
        lemma_mul_upto_add_left(m, p1, p2, q, j1);
        lemma_times_x_pow_add(m, p1, p2, j1);
        assert(m.mul_upto(m.add(p1, p2), q, j) =~= m.add(m.mul_upto(p1, q, j), m.mul_upto(p2, q, j)));
    }
}

/// Partial products commute with multiplication of the first factor by x.
proof fn lemma_mul_upto_times_x(m: Modulus, p: Seq<bool>, q: Seq<bool>, j: nat)
    requires
        m.wf(),
        m.elem(p),
    ensures
        m.mul_upto(m.times_x(p), q, j) == m.times_x(m.mul_upto(p, q, j)),
    decreases j,
{
    if j == 0 {
        assert(m.times_x(m.zero()) =~= m.zero());
    } else {
        let j1 = (j - 1) as nat;
        lemma_mul_upto_times_x(m, p, q, j1);
        lemma_times_x_pow_comp(m, p, 1, j1);
        assert(m.times_x_pow(p, 1) == m.times_x(m.times_x_pow(p, 0)));
        assert(1 + j1 == j);
        lemma_mul_upto_elem(m, p, q, j1);
        lemma_times_x_pow_elem(m, p, j1);
        let a = m.mul_upto(p, q, j1);
        let b = m.times_x_pow(p, j1);
        assert(m.times_x(m.add(a, b)) =~= m.add(m.times_x(a), m.times_x(b)));
    }
}

/// Products commute with multiplication of the first factor by x^i.
proof fn lemma_mul_times_x_pow(m: Modulus, p: Seq<bool>, q: Seq<bool>, i: nat)
    requires
        m.wf(),
        m.elem(p),
    ensures
        m.mul(m.times_x_pow(p, i), q) == m.times_x_pow(m.mul(p, q), i),
    decreases i,
{
    if i > 0 {
        let i1 = (i - 1) as nat;
        lemma_mul_times_x_pow(m, p, q, i1);
        lemma_times_x_pow_elem(m, p, i1);
        lemma_mul_upto_times_x(m, m.times_x_pow(p, i1), q, m.n);
    }
}

/// Multiplication is commutative on elements.
pub(crate) proof fn lemma_mul_comm(m: Modulus, p: Seq<bool>, q: Seq<bool>)
    requires
        m.wf(),
        m.elem(p),
        m.elem(q),
    ensures
        m.mul(p, q) == m.mul(q, p),
{
    lemma_mul_comm_upto(m, p, q, m.n);
    assert(Seq::new(m.n, |k: int| k < m.n && q[k]) =~= q);
}

/// The partial product of p by q is q's low j coefficients times p.
proof fn lemma_mul_comm_upto(m: Modulus, p: Seq<bool>, q: Seq<bool>, j: nat)
    requires
        m.wf(),
        m.elem(p),
        m.elem(q),
        j <= m.n,
    ensures
        m.mul_upto(p, q, j) == m.mul(Seq::new(m.n, |k: int| k < j && q[k]), p),
    decreases j,
{
    let low = Seq::new(m.n, |k: int| k < j && q[k]);
    if j == 0 {
        assert(low =~= m.zero());
        lemma_mul_upto_of_zero(m, p, m.n);
    } else {
        let j1 = (j - 1) as nat;
        let low1 = Seq::new(m.n, |k: int| k < j1 && q[k]);
        lemma_mul_comm_upto(m, p, q, j1);
        if q[j1 as int] {
            let e = m.monomial(j1);
            assert(low =~= m.add(low1, e));
            lemma_mul_upto_add_left(m, low1, e, p, m.n);
            lemma_times_x_pow_one(m, j1);
            lemma_mul_times_x_pow(m, m.one(), p, j1);
            lemma_mul_upto_of_one(m, p, m.n);
            assert(Seq::new(m.n, |i: int| i < m.n && p[i]) =~= p);
        } else {
            assert(low =~= low1);
        }
    }
}

/// The product of x by partial products of y and z.
proof fn lemma_mul_assoc_upto(m: Modulus, x: Seq<bool>, y: Seq<bool>, z: Seq<bool>, j: nat)
    requires
        m.wf(),
        m.elem(x),
        m.elem(y),
        m.elem(z),
        j <= m.n,
    ensures
        m.mul(x, m.mul_upto(y, z, j)) == m.mul_upto(m.mul(x, y), z, j),
    decreases j,
{
    if j == 0 {
        lemma_mul_upto_by_zero(m, x, m.n);
    } else {
        let j1 = (j - 1) as nat;
        lemma_mul_assoc_upto(m, x, y, z, j1);
        if z[j1 as int] {
            let a = m.mul_upto(y, z, j1);
            let b = m.times_x_pow(y, j1);
            lemma_mul_upto_elem(m, y, z, j1);
            lemma_times_x_pow_elem(m, y, j1);
            lemma_mul_upto_distributes(m, x, a, b, m.n);
            lemma_mul_comm(m, x, b);
            lemma_mul_times_x_pow(m, y, x, j1);
            lemma_mul_upto_elem(m, x, y, m.n);
            lemma_mul_comm(m, y, x);
        }
    }
}

/// Multiplication is commutative and associative: x y = y x and
/// (x y) z = x (y z).
pub proof fn lemma_mul_comm_assoc<W: Word, const N: usize, const A: usize, const B: usize, const C: usize>(
    x: GF2n<W, N, A, B, C>,
    y: GF2n<W, N, A, B, C>,
    z: GF2n<W, N, A, B, C>,
)
    requires
        GF2n::<W, N, A, B, C>::valid(),
    ensures
        ({
            let m = GF2n::<W, N, A, B, C>::modulus();
            &&& m.mul(x@, y@) == m.mul(y@, x@)
            &&& m.mul(m.mul(x@, y@), z@) == m.mul(x@, m.mul(y@, z@))
        }),
{
    let m = GF2n::<W, N, A, B, C>::modulus();
    x.lemma_view_len();
    y.lemma_view_len();
    z.lemma_view_len();
    GF2n::<W, N, A, B, C>::lemma_modulus_wf();
    lemma_mul_comm(m, x@, y@);
    lemma_mul_assoc_upto(m, x@, y@, z@, m.n);
}

/// Multiplication is associative on elements.
pub(crate) proof fn lemma_mul_assoc(m: Modulus, x: Seq<bool>, y: Seq<bool>, z: Seq<bool>)
    requires
        m.wf(),
        m.elem(x),
        m.elem(y),
        m.elem(z),
    ensures
        m.mul(m.mul(x, y), z) == m.mul(x, m.mul(y, z)),
{
    lemma_mul_assoc_upto(m, x, y, z, m.n);
}

/// Powers are elements.
pub(crate) proof fn lemma_pow_elem(m: Modulus, p: Seq<bool>, e: nat)
    ensures
        m.elem(m.pow(p, e)),
{
    if e > 0 {
        lemma_mul_upto_elem(m, m.pow(p, (e - 1) as nat), p, m.n);
    }
}

/// The Fermat inverse is an element.
pub(crate) proof fn lemma_inv_elem(m: Modulus, p: Seq<bool>)
    ensures
        m.elem(m.inv(p)),
{
    lemma_pow_elem(m, p, (pow2(m.n) - 2) as nat);
}

/// p^(a+b) = p^a p^b.
proof fn lemma_pow_add(m: Modulus, p: Seq<bool>, a: nat, b: nat)
    requires
        m.wf(),
        m.elem(p),
    ensures
        m.pow(p, a + b) == m.mul(m.pow(p, a), m.pow(p, b)),
    decreases b,
{
    lemma_pow_elem(m, p, a);
    if b == 0 {
        lemma_mul_upto_by_one(m, m.pow(p, a), m.n);
        assert(a + b == a);
    } else {
        lemma_pow_add(m, p, a, (b - 1) as nat);
        lemma_pow_elem(m, p, (b - 1) as nat);
        lemma_mul_assoc(m, m.pow(p, a), m.pow(p, (b - 1) as nat), p);
        assert((a + b - 1) as nat == a + (b - 1) as nat);
    }
}

/// j squarings raise p to the power 2^j.
proof fn lemma_square_pow(m: Modulus, p: Seq<bool>, j: nat)
    requires
        m.wf(),
        m.elem(p),
    ensures
        m.square_pow(p, j) == m.pow(p, pow2(j)),
    decreases j,
{
    if j == 0 {
        assert(pow2(0) == 1) by {
            vstd::arithmetic::power2::lemma2_to64();
        }
        assert(m.pow(p, 0) == m.one());
        lemma_mul_upto_of_one(m, p, m.n);
        assert(Seq::new(m.n, |i: int| i < m.n && p[i]) =~= p);
    } else {
        lemma_square_pow(m, p, (j - 1) as nat);
        lemma_pow2_unfold(j);
        lemma_pow_add(m, p, pow2((j - 1) as nat), pow2((j - 1) as nat));
    }
}

/// The Fermat chain p^(2^1) ... p^(2^j) is p^(2^(j+1) - 2).
pub proof fn lemma_fermat_chain(m: Modulus, p: Seq<bool>, j: nat)
    requires
        m.wf(),
        m.elem(p),
    ensures
        m.fermat_chain(p, j) == m.pow(p, (pow2(j + 1) - 2) as nat),
    decreases j,
{
    lemma_pow2_unfold(j + 1);
    lemma_pow2_pos(j);
    if j == 0 {
        assert(pow2(0) == 1) by {
            vstd::arithmetic::power2::lemma2_to64();
        }
        assert(m.pow(p, 0) == m.one());
    } else {
        lemma_fermat_chain(m, p, (j - 1) as nat);
        lemma_square_pow(m, p, j);
        lemma_pow2_unfold(j);
        lemma_pow_add(m, p, (pow2(j) - 2) as nat, pow2(j));
        assert((pow2(j) - 2) as nat + pow2(j) == (pow2(j + 1) - 2) as nat);
    }
}

/// In a field, a product of non-zero elements is non-zero.
pub(crate) proof fn lemma_mul_nonzero(m: Modulus, a: Seq<bool>, b: Seq<bool>)
    requires
        m.wf(),
        m.has_inverses(),
        m.elem(a),
        m.elem(b),
        a != m.zero(),
        b != m.zero(),
    ensures
        m.mul(a, b) != m.zero(),
{
    if m.mul(a, b) == m.zero() {
        let ia = m.inv(a);
        lemma_inv_elem(m, a);
        assert(m.mul(a, ia) == m.one());
        lemma_mul_comm(m, a, ia);
        lemma_mul_assoc(m, ia, a, b);
        lemma_mul_upto_by_zero(m, ia, m.n);
        lemma_mul_upto_of_one(m, b, m.n);
        assert(Seq::new(m.n, |i: int| i < m.n && b[i]) =~= b);
    }
}

/// Lagrange products are elements.
pub(crate) proof fn lemma_lagrange_prod_elem(m: Modulus, xs: Seq<Seq<bool>>, x: Seq<bool>, i: int, l: nat)
    ensures
        m.elem(m.lagrange_prod(xs, x, i, l)),
    decreases l,
{
    if l > 0 {
        lemma_lagrange_prod_elem(m, xs, x, i, (l - 1) as nat);
        lemma_mul_upto_elem(m, m.lagrange_prod(xs, x, i, (l - 1) as nat), m.add(xs[l - 1], x), m.n);
    }
}

/// The numerator of term i vanishes at a node j != i taken into it.
proof fn lemma_lagrange_prod_vanishes(m: Modulus, xs: Seq<Seq<bool>>, i: int, j: int, l: nat)
    requires
        m.wf(),
        0 <= j < l,
        i != j,
        j < xs.len(),
        m.elem(xs[j]),
    ensures
        m.lagrange_prod(xs, xs[j], i, l) == m.zero(),
    decreases l,
{
    let l1 = (l - 1) as nat;
    if l1 == j {
        assert(m.add(xs[j], xs[j]) =~= m.zero());
        lemma_mul_upto_by_zero(m, m.lagrange_prod(xs, xs[j], i, l1), m.n);
    } else {
        lemma_lagrange_prod_vanishes(m, xs, i, j, l1);
        if l1 != i {
            lemma_mul_upto_of_zero(m, m.add(xs[l1 as int], xs[j]), m.n);
        }
    }
}

/// The denominator of term j is non-zero when the nodes are distinct.
proof fn lemma_lagrange_prod_nonzero(m: Modulus, xs: Seq<Seq<bool>>, j: int, l: nat)
    requires
        m.wf(),
        m.has_inverses(),
        l <= xs.len(),
        0 <= j < xs.len(),
        forall|i: int| 0 <= i < xs.len() ==> #[trigger] m.elem(xs[i]),
        forall|i1: int, i2: int| 0 <= i1 < i2 < xs.len() ==> xs[i1] != xs[i2],
    ensures
        m.lagrange_prod(xs, xs[j], j, l) != m.zero(),
    decreases l,
{
    if l == 0 {
        assert(m.one()[0]);
    } else {
        let l1 = (l - 1) as nat;
        lemma_lagrange_prod_nonzero(m, xs, j, l1);
        if l1 != j {
            let f = m.add(xs[l1 as int], xs[j]);
            assert(m.elem(xs[l1 as int]));
            assert(m.elem(xs[j]));
            if f == m.zero() {
                assert(xs[l1 as int] =~= xs[j]) by {
                    assert forall|k: int| 0 <= k < m.n implies xs[l1 as int][k] == xs[j][k] by {
                        assert(f[k] == false);
                    }
                }
            }
            lemma_lagrange_prod_elem(m, xs, xs[j], j, l1);
            lemma_mul_nonzero(m, m.lagrange_prod(xs, xs[j], j, l1), f);
        }
    }
}

/// Interpolation through k distinct nodes, evaluated at one of them, gives
/// the value there back, in a field: the Lagrange terms of the other nodes
/// vanish and the term of the node itself is its value.
pub proof fn lemma_interpolate_at_node(m: Modulus, xs: Seq<Seq<bool>>, ys: Seq<Seq<bool>>, k: nat, j: int)
    requires
        m.wf(),
        m.has_inverses(),
        k <= xs.len(),
        k <= ys.len(),
        0 <= j < k,
        forall|i: int| 0 <= i < xs.len() ==> #[trigger] m.elem(xs[i]),
        forall|i: int| 0 <= i < ys.len() ==> #[trigger] m.elem(ys[i]),
        forall|i1: int, i2: int| 0 <= i1 < i2 < xs.len() ==> xs[i1] != xs[i2],
    ensures
        m.interpolate(xs, ys, xs[j], k) == ys[j],
{
    let d = m.lagrange_prod(xs, xs[j], j, k);
    lemma_lagrange_prod_elem(m, xs, xs[j], j, k);
    lemma_lagrange_prod_nonzero(m, xs, j, k);
    lemma_inv_elem(m, d);
    assert(m.mul(d, m.inv(d)) == m.one());
    lemma_mul_comm(m, d, ys[j]);
    lemma_mul_assoc(m, ys[j], d, m.inv(d));
    lemma_mul_upto_by_one(m, ys[j], m.n);
    assert(m.lagrange_term(xs, ys, xs[j], j, k) == ys[j]);
    lemma_lagrange_sum_at_node(m, xs, ys, k, j, k);
}

/// The first l Lagrange terms at node j sum to ys[j] once j is among them,
/// to zero before.
proof fn lemma_lagrange_sum_at_node(m: Modulus, xs: Seq<Seq<bool>>, ys: Seq<Seq<bool>>, k: nat, j: int, l: nat)
    requires
        m.wf(),
        l <= k,
        k <= xs.len(),
        k <= ys.len(),
        0 <= j < k,
        forall|i: int| 0 <= i < xs.len() ==> #[trigger] m.elem(xs[i]),
        forall|i: int| 0 <= i < ys.len() ==> #[trigger] m.elem(ys[i]),
        m.lagrange_term(xs, ys, xs[j], j, k) == ys[j],
    ensures
        m.lagrange_sum(xs, ys, xs[j], l, k) == if l > j {
            ys[j]
        } else {
            m.zero()
        },
    decreases l,
{
    if l > 0 {
        let i = l - 1;
        lemma_lagrange_sum_at_node(m, xs, ys, k, j, (l - 1) as nat);
        if i == j {
            lemma_add_zero(m, ys[j]);
        } else {
            lemma_lagrange_prod_vanishes(m, xs, i, j, k);
            lemma_mul_upto_of_zero(m, ys[i], m.n);
            lemma_mul_upto_of_zero(m, m.inv(m.lagrange_prod(xs, xs[i], i, k)), m.n);
            if l > j {
                lemma_add_zero(m, ys[j]);
            } else {
                lemma_add_zero(m, m.zero());
            }
        }
    }
}

} // verus!
