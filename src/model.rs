//! The mathematical model of GF(2^n): an element is a sequence of n bits, bit
//! k being the coefficient of x^k, and arithmetic is taken modulo the
//! reduction polynomial x^n + x^a + x^b + x^c + 1.

use vstd::arithmetic::power2::pow2;
use vstd::prelude::*;

verus! {

/// Coefficient i of c, false outside of c.
pub open spec fn coef(c: Seq<bool>, i: int) -> bool {
    0 <= i < c.len() && c[i]
}

/// The coefficients of x^pos c(x), `len` of them.
pub open spec fn place(c: Seq<bool>, pos: int, len: nat) -> Seq<bool> {
    Seq::new(len, |k: int| coef(c, k - pos))
}

/// Coefficient-wise exclusive or of two sequences of the same length.
pub open spec fn xor_seq(p: Seq<bool>, q: Seq<bool>) -> Seq<bool> {
    Seq::new(p.len(), |k: int| p[k] != q[k])
}

/// The reduction polynomial x^n + x^a + x^b + x^c + 1.
pub struct Modulus {
    pub n: nat,
    pub a: nat,
    pub b: nat,
    pub c: nat,
}

impl Modulus {
    /// The shape that the reduction polynomial must have: 0 < c < b < a < n.
    pub open spec fn wf(self) -> bool {
        0 < self.c < self.b < self.a < self.n
    }

    /// Whether `p` is an element of the field, i.e. has n coefficients.
    pub open spec fn elem(self, p: Seq<bool>) -> bool {
        p.len() == self.n
    }

    /// The additive identity.
    pub open spec fn zero(self) -> Seq<bool> {
        Seq::new(self.n, |k: int| false)
    }

    /// The multiplicative identity, the polynomial 1.
    pub open spec fn one(self) -> Seq<bool> {
        Seq::new(self.n, |k: int| k == 0)
    }

    /// The monomial x^j, for j < n.
    pub open spec fn monomial(self, j: nat) -> Seq<bool> {
        Seq::new(self.n, |k: int| k == j)
    }

    /// The polynomial whose coefficients are the bits of the byte `v`.
    pub open spec fn from_byte(self, v: u8) -> Seq<bool> {
        Seq::new(self.n, |k: int| k < 8 && (v >> (k as u8)) & 1 == 1)
    }

    /// Addition (and subtraction): coefficient-wise exclusive or.
    pub open spec fn add(self, p: Seq<bool>, q: Seq<bool>) -> Seq<bool> {
        Seq::new(self.n, |k: int| p[k] != q[k])
    }

    /// Multiplication by x: every coefficient moves up by one, and the
    /// coefficient of x^n that falls out is replaced by x^a + x^b + x^c + 1.
    pub open spec fn times_x(self, p: Seq<bool>) -> Seq<bool> {
        Seq::new(
            self.n,
            |k: int|
                (k > 0 && p[k - 1]) != (p[self.n - 1] && (k == 0 || k == self.a || k == self.b
                    || k == self.c)),
        )
    }

    /// Multiplication by x^j.
    pub open spec fn times_x_pow(self, p: Seq<bool>, j: nat) -> Seq<bool>
        decreases j,
    {
        if j == 0 {
            p
        } else {
            self.times_x(self.times_x_pow(p, (j - 1) as nat))
        }
    }

    /// The sum of the terms q_k x^k p for k < j.
    pub open spec fn mul_upto(self, p: Seq<bool>, q: Seq<bool>, j: nat) -> Seq<bool>
        decreases j,
    {
        if j == 0 {
            self.zero()
        } else {
            let prev = self.mul_upto(p, q, (j - 1) as nat);
            if q[j - 1] {
                self.add(prev, self.times_x_pow(p, (j - 1) as nat))
            } else {
                prev
            }
        }
    }

    /// The product p q = sum of q_k x^k p over the coefficients of q.
    pub open spec fn mul(self, p: Seq<bool>, q: Seq<bool>) -> Seq<bool> {
        self.mul_upto(p, q, self.n)
    }

    /// p^(2^j), by j squarings.
    pub open spec fn square_pow(self, p: Seq<bool>, j: nat) -> Seq<bool>
        decreases j,
    {
        if j == 0 {
            p
        } else {
            let s = self.square_pow(p, (j - 1) as nat);
            self.mul(s, s)
        }
    }

    /// The product p^(2^1) p^(2^2) ... p^(2^j), multiplied in that order.
    pub open spec fn fermat_chain(self, p: Seq<bool>, j: nat) -> Seq<bool>
        decreases j,
    {
        if j == 0 {
            self.one()
        } else {
            self.mul(self.fermat_chain(p, (j - 1) as nat), self.square_pow(p, j))
        }
    }

    /// p^e, by repeated multiplication.
    pub open spec fn pow(self, p: Seq<bool>, e: nat) -> Seq<bool>
        decreases e,
    {
        if e == 0 {
            self.one()
        } else {
            self.mul(self.pow(p, (e - 1) as nat), p)
        }
    }

    /// The inverse by Fermat's little theorem, p^(2^n - 2).
    pub open spec fn inv(self, p: Seq<bool>) -> Seq<bool> {
        self.pow(p, (pow2(self.n) - 2) as nat)
    }

    /// x^(j+1), by repeated multiplication.
    pub open spec fn power(self, x: Seq<bool>, j: nat) -> Seq<bool>
        decreases j,
    {
        if j == 0 {
            x
        } else {
            self.mul(self.power(x, (j - 1) as nat), x)
        }
    }

    /// secret + coeffs[0] x + coeffs[1] x^2 + ... with the first j coefficients.
    pub open spec fn eval_upto(self, secret: Seq<bool>, coeffs: Seq<Seq<bool>>, x: Seq<bool>, j: nat) -> Seq<bool>
        decreases j,
    {
        if j == 0 {
            secret
        } else {
            self.add(
                self.eval_upto(secret, coeffs, x, (j - 1) as nat),
                self.mul(self.power(x, (j - 1) as nat), coeffs[j - 1]),
            )
        }
    }

    /// The polynomial secret + coeffs[0] x + ... + coeffs[d-1] x^d, evaluated at x.
    pub open spec fn eval(self, secret: Seq<bool>, coeffs: Seq<Seq<bool>>, x: Seq<bool>) -> Seq<bool> {
        self.eval_upto(secret, coeffs, x, coeffs.len())
    }

    /// The product of (xs[l] - x) over l < j with l != i, multiplied in order.
    pub open spec fn lagrange_prod(self, xs: Seq<Seq<bool>>, x: Seq<bool>, i: int, j: nat) -> Seq<bool>
        decreases j,
    {
        if j == 0 {
            self.one()
        } else {
            let prev = self.lagrange_prod(xs, x, i, (j - 1) as nat);
            if j - 1 == i {
                prev
            } else {
                self.mul(prev, self.add(xs[j - 1], x))
            }
        }
    }

    /// Term i of the Lagrange interpolation at x through the first k points:
    /// (prod of (xs[l] - x)) ys[i] / (prod of (xs[l] - xs[i])), over l != i.
    pub open spec fn lagrange_term(
        self,
        xs: Seq<Seq<bool>>,
        ys: Seq<Seq<bool>>,
        x: Seq<bool>,
        i: int,
        k: nat,
    ) -> Seq<bool> {
        self.mul(
            self.mul(self.lagrange_prod(xs, x, i, k), ys[i]),
            self.inv(self.lagrange_prod(xs, xs[i], i, k)),
        )
    }

    /// The sum of the first j Lagrange terms.
    pub open spec fn lagrange_sum(
        self,
        xs: Seq<Seq<bool>>,
        ys: Seq<Seq<bool>>,
        x: Seq<bool>,
        j: nat,
        k: nat,
    ) -> Seq<bool>
        decreases j,
    {
        if j == 0 {
            self.zero()
        } else {
            self.add(
                self.lagrange_sum(xs, ys, x, (j - 1) as nat, k),
                self.lagrange_term(xs, ys, x, j - 1, k),
            )
        }
    }

    /// The value at x of the polynomial of degree < k through the points
    /// (xs[i], ys[i]), i < k, by Lagrange interpolation.
    pub open spec fn interpolate(self, xs: Seq<Seq<bool>>, ys: Seq<Seq<bool>>, x: Seq<bool>, k: nat) -> Seq<bool> {
        self.lagrange_sum(xs, ys, x, k, k)
    }

    /// x^k reduced modulo the reduction polynomial.
    pub open spec fn xpow(self, k: nat) -> Seq<bool> {
        self.times_x_pow(self.one(), k)
    }

    /// The element that the polynomial with coefficients p, of any degree, is
    /// congruent to: the sum of x^k reduced over the coefficients p_k set.
    pub open spec fn reduce(self, p: Seq<bool>) -> Seq<bool>
        decreases p.len(),
    {
        if p.len() == 0 {
            self.zero()
        } else {
            let prev = self.reduce(p.drop_last());
            if p.last() {
                self.add(prev, self.xpow((p.len() - 1) as nat))
            } else {
                prev
            }
        }
    }

    /// The coefficients of c(x) (1 + x^a + x^b + x^c), `len` of them: what a
    /// carry c at x^n is congruent to.
    pub open spec fn spread(self, c: Seq<bool>, len: nat) -> Seq<bool> {
        Seq::new(
            len,
            |k: int|
                coef(c, k) != coef(c, k - self.a) != coef(c, k - self.b) != coef(c, k - self.c),
        )
    }

    /// Every non-zero element times its Fermat inverse is one: the property
    /// that makes the quotient a field, which holds when the reduction
    /// polynomial is irreducible.
    pub open spec fn has_inverses(self) -> bool {
        forall|e: Seq<bool>| self.elem(e) && e != self.zero() ==> #[trigger] self.mul(e, self.inv(e)) == self.one()
    }
}

} // verus!
