//! Reduction of polynomials of any degree modulo x^n + x^a + x^b + x^c + 1:
//! the facts that the word-level shifts and the carry propagation rest on.

use crate::laws::lemma_times_x_pow_one;
use crate::model::{coef, place, xor_seq, Modulus};
use vstd::prelude::*;

verus! {

/// Multiplication by x keeps elements elements.
pub proof fn lemma_times_x_pow_elem(m: Modulus, p: Seq<bool>, j: nat)
    requires
        m.elem(p),
    ensures
        m.elem(m.times_x_pow(p, j)),
    decreases j,
{
    if j > 0 {
        lemma_times_x_pow_elem(m, p, (j - 1) as nat);
    }
}

/// Multiplication by x^j is additive.
pub proof fn lemma_times_x_pow_add(m: Modulus, p: Seq<bool>, q: Seq<bool>, j: nat)
    requires
        m.wf(),
        m.elem(p),
        m.elem(q),
    ensures
        m.times_x_pow(m.add(p, q), j) == m.add(m.times_x_pow(p, j), m.times_x_pow(q, j)),
    decreases j,
{
    if j > 0 {
        let j1 = (j - 1) as nat;
        lemma_times_x_pow_add(m, p, q, j1);
        lemma_times_x_pow_elem(m, p, j1);
        lemma_times_x_pow_elem(m, q, j1);
        let u = m.times_x_pow(p, j1);
        let v = m.times_x_pow(q, j1);
        assert(m.times_x(m.add(u, v)) =~= m.add(m.times_x(u), m.times_x(v)));
    }
}

/// Multiplying by x^i and then by x^j is multiplying by x^(i+j).
pub proof fn lemma_times_x_pow_comp(m: Modulus, p: Seq<bool>, i: nat, j: nat)
    ensures
        m.times_x_pow(m.times_x_pow(p, i), j) == m.times_x_pow(p, i + j),
    decreases j,
{
    if j > 0 {
        lemma_times_x_pow_comp(m, p, i, (j - 1) as nat);
        assert((i + j - 1) as nat == i + (j - 1) as nat);
    }
}

/// x^(n+j) = x^j + x^(a+j) + x^(b+j) + x^(c+j).
pub proof fn lemma_xpow_wrap(m: Modulus, j: nat)
    requires
        m.wf(),
    ensures
        m.xpow(m.n + j) == m.add(m.add(m.add(m.xpow(j), m.xpow(m.a + j)), m.xpow(m.b + j)), m.xpow(m.c + j)),
{
    let n = m.n;
    lemma_times_x_pow_one(m, (n - 1) as nat);
    lemma_times_x_pow_one(m, 0);
    lemma_times_x_pow_one(m, m.a);
    lemma_times_x_pow_one(m, m.b);
    lemma_times_x_pow_one(m, m.c);
    let e0 = m.xpow(0);
    let ea = m.xpow(m.a);
    let eb = m.xpow(m.b);
    let ec = m.xpow(m.c);
    assert(m.xpow(n) == m.times_x(m.xpow((n - 1) as nat)));
    assert(m.xpow(n) =~= m.add(m.add(m.add(e0, ea), eb), ec));
    lemma_times_x_pow_comp(m, m.one(), n, j);
    lemma_times_x_pow_comp(m, m.one(), 0, j);
    lemma_times_x_pow_comp(m, m.one(), m.a, j);
    lemma_times_x_pow_comp(m, m.one(), m.b, j);
    lemma_times_x_pow_comp(m, m.one(), m.c, j);
    lemma_times_x_pow_add(m, m.add(m.add(e0, ea), eb), ec, j);
    lemma_times_x_pow_add(m, m.add(e0, ea), eb, j);
    lemma_times_x_pow_add(m, e0, ea, j);
}

/// A reduced polynomial is an element.
pub proof fn lemma_reduce_elem(m: Modulus, p: Seq<bool>)
    ensures
        m.elem(m.reduce(p)),
    decreases p.len(),
{
    if p.len() > 0 {
        lemma_reduce_elem(m, p.drop_last());
    }
}

/// Reduction is additive.
pub proof fn lemma_reduce_add(m: Modulus, p: Seq<bool>, q: Seq<bool>)
    requires
        p.len() == q.len(),
    ensures
        m.reduce(xor_seq(p, q)) == m.add(m.reduce(p), m.reduce(q)),
    decreases p.len(),
{
    let r = xor_seq(p, q);
    if p.len() == 0 {
        assert(m.zero() =~= m.add(m.zero(), m.zero()));
    } else {
        assert(r.drop_last() =~= xor_seq(p.drop_last(), q.drop_last()));
        lemma_reduce_add(m, p.drop_last(), q.drop_last());
        assert(m.reduce(r) =~= m.add(m.reduce(p), m.reduce(q)));
    }
}

/// A polynomial whose coefficients from x^n up are zero reduces to its low
/// n coefficients.
pub proof fn lemma_reduce_low(m: Modulus, p: Seq<bool>)
    requires
        m.wf(),
        forall|k: int| m.n <= k < p.len() ==> !p[k],
    ensures
        m.reduce(p) == Seq::new(m.n, |k: int| coef(p, k)),
    decreases p.len(),
{
    if p.len() == 0 {
        assert(m.zero() =~= Seq::new(m.n, |k: int| coef(p, k)));
    } else {
        let q = p.drop_last();
        lemma_reduce_low(m, q);
        if p.len() - 1 < m.n {
            lemma_times_x_pow_one(m, (p.len() - 1) as nat);
        }
        assert(m.reduce(p) =~= Seq::new(m.n, |k: int| coef(p, k)));
    }
}

/// A polynomial with one coefficient set reduces to that power of x.
pub proof fn lemma_reduce_monomial(m: Modulus, q: nat, len: nat)
    requires
        q < len,
    ensures
        m.reduce(Seq::new(len, |k: int| k == q)) == m.xpow(q),
    decreases len,
{
    let p = Seq::new(len, |k: int| k == q);
    if q == len - 1 {
        lemma_reduce_zero(m, (len - 1) as nat);
        assert(p.drop_last() =~= Seq::new((len - 1) as nat, |k: int| false));
        lemma_reduce_elem(m, p);
        lemma_times_x_pow_elem(m, m.one(), q);
        assert(m.add(m.zero(), m.xpow(q)) =~= m.xpow(q));
    } else {
        lemma_reduce_monomial(m, q, (len - 1) as nat);
        assert(p.drop_last() =~= Seq::new((len - 1) as nat, |k: int| k == q));
    }
}

/// The zero polynomial reduces to zero.
pub proof fn lemma_reduce_zero(m: Modulus, len: nat)
    ensures
        m.reduce(Seq::new(len, |k: int| false)) == m.zero(),
    decreases len,
{
    if len > 0 {
        lemma_reduce_zero(m, (len - 1) as nat);
        assert(Seq::new(len, |k: int| false).drop_last() =~= Seq::new((len - 1) as nat, |k: int| false));
    }
}

/// A carry c at x^(n + off) is congruent to c(x) (1 + x^a + x^b + x^c) at
/// x^off.
pub proof fn lemma_reduce_carry(m: Modulus, c: Seq<bool>, off: nat, len: nat)
    requires
        m.wf(),
        off + m.n + c.len() <= len,
        off + c.len() + m.a <= len,
    ensures
        m.reduce(place(c, (off + m.n) as int, len)) == m.reduce(place(m.spread(c, len), off as int, len)),
    decreases c.len(),
{
    if c.len() == 0 {
        assert(place(c, (off + m.n) as int, len) =~= Seq::new(len, |k: int| false));
        assert(place(m.spread(c, len), off as int, len) =~= Seq::new(len, |k: int| false));
        lemma_reduce_zero(m, len);
    } else {
        let d = c.drop_last();
        let t = (c.len() - 1) as nat;
        lemma_reduce_carry(m, d, off, len);
        if c.last() {
            let top = Seq::new(len, |k: int| k == off + m.n + t);
            assert(place(c, (off + m.n) as int, len) =~= xor_seq(place(d, (off + m.n) as int, len), top));
            lemma_reduce_add(m, place(d, (off + m.n) as int, len), top);
            lemma_reduce_monomial(m, off + m.n + t, len);
            let s0 = Seq::new(len, |k: int| k == off + t);
            let sa = Seq::new(len, |k: int| k == off + t + m.a);
            let sb = Seq::new(len, |k: int| k == off + t + m.b);
            let sc = Seq::new(len, |k: int| k == off + t + m.c);
            let pd = place(m.spread(d, len), off as int, len);
            let x1 = xor_seq(pd, s0);
            let x2 = xor_seq(x1, sa);
            let x3 = xor_seq(x2, sb);
            let x4 = xor_seq(x3, sc);
            assert(place(m.spread(c, len), off as int, len) =~= x4);
            lemma_reduce_add(m, pd, s0);
            lemma_reduce_add(m, x1, sa);
            lemma_reduce_add(m, x2, sb);
            lemma_reduce_add(m, x3, sc);
            lemma_reduce_monomial(m, off + t, len);
            lemma_reduce_monomial(m, off + t + m.a, len);
            lemma_reduce_monomial(m, off + t + m.b, len);
            lemma_reduce_monomial(m, off + t + m.c, len);
            lemma_xpow_wrap(m, off + t);
            assert(m.n + (off + t) == off + m.n + t);
            assert(m.a + (off + t) == off + t + m.a);
            assert(m.b + (off + t) == off + t + m.b);
            assert(m.c + (off + t) == off + t + m.c);
            lemma_reduce_elem(m, pd);
            lemma_reduce_elem(m, place(d, (off + m.n) as int, len));
            lemma_times_x_pow_elem(m, m.one(), off + t);
            lemma_times_x_pow_elem(m, m.one(), off + t + m.a);
            lemma_times_x_pow_elem(m, m.one(), off + t + m.b);
            lemma_times_x_pow_elem(m, m.one(), off + t + m.c);
            let r = m.reduce(pd);
            let u0 = m.xpow(off + t);
            let ua = m.xpow(off + t + m.a);
            let ub = m.xpow(off + t + m.b);
            let uc = m.xpow(off + t + m.c);
            assert(m.add(m.add(m.add(m.add(r, u0), ua), ub), uc) =~= m.add(r, m.add(m.add(m.add(u0, ua), ub), uc)));
        } else {
            assert(place(c, (off + m.n) as int, len) =~= place(d, (off + m.n) as int, len));
            assert(place(m.spread(c, len), off as int, len) =~= place(m.spread(d, len), off as int, len));
        }
    }
}

/// Multiplying by x^s is shifting the coefficients up by s and reducing.
pub proof fn lemma_times_x_pow_reduce(m: Modulus, p: Seq<bool>, s: nat, len: nat)
    requires
        m.wf(),
        m.elem(p),
        m.n + s <= len,
    ensures
        m.times_x_pow(p, s) == m.reduce(place(p, s as int, len)),
    decreases s,
{
    if s == 0 {
        lemma_reduce_low(m, place(p, 0, len));
        assert(Seq::new(m.n, |k: int| coef(place(p, 0, len), k)) =~= p);
    } else {
        lemma_times_x_pow_reduce(m, p, (s - 1) as nat, (len - 1) as nat);
        lemma_times_x_reduce(m, place(p, s - 1, (len - 1) as nat));
        assert(seq![false] + place(p, s - 1, (len - 1) as nat) =~= place(p, s as int, len));
    }
}

/// Multiplying a reduced polynomial by x is reducing it shifted up by one.
pub proof fn lemma_times_x_reduce(m: Modulus, p: Seq<bool>)
    requires
        m.wf(),
    ensures
        m.times_x(m.reduce(p)) == m.reduce(seq![false] + p),
    decreases p.len(),
{
    let q = seq![false] + p;
    if p.len() == 0 {
        assert(q.drop_last() =~= Seq::<bool>::empty());
        assert(!q.last());
        assert(m.times_x(m.zero()) =~= m.zero());
        assert(m.reduce(q) == m.reduce(q.drop_last()));
    } else {
        lemma_times_x_reduce(m, p.drop_last());
        assert(q.drop_last() =~= seq![false] + p.drop_last());
        assert(q.last() == p.last());
        assert(m.xpow(p.len()) == m.times_x(m.xpow((p.len() - 1) as nat)));
        if p.last() {
            lemma_reduce_elem(m, p.drop_last());
            lemma_times_x_pow_elem(m, m.one(), (p.len() - 1) as nat);
            let u = m.reduce(p.drop_last());
            let v = m.xpow((p.len() - 1) as nat);
            assert(m.times_x(m.add(u, v)) =~= m.add(m.times_x(u), m.times_x(v)));
            assert(m.reduce(p) == m.add(u, v));
            assert(m.reduce(q) == m.add(m.reduce(q.drop_last()), m.xpow(p.len())));
        } else {
            assert(m.reduce(q) == m.reduce(q.drop_last()));
        }
    }
}

/// Reductions are elements, and their sums regroup: for the reductions
/// r, u, v of x, p, q, (r + u) + v = r + (u + v).
pub proof fn lemma_reduce_elem_all(m: Modulus, x: Seq<bool>, p: Seq<bool>, q: Seq<bool>)
    ensures
        m.add(m.add(m.reduce(x), m.reduce(p)), m.reduce(q)) == m.add(m.reduce(x), m.add(m.reduce(p), m.reduce(q))),
{
    lemma_reduce_elem(m, x);
    lemma_reduce_elem(m, p);
    lemma_reduce_elem(m, q);
    assert(m.add(m.add(m.reduce(x), m.reduce(p)), m.reduce(q)) =~= m.add(m.reduce(x), m.add(m.reduce(p), m.reduce(q))));
}

} // verus!
