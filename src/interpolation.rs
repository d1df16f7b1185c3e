//! Exactness of Lagrange interpolation in a field: through k distinct nodes
//! of a polynomial with k coefficients, interpolation gives back the
//! polynomial everywhere. The proof goes through coefficient sequences,
//! synthetic division and the count of roots.

use crate::laws::{
    lemma_add_zero, lemma_inv_elem, lemma_lagrange_prod_elem, lemma_mul_assoc, lemma_mul_comm,
    lemma_mul_nonzero, lemma_mul_upto_by_one, lemma_mul_upto_by_zero, lemma_mul_upto_distributes,
    lemma_mul_upto_elem, lemma_mul_upto_of_one, lemma_mul_upto_of_zero, lemma_pow_elem,
};
use crate::model::Modulus;
use vstd::prelude::*;

verus! {

/// The value at x of the polynomial with coefficients c, c[0] constant, by
/// Horner's rule.
pub open spec fn peval(m: Modulus, c: Seq<Seq<bool>>, x: Seq<bool>) -> Seq<bool>
    decreases c.len(),
{
    if c.len() == 0 {
        m.zero()
    } else {
        m.add(c[0], m.mul(x, peval(m, c.drop_first(), x)))
    }
}

/// Every coefficient is an element.
pub open spec fn all_elems(m: Modulus, c: Seq<Seq<bool>>) -> bool {
    forall|i: int| 0 <= i < c.len() ==> #[trigger] m.elem(c[i])
}

/// The quotient of c by (x - r), for c with at least one coefficient.
pub open spec fn synth(m: Modulus, c: Seq<Seq<bool>>, r: Seq<bool>) -> Seq<Seq<bool>>
    decreases c.len(),
{
    if c.len() <= 1 {
        Seq::empty()
    } else {
        seq![peval(m, c.drop_first(), r)] + synth(m, c.drop_first(), r)
    }
}

/// c with `a` added to its constant coefficient.
pub open spec fn add_const(m: Modulus, c: Seq<Seq<bool>>, a: Seq<bool>) -> Seq<Seq<bool>> {
    if c.len() == 0 {
        seq![a]
    } else {
        c.update(0, m.add(c[0], a))
    }
}

/// The coefficients of c(x) (a + x).
pub open spec fn lin(m: Modulus, c: Seq<Seq<bool>>, a: Seq<bool>) -> Seq<Seq<bool>>
    decreases c.len(),
{
    if c.len() == 0 {
        Seq::empty()
    } else {
        seq![m.mul(c[0], a)] + add_const(m, lin(m, c.drop_first(), a), c[0])
    }
}

/// The coefficients of c(x) s.
pub open spec fn scale(m: Modulus, c: Seq<Seq<bool>>, s: Seq<bool>) -> Seq<Seq<bool>> {
    Seq::new(c.len(), |i: int| m.mul(c[i], s))
}

/// The coefficients of c1(x) + c2(x), for as many coefficients as c1 has.
pub open spec fn padd(m: Modulus, c1: Seq<Seq<bool>>, c2: Seq<Seq<bool>>) -> Seq<Seq<bool>> {
    Seq::new(c1.len(), |i: int| m.add(c1[i], c2[i]))
}

/// k zero coefficients.
pub open spec fn zeros(m: Modulus, k: nat) -> Seq<Seq<bool>> {
    Seq::new(k, |i: int| m.zero())
}

/// The coefficients of the numerator of Lagrange term i, over l nodes.
pub open spec fn num_coeffs(m: Modulus, xs: Seq<Seq<bool>>, i: int, l: nat) -> Seq<Seq<bool>>
    decreases l,
{
    if l == 0 {
        seq![m.one()]
    } else if l - 1 == i {
        num_coeffs(m, xs, i, (l - 1) as nat)
    } else {
        lin(m, num_coeffs(m, xs, i, (l - 1) as nat), xs[l - 1])
    }
}

/// The coefficients of the sum of the first j Lagrange terms through k nodes.
pub open spec fn lagrange_coeffs(m: Modulus, xs: Seq<Seq<bool>>, ys: Seq<Seq<bool>>, j: nat, k: nat) -> Seq<Seq<bool>>
    decreases j,
{
    if j == 0 {
        zeros(m, k)
    } else {
        let i = j - 1;
        padd(
            m,
            lagrange_coeffs(m, xs, ys, (j - 1) as nat, k),
            scale(m, num_coeffs(m, xs, i, k), m.mul(ys[i], m.inv(m.lagrange_prod(xs, xs[i], i, k)))),
        )
    }
}

// Field algebra on elements.
proof fn lemma_mul_elem(m: Modulus, p: Seq<bool>, q: Seq<bool>)
    ensures
        m.elem(m.mul(p, q)),
{
    lemma_mul_upto_elem(m, p, q, m.n);
}

proof fn lemma_mul_zero(m: Modulus, p: Seq<bool>)
    requires
        m.wf(),
        m.elem(p),
    ensures
        m.mul(p, m.zero()) == m.zero(),
        m.mul(m.zero(), p) == m.zero(),
{
    lemma_mul_upto_by_zero(m, p, m.n);
    lemma_mul_upto_of_zero(m, p, m.n);
}

proof fn lemma_mul_one(m: Modulus, p: Seq<bool>)
    requires
        m.wf(),
        m.elem(p),
    ensures
        m.mul(p, m.one()) == p,
        m.mul(m.one(), p) == p,
{
    lemma_mul_upto_by_one(m, p, m.n);
    lemma_mul_upto_of_one(m, p, m.n);
    assert(Seq::new(m.n, |i: int| i < m.n && p[i]) =~= p);
}

proof fn lemma_distr_left(m: Modulus, r: Seq<bool>, p: Seq<bool>, q: Seq<bool>)
    requires
        m.wf(),
        m.elem(r),
        m.elem(p),
        m.elem(q),
    ensures
        m.mul(r, m.add(p, q)) == m.add(m.mul(r, p), m.mul(r, q)),
{
    lemma_mul_upto_distributes(m, r, p, q, m.n);
}

proof fn lemma_distr_right(m: Modulus, p: Seq<bool>, q: Seq<bool>, r: Seq<bool>)
    requires
        m.wf(),
        m.elem(r),
        m.elem(p),
        m.elem(q),
    ensures
        m.mul(m.add(p, q), r) == m.add(m.mul(p, r), m.mul(q, r)),
{
    lemma_mul_upto_distributes(m, r, p, q, m.n);
    lemma_mul_comm(m, r, m.add(p, q));
    lemma_mul_comm(m, r, p);
    lemma_mul_comm(m, r, q);
}

/// Polynomial values are elements.
proof fn lemma_peval_elem(m: Modulus, c: Seq<Seq<bool>>, x: Seq<bool>)
    ensures
        m.elem(peval(m, c, x)),
    decreases c.len(),
{
}

/// The quotient has one coefficient fewer, all of them elements.
proof fn lemma_synth_shape(m: Modulus, c: Seq<Seq<bool>>, r: Seq<bool>)
    requires
        c.len() >= 1,
    ensures
        synth(m, c, r).len() == c.len() - 1,
        all_elems(m, synth(m, c, r)),
    decreases c.len(),
{
    if c.len() > 1 {
        lemma_synth_shape(m, c.drop_first(), r);
        lemma_peval_elem(m, c.drop_first(), r);
        let s = synth(m, c, r);
        assert forall|i: int| 0 <= i < s.len() implies #[trigger] m.elem(s[i]) by {
            if i > 0 {
                assert(s[i] == synth(m, c.drop_first(), r)[i - 1]);
            }
        }
    }
}

/// Synthetic division: c(x) = (x - r) q(x) + c(r).
proof fn lemma_synth(m: Modulus, c: Seq<Seq<bool>>, r: Seq<bool>, x: Seq<bool>)
    requires
        m.wf(),
        c.len() >= 1,
        all_elems(m, c),
        m.elem(r),
        m.elem(x),
    ensures
        peval(m, c, x) == m.add(m.mul(m.add(x, r), peval(m, synth(m, c, r), x)), peval(m, c, r)),
    decreases c.len(),
{
    let s = m.add(x, r);
    lemma_peval_elem(m, synth(m, c, r), x);
    if c.len() == 1 {
        assert(c.drop_first() =~= Seq::<Seq<bool>>::empty());
        assert(synth(m, c, r) =~= Seq::<Seq<bool>>::empty());
        assert(peval(m, c.drop_first(), x) == m.zero());
        assert(peval(m, c.drop_first(), r) == m.zero());
        assert(peval(m, synth(m, c, r), x) == m.zero());
        assert(m.elem(c[0]));
        lemma_mul_zero(m, x);
        lemma_mul_zero(m, r);
        lemma_mul_zero(m, s);
        lemma_add_zero(m, c[0]);
        assert(peval(m, c, x) == c[0]);
        assert(peval(m, c, r) == c[0]);
    } else {
        let c1 = c.drop_first();
        assert(all_elems(m, c1)) by {
            assert forall|i: int| 0 <= i < c1.len() implies #[trigger] m.elem(c1[i]) by {
                assert(c1[i] == c[i + 1]);
            }
        }
        lemma_synth(m, c1, r, x);
        let v = peval(m, c1, r);
        let q1 = synth(m, c1, r);
        let qx = peval(m, q1, x);
        lemma_peval_elem(m, c1, r);
        lemma_peval_elem(m, q1, x);
        lemma_peval_elem(m, c1, x);
        assert(c.len() >= 1);
        assert(m.elem(c[0]));
        assert(synth(m, c, r) == seq![v] + q1);
        assert((seq![v] + q1).drop_first() =~= q1);
        assert((seq![v] + q1)[0] == v);
        lemma_mul_elem(m, s, qx);
        lemma_mul_elem(m, x, qx);
        lemma_mul_elem(m, x, v);
        lemma_mul_elem(m, r, v);
        // x c1(x) = x (s q(x)) + x v
        lemma_distr_left(m, x, m.mul(s, qx), v);
        // s (v + x q(x)) = s v + s (x q(x))
        lemma_distr_left(m, s, v, m.mul(x, qx));
        // s v = x v + r v
        lemma_distr_right(m, x, r, v);
        // s (x q) = x (s q)
        lemma_mul_assoc(m, s, x, qx);
        lemma_mul_comm(m, s, x);
        lemma_mul_assoc(m, x, s, qx);
        lemma_mul_elem(m, s, m.mul(x, qx));
        lemma_mul_elem(m, x, m.mul(s, qx));
        lemma_mul_elem(m, s, v);
        let lhs = peval(m, c, x);
        let rhs = m.add(m.mul(s, peval(m, synth(m, c, r), x)), peval(m, c, r));
        assert(lhs =~= rhs);
    }
}

/// A quotient of zeros from a root means zero coefficients.
proof fn lemma_synth_zero(m: Modulus, c: Seq<Seq<bool>>, r: Seq<bool>)
    requires
        m.wf(),
        c.len() >= 1,
        all_elems(m, c),
        m.elem(r),
        peval(m, c, r) == m.zero(),
        forall|i: int| 0 <= i < synth(m, c, r).len() ==> #[trigger] synth(m, c, r)[i] == m.zero(),
    ensures
        forall|i: int| 0 <= i < c.len() ==> #[trigger] c[i] == m.zero(),
    decreases c.len(),
{
    let c1 = c.drop_first();
    lemma_peval_elem(m, c1, r);
    if c.len() == 1 {
        assert(c1 =~= Seq::<Seq<bool>>::empty());
        lemma_mul_zero(m, r);
        lemma_add_zero(m, c[0]);
    } else {
        assert(all_elems(m, c1)) by {
            assert forall|i: int| 0 <= i < c1.len() implies #[trigger] m.elem(c1[i]) by {
                assert(c1[i] == c[i + 1]);
            }
        }
        let s = synth(m, c, r);
        assert(s[0] == peval(m, c1, r));
        assert forall|i: int| 0 <= i < synth(m, c1, r).len() implies #[trigger] synth(m, c1, r)[i] == m.zero() by {
            assert(synth(m, c1, r)[i] == s[i + 1]);
        }
        lemma_synth_zero(m, c1, r);
        lemma_mul_zero(m, r);
        lemma_add_zero(m, c[0]);
        assert forall|i: int| 0 <= i < c.len() implies #[trigger] c[i] == m.zero() by {
            if i > 0 {
                assert(c[i] == c1[i - 1]);
            }
        }
    }
}

/// A polynomial with as many distinct roots as coefficients is zero, in a
/// field.
pub proof fn lemma_roots(m: Modulus, c: Seq<Seq<bool>>, nodes: Seq<Seq<bool>>)
    requires
        m.wf(),
        m.has_inverses(),
        c.len() == nodes.len(),
        all_elems(m, c),
        all_elems(m, nodes),
        forall|i1: int, i2: int| 0 <= i1 < i2 < nodes.len() ==> nodes[i1] != nodes[i2],
        forall|i: int| 0 <= i < nodes.len() ==> #[trigger] peval(m, c, nodes[i]) == m.zero(),
    ensures
        forall|i: int| 0 <= i < c.len() ==> #[trigger] c[i] == m.zero(),
    decreases c.len(),
{
    if c.len() > 0 {
        let l = c.len() - 1;
        let r = nodes[l as int];
        let q = synth(m, c, r);
        let rest = nodes.drop_last();
        lemma_synth_shape(m, c, r);
        assert(m.elem(r));
        assert forall|i: int| 0 <= i < rest.len() implies #[trigger] peval(m, q, rest[i]) == m.zero() by {
            let ni = nodes[i];
            assert(rest[i] == ni);
            assert(m.elem(ni));
            lemma_synth(m, c, r, ni);
            assert(peval(m, c, r) == m.zero());
            assert(peval(m, c, ni) == m.zero());
            let f = m.add(ni, r);
            lemma_peval_elem(m, q, ni);
            lemma_mul_elem(m, f, peval(m, q, ni));
            lemma_add_zero(m, m.mul(f, peval(m, q, ni)));
            if f == m.zero() {
                assert(ni =~= r) by {
                    assert forall|k: int| 0 <= k < m.n implies ni[k] == r[k] by {
                        assert(f[k] == false);
                    }
                }
            }
            if peval(m, q, ni) != m.zero() {
                lemma_mul_nonzero(m, f, peval(m, q, ni));
            }
        }
        assert(all_elems(m, rest)) by {
            assert forall|i: int| 0 <= i < rest.len() implies #[trigger] m.elem(rest[i]) by {
                assert(rest[i] == nodes[i]);
            }
        }
        assert forall|i1: int, i2: int| 0 <= i1 < i2 < rest.len() implies rest[i1] != rest[i2] by {
            assert(rest[i1] == nodes[i1]);
            assert(rest[i2] == nodes[i2]);
        }
        lemma_roots(m, q, rest);
        lemma_synth_zero(m, c, r);
    }
}

/// Adding to the constant coefficient adds to every value.
proof fn lemma_add_const(m: Modulus, c: Seq<Seq<bool>>, a: Seq<bool>, x: Seq<bool>)
    requires
        m.wf(),
        m.elem(a),
    ensures
        peval(m, add_const(m, c, a), x) == m.add(a, peval(m, c, x)),
        add_const(m, c, a).len() == if c.len() == 0 {
            1
        } else {
            c.len()
        },
{
    if c.len() == 0 {
        assert(seq![a].drop_first() =~= Seq::<Seq<bool>>::empty());
        assert(peval(m, seq![a].drop_first(), x) == m.zero());
        lemma_mul_zero_any(m, x);
        lemma_add_zero(m, a);
    } else {
        let d = add_const(m, c, a);
        assert(d.drop_first() =~= c.drop_first());
        assert(m.add(m.add(c[0], a), m.mul(x, peval(m, c.drop_first(), x))) =~= m.add(a, m.add(
            c[0],
            m.mul(x, peval(m, c.drop_first(), x)),
        )));
    }
}

proof fn lemma_mul_zero_any(m: Modulus, x: Seq<bool>)
    requires
        m.wf(),
    ensures
        m.mul(x, m.zero()) == m.zero(),
{
    lemma_mul_upto_by_zero(m, x, m.n);
}

/// The coefficients of c(x) (a + x) give its values.
proof fn lemma_lin(m: Modulus, c: Seq<Seq<bool>>, a: Seq<bool>, x: Seq<bool>)
    requires
        m.wf(),
        all_elems(m, c),
        m.elem(a),
        m.elem(x),
    ensures
        peval(m, lin(m, c, a), x) == m.mul(peval(m, c, x), m.add(a, x)),
        lin(m, c, a).len() == c.len() + 1 || (c.len() == 0 && lin(m, c, a).len() == 0),
        all_elems(m, lin(m, c, a)),
    decreases c.len(),
{
    if c.len() == 0 {
        lemma_mul_zero(m, m.add(a, x));
    } else {
        let c1 = c.drop_first();
        assert(all_elems(m, c1)) by {
            assert forall|i: int| 0 <= i < c1.len() implies #[trigger] m.elem(c1[i]) by {
                assert(c1[i] == c[i + 1]);
            }
        }
        lemma_lin(m, c1, a, x);
        let l1 = lin(m, c1, a);
        let c0 = c[0];
        assert(m.elem(c0));
        lemma_add_const(m, l1, c0, x);
        let l = lin(m, c, a);
        assert(l == seq![m.mul(c0, a)] + add_const(m, l1, c0));
        assert(l.drop_first() =~= add_const(m, l1, c0));
        let p1 = peval(m, c1, x);
        lemma_peval_elem(m, c1, x);
        let s = m.add(a, x);
        lemma_mul_elem(m, p1, s);
        lemma_mul_elem(m, c0, a);
        lemma_mul_elem(m, x, c0);
        lemma_mul_elem(m, x, p1);
        // x (c0 + p1 s) = x c0 + x (p1 s)
        lemma_distr_left(m, x, c0, m.mul(p1, s));
        // (c0 + x p1) s = c0 s + (x p1) s
        lemma_distr_right(m, c0, m.mul(x, p1), s);
        // c0 s = c0 a + c0 x
        lemma_distr_left(m, c0, a, x);
        lemma_mul_comm(m, c0, x);
        // (x p1) s = x (p1 s)
        lemma_mul_assoc(m, x, p1, s);
        lemma_mul_elem(m, x, m.mul(p1, s));
        lemma_mul_elem(m, c0, x);
        assert(peval(m, l, x) =~= m.mul(peval(m, c, x), s));
        assert(all_elems(m, l)) by {
            assert forall|i: int| 0 <= i < l.len() implies #[trigger] m.elem(l[i]) by {
                if i > 0 {
                    let d = add_const(m, l1, c0);
                    assert(l[i] == d[i - 1]);
                    if l1.len() > 0 && i - 1 > 0 {
                        assert(d[i - 1] == l1[i - 1]);
                    }
                }
            }
        }
    }
}

/// The coefficients of the numerator of Lagrange term i give its values.
proof fn lemma_num_coeffs(m: Modulus, xs: Seq<Seq<bool>>, i: int, l: nat, x: Seq<bool>)
    requires
        m.wf(),
        0 <= i,
        l <= xs.len(),
        all_elems(m, xs),
        m.elem(x),
    ensures
        peval(m, num_coeffs(m, xs, i, l), x) == m.lagrange_prod(xs, x, i, l),
        num_coeffs(m, xs, i, l).len() == if l <= i {
            l + 1
        } else {
            l
        },
        all_elems(m, num_coeffs(m, xs, i, l)),
    decreases l,
{
    if l == 0 {
        let c = seq![m.one()];
        assert(c.drop_first() =~= Seq::<Seq<bool>>::empty());
        assert(peval(m, c.drop_first(), x) == m.zero());
        lemma_mul_zero_any(m, x);
        lemma_add_zero(m, m.one());
    } else {
        lemma_num_coeffs(m, xs, i, (l - 1) as nat, x);
        if l - 1 != i {
            assert(m.elem(xs[l - 1]));
            lemma_lin(m, num_coeffs(m, xs, i, (l - 1) as nat), xs[l - 1], x);
            lemma_peval_elem(m, num_coeffs(m, xs, i, (l - 1) as nat), x);
            assert(m.add(xs[l - 1], x) == m.add(xs[l - 1], x));
        }
    }
}

/// Scaling the coefficients scales the values.
proof fn lemma_scale(m: Modulus, c: Seq<Seq<bool>>, s: Seq<bool>, x: Seq<bool>)
    requires
        m.wf(),
        all_elems(m, c),
        m.elem(s),
        m.elem(x),
    ensures
        peval(m, scale(m, c, s), x) == m.mul(peval(m, c, x), s),
        all_elems(m, scale(m, c, s)),
    decreases c.len(),
{
    let sc = scale(m, c, s);
    assert forall|i: int| 0 <= i < sc.len() implies #[trigger] m.elem(sc[i]) by {
        lemma_mul_elem(m, c[i], s);
    }
    if c.len() == 0 {
        lemma_mul_zero(m, s);
    } else {
        let c1 = c.drop_first();
        assert(all_elems(m, c1)) by {
            assert forall|i: int| 0 <= i < c1.len() implies #[trigger] m.elem(c1[i]) by {
                assert(c1[i] == c[i + 1]);
            }
        }
        lemma_scale(m, c1, s, x);
        assert(sc.drop_first() =~= scale(m, c1, s));
        let p1 = peval(m, c1, x);
        lemma_peval_elem(m, c1, x);
        assert(m.elem(c[0]));
        lemma_mul_elem(m, x, p1);
        lemma_distr_right(m, c[0], m.mul(x, p1), s);
        lemma_mul_assoc(m, x, p1, s);
    }
}

/// Adding coefficient sequences of the same length adds the values.
proof fn lemma_padd(m: Modulus, c1: Seq<Seq<bool>>, c2: Seq<Seq<bool>>, x: Seq<bool>)
    requires
        m.wf(),
        c1.len() == c2.len(),
        all_elems(m, c1),
        all_elems(m, c2),
        m.elem(x),
    ensures
        peval(m, padd(m, c1, c2), x) == m.add(peval(m, c1, x), peval(m, c2, x)),
        all_elems(m, padd(m, c1, c2)),
    decreases c1.len(),
{
    let p = padd(m, c1, c2);
    if c1.len() == 0 {
        assert(m.zero() =~= m.add(m.zero(), m.zero()));
    } else {
        let d1 = c1.drop_first();
        let d2 = c2.drop_first();
        assert(all_elems(m, d1)) by {
            assert forall|i: int| 0 <= i < d1.len() implies #[trigger] m.elem(d1[i]) by {
                assert(d1[i] == c1[i + 1]);
            }
        }
        assert(all_elems(m, d2)) by {
            assert forall|i: int| 0 <= i < d2.len() implies #[trigger] m.elem(d2[i]) by {
                assert(d2[i] == c2[i + 1]);
            }
        }
        lemma_padd(m, d1, d2, x);
        assert(p.drop_first() =~= padd(m, d1, d2));
        lemma_peval_elem(m, d1, x);
        lemma_peval_elem(m, d2, x);
        lemma_distr_left(m, x, peval(m, d1, x), peval(m, d2, x));
        assert(peval(m, p, x) =~= m.add(peval(m, c1, x), peval(m, c2, x)));
    }
}

/// Zero coefficients have the value zero.
proof fn lemma_zeros(m: Modulus, c: Seq<Seq<bool>>, x: Seq<bool>)
    requires
        m.wf(),
        forall|i: int| 0 <= i < c.len() ==> #[trigger] c[i] == m.zero(),
    ensures
        peval(m, c, x) == m.zero(),
    decreases c.len(),
{
    if c.len() > 0 {
        let d = c.drop_first();
        assert forall|i: int| 0 <= i < d.len() implies #[trigger] d[i] == m.zero() by {
            assert(d[i] == c[i + 1]);
        }
        lemma_zeros(m, d, x);
        lemma_mul_zero_any(m, x);
        lemma_add_zero(m, m.zero());
    }
}

/// The Lagrange coefficients give the Lagrange sums.
proof fn lemma_lagrange_coeffs(m: Modulus, xs: Seq<Seq<bool>>, ys: Seq<Seq<bool>>, j: nat, k: nat, x: Seq<bool>)
    requires
        m.wf(),
        j <= k,
        k <= xs.len(),
        k <= ys.len(),
        all_elems(m, xs),
        all_elems(m, ys),
        m.elem(x),
    ensures
        peval(m, lagrange_coeffs(m, xs, ys, j, k), x) == m.lagrange_sum(xs, ys, x, j, k),
        lagrange_coeffs(m, xs, ys, j, k).len() == k,
        all_elems(m, lagrange_coeffs(m, xs, ys, j, k)),
    decreases j,
{
    if j == 0 {
        lemma_zeros(m, zeros(m, k), x);
    } else {
        let i = j - 1;
        lemma_lagrange_coeffs(m, xs, ys, (j - 1) as nat, k, x);
        lemma_num_coeffs(m, xs, i, k, x);
        let d = m.lagrange_prod(xs, xs[i], i, k);
        assert(m.elem(ys[i]));
        lemma_inv_elem(m, d);
        let sc = m.mul(ys[i], m.inv(d));
        lemma_mul_elem(m, ys[i], m.inv(d));
        lemma_scale(m, num_coeffs(m, xs, i, k), sc, x);
        lemma_padd(
            m,
            lagrange_coeffs(m, xs, ys, (j - 1) as nat, k),
            scale(m, num_coeffs(m, xs, i, k), sc),
            x,
        );
        lemma_lagrange_prod_elem(m, xs, x, i, k);
        lemma_mul_assoc(m, m.lagrange_prod(xs, x, i, k), ys[i], m.inv(d));
    }
}

/// Horner's value is the sum of the terms c_e x^e, the last one added last.
proof fn lemma_peval_last(m: Modulus, c: Seq<Seq<bool>>, x: Seq<bool>)
    requires
        m.wf(),
        c.len() >= 1,
        all_elems(m, c),
        m.elem(x),
    ensures
        peval(m, c, x) == m.add(peval(m, c.drop_last(), x), m.mul(m.pow(x, (c.len() - 1) as nat), c.last())),
    decreases c.len(),
{
    let last = c.last();
    assert(m.elem(last));
    if c.len() == 1 {
        assert(c.drop_first() =~= Seq::<Seq<bool>>::empty());
        assert(c.drop_last() =~= Seq::<Seq<bool>>::empty());
        assert(peval(m, c.drop_first(), x) == m.zero());
        assert(peval(m, c.drop_last(), x) == m.zero());
        lemma_mul_zero_any(m, x);
        assert(m.pow(x, 0) == m.one());
        lemma_mul_one(m, last);
        lemma_add_zero(m, c[0]);
    } else {
        let c1 = c.drop_first();
        assert(all_elems(m, c1)) by {
            assert forall|i: int| 0 <= i < c1.len() implies #[trigger] m.elem(c1[i]) by {
                assert(c1[i] == c[i + 1]);
            }
        }
        lemma_peval_last(m, c1, x);
        assert(c1.drop_last() =~= c.drop_last().drop_first());
        assert(c.drop_last()[0] == c[0]);
        assert(c1.last() == last);
        let e = (c.len() - 2) as nat;
        let pe = m.pow(x, e);
        lemma_pow_elem(m, x, e);
        let a = peval(m, c1.drop_last(), x);
        lemma_peval_elem(m, c1.drop_last(), x);
        lemma_mul_elem(m, pe, last);
        // x (a + pe last) = x a + x (pe last)
        lemma_distr_left(m, x, a, m.mul(pe, last));
        // x (pe last) = (x pe) last = (pe x) last
        lemma_mul_assoc(m, x, pe, last);
        lemma_mul_comm(m, x, pe);
        assert(m.pow(x, (c.len() - 1) as nat) == m.mul(pe, x));
        lemma_mul_elem(m, x, a);
        lemma_mul_elem(m, m.mul(pe, x), last);
        assert(peval(m, c, x) =~= m.add(peval(m, c.drop_last(), x), m.mul(m.pow(x, (c.len() - 1) as nat), last)));
    }
}

/// x^(t+1) computed by repeated multiplication is the power.
proof fn lemma_power_pow(m: Modulus, x: Seq<bool>, t: nat)
    requires
        m.wf(),
        m.elem(x),
    ensures
        m.power(x, t) == m.pow(x, t + 1),
    decreases t,
{
    if t == 0 {
        assert(m.pow(x, 0) == m.one());
        lemma_mul_one(m, x);
    } else {
        lemma_power_pow(m, x, (t - 1) as nat);
        assert((t - 1) as nat + 1 == t);
    }
}

/// The polynomial secret + coeffs[0] x + ... as Horner coefficients.
proof fn lemma_eval_peval(m: Modulus, secret: Seq<bool>, coeffs: Seq<Seq<bool>>, x: Seq<bool>, j: nat)
    requires
        m.wf(),
        j <= coeffs.len(),
        m.elem(secret),
        all_elems(m, coeffs),
        m.elem(x),
    ensures
        m.eval_upto(secret, coeffs, x, j) == peval(m, seq![secret] + coeffs.subrange(0, j as int), x),
    decreases j,
{
    let c = seq![secret] + coeffs.subrange(0, j as int);
    assert(all_elems(m, c)) by {
        assert forall|i: int| 0 <= i < c.len() implies #[trigger] m.elem(c[i]) by {
            if i > 0 {
                assert(c[i] == coeffs[i - 1]);
            }
        }
    }
    if j == 0 {
        assert(c.drop_first() =~= Seq::<Seq<bool>>::empty());
        assert(peval(m, c.drop_first(), x) == m.zero());
        lemma_mul_zero_any(m, x);
        lemma_add_zero(m, secret);
    } else {
        lemma_eval_peval(m, secret, coeffs, x, (j - 1) as nat);
        lemma_peval_last(m, c, x);
        assert(c.drop_last() =~= seq![secret] + coeffs.subrange(0, j - 1));
        assert(c.last() == coeffs[j - 1]);
        lemma_power_pow(m, x, (j - 1) as nat);
        assert((c.len() - 1) as nat == (j - 1) as nat + 1);
    }
}

/// Lagrange interpolation is exact in a field: through k distinct nodes of
/// the polynomial secret + coeffs[0] x + ... + coeffs[k-2] x^(k-1), the
/// interpolation at any point x is the polynomial's value there.
pub proof fn lemma_interpolation_exact(
    m: Modulus,
    xs: Seq<Seq<bool>>,
    ys: Seq<Seq<bool>>,
    secret: Seq<bool>,
    coeffs: Seq<Seq<bool>>,
    x: Seq<bool>,
    k: nat,
)
    requires
        m.wf(),
        m.has_inverses(),
        k == coeffs.len() + 1,
        k <= xs.len(),
        k <= ys.len(),
        all_elems(m, xs),
        all_elems(m, ys),
        m.elem(secret),
        all_elems(m, coeffs),
        m.elem(x),
        forall|i1: int, i2: int| 0 <= i1 < i2 < xs.len() ==> xs[i1] != xs[i2],
        forall|i: int| 0 <= i < k ==> #[trigger] ys[i] == m.eval(secret, coeffs, xs[i]),
    ensures
        m.interpolate(xs, ys, x, k) == m.eval(secret, coeffs, x),
{
    let pc = seq![secret] + coeffs;
    assert(coeffs.subrange(0, coeffs.len() as int) =~= coeffs);
    let lc = lagrange_coeffs(m, xs, ys, k, k);
    lemma_lagrange_coeffs(m, xs, ys, k, k, x);
    assert(all_elems(m, pc)) by {
        assert forall|i: int| 0 <= i < pc.len() implies #[trigger] m.elem(pc[i]) by {
            if i > 0 {
                assert(pc[i] == coeffs[i - 1]);
            }
        }
    }
    let d = padd(m, pc, lc);
    let nodes = xs.subrange(0, k as int);
    assert forall|i: int| 0 <= i < nodes.len() implies #[trigger] peval(m, d, nodes[i]) == m.zero() by {
        let xi = xs[i];
        assert(nodes[i] == xi);
        assert(m.elem(xi));
        lemma_lagrange_coeffs(m, xs, ys, k, k, xi);
        lemma_padd(m, pc, lc, xi);
        lemma_eval_peval(m, secret, coeffs, xi, coeffs.len());
        crate::laws::lemma_interpolate_at_node(m, xs, ys, k, i);
        assert(m.add(ys[i], ys[i]) =~= m.zero());
    }
    assert(all_elems(m, nodes)) by {
        assert forall|i: int| 0 <= i < nodes.len() implies #[trigger] m.elem(nodes[i]) by {
            assert(nodes[i] == xs[i]);
        }
    }
    assert forall|i1: int, i2: int| 0 <= i1 < i2 < nodes.len() implies nodes[i1] != nodes[i2] by {
        assert(nodes[i1] == xs[i1]);
        assert(nodes[i2] == xs[i2]);
    }
    lemma_padd(m, pc, lc, x);
    lemma_roots(m, d, nodes);
    lemma_zeros(m, d, x);
    lemma_eval_peval(m, secret, coeffs, x, coeffs.len());
    lemma_peval_elem(m, pc, x);
    lemma_peval_elem(m, lc, x);
    let e = peval(m, pc, x);
    let l = peval(m, lc, x);
    assert(l =~= e) by {
        assert forall|q: int| 0 <= q < m.n implies l[q] == e[q] by {
            assert(m.add(e, l)[q] == false);
        }
    }
}

/// The polynomial secret + coeffs[0] x + ... takes the value secret at zero.
pub proof fn lemma_eval_at_zero(m: Modulus, secret: Seq<bool>, coeffs: Seq<Seq<bool>>, j: nat)
    requires
        m.wf(),
        m.elem(secret),
    ensures
        m.eval_upto(secret, coeffs, m.zero(), j) == secret,
    decreases j,
{
    if j > 0 {
        lemma_eval_at_zero(m, secret, coeffs, (j - 1) as nat);
        lemma_power_zero(m, (j - 1) as nat);
        lemma_mul_upto_of_zero(m, coeffs[j - 1], m.n);
        lemma_add_zero(m, secret);
    }
}

/// Powers of zero are zero.
proof fn lemma_power_zero(m: Modulus, t: nat)
    requires
        m.wf(),
    ensures
        m.power(m.zero(), t) == m.zero(),
    decreases t,
{
    if t > 0 {
        lemma_power_zero(m, (t - 1) as nat);
        lemma_mul_zero_any(m, m.zero());
    }
}

} // verus!
