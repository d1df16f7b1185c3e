//! Shamir's secret sharing: a secret is the constant term of a random
//! polynomial of degree k - 1, each share is a point of it, and any k shares
//! give the secret back by Lagrange interpolation.

use crate::gf2n::GF2n;
use crate::interpolation::{all_elems, lemma_eval_at_zero, lemma_interpolation_exact};
use crate::text::{
    all_hex, ascii_bytes, check_hex, copy_range, dec_chars, dec_value, decimal, find_bar, first_bar,
    hex_bytes, hex_chars, is_decimal_byte, lemma_ascii_concat, lemma_ascii_line,
    lemma_dec_chars_range, lemma_decimal_round_trip, lemma_hex_chars_range, lemma_hex_round_trip,
    lemma_split_at_bar, parse_decimal_byte,
};
use vstd::string::{StringExecFns, StringSliceAdditionalSpecFns};
use crate::word::Word;
use vstd::prelude::*;

verus! {

/// A share: the point (x, y) of the sharing polynomial.
#[derive(Clone, Copy, Debug, PartialEq, Eq)]
pub struct Share<X, Y> {
    x: X,
    y: Y,
}

impl<X: Copy, Y: Copy> Share<X, Y> {
    /// The x coordinate.
    pub closed spec fn sx(&self) -> X {
        self.x
    }

    /// The y coordinate.
    pub closed spec fn sy(&self) -> Y {
        self.y
    }

    /// The y coordinate.
    pub fn gety(&self) -> (r: Y)
        ensures
            r == self.sy(),
    {
        self.y
    }
}

/// Access to the x coordinate of a share.
pub trait GetX<X: Copy> {
    /// The x coordinate of the share.
    fn getx(self) -> X;
}

impl<X: Copy, Y: Copy> GetX<X> for Share<X, Y> {
    fn getx(self) -> (r: X)
        ensures
            r == self.sx(),
    {
        self.x
    }
}

/// The share that a line `x|y` gives, x in decimal from 1 to 255 and y in
/// hexadecimal, as (x, coefficients of y); None where the line is ill-formed.
pub open spec fn compact_share_of<W: Word, const N: usize, const A: usize, const B: usize, const C: usize>(
    bs: Seq<u8>,
) -> Option<(u8, Seq<bool>)> {
    let p = first_bar(bs, 0);
    let head = bs.subrange(0, p);
    let tail = bs.subrange(p + 1, bs.len() as int);
    if p < bs.len() && is_decimal_byte(head) && dec_value(head) >= 1 && all_hex(tail) && tail.len() == 2
        * GF2n::<W, N, A, B, C>::nbytes() {
        Some((dec_value(head) as u8, GF2n::<W, N, A, B, C>::bits_of_bytes(hex_bytes(tail))))
    } else {
        None
    }
}

/// The share that a line `x|y` gives, x and y in hexadecimal, as their
/// coefficients; None where the line is ill-formed.
pub open spec fn random_share_of<W: Word, const N: usize, const A: usize, const B: usize, const C: usize>(
    bs: Seq<u8>,
) -> Option<(Seq<bool>, Seq<bool>)> {
    let p = first_bar(bs, 0);
    let head = bs.subrange(0, p);
    let tail = bs.subrange(p + 1, bs.len() as int);
    if p < bs.len() && all_hex(head) && head.len() == 2 * GF2n::<W, N, A, B, C>::nbytes() && all_hex(
        tail,
    ) && tail.len() == 2 * GF2n::<W, N, A, B, C>::nbytes() {
        Some(
            (
                GF2n::<W, N, A, B, C>::bits_of_bytes(hex_bytes(head)),
                GF2n::<W, N, A, B, C>::bits_of_bytes(hex_bytes(tail)),
            ),
        )
    } else {
        None
    }
}

/// The byte that a decimal x coordinate gives: one or more digits, of value
/// at most 255.
pub open spec fn compact_x_of(bs: Seq<u8>) -> Option<u8> {
    if is_decimal_byte(bs) {
        Some(dec_value(bs) as u8)
    } else {
        None
    }
}

impl<W: Word, const N: usize, const A: usize, const B: usize, const C: usize> Share<u8, GF2n<W, N, A, B, C>> {
    /// The text form `x|y`: x in decimal, y in hexadecimal.
    pub fn to_text(&self) -> (r: String)
        requires
            GF2n::<W, N, A, B, C>::valid(),
        ensures
            exists|b: Seq<u8>|
                b.len() == GF2n::<W, N, A, B, C>::nbytes() && GF2n::<W, N, A, B, C>::bits_of_bytes(b)
                    == self.sy()@ && r@ == dec_chars(self.sx()) + seq!['|'] + hex_chars(b),
    {
        let mut r = decimal(self.x);
        proof {
            reveal_strlit("|");
        }
        r.append("|");
        let h = self.y.to_hex();
        r.append(h.as_str());
        r
    }
}

impl<W: Word, const N: usize, const A: usize, const B: usize, const C: usize> Share<GF2n<W, N, A, B, C>, GF2n<W, N, A, B, C>> {
    /// The text form `x|y`: x and y in hexadecimal.
    pub fn to_text(&self) -> (r: String)
        requires
            GF2n::<W, N, A, B, C>::valid(),
        ensures
            exists|a: Seq<u8>, b: Seq<u8>|
                a.len() == GF2n::<W, N, A, B, C>::nbytes() && b.len() == GF2n::<W, N, A, B, C>::nbytes()
                    && GF2n::<W, N, A, B, C>::bits_of_bytes(a) == self.sx()@
                    && GF2n::<W, N, A, B, C>::bits_of_bytes(b) == self.sy()@ && r@ == hex_chars(a)
                    + seq!['|'] + hex_chars(b),
    {
        let mut r = self.x.to_hex();
        let ghost a = choose|a: Seq<u8>|
            a.len() == GF2n::<W, N, A, B, C>::nbytes() && GF2n::<W, N, A, B, C>::bits_of_bytes(a)
                == self.sx()@ && r@ == hex_chars(a);
        proof {
            reveal_strlit("|");
        }
        r.append("|");
        let h = self.y.to_hex();
        let ghost b = choose|b: Seq<u8>|
            b.len() == GF2n::<W, N, A, B, C>::nbytes() && GF2n::<W, N, A, B, C>::bits_of_bytes(b)
                == self.sy()@ && h@ == hex_chars(b);
        r.append(h.as_str());
        assert(r@ == hex_chars(a) + seq!['|'] + hex_chars(b));
        r
    }
}

/// The digits of a secret file: the text without one final '\n', if any.
pub open spec fn secret_digits(bs: Seq<u8>) -> Seq<u8> {
    if bs.len() > 0 && bs.last() == 10 {
        bs.drop_last()
    } else {
        bs
    }
}

/// Parses the text of a secret: hexadecimal digits, two per byte of the
/// element's encoding, and an optional final newline.
pub fn parse_secret<W: Word, const N: usize, const A: usize, const B: usize, const C: usize>(
    text: &str,
) -> (r: Option<GF2n<W, N, A, B, C>>)
    requires
        GF2n::<W, N, A, B, C>::valid(),
    ensures
        r is Some <==> (all_hex(secret_digits(text.spec_bytes())) && secret_digits(text.spec_bytes()).len()
            == 2 * GF2n::<W, N, A, B, C>::nbytes()),
        r is Some ==> r->0@ == GF2n::<W, N, A, B, C>::bits_of_bytes(
            hex_bytes(secret_digits(text.spec_bytes())),
        ),
{
    let bs = text.as_bytes();
    let end = if bs.len() > 0 && bs[bs.len() - 1] == 10 {
        bs.len() - 1
    } else {
        bs.len()
    };
    let digits = copy_range(bs, 0, end);
    assert(digits@ =~= secret_digits(bs@));
    GF2n::from_hex(digits.as_slice())
}

/// Shares whose x coordinate is a byte, 1 to n.
pub struct CompactShamir;

/// Shares whose x coordinate is a field element drawn at random, which hides
/// the number of shares.
pub struct RandomShamir;

/// Whether a threshold k and a share count n can be used for a split.
pub open spec fn split_parameters_ok(k: usize, n: usize) -> bool {
    1 <= k <= n <= 255
}

/// Checks the parameters of a split: 1 <= k <= n <= 255.
pub fn check_split_parameters(k: usize, n: usize) -> (r: bool)
    ensures
        r == split_parameters_ok(k, n),
{
    k != 0 && n != 0 && k <= n && n < 256
}

/// The views of a sequence of field elements.
pub open spec fn views<W: Word, const N: usize, const A: usize, const B: usize, const C: usize>(
    v: Seq<GF2n<W, N, A, B, C>>,
) -> Seq<Seq<bool>> {
    v.map_values(|e: GF2n<W, N, A, B, C>| e@)
}

/// The y coordinates of shares, as polynomials.
pub open spec fn share_ys<X: Copy, W: Word, const N: usize, const A: usize, const B: usize, const C: usize>(
    shares: Seq<Share<X, GF2n<W, N, A, B, C>>>,
) -> Seq<Seq<bool>> {
    shares.map_values(|s: Share<X, GF2n<W, N, A, B, C>>| s.sy()@)
}

/// The x coordinates of compact shares, as polynomials.
pub open spec fn compact_xs<W: Word, const N: usize, const A: usize, const B: usize, const C: usize>(
    shares: Seq<Share<u8, GF2n<W, N, A, B, C>>>,
) -> Seq<Seq<bool>> {
    shares.map_values(|s: Share<u8, GF2n<W, N, A, B, C>>| GF2n::<W, N, A, B, C>::modulus().from_byte(s.sx()))
}

/// The x coordinates of random shares, as polynomials.
pub open spec fn random_xs<W: Word, const N: usize, const A: usize, const B: usize, const C: usize>(
    shares: Seq<Share<GF2n<W, N, A, B, C>, GF2n<W, N, A, B, C>>>,
) -> Seq<Seq<bool>> {
    shares.map_values(|s: Share<GF2n<W, N, A, B, C>, GF2n<W, N, A, B, C>>| s.sx()@)
}

/// The parameters that a reconstruction needs: 1 <= k <= 255, at least k
/// shares, and pairwise distinct x coordinates.
pub open spec fn reconstruct_parameters_ok<X: Copy, Y: Copy>(shares: Seq<Share<X, Y>>, k: usize) -> bool {
    &&& 1 <= k <= 255
    &&& k <= shares.len()
    &&& forall|i: int, j: int| 0 <= i < j < shares.len() ==> shares[i].sx() != shares[j].sx()
}

/// Checks the parameters of a reconstruction from compact shares.
pub fn check_reconstruct_parameters<Y: Copy>(shares: &[Share<u8, Y>], k: usize) -> (r: bool)
    ensures
        r == reconstruct_parameters_ok(shares@, k),
{
    if k == 0 || k > 255 || shares.len() < k {
        return false;
    }
    let len = shares.len();
    for i in 0..len
        invariant
            len == shares@.len(),
            forall|i2: int, j: int| 0 <= i2 < i && i2 < j < len ==> shares@[i2].sx() != shares@[j].sx(),
    {
        for j in i + 1..len
            invariant
                len == shares@.len(),
                i < len,
                forall|i2: int, j2: int| 0 <= i2 < i && i2 < j2 < len ==> shares@[i2].sx() != shares@[j2].sx(),
                forall|j2: int| i < j2 < j ==> shares@[i as int].sx() != shares@[j2].sx(),
        {
            if shares[i].x == shares[j].x {
                return false;
            }
        }
    }
    true
}

/// Checks the parameters of a reconstruction from random shares.
pub fn check_random_reconstruct_parameters<W: Word, const N: usize, const A: usize, const B: usize, const C: usize>(
    shares: &[Share<GF2n<W, N, A, B, C>, GF2n<W, N, A, B, C>>],
    k: usize,
) -> (r: bool)
    requires
        GF2n::<W, N, A, B, C>::valid(),
    ensures
        r == random_parameters_ok(shares@, k),
{
    if k == 0 || k > 255 || shares.len() < k {
        return false;
    }
    let len = shares.len();
    for i in 0..len
        invariant
            GF2n::<W, N, A, B, C>::valid(),
            len == shares@.len(),
            forall|i2: int, j: int| 0 <= i2 < i && i2 < j < len ==> shares@[i2].sx()@ != shares@[j].sx()@,
    {
        for j in i + 1..len
            invariant
                GF2n::<W, N, A, B, C>::valid(),
                len == shares@.len(),
                i < len,
                forall|i2: int, j2: int| 0 <= i2 < i && i2 < j2 < len ==> shares@[i2].sx()@ != shares@[j2].sx()@,
                forall|j2: int| i < j2 < j ==> shares@[i as int].sx()@ != shares@[j2].sx()@,
        {
            if shares[i].x.equals(&shares[j].x) {
                return false;
            }
        }
    }
    true
}

/// Draws the k - 1 random coefficients a_1 .. a_{k-1} of a sharing polynomial.
fn generate_polynom<W: Word, const N: usize, const A: usize, const B: usize, const C: usize>(k: usize) -> (r: Vec<GF2n<W, N, A, B, C>>)
    requires
        GF2n::<W, N, A, B, C>::valid(),
        k >= 1,
    ensures
        r@.len() == k - 1,
{
    let mut polynom: Vec<GF2n<W, N, A, B, C>> = Vec::new();
    for i in 1..k
        invariant
            GF2n::<W, N, A, B, C>::valid(),
            polynom@.len() == i - 1,
    {
        polynom.push(GF2n::uniform());
    }
    polynom
}

/// The value at `x` of the polynomial secret + polynom[0] x + polynom[1] x^2 + ...
pub fn evaluate<W: Word, const N: usize, const A: usize, const B: usize, const C: usize>(
    secret: &GF2n<W, N, A, B, C>,
    polynom: &Vec<GF2n<W, N, A, B, C>>,
    x: &GF2n<W, N, A, B, C>,
) -> (r: GF2n<W, N, A, B, C>)
    requires
        GF2n::<W, N, A, B, C>::valid(),
    ensures
        r@ == GF2n::<W, N, A, B, C>::modulus().eval(secret@, views(polynom@), x@),
{
    let ghost m = GF2n::<W, N, A, B, C>::modulus();
    let mut y = *secret;
    let mut xn = *x;
    for j in 0..polynom.len()
        invariant
            GF2n::<W, N, A, B, C>::valid(),
            m == GF2n::<W, N, A, B, C>::modulus(),
            y@ == m.eval_upto(secret@, views(polynom@), x@, j as nat),
            xn@ == m.power(x@, j as nat),
    {
        y.add_assign(&xn.mul(&polynom[j]));
        xn = xn.mul(x);
    }
    y
}

/// Shamir's secret sharing over the field `F`.
pub trait Shamir<F> {
    /// Type of the x coordinate of a share.
    type X: Copy;
    /// Type of a share.
    type Share: Copy;

    /// The field is one that the scheme supports.
    spec fn supported() -> bool;

    /// Shares and threshold from which a reconstruction is defined.
    spec fn reconstructible(shares: Seq<Self::Share>, k: usize) -> bool;

    /// `shares` are what a split of `secret` with threshold k into n shares
    /// can return: n points of one polynomial of k coefficients whose
    /// constant term is the secret.
    spec fn split_of(secret: F, k: usize, n: usize, shares: Seq<Self::Share>) -> bool;

    /// `r` is the Lagrange interpolation at 0 of the first k shares.
    spec fn reconstruction(shares: Seq<Self::Share>, k: usize, r: F) -> bool;

    /// `r` is the share at `x` that Lagrange interpolation of the first k
    /// shares gives.
    spec fn reconstruction_at(shares: Seq<Self::Share>, k: usize, x: Self::X, r: Self::Share) -> bool;

    /// `r` is what parsing the text with bytes `s` as an x coordinate gives.
    spec fn x_parses_to(s: Seq<u8>, r: Option<Self::X>) -> bool;

    /// `r` is what parsing the text with bytes `s` as a share gives.
    spec fn share_parses_to(s: Seq<u8>, r: Option<Self::Share>) -> bool;

    /// Builds a share from its coordinates.
    fn share(x: Self::X, y: F) -> Self::Share;

    /// Splits a secret into n shares, any k of which reconstruct it.
    fn split(secret: &F, k: usize, n: usize) -> (r: Vec<Self::Share>)
        requires
            Self::supported(),
            split_parameters_ok(k, n),
        ensures
            Self::split_of(*secret, k, n, r@),
    ;

    /// Reconstructs the secret from the first k shares.
    fn reconstruct(shares: &[Self::Share], k: usize) -> (r: Option<F>)
        requires
            Self::supported(),
            Self::reconstructible(shares@, k),
        ensures
            r is Some,
            Self::reconstruction(shares@, k, r->0),
    ;

    /// Reconstructs the share at x from the first k shares.
    fn reconstruct_at(shares: &[Self::Share], k: usize, x: Self::X) -> (r: Option<Self::Share>)
        requires
            Self::supported(),
            Self::reconstructible(shares@, k),
        ensures
            r is Some,
            Self::reconstruction_at(shares@, k, x, r->0),
    ;

    /// Parses the x coordinate of a share.
    fn parse_x(s: &str) -> (r: Option<Self::X>)
        requires
            Self::supported(),
        ensures
            Self::x_parses_to(s.spec_bytes(), r),
    ;

    /// Parses a share from its text form.
    fn parse_share(s: &str) -> (r: Option<Self::Share>)
        requires
            Self::supported(),
        ensures
            Self::share_parses_to(s.spec_bytes(), r),
    ;
}

impl CompactShamir {
    /// The shares (i, P(i)) for i = 1..n of the polynomial
    /// P(x) = secret + polynom[0] x + polynom[1] x^2 + ...
    pub fn split_with_polynom<W: Word, const N: usize, const A: usize, const B: usize, const C: usize>(
        secret: &GF2n<W, N, A, B, C>,
        polynom: &Vec<GF2n<W, N, A, B, C>>,
        n: usize,
    ) -> (r: Vec<Share<u8, GF2n<W, N, A, B, C>>>)
        requires
            GF2n::<W, N, A, B, C>::valid(),
            n <= 255,
        ensures
            r@.len() == n,
            forall|i: int|
                0 <= i < n ==> #[trigger] r@[i].sx() == i + 1 && r@[i].sy()@
                    == GF2n::<W, N, A, B, C>::modulus().eval(
                    secret@,
                    views(polynom@),
                    GF2n::<W, N, A, B, C>::modulus().from_byte((i + 1) as u8),
                ),
    {
        let mut shares: Vec<Share<u8, GF2n<W, N, A, B, C>>> = Vec::new();
        let mut i: usize = 1;
        while i <= n
            invariant
                GF2n::<W, N, A, B, C>::valid(),
                1 <= i <= n + 1,
                n <= 255,
                shares@.len() == i - 1,
                forall|j: int|
                    0 <= j < i - 1 ==> #[trigger] shares@[j].sx() == j + 1 && shares@[j].sy()@
                        == GF2n::<W, N, A, B, C>::modulus().eval(
                        secret@,
                        views(polynom@),
                        GF2n::<W, N, A, B, C>::modulus().from_byte((j + 1) as u8),
                    ),
            decreases n + 1 - i,
        {
            let xb = i as u8;
            let x = GF2n::from_byte(xb);
            let y = evaluate(secret, polynom, &x);
            shares.push(Share { x: xb, y });
            i += 1;
        }
        shares
    }

    /// Parses a compact x coordinate: decimal digits, of value at most 255.
    pub fn parse_byte_x(s: &str) -> (r: Option<u8>)
        ensures
            r == compact_x_of(s.spec_bytes()),
    {
        let bs = s.as_bytes();
        let r = parse_decimal_byte(bs, 0, bs.len());
        assert(bs@.subrange(0, bs@.len() as int) =~= bs@);
        r
    }

    /// Parses a compact share `x|y`: x in decimal, y in hexadecimal.
    pub fn parse_compact_share<W: Word, const N: usize, const A: usize, const B: usize, const C: usize>(
        s: &str,
    ) -> (r: Option<Share<u8, GF2n<W, N, A, B, C>>>)
        requires
            GF2n::<W, N, A, B, C>::valid(),
        ensures
            r is Some <==> compact_share_of::<W, N, A, B, C>(s.spec_bytes()) is Some,
            r is Some ==> compact_share_of::<W, N, A, B, C>(s.spec_bytes()) == Some(
                (r->0.sx(), r->0.sy()@),
            ),
    {
        let bs = s.as_bytes();
        let p = find_bar(bs);
        if p == bs.len() {
            return None;
        }
        let x = match parse_decimal_byte(bs, 0, p) {
            Some(x) => x,
            None => return None,
        };
        if x == 0 {
            return None;
        }
        let tail = copy_range(bs, p + 1, bs.len());
        if !check_hex(tail.as_slice()) {
            return None;
        }
        match GF2n::from_hex(tail.as_slice()) {
            Some(y) => Some(Share { x, y }),
            None => None,
        }
    }

    /// Lagrange interpolation at the byte x through the first k shares; the
    /// differences of x coordinates are taken on the bytes.
    fn interpolate_at<W: Word, const N: usize, const A: usize, const B: usize, const C: usize>(
        shares: &[Share<u8, GF2n<W, N, A, B, C>>],
        k: usize,
        x: u8,
    ) -> (r: GF2n<W, N, A, B, C>)
        requires
            GF2n::<W, N, A, B, C>::valid(),
            k <= shares@.len(),
        ensures
            r@ == GF2n::<W, N, A, B, C>::modulus().interpolate(
                compact_xs(shares@),
                share_ys(shares@),
                GF2n::<W, N, A, B, C>::modulus().from_byte(x),
                k as nat,
            ),
    {
        let ghost m = GF2n::<W, N, A, B, C>::modulus();
        let ghost xs = compact_xs(shares@);
        let ghost ys = share_ys(shares@);
        let ghost gx = m.from_byte(x);
        let mut y = GF2n::zero();
        for i in 0..k
            invariant
                GF2n::<W, N, A, B, C>::valid(),
                m == GF2n::<W, N, A, B, C>::modulus(),
                k <= shares@.len(),
                xs == compact_xs(shares@),
                ys == share_ys(shares@),
                gx == m.from_byte(x),
                y@ == m.lagrange_sum(xs, ys, gx, i as nat, k as nat),
        {
            let mut lagrange = GF2n::one();
            let mut denom = GF2n::one();
            let xi = shares[i].x;
            for j in 0..k
                invariant
                    GF2n::<W, N, A, B, C>::valid(),
                    m == GF2n::<W, N, A, B, C>::modulus(),
                    k <= shares@.len(),
                    i < k,
                    xi == shares@[i as int].sx(),
                    xs == compact_xs(shares@),
                    gx == m.from_byte(x),
                    lagrange@ == m.lagrange_prod(xs, gx, i as int, j as nat),
                    denom@ == m.lagrange_prod(xs, xs[i as int], i as int, j as nat),
            {
                if j != i {
                    let xj = shares[j].x;
                    lagrange = lagrange.mul(&GF2n::from_diff(xj, x));
                    denom = denom.mul(&GF2n::from_diff(xj, xi));
                }
            }
            let term = lagrange.mul(&shares[i].y).mul(&denom.invert());
            y.add_assign(&term);
        }
        y
    }
}

impl<W: Word, const N: usize, const A: usize, const B: usize, const C: usize> Shamir<GF2n<W, N, A, B, C>> for CompactShamir {
    type X = u8;
    type Share = Share<u8, GF2n<W, N, A, B, C>>;

    open spec fn supported() -> bool {
        GF2n::<W, N, A, B, C>::valid()
    }

    open spec fn reconstructible(shares: Seq<Self::Share>, k: usize) -> bool {
        reconstruct_parameters_ok(shares, k)
    }

    open spec fn split_of(secret: GF2n<W, N, A, B, C>, k: usize, n: usize, shares: Seq<Self::Share>) -> bool {
        compact_split_of(secret, k, n, shares)
    }

    open spec fn reconstruction(shares: Seq<Self::Share>, k: usize, r: GF2n<W, N, A, B, C>) -> bool {
        r@ == GF2n::<W, N, A, B, C>::modulus().interpolate(compact_xs(shares), share_ys(shares), GF2n::<W, N, A, B, C>::modulus().zero(), k as nat)
    }

    open spec fn reconstruction_at(shares: Seq<Self::Share>, k: usize, x: u8, r: Self::Share) -> bool {
        &&& r.sx() == x
        &&& r.sy()@ == GF2n::<W, N, A, B, C>::modulus().interpolate(
            compact_xs(shares),
            share_ys(shares),
            GF2n::<W, N, A, B, C>::modulus().from_byte(x),
            k as nat,
        )
    }

    open spec fn x_parses_to(s: Seq<u8>, r: Option<u8>) -> bool {
        r == compact_x_of(s)
    }

    open spec fn share_parses_to(s: Seq<u8>, r: Option<Self::Share>) -> bool {
        &&& r is Some <==> compact_share_of::<W, N, A, B, C>(s) is Some
        &&& r is Some ==> compact_share_of::<W, N, A, B, C>(s) == Some((r->0.sx(), r->0.sy()@))
    }

    fn share(x: u8, y: GF2n<W, N, A, B, C>) -> (r: Self::Share)
        ensures
            r.sx() == x,
            r.sy() == y,
    {
        Share { x, y }
    }

    fn split(secret: &GF2n<W, N, A, B, C>, k: usize, n: usize) -> (r: Vec<Self::Share>)
        ensures
            r@.len() == n,
            exists|coeffs: Seq<Seq<bool>>|
                coeffs.len() == k - 1 && all_elems(GF2n::<W, N, A, B, C>::modulus(), coeffs) && forall|i: int|
                    0 <= i < n ==> #[trigger] r@[i].sx() == i + 1 && r@[i].sy()@
                        == GF2n::<W, N, A, B, C>::modulus().eval(
                        secret@,
                        coeffs,
                        GF2n::<W, N, A, B, C>::modulus().from_byte((i + 1) as u8),
                    ),
    {
        let polynom = generate_polynom(k);
        let r = Self::split_with_polynom(secret, &polynom, n);
        assert(views(polynom@).len() == k - 1);
        assert forall|i: int| 0 <= i < views(polynom@).len() implies #[trigger] GF2n::<W, N, A, B, C>::modulus().elem(
            views(polynom@)[i],
        ) by {
            polynom@[i].lemma_view_len();
        }
        r
    }

    fn reconstruct(shares: &[Self::Share], k: usize) -> (r: Option<GF2n<W, N, A, B, C>>)
        ensures
            r is Some,
            r->0@ == GF2n::<W, N, A, B, C>::modulus().interpolate(
                compact_xs(shares@),
                share_ys(shares@),
                GF2n::<W, N, A, B, C>::modulus().zero(),
                k as nat,
            ),
    {
        let y = Self::interpolate_at(shares, k, 0);
        proof {
            lemma_from_byte_zero::<W, N, A, B, C>();
        }
        Some(y)
    }

    fn reconstruct_at(shares: &[Self::Share], k: usize, x: u8) -> (r: Option<Self::Share>)
        ensures
            r is Some,
            r->0.sx() == x,
            r->0.sy()@ == GF2n::<W, N, A, B, C>::modulus().interpolate(
                compact_xs(shares@),
                share_ys(shares@),
                GF2n::<W, N, A, B, C>::modulus().from_byte(x),
                k as nat,
            ),
    {
        let y = Self::interpolate_at(shares, k, x);
        Some(Share { x, y })
    }

    fn parse_x(s: &str) -> (r: Option<u8>) {
        CompactShamir::parse_byte_x(s)
    }

    fn parse_share(s: &str) -> (r: Option<Share<u8, GF2n<W, N, A, B, C>>>) {
        CompactShamir::parse_compact_share(s)
    }
}

/// Greatest number of field elements that a random split draws before it
/// gives up; with at least 2^8 elements to draw from, this is never reached in
/// practice.
pub const MAX_DRAWS: u64 = 0xffff_ffff_ffff_ffff;

/// The parameters that a reconstruction from random shares needs: 1 <= k <=
/// 255, at least k shares, and pairwise distinct x coordinates.
pub open spec fn random_parameters_ok<W: Word, const N: usize, const A: usize, const B: usize, const C: usize>(
    shares: Seq<Share<GF2n<W, N, A, B, C>, GF2n<W, N, A, B, C>>>,
    k: usize,
) -> bool {
    &&& 1 <= k <= 255
    &&& k <= shares.len()
    &&& forall|i: int, j: int| 0 <= i < j < shares.len() ==> shares[i].sx()@ != shares[j].sx()@
}

/// Whether the elements of `xs` are non-zero and pairwise distinct.
pub open spec fn fresh_points<W: Word, const N: usize, const A: usize, const B: usize, const C: usize>(
    xs: Seq<GF2n<W, N, A, B, C>>,
) -> bool {
    &&& forall|i: int| 0 <= i < xs.len() ==> #[trigger] xs[i]@ != GF2n::<W, N, A, B, C>::modulus().zero()
    &&& forall|i: int, j: int| 0 <= i < j < xs.len() ==> xs[i]@ != xs[j]@
}

impl RandomShamir {
    /// Whether a drawn x coordinate can join the points already drawn: it
    /// must be non-zero and differ from each of them.
    pub fn accept_x<W: Word, const N: usize, const A: usize, const B: usize, const C: usize>(
        xs: &Vec<GF2n<W, N, A, B, C>>,
        x: &GF2n<W, N, A, B, C>,
    ) -> (r: bool)
        requires
            GF2n::<W, N, A, B, C>::valid(),
        ensures
            r == (x@ != GF2n::<W, N, A, B, C>::modulus().zero() && forall|j: int|
                0 <= j < xs@.len() ==> #[trigger] xs@[j]@ != x@),
    {
        if x.is_zero() {
            return false;
        }
        for j in 0..xs.len()
            invariant
                GF2n::<W, N, A, B, C>::valid(),
                forall|j2: int| 0 <= j2 < j ==> #[trigger] xs@[j2]@ != x@,
        {
            if xs[j].equals(x) {
                return false;
            }
        }
        true
    }

    /// The x coordinates 1, 2, ..., n as field elements.
    fn byte_points<W: Word, const N: usize, const A: usize, const B: usize, const C: usize>(n: usize) -> (r: Vec<GF2n<W, N, A, B, C>>)
        requires
            GF2n::<W, N, A, B, C>::valid(),
            n <= 255,
        ensures
            r@.len() == n,
            fresh_points(r@),
    {
        let ghost m = GF2n::<W, N, A, B, C>::modulus();
        proof {
            lemma_from_byte_zero::<W, N, A, B, C>();
        }
        let mut xs: Vec<GF2n<W, N, A, B, C>> = Vec::new();
        let mut i: usize = 0;
        while i < n
            invariant
                GF2n::<W, N, A, B, C>::valid(),
                m == GF2n::<W, N, A, B, C>::modulus(),
                m.from_byte(0) == m.zero(),
                i <= n <= 255,
                xs@.len() == i,
                forall|j: int| 0 <= j < i ==> #[trigger] xs@[j]@ == m.from_byte((j + 1) as u8),
            decreases n - i,
        {
            let x = GF2n::from_byte((i + 1) as u8);
            xs.push(x);
            i += 1;
        }
        proof {
            assert forall|j: int| 0 <= j < xs@.len() implies #[trigger] xs@[j]@ != m.zero() by {
                lemma_from_byte_injective::<W, N, A, B, C>((j + 1) as u8, 0);
            }
            assert forall|j1: int, j2: int| 0 <= j1 < j2 < xs@.len() implies xs@[j1]@ != xs@[j2]@ by {
                lemma_from_byte_injective::<W, N, A, B, C>((j1 + 1) as u8, (j2 + 1) as u8);
            }
        }
        xs
    }

    /// Draws n distinct non-zero x coordinates, rejecting the draws that are
    /// zero or already taken. Should `MAX_DRAWS` draws not suffice, the
    /// points 1, 2, ..., n are taken instead.
    fn draw_points<W: Word, const N: usize, const A: usize, const B: usize, const C: usize>(n: usize) -> (r: Vec<GF2n<W, N, A, B, C>>)
        requires
            GF2n::<W, N, A, B, C>::valid(),
            n <= 255,
        ensures
            r@.len() == n,
            fresh_points(r@),
    {
        let mut xs: Vec<GF2n<W, N, A, B, C>> = Vec::new();
        let mut draws: u64 = 0;
        while xs.len() < n && draws < MAX_DRAWS
            invariant
                GF2n::<W, N, A, B, C>::valid(),
                xs@.len() <= n,
                fresh_points(xs@),
            decreases MAX_DRAWS - draws,
        {
            draws += 1;
            let x = GF2n::uniform();
            if Self::accept_x(&xs, &x) {
                xs.push(x);
            }
        }
        if xs.len() < n {
            xs = Self::byte_points(n);
        }
        xs
    }

    /// The shares (x, P(x)) for x in `xs` of the polynomial
    /// P(x) = secret + polynom[0] x + polynom[1] x^2 + ...
    pub fn split_at_points<W: Word, const N: usize, const A: usize, const B: usize, const C: usize>(
        secret: &GF2n<W, N, A, B, C>,
        polynom: &Vec<GF2n<W, N, A, B, C>>,
        xs: &Vec<GF2n<W, N, A, B, C>>,
    ) -> (r: Vec<Share<GF2n<W, N, A, B, C>, GF2n<W, N, A, B, C>>>)
        requires
            GF2n::<W, N, A, B, C>::valid(),
        ensures
            r@.len() == xs@.len(),
            forall|i: int|
                0 <= i < xs@.len() ==> #[trigger] r@[i].sx() == xs@[i] && r@[i].sy()@
                    == GF2n::<W, N, A, B, C>::modulus().eval(secret@, views(polynom@), xs@[i]@),
    {
        let mut shares: Vec<Share<GF2n<W, N, A, B, C>, GF2n<W, N, A, B, C>>> = Vec::new();
        let mut i: usize = 0;
        while i < xs.len()
            invariant
                GF2n::<W, N, A, B, C>::valid(),
                i <= xs@.len(),
                shares@.len() == i,
                forall|j: int|
                    0 <= j < i ==> #[trigger] shares@[j].sx() == xs@[j] && shares@[j].sy()@
                        == GF2n::<W, N, A, B, C>::modulus().eval(secret@, views(polynom@), xs@[j]@),
            decreases xs@.len() - i,
        {
            let x = xs[i];
            let y = evaluate(secret, polynom, &x);
            shares.push(Share { x, y });
            i += 1;
        }
        shares
    }

    /// Parses a random x coordinate, in hexadecimal.
    pub fn parse_point<W: Word, const N: usize, const A: usize, const B: usize, const C: usize>(s: &str) -> (r: Option<GF2n<W, N, A, B, C>>)
        requires
            GF2n::<W, N, A, B, C>::valid(),
        ensures
            r is Some <==> (all_hex(s.spec_bytes()) && s.spec_bytes().len() == 2 * GF2n::<W, N, A, B, C>::nbytes()),
            r is Some ==> r->0@ == GF2n::<W, N, A, B, C>::bits_of_bytes(hex_bytes(s.spec_bytes())),
    {
        GF2n::from_hex(s.as_bytes())
    }

    /// Parses a random share `x|y`: x and y in hexadecimal.
    pub fn parse_random_share<W: Word, const N: usize, const A: usize, const B: usize, const C: usize>(
        s: &str,
    ) -> (r: Option<Share<GF2n<W, N, A, B, C>, GF2n<W, N, A, B, C>>>)
        requires
            GF2n::<W, N, A, B, C>::valid(),
        ensures
            r is Some <==> random_share_of::<W, N, A, B, C>(s.spec_bytes()) is Some,
            r is Some ==> random_share_of::<W, N, A, B, C>(s.spec_bytes()) == Some(
                (r->0.sx()@, r->0.sy()@),
            ),
    {
        let bs = s.as_bytes();
        let p = find_bar(bs);
        if p == bs.len() {
            return None;
        }
        let head = copy_range(bs, 0, p);
        let tail = copy_range(bs, p + 1, bs.len());
        let x = match GF2n::from_hex(head.as_slice()) {
            Some(x) => x,
            None => return None,
        };
        match GF2n::from_hex(tail.as_slice()) {
            Some(y) => Some(Share { x, y }),
            None => None,
        }
    }

    /// Lagrange interpolation at x through the first k shares.
    fn interpolate_at<W: Word, const N: usize, const A: usize, const B: usize, const C: usize>(
        shares: &[Share<GF2n<W, N, A, B, C>, GF2n<W, N, A, B, C>>],
        k: usize,
        x: &GF2n<W, N, A, B, C>,
    ) -> (r: GF2n<W, N, A, B, C>)
        requires
            GF2n::<W, N, A, B, C>::valid(),
            k <= shares@.len(),
        ensures
            r@ == GF2n::<W, N, A, B, C>::modulus().interpolate(
                random_xs(shares@),
                share_ys(shares@),
                x@,
                k as nat,
            ),
    {
        let ghost m = GF2n::<W, N, A, B, C>::modulus();
        let ghost xs = random_xs(shares@);
        let ghost ys = share_ys(shares@);
        let mut y = GF2n::zero();
        for i in 0..k
            invariant
                GF2n::<W, N, A, B, C>::valid(),
                m == GF2n::<W, N, A, B, C>::modulus(),
                k <= shares@.len(),
                xs == random_xs(shares@),
                ys == share_ys(shares@),
                y@ == m.lagrange_sum(xs, ys, x@, i as nat, k as nat),
        {
            let mut lagrange = GF2n::one();
            let mut denom = GF2n::one();
            let xi = shares[i].x;
            for j in 0..k
                invariant
                    GF2n::<W, N, A, B, C>::valid(),
                    m == GF2n::<W, N, A, B, C>::modulus(),
                    k <= shares@.len(),
                    i < k,
                    xi == shares@[i as int].sx(),
                    xs == random_xs(shares@),
                    lagrange@ == m.lagrange_prod(xs, x@, i as int, j as nat),
                    denom@ == m.lagrange_prod(xs, xs[i as int], i as int, j as nat),
            {
                if j != i {
                    let xj = shares[j].x;
                    lagrange = lagrange.mul(&xj.sub(*x));
                    denom = denom.mul(&xj.sub(xi));
                }
            }
            let term = lagrange.mul(&shares[i].y).mul(&denom.invert());
            y.add_assign(&term);
        }
        y
    }
}

impl<W: Word, const N: usize, const A: usize, const B: usize, const C: usize> Shamir<GF2n<W, N, A, B, C>> for RandomShamir {
    type X = GF2n<W, N, A, B, C>;
    type Share = Share<GF2n<W, N, A, B, C>, GF2n<W, N, A, B, C>>;

    open spec fn supported() -> bool {
        GF2n::<W, N, A, B, C>::valid()
    }

    open spec fn reconstructible(shares: Seq<Self::Share>, k: usize) -> bool {
        random_parameters_ok(shares, k)
    }

    open spec fn split_of(secret: GF2n<W, N, A, B, C>, k: usize, n: usize, shares: Seq<Self::Share>) -> bool {
        random_split_of(secret, k, n, shares)
    }

    open spec fn reconstruction(shares: Seq<Self::Share>, k: usize, r: GF2n<W, N, A, B, C>) -> bool {
        r@ == GF2n::<W, N, A, B, C>::modulus().interpolate(random_xs(shares), share_ys(shares), GF2n::<W, N, A, B, C>::modulus().zero(), k as nat)
    }

    open spec fn reconstruction_at(
        shares: Seq<Self::Share>,
        k: usize,
        x: GF2n<W, N, A, B, C>,
        r: Self::Share,
    ) -> bool {
        &&& r.sx() == x
        &&& r.sy()@ == GF2n::<W, N, A, B, C>::modulus().interpolate(random_xs(shares), share_ys(shares), x@, k as nat)
    }

    open spec fn x_parses_to(s: Seq<u8>, r: Option<GF2n<W, N, A, B, C>>) -> bool {
        &&& r is Some <==> (all_hex(s) && s.len() == 2 * GF2n::<W, N, A, B, C>::nbytes())
        &&& r is Some ==> r->0@ == GF2n::<W, N, A, B, C>::bits_of_bytes(hex_bytes(s))
    }

    open spec fn share_parses_to(s: Seq<u8>, r: Option<Self::Share>) -> bool {
        &&& r is Some <==> random_share_of::<W, N, A, B, C>(s) is Some
        &&& r is Some ==> random_share_of::<W, N, A, B, C>(s) == Some((r->0.sx()@, r->0.sy()@))
    }

    fn share(x: GF2n<W, N, A, B, C>, y: GF2n<W, N, A, B, C>) -> (r: Self::Share)
        ensures
            r.sx() == x,
            r.sy() == y,
    {
        Share { x, y }
    }

    fn split(secret: &GF2n<W, N, A, B, C>, k: usize, n: usize) -> (r: Vec<Self::Share>)
        ensures
            r@.len() == n,
            fresh_points(r@.map_values(|s: Self::Share| s.sx())),
            exists|coeffs: Seq<Seq<bool>>|
                coeffs.len() == k - 1 && all_elems(GF2n::<W, N, A, B, C>::modulus(), coeffs) && forall|i: int|
                    0 <= i < r@.len() ==> #[trigger] r@[i].sy()@
                        == GF2n::<W, N, A, B, C>::modulus().eval(secret@, coeffs, r@[i].sx()@),
    {
        let polynom = generate_polynom(k);
        let xs = Self::draw_points(n);
        let r = Self::split_at_points(secret, &polynom, &xs);
        assert(views(polynom@).len() == k - 1);
        assert forall|i: int| 0 <= i < views(polynom@).len() implies #[trigger] GF2n::<W, N, A, B, C>::modulus().elem(
            views(polynom@)[i],
        ) by {
            polynom@[i].lemma_view_len();
        }
        assert(r@.map_values(|s: Self::Share| s.sx()) =~= xs@);
        r
    }

    fn reconstruct(shares: &[Self::Share], k: usize) -> (r: Option<GF2n<W, N, A, B, C>>)
        ensures
            r is Some,
            r->0@ == GF2n::<W, N, A, B, C>::modulus().interpolate(
                random_xs(shares@),
                share_ys(shares@),
                GF2n::<W, N, A, B, C>::modulus().zero(),
                k as nat,
            ),
    {
        let zero = GF2n::zero();
        Some(Self::interpolate_at(shares, k, &zero))
    }

    fn reconstruct_at(shares: &[Self::Share], k: usize, x: GF2n<W, N, A, B, C>) -> (r: Option<Self::Share>)
        ensures
            r is Some,
            r->0.sx() == x,
            r->0.sy()@ == GF2n::<W, N, A, B, C>::modulus().interpolate(
                random_xs(shares@),
                share_ys(shares@),
                x@,
                k as nat,
            ),
    {
        let y = Self::interpolate_at(shares, k, &x);
        Some(Share { x, y })
    }

    fn parse_x(s: &str) -> (r: Option<GF2n<W, N, A, B, C>>) {
        RandomShamir::parse_point(s)
    }

    fn parse_share(s: &str) -> (r: Option<Share<GF2n<W, N, A, B, C>, GF2n<W, N, A, B, C>>>) {
        RandomShamir::parse_random_share(s)
    }
}

/// The text form of a compact share reads back as that share: a text `s`
/// that `to_text` can return for a share with x in 1..=255 parses to it.
pub proof fn lemma_compact_text_round_trip<W: Word, const N: usize, const A: usize, const B: usize, const C: usize>(
    share: Share<u8, GF2n<W, N, A, B, C>>,
    s: &str,
)
    requires
        GF2n::<W, N, A, B, C>::valid(),
        share.sx() >= 1,
        exists|b: Seq<u8>|
            b.len() == GF2n::<W, N, A, B, C>::nbytes() && GF2n::<W, N, A, B, C>::bits_of_bytes(b)
                == share.sy()@ && s@ == dec_chars(share.sx()) + seq!['|'] + hex_chars(b),
    ensures
        <CompactShamir as Shamir<GF2n<W, N, A, B, C>>>::share_parses_to(s.spec_bytes(), Some(share)),
        compact_share_of::<W, N, A, B, C>(s.spec_bytes()) == Some((share.sx(), share.sy()@)),
{
    let line = s@;
    let b = choose|b: Seq<u8>|
        b.len() == GF2n::<W, N, A, B, C>::nbytes() && GF2n::<W, N, A, B, C>::bits_of_bytes(b)
            == share.sy()@ && line == dec_chars(share.sx()) + seq!['|'] + hex_chars(b);
    lemma_dec_chars_range(share.sx());
    lemma_hex_chars_range(b);
    lemma_ascii_line(s, dec_chars(share.sx()), hex_chars(b));
    lemma_compact_line::<W, N, A, B, C>(share.sx(), b);
}

/// The line x | y, for x in 1..=255 in decimal and the bytes b of y in
/// hexadecimal, gives the share (x, y).
proof fn lemma_compact_line<W: Word, const N: usize, const A: usize, const B: usize, const C: usize>(x: u8, b: Seq<u8>)
    requires
        GF2n::<W, N, A, B, C>::valid(),
        x >= 1,
        b.len() == GF2n::<W, N, A, B, C>::nbytes(),
    ensures
        compact_share_of::<W, N, A, B, C>(ascii_bytes(dec_chars(x) + seq!['|'] + hex_chars(b))) == Some(
            (x, GF2n::<W, N, A, B, C>::bits_of_bytes(b)),
        ),
{
    let d = ascii_bytes(dec_chars(x));
    let h = ascii_bytes(hex_chars(b));
    lemma_ascii_concat(dec_chars(x), hex_chars(b));
    lemma_decimal_round_trip(x);
    lemma_hex_round_trip(b);
    lemma_split_at_bar(d, h);
}

/// The text form of a random share reads back as that share: a text `s`
/// that `to_text` can return for `share` parses to it.
pub proof fn lemma_random_text_round_trip<W: Word, const N: usize, const A: usize, const B: usize, const C: usize>(
    share: Share<GF2n<W, N, A, B, C>, GF2n<W, N, A, B, C>>,
    s: &str,
)
    requires
        GF2n::<W, N, A, B, C>::valid(),
        exists|a: Seq<u8>, b: Seq<u8>|
            a.len() == GF2n::<W, N, A, B, C>::nbytes() && b.len() == GF2n::<W, N, A, B, C>::nbytes()
                && GF2n::<W, N, A, B, C>::bits_of_bytes(a) == share.sx()@
                && GF2n::<W, N, A, B, C>::bits_of_bytes(b) == share.sy()@ && s@ == hex_chars(a)
                + seq!['|'] + hex_chars(b),
    ensures
        <RandomShamir as Shamir<GF2n<W, N, A, B, C>>>::share_parses_to(s.spec_bytes(), Some(share)),
        random_share_of::<W, N, A, B, C>(s.spec_bytes()) == Some((share.sx()@, share.sy()@)),
{
    let line = s@;
    let (a, b) = choose|a: Seq<u8>, b: Seq<u8>|
        a.len() == GF2n::<W, N, A, B, C>::nbytes() && b.len() == GF2n::<W, N, A, B, C>::nbytes()
            && GF2n::<W, N, A, B, C>::bits_of_bytes(a) == share.sx()@
            && GF2n::<W, N, A, B, C>::bits_of_bytes(b) == share.sy()@ && line == hex_chars(a)
            + seq!['|'] + hex_chars(b);
    lemma_hex_chars_range(a);
    lemma_hex_chars_range(b);
    lemma_ascii_line(s, hex_chars(a), hex_chars(b));
    lemma_random_line::<W, N, A, B, C>(a, b);
}

/// The line x | y, for the bytes a of x and b of y in hexadecimal, gives the
/// share (x, y).
proof fn lemma_random_line<W: Word, const N: usize, const A: usize, const B: usize, const C: usize>(
    a: Seq<u8>,
    b: Seq<u8>,
)
    requires
        GF2n::<W, N, A, B, C>::valid(),
        a.len() == GF2n::<W, N, A, B, C>::nbytes(),
        b.len() == GF2n::<W, N, A, B, C>::nbytes(),
    ensures
        random_share_of::<W, N, A, B, C>(ascii_bytes(hex_chars(a) + seq!['|'] + hex_chars(b))) == Some(
            (GF2n::<W, N, A, B, C>::bits_of_bytes(a), GF2n::<W, N, A, B, C>::bits_of_bytes(b)),
        ),
{
    let g = ascii_bytes(hex_chars(a));
    let h = ascii_bytes(hex_chars(b));
    lemma_ascii_concat(hex_chars(a), hex_chars(b));
    lemma_hex_round_trip(a);
    lemma_hex_round_trip(b);
    assert forall|i: int| 0 <= i < g.len() implies #[trigger] g[i] != 124 by {
        assert(crate::text::is_hex(g[i]));
    }
    lemma_split_at_bar(g, h);
}

/// The byte 0 gives the zero element.
proof fn lemma_from_byte_zero<W: Word, const N: usize, const A: usize, const B: usize, const C: usize>()
    ensures
        GF2n::<W, N, A, B, C>::modulus().from_byte(0) == GF2n::<W, N, A, B, C>::modulus().zero(),
{
    let m = GF2n::<W, N, A, B, C>::modulus();
    assert(forall|b: u8| (0u8 >> b) & 1 != 1) by (bit_vector);
    assert(m.from_byte(0) =~= m.zero());
}

/// Distinct bytes give distinct elements.
proof fn lemma_from_byte_injective<W: Word, const N: usize, const A: usize, const B: usize, const C: usize>(u: u8, v: u8)
    requires
        GF2n::<W, N, A, B, C>::valid(),
        u != v,
    ensures
        GF2n::<W, N, A, B, C>::modulus().from_byte(u) != GF2n::<W, N, A, B, C>::modulus().from_byte(v),
{
    let m = GF2n::<W, N, A, B, C>::modulus();
    GF2n::<W, N, A, B, C>::lemma_modulus_wf();
    if m.from_byte(u) == m.from_byte(v) {
        assert(m.from_byte(u)[0] == m.from_byte(v)[0]);
        assert(m.from_byte(u)[1] == m.from_byte(v)[1]);
        assert(m.from_byte(u)[2] == m.from_byte(v)[2]);
        assert(m.from_byte(u)[3] == m.from_byte(v)[3]);
        assert(m.from_byte(u)[4] == m.from_byte(v)[4]);
        assert(m.from_byte(u)[5] == m.from_byte(v)[5]);
        assert(m.from_byte(u)[6] == m.from_byte(v)[6]);
        assert(m.from_byte(u)[7] == m.from_byte(v)[7]);
        assert(u == v) by (bit_vector)
            requires
                ((u >> 0u8) & 1 == 1) == ((v >> 0u8) & 1 == 1),
                ((u >> 1u8) & 1 == 1) == ((v >> 1u8) & 1 == 1),
                ((u >> 2u8) & 1 == 1) == ((v >> 2u8) & 1 == 1),
                ((u >> 3u8) & 1 == 1) == ((v >> 3u8) & 1 == 1),
                ((u >> 4u8) & 1 == 1) == ((v >> 4u8) & 1 == 1),
                ((u >> 5u8) & 1 == 1) == ((v >> 5u8) & 1 == 1),
                ((u >> 6u8) & 1 == 1) == ((v >> 6u8) & 1 == 1),
                ((u >> 7u8) & 1 == 1) == ((v >> 7u8) & 1 == 1),
        ;
    }
}

/// Compact shares with distinct x coordinates on one polynomial of k
/// coefficients interpolate to that polynomial, in a field.
proof fn lemma_compact_on_polynomial<W: Word, const N: usize, const A: usize, const B: usize, const C: usize>(
    shares: Seq<Share<u8, GF2n<W, N, A, B, C>>>,
    k: usize,
    secret: Seq<bool>,
    coeffs: Seq<Seq<bool>>,
    x: Seq<bool>,
)
    requires
        GF2n::<W, N, A, B, C>::valid(),
        GF2n::<W, N, A, B, C>::modulus().has_inverses(),
        reconstruct_parameters_ok(shares, k),
        k == coeffs.len() + 1,
        GF2n::<W, N, A, B, C>::modulus().elem(secret),
        all_elems(GF2n::<W, N, A, B, C>::modulus(), coeffs),
        GF2n::<W, N, A, B, C>::modulus().elem(x),
        forall|i: int|
            0 <= i < shares.len() ==> #[trigger] shares[i].sy()@ == GF2n::<W, N, A, B, C>::modulus().eval(
                secret,
                coeffs,
                GF2n::<W, N, A, B, C>::modulus().from_byte(shares[i].sx()),
            ),
    ensures
        GF2n::<W, N, A, B, C>::modulus().interpolate(compact_xs(shares), share_ys(shares), x, k as nat)
            == GF2n::<W, N, A, B, C>::modulus().eval(secret, coeffs, x),
{
    let m = GF2n::<W, N, A, B, C>::modulus();
    let xs = compact_xs(shares);
    let ys = share_ys(shares);
    GF2n::<W, N, A, B, C>::lemma_modulus_wf();
    assert forall|i: int| 0 <= i < ys.len() implies #[trigger] m.elem(ys[i]) by {
        shares[i].sy().lemma_view_len();
    }
    assert forall|i1: int, i2: int| 0 <= i1 < i2 < xs.len() implies xs[i1] != xs[i2] by {
        lemma_from_byte_injective::<W, N, A, B, C>(shares[i1].sx(), shares[i2].sx());
    }
    assert forall|i: int| 0 <= i < k implies #[trigger] ys[i] == m.eval(secret, coeffs, xs[i]) by {
        assert(shares[i].sy()@ == m.eval(secret, coeffs, m.from_byte(shares[i].sx())));
    }
    lemma_interpolation_exact(m, xs, ys, secret, coeffs, x, k as nat);
}

/// The shares that a random split returns: n points with distinct non-zero
/// x coordinates on a polynomial with constant term `secret` and k - 1 other
/// coefficients.
pub open spec fn random_split_of<W: Word, const N: usize, const A: usize, const B: usize, const C: usize>(
    secret: GF2n<W, N, A, B, C>,
    k: usize,
    n: usize,
    shares: Seq<Share<GF2n<W, N, A, B, C>, GF2n<W, N, A, B, C>>>,
) -> bool {
    &&& shares.len() == n
    &&& fresh_points(shares.map_values(|s: Share<GF2n<W, N, A, B, C>, GF2n<W, N, A, B, C>>| s.sx()))
    &&& exists|coeffs: Seq<Seq<bool>>|
        coeffs.len() == k - 1 && all_elems(GF2n::<W, N, A, B, C>::modulus(), coeffs) && forall|i: int|
            0 <= i < shares.len() ==> #[trigger] shares[i].sy()@ == GF2n::<W, N, A, B, C>::modulus().eval(
                secret@,
                coeffs,
                shares[i].sx()@,
            )
}

/// The shares that a compact split returns: n of them, share i at x = i + 1
/// on a polynomial with constant term `secret` and k - 1 other coefficients.
pub open spec fn compact_split_of<W: Word, const N: usize, const A: usize, const B: usize, const C: usize>(
    secret: GF2n<W, N, A, B, C>,
    k: usize,
    n: usize,
    shares: Seq<Share<u8, GF2n<W, N, A, B, C>>>,
) -> bool {
    &&& shares.len() == n
    &&& exists|coeffs: Seq<Seq<bool>>|
        coeffs.len() == k - 1 && all_elems(GF2n::<W, N, A, B, C>::modulus(), coeffs) && forall|i: int|
            0 <= i < n ==> #[trigger] shares[i].sx() == i + 1 && shares[i].sy()@
                == GF2n::<W, N, A, B, C>::modulus().eval(
                secret@,
                coeffs,
                GF2n::<W, N, A, B, C>::modulus().from_byte((i + 1) as u8),
            )
}

/// Round trip, in a field: the shares of a compact split can be
/// reconstructed, and reconstructing them gives the secret back. Any k of
/// them do: `shares` may be the split's shares taken at the distinct indices
/// `idx`, in any order.
pub proof fn lemma_compact_round_trip<W: Word, const N: usize, const A: usize, const B: usize, const C: usize>(
    secret: GF2n<W, N, A, B, C>,
    k: usize,
    n: usize,
    split: Seq<Share<u8, GF2n<W, N, A, B, C>>>,
    idx: Seq<int>,
)
    requires
        GF2n::<W, N, A, B, C>::valid(),
        GF2n::<W, N, A, B, C>::modulus().has_inverses(),
        split_parameters_ok(k, n),
        compact_split_of(secret, k, n, split),
        idx.len() == k,
        forall|t: int| 0 <= t < k ==> 0 <= #[trigger] idx[t] < n,
        forall|t1: int, t2: int| 0 <= t1 < t2 < k ==> idx[t1] != idx[t2],
    ensures
        ({
            let shares = Seq::new(k as nat, |t: int| split[idx[t]]);
            &&& reconstruct_parameters_ok(shares, k)
            &&& GF2n::<W, N, A, B, C>::modulus().interpolate(
                compact_xs(shares),
                share_ys(shares),
                GF2n::<W, N, A, B, C>::modulus().zero(),
                k as nat,
            ) == secret@
        }),
{
    let m = GF2n::<W, N, A, B, C>::modulus();
    let shares = Seq::new(k as nat, |t: int| split[idx[t]]);
    let coeffs = choose|coeffs: Seq<Seq<bool>>|
        coeffs.len() == k - 1 && all_elems(m, coeffs) && forall|i: int|
            0 <= i < n ==> #[trigger] split[i].sx() == i + 1 && split[i].sy()@ == m.eval(
                secret@,
                coeffs,
                m.from_byte((i + 1) as u8),
            );
    GF2n::<W, N, A, B, C>::lemma_modulus_wf();
    secret.lemma_view_len();
    assert forall|t1: int, t2: int| 0 <= t1 < t2 < shares.len() implies shares[t1].sx() != shares[t2].sx() by {
        assert(split[idx[t1]].sx() == idx[t1] + 1);
        assert(split[idx[t2]].sx() == idx[t2] + 1);
    }
    assert forall|t: int| 0 <= t < shares.len() implies #[trigger] shares[t].sy()@ == m.eval(
        secret@,
        coeffs,
        m.from_byte(shares[t].sx()),
    ) by {
        assert(split[idx[t]].sx() == idx[t] + 1);
    }
    lemma_compact_on_polynomial(shares, k, secret@, coeffs, m.zero());
    lemma_eval_at_zero(m, secret@, coeffs, coeffs.len());
}

/// In a field, reconstructing the shares of a compact split at the x
/// coordinate of any of them gives that share, and at 0 the secret.
pub proof fn lemma_compact_reconstruct_at_split<W: Word, const N: usize, const A: usize, const B: usize, const C: usize>(
    secret: GF2n<W, N, A, B, C>,
    k: usize,
    n: usize,
    shares: Seq<Share<u8, GF2n<W, N, A, B, C>>>,
    j: int,
)
    requires
        GF2n::<W, N, A, B, C>::valid(),
        GF2n::<W, N, A, B, C>::modulus().has_inverses(),
        split_parameters_ok(k, n),
        compact_split_of(secret, k, n, shares),
        0 <= j < n,
    ensures
        reconstruct_parameters_ok(shares, k),
        GF2n::<W, N, A, B, C>::modulus().interpolate(
            compact_xs(shares),
            share_ys(shares),
            GF2n::<W, N, A, B, C>::modulus().from_byte(shares[j].sx()),
            k as nat,
        ) == shares[j].sy()@,
        GF2n::<W, N, A, B, C>::modulus().interpolate(
            compact_xs(shares),
            share_ys(shares),
            GF2n::<W, N, A, B, C>::modulus().from_byte(0),
            k as nat,
        ) == secret@,
{
    let m = GF2n::<W, N, A, B, C>::modulus();
    let coeffs = choose|coeffs: Seq<Seq<bool>>|
        coeffs.len() == k - 1 && all_elems(m, coeffs) && forall|i: int|
            0 <= i < n ==> #[trigger] shares[i].sx() == i + 1 && shares[i].sy()@ == m.eval(
                secret@,
                coeffs,
                m.from_byte((i + 1) as u8),
            );
    GF2n::<W, N, A, B, C>::lemma_modulus_wf();
    secret.lemma_view_len();
    assert forall|t1: int, t2: int| 0 <= t1 < t2 < shares.len() implies shares[t1].sx() != shares[t2].sx() by {
        assert(shares[t1].sx() == t1 + 1);
        assert(shares[t2].sx() == t2 + 1);
    }
    assert forall|t: int| 0 <= t < shares.len() implies #[trigger] shares[t].sy()@ == m.eval(
        secret@,
        coeffs,
        m.from_byte(shares[t].sx()),
    ) by {
        assert(shares[t].sx() == t + 1);
    }
    lemma_compact_on_polynomial(shares, k, secret@, coeffs, m.from_byte(shares[j].sx()));
    lemma_from_byte_zero::<W, N, A, B, C>();
    lemma_compact_on_polynomial(shares, k, secret@, coeffs, m.from_byte(0));
    lemma_eval_at_zero(m, secret@, coeffs, coeffs.len());
}

/// Round trip, in a field: random shares with distinct non-zero x
/// coordinates on one polynomial of k coefficients, as a random split
/// returns them, reconstruct to its constant term, from any k of them, and
/// reconstructing them at the x coordinate of any of them gives that share.
pub proof fn lemma_random_round_trip<W: Word, const N: usize, const A: usize, const B: usize, const C: usize>(
    secret: GF2n<W, N, A, B, C>,
    k: usize,
    shares: Seq<Share<GF2n<W, N, A, B, C>, GF2n<W, N, A, B, C>>>,
    coeffs: Seq<Seq<bool>>,
    j: int,
)
    requires
        GF2n::<W, N, A, B, C>::valid(),
        GF2n::<W, N, A, B, C>::modulus().has_inverses(),
        1 <= k <= 255,
        k <= shares.len(),
        0 <= j < shares.len(),
        fresh_points(shares.map_values(|s: Share<GF2n<W, N, A, B, C>, GF2n<W, N, A, B, C>>| s.sx())),
        coeffs.len() == k - 1,
        all_elems(GF2n::<W, N, A, B, C>::modulus(), coeffs),
        forall|i: int|
            0 <= i < shares.len() ==> #[trigger] shares[i].sy()@ == GF2n::<W, N, A, B, C>::modulus().eval(
                secret@,
                coeffs,
                shares[i].sx()@,
            ),
    ensures
        random_parameters_ok(shares, k),
        GF2n::<W, N, A, B, C>::modulus().interpolate(
            random_xs(shares),
            share_ys(shares),
            GF2n::<W, N, A, B, C>::modulus().zero(),
            k as nat,
        ) == secret@,
        GF2n::<W, N, A, B, C>::modulus().interpolate(
            random_xs(shares),
            share_ys(shares),
            shares[j].sx()@,
            k as nat,
        ) == shares[j].sy()@,
{
    let m = GF2n::<W, N, A, B, C>::modulus();
    let xs = random_xs(shares);
    let ys = share_ys(shares);
    let pts = shares.map_values(|s: Share<GF2n<W, N, A, B, C>, GF2n<W, N, A, B, C>>| s.sx());
    GF2n::<W, N, A, B, C>::lemma_modulus_wf();
    secret.lemma_view_len();
    assert forall|i1: int, i2: int| 0 <= i1 < i2 < shares.len() implies shares[i1].sx()@ != shares[i2].sx()@ by {
        assert(pts[i1] == shares[i1].sx());
        assert(pts[i2] == shares[i2].sx());
    }
    assert forall|i: int| 0 <= i < ys.len() implies #[trigger] m.elem(ys[i]) by {
        shares[i].sy().lemma_view_len();
    }
    assert forall|i: int| 0 <= i < xs.len() implies #[trigger] m.elem(xs[i]) by {
        shares[i].sx().lemma_view_len();
    }
    assert forall|i: int| 0 <= i < k implies #[trigger] ys[i] == m.eval(secret@, coeffs, xs[i]) by {
        assert(shares[i].sy()@ == m.eval(secret@, coeffs, shares[i].sx()@));
    }
    lemma_interpolation_exact(m, xs, ys, secret@, coeffs, m.zero(), k as nat);
    lemma_eval_at_zero(m, secret@, coeffs, coeffs.len());
    shares[j].sx().lemma_view_len();
    lemma_interpolation_exact(m, xs, ys, secret@, coeffs, shares[j].sx()@, k as nat);
    assert(ys[j] == m.eval(secret@, coeffs, xs[j]));
}

/// Round trip for random splits, in a field: any k of the shares of a random
/// split, at the distinct indices `idx` in any order, can be reconstructed
/// and give the secret back, and reconstructing all of them at the x
/// coordinate of share j gives share j.
pub proof fn lemma_random_split_round_trip<W: Word, const N: usize, const A: usize, const B: usize, const C: usize>(
    secret: GF2n<W, N, A, B, C>,
    k: usize,
    n: usize,
    split: Seq<Share<GF2n<W, N, A, B, C>, GF2n<W, N, A, B, C>>>,
    idx: Seq<int>,
    j: int,
)
    requires
        GF2n::<W, N, A, B, C>::valid(),
        GF2n::<W, N, A, B, C>::modulus().has_inverses(),
        split_parameters_ok(k, n),
        random_split_of(secret, k, n, split),
        idx.len() == k,
        forall|t: int| 0 <= t < k ==> 0 <= #[trigger] idx[t] < n,
        forall|t1: int, t2: int| 0 <= t1 < t2 < k ==> idx[t1] != idx[t2],
        0 <= j < n,
    ensures
        ({
            let m = GF2n::<W, N, A, B, C>::modulus();
            let shares = Seq::new(k as nat, |t: int| split[idx[t]]);
            &&& random_parameters_ok(shares, k)
            &&& m.interpolate(random_xs(shares), share_ys(shares), m.zero(), k as nat) == secret@
            &&& random_parameters_ok(split, k)
            &&& m.interpolate(random_xs(split), share_ys(split), split[j].sx()@, k as nat) == split[j].sy()@
        }),
{
    let m = GF2n::<W, N, A, B, C>::modulus();
    let shares = Seq::new(k as nat, |t: int| split[idx[t]]);
    let coeffs = choose|coeffs: Seq<Seq<bool>>|
        coeffs.len() == k - 1 && all_elems(m, coeffs) && forall|i: int|
            0 <= i < split.len() ==> #[trigger] split[i].sy()@ == m.eval(secret@, coeffs, split[i].sx()@);
    let pts = split.map_values(|s: Share<GF2n<W, N, A, B, C>, GF2n<W, N, A, B, C>>| s.sx());
    let sub = shares.map_values(|s: Share<GF2n<W, N, A, B, C>, GF2n<W, N, A, B, C>>| s.sx());
    assert forall|t: int| 0 <= t < sub.len() implies #[trigger] sub[t]@ != m.zero() by {
        assert(sub[t] == pts[idx[t]]);
    }
    assert forall|t1: int, t2: int| 0 <= t1 < t2 < sub.len() implies sub[t1]@ != sub[t2]@ by {
        assert(sub[t1] == pts[idx[t1]]);
        assert(sub[t2] == pts[idx[t2]]);
    }
    assert forall|t: int| 0 <= t < shares.len() implies #[trigger] shares[t].sy()@ == m.eval(
        secret@,
        coeffs,
        shares[t].sx()@,
    ) by {
        assert(split[idx[t]].sy()@ == m.eval(secret@, coeffs, split[idx[t]].sx()@));
    }
    lemma_random_round_trip(secret, k, shares, coeffs, 0);
    lemma_random_round_trip(secret, k, split, coeffs, j);
}

} // verus!
