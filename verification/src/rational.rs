//! Exact arithmetic on fractions of 64-bit integers.
//!
//! A `Rational` stands for a rational number; its view is that number. Every
//! operation gives the exact result, or nothing if the result is no fraction
//! of two integers that fit in 64 bits.

use vstd::arithmetic::div_mod::{
    lemma_fundamental_div_mod, lemma_fundamental_div_mod_converse, lemma_mod_bound,
};
use vstd::prelude::*;

verus! {

/// The fraction `n / d` as a number.
pub open spec fn frac(n: int, d: int) -> real {
    (n as real) / (d as real)
}

/// Whether numerator and denominator can be held: the denominator is
/// positive, and both are at most `i64::MAX` in absolute value.
pub open spec fn in_range(n: int, d: int) -> bool {
    &&& -(i64::MAX as int) <= n <= i64::MAX
    &&& 1 <= d <= i64::MAX
}

/// Whether the number `v` can be held: it is a fraction of two integers
/// that can be held.
pub open spec fn representable(v: real) -> bool {
    exists|n: int, d: int| in_range(n, d) && v == #[trigger] frac(n, d)
}

/// `v` if it can be held.
pub open spec fn kept(v: real) -> Option<real> {
    if representable(v) {
        Some(v)
    } else {
        None
    }
}

/// The absolute value of `v`.
pub open spec fn abs(v: real) -> real {
    if v < 0real {
        -v
    } else {
        v
    }
}

/// `v` as an unsigned integer of 32 bits: rounded towards zero, with 0 for a
/// negative number and `u32::MAX` for one that is too large.
pub open spec fn truncated(v: real) -> u32 {
    if v < 0real {
        0
    } else if v.floor() > u32::MAX {
        u32::MAX
    } else {
        v.floor() as u32
    }
}

/// The greatest common divisor of `a` and `b`, by Euclid's algorithm.
pub open spec fn gcd(a: nat, b: nat) -> nat
    decreases b,
{
    if b == 0 {
        a
    } else {
        gcd(b, a % b)
    }
}

/// The absolute value of `x`.
pub open spec fn magnitude(x: int) -> nat {
    if x < 0 {
        (-x) as nat
    } else {
        x as nat
    }
}

/// Where `x` is `d` times `q`, the quotient of `x` by `d` is `q`.
proof fn lemma_div_exact(x: int, d: int, q: int)
    requires
        d > 0,
        x == d * q,
    ensures
        x / d == q,
{
    assert(x == q * d + 0) by (nonlinear_arith)
        requires
            x == d * q,
    ;
    lemma_fundamental_div_mod_converse(x, d, q, 0);
}

/// The greatest common divisor of two numbers, not both zero, is positive
/// and divides both.
pub proof fn lemma_gcd_divides(a: nat, b: nat)
    requires
        a > 0 || b > 0,
    ensures
        gcd(a, b) > 0,
        a == gcd(a, b) * (a / gcd(a, b)),
        b == gcd(a, b) * (b / gcd(a, b)),
    decreases b,
{
    if b == 0 {
        lemma_div_exact(a as int, a as int, 1);
        lemma_div_exact(0, a as int, 0);
    } else {
        let r = a % b;
        lemma_mod_bound(a as int, b as int);
        lemma_gcd_divides(b, r);
        let g = gcd(a, b);
        let bq = b / g;
        let rq = r / g;
        lemma_fundamental_div_mod(a as int, b as int);
        let k = (a / b) as int;
        assert(a == g * (bq * k + rq)) by (nonlinear_arith)
            requires
                a == b * k + r,
                b == g * bq,
                r == g * rq,
        ;
        lemma_div_exact(a as int, g as int, bq * k + rq);
    }
}

/// The greatest common divisor of two numbers is a sum of multiples of them.
pub proof fn lemma_bezout(a: nat, b: nat) -> (uv: (int, int))
    ensures
        uv.0 * a + uv.1 * b == gcd(a, b),
    decreases b,
{
    if b == 0 {
        (1, 0)
    } else {
        let r = a % b;
        lemma_mod_bound(a as int, b as int);
        let (u, v) = lemma_bezout(b, r);
        lemma_fundamental_div_mod(a as int, b as int);
        let k = (a / b) as int;
        let g = gcd(a, b) as int;
        assert(v * a + (u - v * k) * b == g) by (nonlinear_arith)
            requires
                a == b * k + r,
                u * b + v * r == g,
        ;
        (v, u - v * k)
    }
}

/// Numerator and denominator of the fraction `n / d` in lowest terms, with a
/// positive denominator.
pub open spec fn lowest_terms(n: int, d: int) -> (int, int)
    recommends
        d != 0,
{
    let g = gcd(magnitude(n), magnitude(d));
    let top = (magnitude(n) / g) as int;
    (
        if (n < 0) != (d < 0) {
            -top
        } else {
            top
        },
        (magnitude(d) / g) as int,
    )
}

/// A fraction in lowest terms has a positive denominator and the value of
/// the fraction it comes from.
pub proof fn lemma_lowest_terms_value(n: int, d: int)
    requires
        d != 0,
    ensures
        lowest_terms(n, d).1 > 0,
        frac(lowest_terms(n, d).0, lowest_terms(n, d).1) == frac(n, d),
        n == 0 <==> lowest_terms(n, d).0 == 0,
{
    let a = magnitude(n);
    let b = magnitude(d);
    let g = gcd(a, b);
    lemma_gcd_divides(a, b);
    let an = (a / g) as int;
    let bn = (b / g) as int;
    assert(bn > 0 && (an == 0 <==> a == 0)) by (nonlinear_arith)
        requires
            a == g * an,
            b == g * bn,
            b > 0,
            g > 0,
            an >= 0,
            bn >= 0,
    ;
    let gr = g as real;
    let anr = an as real;
    let bnr = bn as real;
    assert((g * an) as real == (g as real) * (an as real)) by (nonlinear_arith);
    assert((g * bn) as real == (g as real) * (bn as real)) by (nonlinear_arith);
    assert((a as real) == gr * anr);
    assert((b as real) == gr * bnr);
    assert((gr * anr) / (gr * bnr) == anr / bnr) by (nonlinear_arith)
        requires
            gr > 0real,
            bnr > 0real,
    ;
    assert((-(gr * anr)) / (gr * bnr) == (-anr) / bnr) by (nonlinear_arith)
        requires
            gr > 0real,
            bnr > 0real,
    ;
    assert((gr * anr) / (-(gr * bnr)) == (-anr) / bnr) by (nonlinear_arith)
        requires
            gr > 0real,
            bnr > 0real,
    ;
    assert((-(gr * anr)) / (-(gr * bnr)) == anr / bnr) by (nonlinear_arith)
        requires
            gr > 0real,
            bnr > 0real,
    ;
    assert((-an) as real == -anr);
}

/// Numerator and denominator of a fraction in lowest terms have no common
/// divisor but 1.
pub proof fn lemma_lowest_terms_coprime(n: int, d: int)
    requires
        d != 0,
    ensures
        gcd(magnitude(lowest_terms(n, d).0), magnitude(lowest_terms(n, d).1)) == 1,
{
    let a = magnitude(n);
    let b = magnitude(d);
    let g = gcd(a, b) as int;
    lemma_gcd_divides(a, b);
    let an = a / (g as nat);
    let bn = b / (g as nat);
    assert(bn > 0) by (nonlinear_arith)
        requires
            b == g * bn,
            b > 0,
            g > 0,
    ;
    let (u, v) = lemma_bezout(a, b);
    assert(u * an + v * bn == 1) by (nonlinear_arith)
        requires
            u * a + v * b == g,
            a == g * an,
            b == g * bn,
            g > 0,
    ;
    let h = gcd(an, bn) as int;
    lemma_gcd_divides(an, bn);
    let x = (an / (h as nat)) as int;
    let y = (bn / (h as nat)) as int;
    let w = u * x + v * y;
    assert(h * w == 1) by (nonlinear_arith)
        requires
            u * an + v * bn == 1,
            an == h * x,
            bn == h * y,
            w == u * x + v * y,
    ;
    lemma_unit(h, w);
}

/// A positive divisor of 1 is 1.
proof fn lemma_unit(h: int, w: int)
    requires
        h > 0,
        h * w == 1,
    ensures
        h == 1,
{
    assert(w > 0) by (nonlinear_arith)
        requires
            h > 0,
            h * w == 1,
    ;
    assert(h * w >= h) by (nonlinear_arith)
        requires
            h > 0,
            w >= 1,
    ;
}

/// Two fractions with the same value have the same cross products.
pub proof fn lemma_frac_equal(n: int, d: int, p: int, q: int)
    requires
        d != 0,
        q != 0,
    ensures
        frac(n, d) == frac(p, q) <==> n * q == p * d,
{
    let nr = n as real;
    let dr = d as real;
    let pr = p as real;
    let qr = q as real;
    assert((n * q) as real == (n as real) * (q as real)) by (nonlinear_arith);
    assert((p * d) as real == (p as real) * (d as real)) by (nonlinear_arith);
    assert(nr / dr == pr / qr <==> nr * qr == pr * dr) by (nonlinear_arith)
        requires
            dr != 0real,
            qr != 0real,
    ;
}

/// Of all fractions with a positive denominator that have the value of
/// `n / d`, the one in lowest terms has the least numerator and denominator.
pub proof fn lemma_lowest_terms_least(n: int, d: int, p: int, q: int)
    requires
        d != 0,
        q > 0,
        frac(p, q) == frac(n, d),
    ensures
        lowest_terms(n, d).1 <= q,
        magnitude(lowest_terms(n, d).0) <= magnitude(p),
{
    let a = magnitude(n);
    let b = magnitude(d);
    let g = gcd(a, b) as int;
    lemma_gcd_divides(a, b);
    let an = (a / (g as nat)) as int;
    let bn = (b / (g as nat)) as int;
    let (u, v) = lemma_bezout(a, b);
    lemma_frac_equal(p, q, n, d);
    let m = magnitude(p) as int;
    // The cross products are equal in absolute value.
    assert(m * b == a * q) by (nonlinear_arith)
        requires
            p * d == n * q,
            q > 0,
            m == if p < 0 {
                -p
            } else {
                p
            },
            a == if n < 0 {
                -n
            } else {
                n
            },
            b == if d < 0 {
                -d
            } else {
                d
            },
    ;
    assert(bn > 0) by (nonlinear_arith)
        requires
            b == g * bn,
            b > 0,
            g > 0,
            bn >= 0,
    ;
    assert(m * bn == an * q) by (nonlinear_arith)
        requires
            m * b == a * q,
            a == g * an,
            b == g * bn,
            g > 0,
    ;
    assert(u * an + v * bn == 1) by (nonlinear_arith)
        requires
            u * a + v * b == g,
            a == g * an,
            b == g * bn,
            g > 0,
    ;
    let k = u * m + v * q;
    assert(q == bn * k) by (nonlinear_arith)
        requires
            u * an + v * bn == 1,
            m * bn == an * q,
            k == u * m + v * q,
    ;
    assert(k >= 1 && bn <= q) by (nonlinear_arith)
        requires
            q == bn * k,
            q > 0,
            bn > 0,
    ;
    assert(m == an * k) by (nonlinear_arith)
        requires
            m * bn == an * q,
            q == bn * k,
            bn > 0,
    ;
    assert(an <= m) by (nonlinear_arith)
        requires
            m == an * k,
            k >= 1,
            an >= 0,
    ;
}

/// Where the fraction in lowest terms cannot be held, no fraction of the
/// same value can.
pub proof fn lemma_not_representable(n: int, d: int)
    requires
        d != 0,
        !in_range(lowest_terms(n, d).0, lowest_terms(n, d).1),
    ensures
        !representable(frac(n, d)),
{
    lemma_lowest_terms_value(n, d);
    assert forall|p: int, q: int| in_range(p, q) implies frac(n, d) != #[trigger] frac(p, q) by {
        if frac(n, d) == frac(p, q) {
            lemma_lowest_terms_least(n, d, p, q);
        }
    }
}

/// A whole number can be held if and only if it is at most `i64::MAX` in
/// absolute value.
pub proof fn lemma_integer_representable(n: int)
    ensures
        representable(n as real) <==> -(i64::MAX as int) <= n <= i64::MAX,
{
    assert(frac(n, 1) == n as real) by (nonlinear_arith);
    assert(gcd(magnitude(n), 1) == 1) by {
        lemma_gcd_divides(magnitude(n), 1);
        let g = gcd(magnitude(n), 1) as int;
        lemma_unit(g, (1nat / (g as nat)) as int);
    }
    assert(lowest_terms(n, 1) == (n, 1int));
    if -(i64::MAX as int) <= n <= i64::MAX {
        assert(in_range(n, 1));
    } else {
        lemma_not_representable(n, 1);
    }
}

/// The sum of two fractions is the fraction of their cross products.
proof fn lemma_frac_sum(a: int, b: int, c: int, d: int)
    requires
        b != 0,
        d != 0,
    ensures
        b * d != 0,
        frac(a * d + c * b, b * d) == frac(a, b) + frac(c, d),
        frac(a * d - c * b, b * d) == frac(a, b) - frac(c, d),
{
    assert(b * d != 0) by (nonlinear_arith)
        requires
            b != 0,
            d != 0,
    ;
    assert((a * d + c * b) as real == (a as real) * (d as real) + (c as real) * (b as real))
        by (nonlinear_arith);
    assert((a * d - c * b) as real == (a as real) * (d as real) - (c as real) * (b as real))
        by (nonlinear_arith);
    assert((b * d) as real == (b as real) * (d as real)) by (nonlinear_arith);
    let ar = a as real;
    let br = b as real;
    let cr = c as real;
    let dr = d as real;
    assert((ar * dr + cr * br) / (br * dr) == ar / br + cr / dr) by (nonlinear_arith)
        requires
            br != 0real,
            dr != 0real,
    ;
    assert((ar * dr - cr * br) / (br * dr) == ar / br - cr / dr) by (nonlinear_arith)
        requires
            br != 0real,
            dr != 0real,
    ;
}

/// The product of two fractions is the fraction of the products.
proof fn lemma_frac_product(a: int, b: int, c: int, d: int)
    requires
        b != 0,
        d != 0,
    ensures
        b * d != 0,
        frac(a * c, b * d) == frac(a, b) * frac(c, d),
{
    assert(b * d != 0) by (nonlinear_arith)
        requires
            b != 0,
            d != 0,
    ;
    assert((a * c) as real == (a as real) * (c as real)) by (nonlinear_arith);
    assert((b * d) as real == (b as real) * (d as real)) by (nonlinear_arith);
    let ar = a as real;
    let br = b as real;
    let cr = c as real;
    let dr = d as real;
    assert((ar * cr) / (br * dr) == (ar / br) * (cr / dr)) by (nonlinear_arith)
        requires
            br != 0real,
            dr != 0real,
    ;
}

/// The quotient of two fractions is the fraction of their cross products.
proof fn lemma_frac_quotient(a: int, b: int, c: int, d: int)
    requires
        b != 0,
        c != 0,
        d != 0,
    ensures
        b * c != 0,
        frac(a * d, b * c) == frac(a, b) / frac(c, d),
{
    assert(b * c != 0) by (nonlinear_arith)
        requires
            b != 0,
            c != 0,
    ;
    assert((a * d) as real == (a as real) * (d as real)) by (nonlinear_arith);
    assert((b * c) as real == (b as real) * (c as real)) by (nonlinear_arith);
    let ar = a as real;
    let br = b as real;
    let cr = c as real;
    let dr = d as real;
    assert((ar * dr) / (br * cr) == (ar / br) / (cr / dr)) by (nonlinear_arith)
        requires
            br != 0real,
            cr != 0real,
            dr != 0real,
    ;
}

/// Fractions with positive denominators stand in the order of their cross
/// products.
proof fn lemma_frac_order(a: int, b: int, c: int, d: int)
    requires
        b > 0,
        d > 0,
    ensures
        a * d < c * b <==> frac(a, b) < frac(c, d),
        a == 0 <==> frac(a, b) == 0real,
        a < 0 <==> frac(a, b) < 0real,
        frac(-a, b) == -frac(a, b),
{
    assert((a * d) as real == (a as real) * (d as real)) by (nonlinear_arith);
    assert((c * b) as real == (c as real) * (b as real)) by (nonlinear_arith);
    let ar = a as real;
    let br = b as real;
    let cr = c as real;
    let dr = d as real;
    assert(ar * dr < cr * br <==> ar / br < cr / dr) by (nonlinear_arith)
        requires
            br > 0real,
            dr > 0real,
    ;
    assert((ar == 0real <==> ar / br == 0real) && (ar < 0real <==> ar / br < 0real) && (-ar) / br
        == -(ar / br)) by (nonlinear_arith)
        requires
            br > 0real,
    ;
    assert((-a) as real == -ar);
}

/// The quotient of two integers, the first not negative and the second
/// positive, is their fraction rounded down.
proof fn lemma_frac_floor(n: int, d: int)
    requires
        n >= 0,
        d > 0,
    ensures
        frac(n, d).floor() == n / d,
{
    lemma_fundamental_div_mod(n, d);
    lemma_mod_bound(n, d);
    let q = n / d;
    let r = n % d;
    let v = frac(n, d);
    assert((d * q + r) as real == (d as real) * (q as real) + (r as real)) by (nonlinear_arith);
    let dr = d as real;
    let qr = q as real;
    let rr = r as real;
    assert(qr <= (dr * qr + rr) / dr < qr + 1real) by (nonlinear_arith)
        requires
            dr > 0real,
            0real <= rr < dr,
    ;
    assert((q + 1) as real == qr + 1real);
    assert(qr <= v < (q + 1) as real);
}

fn gcd_u128(a: u128, b: u128) -> (g: u128)
    ensures
        g == gcd(a as nat, b as nat),
{
    let mut x = a;
    let mut y = b;
    while y != 0
        invariant
            gcd(x as nat, y as nat) == gcd(a as nat, b as nat),
        decreases y,
    {
        let r = x % y;
        x = y;
        y = r;
    }
    x
}

fn magnitude_i128(x: i128) -> (m: u128)
    requires
        x > i128::MIN,
    ensures
        m == magnitude(x as int),
{
    if x < 0 {
        (-x) as u128
    } else {
        x as u128
    }
}

/// The product of two numbers of at most `i64::MAX` in absolute value lies
/// well within 128 bits.
proof fn lemma_products_bounded(a: int, b: int)
    requires
        -(i64::MAX as int) <= a <= i64::MAX,
        -(i64::MAX as int) <= b <= i64::MAX,
    ensures
        -0x3fff_ffff_ffff_ffff_0000_0000_0000_0001 <= a * b
            <= 0x3fff_ffff_ffff_ffff_0000_0000_0000_0001,
        a != 0 && b != 0 ==> a * b != 0,
        a > 0 && b > 0 ==> a * b > 0,
{
    assert(a != 0 && b != 0 ==> a * b != 0) by (nonlinear_arith);
    assert(a > 0 && b > 0 ==> a * b > 0) by (nonlinear_arith);
    assert(-0x3fff_ffff_ffff_ffff_0000_0000_0000_0001 <= a * b
        <= 0x3fff_ffff_ffff_ffff_0000_0000_0000_0001) by (nonlinear_arith)
        requires
            -0x7fff_ffff_ffff_ffff <= a <= 0x7fff_ffff_ffff_ffff,
            -0x7fff_ffff_ffff_ffff <= b <= 0x7fff_ffff_ffff_ffff,
    ;
}

/// A rational number: a fraction of two integers that fit in 64 bits.
#[derive(Clone, Copy, Debug)]
pub struct Rational {
    num: i64,
    den: i64,
}

impl View for Rational {
    type V = real;

    closed spec fn view(&self) -> real {
        frac(self.num as int, self.den as int)
    }
}

/// The number that `r` holds, if it holds one.
pub open spec fn value(r: Option<Rational>) -> Option<real> {
    match r {
        Some(x) => Some(x@),
        None => None,
    }
}

impl Rational {
    #[verifier::type_invariant]
    spec fn held(&self) -> bool {
        &&& in_range(self.num as int, self.den as int)
        &&& gcd(magnitude(self.num as int), magnitude(self.den as int)) == 1
    }

    /// The fraction `num / den`, if it can be held; `den` is not zero.
    fn reduce(num: i128, den: i128) -> (r: Option<Rational>)
        requires
            den != 0,
            num > i128::MIN,
            den > i128::MIN,
        ensures
            value(r) == kept(frac(num as int, den as int)),
    {
        let top = magnitude_i128(num);
        let bottom = magnitude_i128(den);
        proof {
            lemma_gcd_divides(top as nat, bottom as nat);
            lemma_lowest_terms_value(num as int, den as int);
            lemma_lowest_terms_coprime(num as int, den as int);
        }
        let g = gcd_u128(top, bottom);
        let n = top / g;
        let d = bottom / g;
        if n > i64::MAX as u128 || d > i64::MAX as u128 {
            proof {
                lemma_not_representable(num as int, den as int);
            }
            return None;
        }
        let negative = (num < 0) != (den < 0);
        let signed: i64 = if negative {
            -(n as i64)
        } else {
            n as i64
        };
        Some(Rational { num: signed, den: d as i64 })
    }

    /// The whole number `n`, if it can be held.
    pub fn from_integer(n: i64) -> (r: Option<Rational>)
        ensures
            value(r) == kept(n as real),
    {
        assert(frac(n as int, 1) == n as real) by (nonlinear_arith);
        Rational::reduce(n as i128, 1)
    }

    /// The fraction `num / den`, if `den` is not zero and the fraction can be
    /// held.
    pub fn new(num: i64, den: i64) -> (r: Option<Rational>)
        ensures
            value(r) == if den == 0 {
                None
            } else {
                kept(frac(num as int, den as int))
            },
    {
        if den == 0 {
            None
        } else {
            Rational::reduce(num as i128, den as i128)
        }
    }

    /// Numerator and denominator of the number as a fraction in lowest terms
    /// with a positive denominator.
    pub closed spec fn parts(&self) -> (int, int) {
        (self.num as int, self.den as int)
    }

    /// The numerator of the number as a fraction in lowest terms with a
    /// positive denominator.
    pub fn numer(&self) -> (n: i64)
        ensures
            n == self.parts().0,
            self@ == frac(self.parts().0, self.parts().1),
            self.parts().1 > 0,
            gcd(magnitude(self.parts().0), magnitude(self.parts().1)) == 1,
    {
        proof {
            use_type_invariant(self);
        }
        self.num
    }

    /// The denominator of the number as a fraction in lowest terms with a
    /// positive denominator.
    pub fn denom(&self) -> (d: i64)
        ensures
            d == self.parts().1,
            self@ == frac(self.parts().0, self.parts().1),
            self.parts().1 > 0,
            gcd(magnitude(self.parts().0), magnitude(self.parts().1)) == 1,
    {
        proof {
            use_type_invariant(self);
        }
        self.den
    }

    /// Whether the number is zero.
    pub fn is_zero(&self) -> (z: bool)
        ensures
            z == (self@ == 0real),
    {
        proof {
            use_type_invariant(self);
            lemma_frac_order(self.num as int, self.den as int, 0, 1);
        }
        self.num == 0
    }

    /// The sum of the two numbers, if it can be held.
    pub fn plus(&self, other: &Rational) -> (r: Option<Rational>)
        ensures
            value(r) == kept(self@ + other@),
    {
        proof {
            use_type_invariant(self);
            use_type_invariant(other);
            lemma_products_bounded(self.num as int, other.den as int);
            lemma_products_bounded(other.num as int, self.den as int);
            lemma_products_bounded(self.den as int, other.den as int);
            lemma_frac_sum(self.num as int, self.den as int, other.num as int, other.den as int);
        }
        let left: i128 = self.num as i128 * other.den as i128;
        let right: i128 = other.num as i128 * self.den as i128;
        let den: i128 = self.den as i128 * other.den as i128;
        Rational::reduce(left + right, den)
    }

    /// The difference of the two numbers, if it can be held.
    pub fn minus(&self, other: &Rational) -> (r: Option<Rational>)
        ensures
            value(r) == kept(self@ - other@),
    {
        proof {
            use_type_invariant(self);
            use_type_invariant(other);
            lemma_products_bounded(self.num as int, other.den as int);
            lemma_products_bounded(other.num as int, self.den as int);
            lemma_products_bounded(self.den as int, other.den as int);
            lemma_frac_sum(self.num as int, self.den as int, other.num as int, other.den as int);
        }
        let left: i128 = self.num as i128 * other.den as i128;
        let right: i128 = other.num as i128 * self.den as i128;
        let den: i128 = self.den as i128 * other.den as i128;
        Rational::reduce(left - right, den)
    }

    /// The product of the two numbers, if it can be held.
    pub fn times(&self, other: &Rational) -> (r: Option<Rational>)
        ensures
            value(r) == kept(self@ * other@),
    {
        proof {
            use_type_invariant(self);
            use_type_invariant(other);
            lemma_products_bounded(self.num as int, other.num as int);
            lemma_products_bounded(self.den as int, other.den as int);
            lemma_frac_product(
                self.num as int,
                self.den as int,
                other.num as int,
                other.den as int,
            );
        }
        let num: i128 = self.num as i128 * other.num as i128;
        let den: i128 = self.den as i128 * other.den as i128;
        Rational::reduce(num, den)
    }

    /// The quotient of the two numbers, if it can be held; `other` is not
    /// zero.
    pub fn divided_by(&self, other: &Rational) -> (r: Option<Rational>)
        requires
            other@ != 0real,
        ensures
            value(r) == kept(self@ / other@),
    {
        proof {
            use_type_invariant(self);
            use_type_invariant(other);
            lemma_frac_order(other.num as int, other.den as int, 0, 1);
            lemma_products_bounded(self.num as int, other.den as int);
            lemma_products_bounded(self.den as int, other.num as int);
            lemma_frac_quotient(
                self.num as int,
                self.den as int,
                other.num as int,
                other.den as int,
            );
        }
        let num: i128 = self.num as i128 * other.den as i128;
        let den: i128 = self.den as i128 * other.num as i128;
        Rational::reduce(num, den)
    }

    /// The number with the opposite sign.
    pub fn negated(&self) -> (r: Rational)
        ensures
            r@ == -self@,
    {
        proof {
            use_type_invariant(self);
            lemma_frac_order(self.num as int, self.den as int, 0, 1);
        }
        Rational { num: -self.num, den: self.den }
    }

    /// Whether this number is smaller than `other`.
    pub fn less_than(&self, other: &Rational) -> (r: bool)
        ensures
            r == (self@ < other@),
    {
        proof {
            use_type_invariant(self);
            use_type_invariant(other);
            lemma_products_bounded(self.num as int, other.den as int);
            lemma_products_bounded(other.num as int, self.den as int);
            lemma_frac_order(self.num as int, self.den as int, other.num as int, other.den as int);
        }
        let left: i128 = self.num as i128 * other.den as i128;
        let right: i128 = other.num as i128 * self.den as i128;
        left < right
    }

    /// Whether this number is smaller than `other` in absolute value.
    pub fn abs_less_than(&self, other: &Rational) -> (r: bool)
        ensures
            r == (abs(self@) < abs(other@)),
    {
        proof {
            use_type_invariant(self);
            use_type_invariant(other);
            let mine = magnitude(self.num as int) as int;
            let theirs = magnitude(other.num as int) as int;
            lemma_products_bounded(mine, other.den as int);
            lemma_products_bounded(theirs, self.den as int);
            lemma_frac_order(mine, self.den as int, theirs, other.den as int);
            lemma_frac_order(self.num as int, self.den as int, 0, 1);
            lemma_frac_order(other.num as int, other.den as int, 0, 1);
        }
        let mine = magnitude_i128(self.num as i128);
        let theirs = magnitude_i128(other.num as i128);
        let left: u128 = mine * (other.den as u128);
        let right: u128 = theirs * (self.den as u128);
        left < right
    }

    /// The quotient of this number by `min` as an unsigned integer of 32
    /// bits, rounded towards zero; `min` is not zero.
    pub fn ratio_to(&self, min: &Rational) -> (r: u32)
        requires
            min@ != 0real,
        ensures
            r == truncated(self@ / min@),
    {
        proof {
            use_type_invariant(self);
            use_type_invariant(min);
            lemma_frac_order(min.num as int, min.den as int, 0, 1);
            lemma_products_bounded(self.num as int, min.den as int);
            lemma_products_bounded(self.den as int, min.num as int);
            lemma_frac_quotient(self.num as int, self.den as int, min.num as int, min.den as int);
        }
        let n: i128 = self.num as i128 * min.den as i128;
        let d: i128 = self.den as i128 * min.num as i128;
        let up: i128 = if d < 0 {
            -n
        } else {
            n
        };
        let down = magnitude_i128(d);
        proof {
            // The quotient is `up / down`, a fraction with a positive
            // denominator.
            assert(n * down == up * d) by (nonlinear_arith)
                requires
                    (d < 0 && up == -n && down == -d) || (d > 0 && up == n && down == d),
            ;
            lemma_frac_equal(n as int, d as int, up as int, down as int);
            lemma_frac_order(up as int, down as int, 0, 1);
        }
        if up < 0 {
            return 0;
        }
        proof {
            lemma_frac_floor(up as int, down as int);
        }
        let quotient: u128 = (up as u128) / down;
        if quotient > u32::MAX as u128 {
            u32::MAX
        } else {
            quotient as u32
        }
    }
}

} // verus!
