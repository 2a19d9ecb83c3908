//! Exact rational numbers with bounded components.
//!
//! A `Rat` stores a numerator and a positive denominator, each of
//! magnitude at most `MAXC`, so that products of two components always
//! fit in an `i128`. Arithmetic computes the exact unreduced result,
//! divides out the greatest common divisor, and reports `None` when the
//! reduced result still falls outside the representable window.
//!
//! Specifications speak about `Q`, an unbounded pair of integers, and
//! about `q_eq`, the usual cross-multiplication equivalence of
//! fractions.

use vstd::prelude::*;
use vstd::arithmetic::div_mod::*;

verus! {

/// Largest component magnitude a `Rat` may hold.
pub const MAXC: i128 = 0x7fff_ffff_ffff_ffff;

/// A mathematical fraction: numerator `n` over denominator `d`.
pub ghost struct Q {
    pub n: int,
    pub d: int,
}

/// A representable fraction: positive denominator, components in the window.
pub open spec fn q_wf(q: Q) -> bool {
    0 < q.d && q.d <= MAXC as int && -(MAXC as int) <= q.n && q.n <= MAXC as int
}

pub open spec fn q_zero() -> Q {
    Q { n: 0, d: 1 }
}

pub open spec fn q_int(n: int) -> Q {
    Q { n, d: 1 }
}

pub open spec fn q_add(a: Q, b: Q) -> Q {
    Q { n: a.n * b.d + b.n * a.d, d: a.d * b.d }
}

pub open spec fn q_sub(a: Q, b: Q) -> Q {
    Q { n: a.n * b.d - b.n * a.d, d: a.d * b.d }
}

pub open spec fn q_mul(a: Q, b: Q) -> Q {
    Q { n: a.n * b.n, d: a.d * b.d }
}

/// Quotient of fractions; the denominator keeps the sign of `b.n`,
/// which `q_canon` normalizes away.
pub open spec fn q_div(a: Q, b: Q) -> Q {
    Q { n: a.n * b.d, d: a.d * b.n }
}

pub open spec fn q_neg(a: Q) -> Q {
    Q { n: -a.n, d: a.d }
}

pub open spec fn q_abs(a: Q) -> Q {
    Q { n: if a.n < 0 { -a.n } else { a.n }, d: a.d }
}

/// Equality of fractions by cross multiplication (denominators nonzero).
pub open spec fn q_eq(a: Q, b: Q) -> bool {
    a.n * b.d == b.n * a.d
}

/// Order on fractions by cross multiplication (denominators positive).
pub open spec fn q_le(a: Q, b: Q) -> bool {
    a.n * b.d <= b.n * a.d
}

/// Greatest common divisor by Euclid's algorithm, on nonnegative inputs.
pub open spec fn q_gcd(a: int, b: int) -> int
    recommends
        a >= 0,
        b >= 0,
    decreases b,
    when b >= 0
{
    if b <= 0 {
        a
    } else {
        q_gcd(b, a % b)
    }
}

/// The fraction in lowest terms with positive denominator that `q`
/// reduces to.
pub open spec fn q_canon(q: Q) -> Q {
    let nn = if q.d < 0 { -q.n } else { q.n };
    let dd = if q.d < 0 { -q.d } else { q.d };
    let na = if nn < 0 { -nn } else { nn };
    let g = q_gcd(na, dd);
    if nn < 0 {
        Q { n: -(na / g), d: dd / g }
    } else {
        Q { n: na / g, d: dd / g }
    }
}

/// Euclid's algorithm yields a positive common divisor of its inputs.
pub proof fn lemma_gcd_divides(a: int, b: int)
    requires
        a >= 0,
        b >= 0,
        a > 0 || b > 0,
    ensures
        q_gcd(a, b) >= 1,
        a % q_gcd(a, b) == 0,
        b % q_gcd(a, b) == 0,
    decreases b,
{
    if b == 0 {
        lemma_mod_self_0(a);
        lemma_small_mod(0, a as nat);
    } else {
        lemma_mod_bound(a, b);
        lemma_gcd_divides(b, a % b);
        let g = q_gcd(b, a % b);
        lemma_fundamental_div_mod(a, b);
        assert(a == b * (a / b) + a % b);
        lemma_mul_mod_noop_right(a / b, b, g);
        assert(((a / b) * b) % g == ((a / b) * (b % g)) % g);
        assert((a / b) * (b % g) == 0) by {
            assert(b % g == 0);
        }
        lemma_small_mod(0, g as nat);
        lemma_add_mod_noop(b * (a / b), a % b, g);
        assert(b * (a / b) == (a / b) * b) by (nonlinear_arith);
        assert(a % g == 0);
    }
}

/// Exact division: when `g` divides `x`, the quotient recombines to `x`
/// and is no larger than `x`.
pub proof fn lemma_exact_div(x: int, g: int)
    requires
        x >= 0,
        g >= 1,
        x % g == 0,
    ensures
        g * (x / g) == x,
        0 <= x / g,
        x / g <= x,
{
    lemma_fundamental_div_mod(x, g);
    lemma_div_is_ordered_by_denominator(x, 1, g);
    lemma_div_basics(x);
    lemma_div_pos_is_pos(x, g);
}

/// Reduction preserves the value of a fraction and bounds its
/// components by the originals.
pub proof fn lemma_canon(q: Q)
    requires
        q.d != 0,
    ensures
        ({
            let c = q_canon(q);
            let na = if q.n < 0 { -q.n } else { q.n };
            let da = if q.d < 0 { -q.d } else { q.d };
            &&& q_eq(c, q)
            &&& q_eq(q, c)
            &&& 1 <= c.d <= da
            &&& -na <= c.n <= na
            &&& (q.n == 0 <==> c.n == 0)
            &&& (c.n == 0 ==> c == q_zero())
        }),
{
    let nn = if q.d < 0 { -q.n } else { q.n };
    let dd = if q.d < 0 { -q.d } else { q.d };
    let na = if nn < 0 { -nn } else { nn };
    let g = q_gcd(na, dd);
    lemma_gcd_divides(na, dd);
    lemma_exact_div(na, g);
    lemma_exact_div(dd, g);
    assert(dd / g >= 1) by {
        if dd / g <= 0 {
            assert(g * (dd / g) <= 0) by (nonlinear_arith)
                requires
                    g >= 1,
                    dd / g <= 0,
            ;
        }
    }
    let c = q_canon(q);
    // cross multiplication holds after substituting na == g * (na / g)
    // and dd == g * (dd / g)
    assert(c.n * q.d == q.n * c.d) by (nonlinear_arith)
        requires
            g * (na / g) == na,
            g * (dd / g) == dd,
            nn == if q.d < 0 { -q.n } else { q.n },
            dd == if q.d < 0 { -q.d } else { q.d },
            na == if nn < 0 { -nn } else { nn },
            c == (if nn < 0 {
                Q { n: -(na / g), d: dd / g }
            } else {
                Q { n: na / g, d: dd / g }
            }),
            q.d != 0,
            g >= 1,
    ;
    if c.n == 0 {
        assert(na / g == 0);
        assert(na == 0) by (nonlinear_arith)
            requires
                g * (na / g) == na,
                na / g == 0,
        ;
    }
    if na == 0 {
        lemma_small_mod(0, dd as nat);
        assert(q_gcd(0, dd) == q_gcd(dd, 0int % dd));
        assert(g == dd);
        assert(na / g == 0) by {
            lemma_div_of0(g);
        }
        assert(dd / dd == 1) by {
            lemma_div_by_self(dd);
        }
        assert(c == q_zero());
    }
}

/// `q_eq` is transitive when the middle denominator is nonzero.
pub proof fn lemma_q_eq_trans(a: Q, b: Q, c: Q)
    requires
        q_eq(a, b),
        q_eq(b, c),
        b.d != 0,
    ensures
        q_eq(a, c),
{
    assert(a.n * c.d == c.n * a.d) by (nonlinear_arith)
        requires
            a.n * b.d == b.n * a.d,
            b.n * c.d == c.n * b.d,
            b.d != 0,
    ;
}

/// Denominators of results of the fraction operations stay nonzero.
pub proof fn lemma_q_dpos(a: Q, b: Q)
    requires
        a.d > 0,
        b.d > 0,
    ensures
        q_add(a, b).d > 0,
        q_sub(a, b).d > 0,
        q_mul(a, b).d > 0,
        b.n != 0 ==> q_div(a, b).d != 0,
{
    assert(a.d * b.d > 0 && (b.n != 0 ==> a.d * b.n != 0)) by (nonlinear_arith)
        requires
            a.d > 0,
            b.d > 0,
    ;
}

/// Sums of equal fractions are equal.
pub proof fn lemma_q_add_cong(a: Q, a2: Q, b: Q, b2: Q)
    requires
        q_eq(a, a2),
        q_eq(b, b2),
        a.d != 0,
        a2.d != 0,
        b.d != 0,
        b2.d != 0,
    ensures
        q_eq(q_add(a, b), q_add(a2, b2)),
        q_eq(q_sub(a, b), q_sub(a2, b2)),
{
    assert((a.n * b.d) * (a2.d * b2.d) == (a2.n * b2.d) * (a.d * b.d)) by (nonlinear_arith)
        requires
            a.n * a2.d == a2.n * a.d,
    ;
    assert((b.n * a.d) * (a2.d * b2.d) == (b2.n * a2.d) * (a.d * b.d)) by (nonlinear_arith)
        requires
            b.n * b2.d == b2.n * b.d,
    ;
    assert((a.n * b.d + b.n * a.d) * (a2.d * b2.d) == (a2.n * b2.d + b2.n * a2.d) * (a.d * b.d)
        && (a.n * b.d - b.n * a.d) * (a2.d * b2.d) == (a2.n * b2.d - b2.n * a2.d) * (a.d * b.d))
        by (nonlinear_arith)
        requires
            (a.n * b.d) * (a2.d * b2.d) == (a2.n * b2.d) * (a.d * b.d),
            (b.n * a.d) * (a2.d * b2.d) == (b2.n * a2.d) * (a.d * b.d),
    ;
}

/// Products of equal fractions are equal.
pub proof fn lemma_q_mul_cong(a: Q, a2: Q, b: Q, b2: Q)
    requires
        q_eq(a, a2),
        q_eq(b, b2),
    ensures
        q_eq(q_mul(a, b), q_mul(a2, b2)),
{
    assert((a.n * b.n) * (a2.d * b2.d) == (a2.n * b2.n) * (a.d * b.d)) by (nonlinear_arith)
        requires
            a.n * a2.d == a2.n * a.d,
            b.n * b2.d == b2.n * b.d,
    ;
}

/// The order respects `q_eq` on either side.
pub proof fn lemma_q_le_cong(a: Q, a2: Q, b: Q)
    requires
        q_eq(a, a2),
        a.d > 0,
        a2.d > 0,
        b.d > 0,
    ensures
        q_le(a, b) == q_le(a2, b),
        q_le(b, a) == q_le(b, a2),
{
    assert((a.n * b.d <= b.n * a.d) == (a2.n * b.d <= b.n * a2.d)
        && (b.n * a.d <= a.n * b.d) == (b.n * a2.d <= a2.n * b.d)) by (nonlinear_arith)
        requires
            a.n * a2.d == a2.n * a.d,
            a.d > 0,
            a2.d > 0,
            b.d > 0,
    ;
}

/// Absolute values of equal fractions are equal.
pub proof fn lemma_q_abs_cong(a: Q, b: Q)
    requires
        q_eq(a, b),
        a.d > 0,
        b.d > 0,
    ensures
        q_eq(q_abs(a), q_abs(b)),
{
    assert((if a.n < 0 {
        -a.n
    } else {
        a.n
    }) * b.d == (if b.n < 0 {
        -b.n
    } else {
        b.n
    }) * a.d) by (nonlinear_arith)
        requires
            a.n * b.d == b.n * a.d,
            a.d > 0,
            b.d > 0,
    ;
}

/// The order is transitive over positive denominators.
pub proof fn lemma_q_le_trans(a: Q, b: Q, c: Q)
    requires
        q_le(a, b),
        q_le(b, c),
        a.d > 0,
        b.d > 0,
        c.d > 0,
    ensures
        q_le(a, c),
{
    assert(a.n * c.d <= c.n * a.d) by (nonlinear_arith)
        requires
            a.n * b.d <= b.n * a.d,
            b.n * c.d <= c.n * b.d,
            a.d > 0,
            b.d > 0,
            c.d > 0,
    ;
}

/// Adding zero on the left changes nothing, componentwise.
pub proof fn lemma_q_add_zero_left(x: Q)
    ensures
        q_add(q_zero(), x) == x,
{
    assert(0 * x.d + x.n * 1 == x.n && 1 * x.d == x.d) by (nonlinear_arith);
}

/// Multiplying by one on the left changes nothing, componentwise.
pub proof fn lemma_q_mul_one_left(x: Q)
    ensures
        q_mul(q_int(1), x) == x,
{
    assert(1 * x.n == x.n && 1 * x.d == x.d) by (nonlinear_arith);
}

/// Multiplication of fractions is commutative, componentwise.
pub proof fn lemma_q_mul_comm(a: Q, b: Q)
    ensures
        q_mul(a, b) == q_mul(b, a),
{
    assert(a.n * b.n == b.n * a.n && a.d * b.d == b.d * a.d) by (nonlinear_arith);
}

/// Multiplying a quotient back by its divisor restores the dividend.
pub proof fn lemma_q_div_mul(a: Q, p: Q)
    requires
        a.d != 0,
        p.d != 0,
        p.n != 0,
    ensures
        q_eq(q_mul(q_div(a, p), p), a),
{
    assert(((a.n * p.d) * p.n) * a.d == a.n * ((a.d * p.n) * p.d)) by (nonlinear_arith);
}

/// Euclid's loop, matching `q_gcd`.
fn gcd_u128(a: u128, b: u128) -> (g: u128)
    ensures
        g as int == q_gcd(a as int, b as int),
{
    let mut x = a;
    let mut y = b;
    while y != 0
        invariant
            q_gcd(x as int, y as int) == q_gcd(a as int, b as int),
        decreases y,
    {
        let r = x % y;
        x = y;
        y = r;
    }
    x
}

/// An exact rational number with components in the `MAXC` window.
#[derive(Clone, Copy, Debug)]
pub struct Rat {
    pub n: i128,
    pub d: i128,
}

impl View for Rat {
    type V = Q;

    open spec fn view(&self) -> Q {
        Q { n: self.n as int, d: self.d as int }
    }
}

impl Rat {
    /// A representable rational: well-formed fraction within the window.
    pub open spec fn wf(self) -> bool {
        q_wf(self@)
    }

    /// The integer `v` as a rational.
    pub fn from_int(v: i64) -> (r: Rat)
        requires
            v != i64::MIN,
        ensures
            r@ == q_int(v as int),
            r.wf(),
    {
        Rat { n: v as i128, d: 1 }
    }

    /// The fraction `num / den` in lowest terms; `None` when `den` is 0.
    pub fn new(num: i64, den: i64) -> (r: Option<Rat>)
        ensures
            den == 0 ==> r is None,
            den != 0 ==> ({
                let c = q_canon(Q { n: num as int, d: den as int });
                &&& (r is Some <==> q_wf(c))
                &&& (r matches Some(x) ==> x@ == c && x.wf())
            }),
    {
        if den == 0 {
            None
        } else {
            rat_norm(num as i128, den as i128)
        }
    }

    /// Exact sum, reduced; `None` when it leaves the window.
    pub fn add(&self, other: &Rat) -> (r: Option<Rat>)
        requires
            self.wf(),
            other.wf(),
        ensures
            ({
                let c = q_canon(q_add(self@, other@));
                &&& (r is Some <==> q_wf(c))
                &&& (r matches Some(x) ==> x@ == c && x.wf())
            }),
    {
        proof {
            lemma_parts_fit(self@, other@);
        }
        rat_norm(self.n * other.d + other.n * self.d, self.d * other.d)
    }

    /// Exact difference, reduced; `None` when it leaves the window.
    pub fn sub(&self, other: &Rat) -> (r: Option<Rat>)
        requires
            self.wf(),
            other.wf(),
        ensures
            ({
                let c = q_canon(q_sub(self@, other@));
                &&& (r is Some <==> q_wf(c))
                &&& (r matches Some(x) ==> x@ == c && x.wf())
            }),
    {
        proof {
            lemma_parts_fit(self@, other@);
        }
        rat_norm(self.n * other.d - other.n * self.d, self.d * other.d)
    }

    /// Exact product, reduced; `None` when it leaves the window.
    pub fn mul(&self, other: &Rat) -> (r: Option<Rat>)
        requires
            self.wf(),
            other.wf(),
        ensures
            ({
                let c = q_canon(q_mul(self@, other@));
                &&& (r is Some <==> q_wf(c))
                &&& (r matches Some(x) ==> x@ == c && x.wf())
            }),
    {
        proof {
            lemma_parts_fit(self@, other@);
        }
        rat_norm(self.n * other.n, self.d * other.d)
    }

    /// Exact quotient, reduced; `None` when it leaves the window.
    /// The divisor must be nonzero.
    pub fn div(&self, other: &Rat) -> (r: Option<Rat>)
        requires
            self.wf(),
            other.wf(),
            other@.n != 0,
        ensures
            ({
                let c = q_canon(q_div(self@, other@));
                &&& (r is Some <==> q_wf(c))
                &&& (r matches Some(x) ==> x@ == c && x.wf())
            }),
    {
        proof {
            lemma_parts_fit(self@, other@);
            assert(self@.d * other@.n != 0) by (nonlinear_arith)
                requires
                    self@.d > 0,
                    other@.n != 0,
            ;
        }
        rat_norm(self.n * other.d, self.d * other.n)
    }

    /// Exact negation; always representable.
    pub fn neg(&self) -> (r: Rat)
        requires
            self.wf(),
        ensures
            r@ == q_neg(self@),
            r.wf(),
    {
        Rat { n: -self.n, d: self.d }
    }

    /// Exact absolute value; always representable.
    pub fn abs(&self) -> (r: Rat)
        requires
            self.wf(),
        ensures
            r@ == q_abs(self@),
            r.wf(),
    {
        if self.n < 0 {
            Rat { n: -self.n, d: self.d }
        } else {
            Rat { n: self.n, d: self.d }
        }
    }

    /// Order comparison, exact.
    pub fn le(&self, other: &Rat) -> (r: bool)
        requires
            self.wf(),
            other.wf(),
        ensures
            r == q_le(self@, other@),
    {
        proof {
            lemma_parts_fit(self@, other@);
        }
        self.n * other.d <= other.n * self.d
    }

    /// Value equality (cross multiplication), exact.
    pub fn eq_val(&self, other: &Rat) -> (r: bool)
        requires
            self.wf(),
            other.wf(),
        ensures
            r == q_eq(self@, other@),
    {
        proof {
            lemma_parts_fit(self@, other@);
        }
        self.n * other.d == other.n * self.d
    }

    /// Whether the value is exactly zero.
    pub fn is_zero(&self) -> (r: bool)
        requires
            self.wf(),
        ensures
            r == (self@.n == 0),
    {
        self.n == 0
    }

    /// The numerator, for rendering by callers.
    pub fn num(&self) -> (r: i64)
        requires
            self.wf(),
        ensures
            r as int == self@.n,
    {
        self.n as i64
    }

    /// The denominator (always positive), for rendering by callers.
    pub fn den(&self) -> (r: i64)
        requires
            self.wf(),
        ensures
            r as int == self@.d,
    {
        self.d as i64
    }
}

/// Products of window-bounded components stay far inside `i128`.
proof fn lemma_parts_fit(a: Q, b: Q)
    requires
        q_wf(a),
        q_wf(b),
    ensures
        -(MAXC as int) * (MAXC as int) <= a.n * b.d <= (MAXC as int) * (MAXC as int),
        -(MAXC as int) * (MAXC as int) <= b.n * a.d <= (MAXC as int) * (MAXC as int),
        -(MAXC as int) * (MAXC as int) <= a.n * b.n <= (MAXC as int) * (MAXC as int),
        1 <= a.d * b.d <= (MAXC as int) * (MAXC as int),
        -(MAXC as int) * (MAXC as int) <= a.d * b.n <= (MAXC as int) * (MAXC as int),
{
    assert((-(MAXC as int) * (MAXC as int) <= a.n * b.d <= (MAXC as int) * (MAXC as int))
        && (-(MAXC as int) * (MAXC as int) <= b.n * a.d <= (MAXC as int) * (MAXC as int))
        && (-(MAXC as int) * (MAXC as int) <= a.n * b.n <= (MAXC as int) * (MAXC as int))
        && (1 <= a.d * b.d <= (MAXC as int) * (MAXC as int))
        && (-(MAXC as int) * (MAXC as int) <= a.d * b.n <= (MAXC as int) * (MAXC as int)))
        by (nonlinear_arith)
        requires
            q_wf(a),
            q_wf(b),
    ;
}

/// Reduce the fraction `n / d` and fit it into the window.
fn rat_norm(n: i128, d: i128) -> (r: Option<Rat>)
    requires
        d != 0,
        n > i128::MIN,
        d > i128::MIN,
    ensures
        ({
            let c = q_canon(Q { n: n as int, d: d as int });
            &&& (r is Some <==> q_wf(c))
            &&& (r matches Some(x) ==> x@ == c && x.wf())
        }),
{
    let (n1, d1) = if d < 0 {
        (-n, -d)
    } else {
        (n, d)
    };
    let na: u128 = if n1 < 0 {
        (-n1) as u128
    } else {
        n1 as u128
    };
    let dd: u128 = d1 as u128;
    proof {
        lemma_gcd_divides(na as int, dd as int);
    }
    let g = gcd_u128(na, dd);
    proof {
        lemma_exact_div(na as int, g as int);
        lemma_exact_div(dd as int, g as int);
        assert(dd as int / g as int >= 1) by {
            if dd as int / g as int <= 0 {
                assert((g as int) * (dd as int / g as int) <= 0) by (nonlinear_arith)
                    requires
                        g as int >= 1,
                        dd as int / g as int <= 0,
                ;
            }
        }
        lemma_canon(Q { n: n as int, d: d as int });
    }
    let rn = na / g;
    let rd = dd / g;
    if rn <= MAXC as u128 && rd <= MAXC as u128 {
        let num: i128 = if n1 < 0 {
            -(rn as i128)
        } else {
            rn as i128
        };
        Some(Rat { n: num, d: rd as i128 })
    } else {
        None
    }
}

} // verus!
