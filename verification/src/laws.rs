//! Laws that relate the solver pieces across function boundaries.

use vstd::prelude::*;
use crate::matrix::{lemma_q_dot_dpos, lemma_q_dot_pad, Matrix, q_dot};
use crate::rat::{
    lemma_q_add_cong, lemma_q_dpos, lemma_q_eq_trans, lemma_q_mul_cong, Q, q_add, q_eq, q_mul,
    q_wf, q_zero,
};
use crate::solve::{q_dot_suffix, solve_witness, vdot};

verus! {

/// Suffix dot products have positive denominators.
proof fn lemma_q_dot_suffix_dpos(u: Matrix, x: Matrix, i: int, c: int)
    requires
        u.wf(),
        x.wf(),
        0 <= i < u.rows,
        u.cols == u.rows,
        x.rows == u.rows,
        x.cols == 1,
        0 <= c,
    ensures
        q_dot_suffix(u, x, i, c).d > 0,
    decreases u.rows - c,
{
    if c < u.rows {
        lemma_q_dot_suffix_dpos(u, x, i, c + 1);
        lemma_q_dpos(u.at(i, c), x.at(c, 0));
        lemma_q_dpos(q_dot_suffix(u, x, i, c + 1), q_mul(u.at(i, c), x.at(c, 0)));
    }
}

/// Extending a suffix dot product across zero coefficients keeps its
/// value.
proof fn lemma_q_dot_suffix_pad(u: Matrix, x: Matrix, i: int, c: int)
    requires
        u.wf(),
        x.wf(),
        0 <= i < u.rows,
        u.rows == u.cols,
        x.rows == u.rows,
        x.cols == 1,
        0 <= c <= i,
        forall|t: int| 0 <= t < i ==> #[trigger] u.at(i, t) == q_zero(),
    ensures
        q_eq(q_dot_suffix(u, x, i, c), q_dot_suffix(u, x, i, i)),
    decreases i - c,
{
    if c == i {
        lemma_q_dot_suffix_dpos(u, x, i, c);
    } else {
        lemma_q_dot_suffix_pad(u, x, i, c + 1);
        let s = q_dot_suffix(u, x, i, c + 1);
        let e = x.at(c, 0);
        let z = q_mul(u.at(i, c), e);
        assert(u.at(i, c) == q_zero());
        assert(0 * e.n == 0 && 1 * e.d == e.d) by (nonlinear_arith);
        assert(z == (Q { n: 0, d: e.d }));
        lemma_q_dot_suffix_dpos(u, x, i, c + 1);
        assert((s.n * z.d + 0 * s.d) * s.d == s.n * (s.d * z.d)) by (nonlinear_arith);
        assert(q_eq(q_dot_suffix(u, x, i, c), s));
        lemma_q_dot_suffix_dpos(u, x, i, i);
        lemma_q_eq_trans(q_dot_suffix(u, x, i, c), s, q_dot_suffix(u, x, i, i));
    }
}

/// Forward-solve correctness: a vector that satisfies every row
/// equation of a lower-triangular matrix through its diagonal
/// satisfies the full system `lower * y = b`, row by row.
pub proof fn lemma_forward_solve_correct(lower: Matrix, b: Matrix, y: Matrix)
    requires
        lower.wf(),
        b.wf(),
        y.wf(),
        lower.rows == lower.cols,
        b.rows == lower.rows,
        b.cols == 1,
        y.rows == lower.rows,
        y.cols == 1,
        forall|i: int, j: int|
            0 <= i < lower.rows && i < j < lower.cols ==> #[trigger] lower.at(i, j) == q_zero(),
        forall|i: int|
            0 <= i < lower.rows ==> q_eq(#[trigger] q_dot(lower, y, i, 0, i + 1), b.at(i, 0)),
    ensures
        forall|i: int|
            0 <= i < lower.rows ==> q_eq(
                #[trigger] q_dot(lower, y, i, 0, lower.rows as int),
                b.at(i, 0),
            ),
{
    assert forall|i: int| 0 <= i < lower.rows implies q_eq(
        #[trigger] q_dot(lower, y, i, 0, lower.rows as int),
        b.at(i, 0),
    ) by {
        lemma_q_dot_pad(lower, y, i, 0, lower.rows as int);
        lemma_q_dot_dpos(lower, y, i, 0, i + 1);
        lemma_q_eq_trans(
            q_dot(lower, y, i, 0, lower.rows as int),
            q_dot(lower, y, i, 0, i + 1),
            b.at(i, 0),
        );
    }
}

/// Backward-solve correctness: a vector that satisfies every row
/// equation of an upper-triangular matrix from its diagonal on
/// satisfies the full system `upper * x = y`, row by row.
pub proof fn lemma_backward_solve_correct(upper: Matrix, y: Matrix, x: Matrix)
    requires
        upper.wf(),
        y.wf(),
        x.wf(),
        upper.rows == upper.cols,
        y.rows == upper.rows,
        y.cols == 1,
        x.rows == upper.rows,
        x.cols == 1,
        forall|i: int, j: int|
            0 <= j < upper.cols && j < i < upper.rows ==> #[trigger] upper.at(i, j) == q_zero(),
        forall|i: int|
            0 <= i < upper.rows ==> q_eq(#[trigger] q_dot_suffix(upper, x, i, i), y.at(i, 0)),
    ensures
        forall|i: int|
            0 <= i < upper.rows ==> q_eq(#[trigger] q_dot_suffix(upper, x, i, 0), y.at(i, 0)),
{
    assert forall|i: int| 0 <= i < upper.rows implies q_eq(
        #[trigger] q_dot_suffix(upper, x, i, 0),
        y.at(i, 0),
    ) by {
        lemma_q_dot_suffix_pad(upper, x, i, 0);
        lemma_q_dot_suffix_dpos(upper, x, i, i);
        lemma_q_eq_trans(
            q_dot_suffix(upper, x, i, 0),
            q_dot_suffix(upper, x, i, i),
            y.at(i, 0),
        );
    }
}

/// The sum of a sequence of fractions, accumulated left to right.
pub open spec fn qsum(f: Seq<Q>) -> Q
    decreases f.len(),
{
    if f.len() <= 0 {
        q_zero()
    } else {
        q_add(qsum(f.drop_last()), f.last())
    }
}

/// The products of row dot-product prefixes with the solution vector.
spec fn wterm(l: Matrix, u: Matrix, x: Matrix, i: int, c: int) -> Seq<Q> {
    Seq::new(x.rows as nat, |j: int| q_mul(q_dot(l, u, i, j, c), x.at(j, 0)))
}

/// The full row dot products of a matrix with the solution vector.
spec fn fseq(u: Matrix, x: Matrix) -> Seq<Q> {
    Seq::new(u.rows as nat, |t: int| q_dot(u, x, t, 0, u.rows as int))
}

/// Regrouping two two-term sums, componentwise.
proof fn lemma_shuffle4_core(an: int, ad: int, bn: int, bd: int, cn: int, cd: int, dn: int, dd: int)
    ensures
        (an * bd + bn * ad) * (cd * dd) + (cn * dd + dn * cd) * (ad * bd) == (an * cd + cn * ad)
            * (bd * dd) + (bn * dd + dn * bd) * (ad * cd),
        (ad * bd) * (cd * dd) == (ad * cd) * (bd * dd),
{
    assert((an * bd + bn * ad) * (cd * dd) == (an * bd) * (cd * dd) + (bn * ad) * (cd * dd))
        by (nonlinear_arith);
    assert((cn * dd + dn * cd) * (ad * bd) == (cn * dd) * (ad * bd) + (dn * cd) * (ad * bd))
        by (nonlinear_arith);
    assert((an * cd + cn * ad) * (bd * dd) == (an * cd) * (bd * dd) + (cn * ad) * (bd * dd))
        by (nonlinear_arith);
    assert((bn * dd + dn * bd) * (ad * cd) == (bn * dd) * (ad * cd) + (dn * bd) * (ad * cd))
        by (nonlinear_arith);
    assert((an * bd) * (cd * dd) == (an * cd) * (bd * dd)) by (nonlinear_arith);
    assert((bn * ad) * (cd * dd) == (bn * dd) * (ad * cd)) by (nonlinear_arith);
    assert((cn * dd) * (ad * bd) == (cn * ad) * (bd * dd)) by (nonlinear_arith);
    assert((dn * cd) * (ad * bd) == (dn * bd) * (ad * cd)) by (nonlinear_arith);
    assert((ad * bd) * (cd * dd) == (ad * cd) * (bd * dd)) by (nonlinear_arith);
}

/// Regrouping two two-term sums of fractions, componentwise.
proof fn lemma_q_add_shuffle4(a: Q, b: Q, c: Q, d: Q)
    ensures
        q_add(q_add(a, b), q_add(c, d)) == q_add(q_add(a, c), q_add(b, d)),
{
    lemma_shuffle4_core(a.n, a.d, b.n, b.d, c.n, c.d, d.n, d.d);
}

/// A monomial regrouping used by the distribution law.
proof fn lemma_dist_core(aa: int, xn: int, xd: int, ad: int, bd: int)
    ensures
        (aa * xn) * ((ad * xd) * (bd * xd)) == (aa * (xn * xd)) * ((ad * bd) * xd),
{
    assert((aa * xn) * ((ad * xd) * (bd * xd)) == (aa * (xn * xd)) * ((ad * bd) * xd))
        by (nonlinear_arith);
}

/// Multiplication distributes over addition, up to `q_eq`.
proof fn lemma_q_mul_dist(a: Q, b: Q, x: Q)
    ensures
        q_eq(q_mul(q_add(a, b), x), q_add(q_mul(a, x), q_mul(b, x))),
{
    let lhs = q_mul(q_add(a, b), x);
    let rhs = q_add(q_mul(a, x), q_mul(b, x));
    assert((a.n * x.n) * (b.d * x.d) == (a.n * b.d) * (x.n * x.d)) by (nonlinear_arith);
    assert((b.n * x.n) * (a.d * x.d) == (b.n * a.d) * (x.n * x.d)) by (nonlinear_arith);
    assert((a.n * b.d) * (x.n * x.d) + (b.n * a.d) * (x.n * x.d) == (a.n * b.d + b.n * a.d) * (x.n
        * x.d)) by (nonlinear_arith);
    assert(rhs.n == (a.n * b.d + b.n * a.d) * (x.n * x.d));
    lemma_dist_core(a.n * b.d + b.n * a.d, x.n, x.d, a.d, b.d);
    assert(lhs.n * rhs.d == rhs.n * lhs.d);
}

/// A monomial regrouping used when factoring sums.
proof fn lemma_factor_core(kn: int, kd: int, ss: int, sd: int, td: int)
    ensures
        ((kn * kd) * ss) * (kd * (sd * td)) == (kn * ss) * ((kd * sd) * (kd * td)),
{
    assert(((kn * kd) * ss) * (kd * (sd * td)) == (kn * ss) * ((kd * sd) * (kd * td)))
        by (nonlinear_arith);
}

/// A common factor comes out of a two-term sum, up to `q_eq`.
proof fn lemma_q_mul_factor(k: Q, sq: Q, t: Q)
    ensures
        q_eq(q_add(q_mul(k, sq), q_mul(k, t)), q_mul(k, q_add(sq, t))),
{
    let lhs = q_add(q_mul(k, sq), q_mul(k, t));
    let rhs = q_mul(k, q_add(sq, t));
    assert((k.n * sq.n) * (k.d * t.d) == (k.n * k.d) * (sq.n * t.d)) by (nonlinear_arith);
    assert((k.n * t.n) * (k.d * sq.d) == (k.n * k.d) * (t.n * sq.d)) by (nonlinear_arith);
    assert((k.n * k.d) * (sq.n * t.d) + (k.n * k.d) * (t.n * sq.d) == (k.n * k.d) * (sq.n * t.d
        + t.n * sq.d)) by (nonlinear_arith);
    assert(lhs.n == (k.n * k.d) * (sq.n * t.d + t.n * sq.d));
    lemma_factor_core(k.n, k.d, sq.n * t.d + t.n * sq.d, sq.d, t.d);
    assert(lhs.n * rhs.d == rhs.n * lhs.d);
}

/// Multiplication of fractions associates, componentwise.
proof fn lemma_q_mul_assoc(a: Q, b: Q, c: Q)
    ensures
        q_mul(q_mul(a, b), c) == q_mul(a, q_mul(b, c)),
{
    assert((a.n * b.n) * c.n == a.n * (b.n * c.n) && (a.d * b.d) * c.d == a.d * (b.d * c.d))
        by (nonlinear_arith);
}

/// Adding zero on either side changes nothing, componentwise.
proof fn lemma_qsum_zero_sides(x: Q)
    ensures
        q_add(q_zero(), x) == x,
        q_add(x, q_zero()) == x,
{
    assert(0 * x.d + x.n * 1 == x.n && 1 * x.d == x.d && x.n * 1 + 0 * x.d == x.n && x.d * 1
        == x.d) by (nonlinear_arith);
}

/// Sums of positive-denominator fractions keep a positive denominator.
proof fn lemma_qsum_dpos(f: Seq<Q>)
    requires
        forall|j: int| 0 <= j < f.len() ==> (#[trigger] f[j]).d > 0,
    ensures
        qsum(f).d > 0,
    decreases f.len(),
{
    if f.len() > 0 {
        lemma_qsum_dpos(f.drop_last());
        lemma_q_dpos(qsum(f.drop_last()), f.last());
    }
}

/// Sums of pairwise equal fractions are equal.
proof fn lemma_qsum_cong(f: Seq<Q>, g: Seq<Q>)
    requires
        f.len() == g.len(),
        forall|j: int| 0 <= j < f.len() ==> (#[trigger] f[j]).d > 0,
        forall|j: int| 0 <= j < g.len() ==> (#[trigger] g[j]).d > 0,
        forall|j: int| 0 <= j < f.len() ==> q_eq(#[trigger] f[j], g[j]),
    ensures
        q_eq(qsum(f), qsum(g)),
    decreases f.len(),
{
    if f.len() == 0 {
    } else {
        lemma_qsum_cong(f.drop_last(), g.drop_last());
        lemma_qsum_dpos(f.drop_last());
        lemma_qsum_dpos(g.drop_last());
        lemma_q_add_cong(qsum(f.drop_last()), qsum(g.drop_last()), f.last(), g.last());
    }
}

/// A sum of zero-valued fractions is zero.
proof fn lemma_qsum_zero(f: Seq<Q>)
    requires
        forall|j: int| 0 <= j < f.len() ==> (#[trigger] f[j]).d > 0 && f[j].n == 0,
    ensures
        q_eq(qsum(f), q_zero()),
        qsum(f).n == 0,
    decreases f.len(),
{
    if f.len() > 0 {
        lemma_qsum_zero(f.drop_last());
        let sq = qsum(f.drop_last());
        let z = f.last();
        assert(sq.n * z.d + z.n * sq.d == 0) by (nonlinear_arith)
            requires
                sq.n == 0,
                z.n == 0,
        ;
    }
}

/// A sum of pairwise sums splits into two sums.
proof fn lemma_qsum_split(f: Seq<Q>, g: Seq<Q>, h: Seq<Q>)
    requires
        f.len() == g.len(),
        h.len() == f.len(),
        forall|j: int| 0 <= j < f.len() ==> (#[trigger] f[j]).d > 0,
        forall|j: int| 0 <= j < g.len() ==> (#[trigger] g[j]).d > 0,
        forall|j: int| 0 <= j < h.len() ==> #[trigger] h[j] == q_add(f[j], g[j]),
    ensures
        q_eq(qsum(h), q_add(qsum(f), qsum(g))),
    decreases f.len(),
{
    if f.len() == 0 {
        lemma_qsum_zero_sides(q_zero());
    } else {
        lemma_qsum_split(f.drop_last(), g.drop_last(), h.drop_last());
        lemma_qsum_dpos(f.drop_last());
        lemma_qsum_dpos(g.drop_last());
        lemma_q_dpos(f.last(), g.last());
        assert forall|j: int| 0 <= j < h.len() implies (#[trigger] h[j]).d > 0 by {
            lemma_q_dpos(f[j], g[j]);
        }
        lemma_qsum_dpos(h.drop_last());
        lemma_q_dpos(qsum(f.drop_last()), qsum(g.drop_last()));
        lemma_q_add_cong(
            qsum(h.drop_last()),
            q_add(qsum(f.drop_last()), qsum(g.drop_last())),
            h.last(),
            h.last(),
        );
        lemma_q_add_shuffle4(qsum(f.drop_last()), qsum(g.drop_last()), f.last(), g.last());
        lemma_q_dpos(q_add(qsum(f.drop_last()), qsum(g.drop_last())), h.last());
        lemma_q_eq_trans(
            qsum(h),
            q_add(q_add(qsum(f.drop_last()), qsum(g.drop_last())), q_add(f.last(), g.last())),
            q_add(qsum(f), qsum(g)),
        );
    }
}

/// A common factor comes out of a whole sum.
proof fn lemma_qsum_factor(k: Q, g: Seq<Q>, h: Seq<Q>)
    requires
        k.d > 0,
        h.len() == g.len(),
        forall|j: int| 0 <= j < g.len() ==> (#[trigger] g[j]).d > 0,
        forall|j: int| 0 <= j < h.len() ==> #[trigger] h[j] == q_mul(k, g[j]),
    ensures
        q_eq(qsum(h), q_mul(k, qsum(g))),
    decreases g.len(),
{
    if g.len() == 0 {
        assert(qsum(h) == q_zero());
        assert(q_mul(k, q_zero()).n == 0 && q_mul(k, q_zero()).d == k.d * 1) by {
            assert(k.n * 0 == 0) by (nonlinear_arith);
        }
        assert(0 * (k.d * 1) == q_mul(k, q_zero()).n * 1) by (nonlinear_arith)
            requires
                q_mul(k, q_zero()).n == 0,
        ;
    } else {
        lemma_qsum_factor(k, g.drop_last(), h.drop_last());
        lemma_qsum_dpos(g.drop_last());
        assert forall|j: int| 0 <= j < h.len() implies (#[trigger] h[j]).d > 0 by {
            lemma_q_dpos(k, g[j]);
        }
        lemma_qsum_dpos(h.drop_last());
        lemma_q_dpos(k, qsum(g.drop_last()));
        lemma_q_dpos(k, g.last());
        lemma_q_add_cong(
            qsum(h.drop_last()),
            q_mul(k, qsum(g.drop_last())),
            h.last(),
            h.last(),
        );
        lemma_q_mul_factor(k, qsum(g.drop_last()), g.last());
        lemma_q_dpos(q_mul(k, qsum(g.drop_last())), q_mul(k, g.last()));
        lemma_q_dpos(qsum(g.drop_last()), g.last());
        lemma_q_dpos(k, q_add(qsum(g.drop_last()), g.last()));
        lemma_q_eq_trans(
            qsum(h),
            q_add(q_mul(k, qsum(g.drop_last())), q_mul(k, g.last())),
            q_mul(k, qsum(g)),
        );
    }
}

/// The sum of one row's products is that row's dot product.
proof fn lemma_qsum_as_qdot(a: Matrix, x: Matrix, i: int, c: int)
    requires
        0 <= c <= x.rows,
    ensures
        qsum(Seq::new(c as nat, |j: int| q_mul(a.at(i, j), x.at(j, 0)))) == q_dot(a, x, i, 0, c),
    decreases c,
{
    let f = Seq::new(c as nat, |j: int| q_mul(a.at(i, j), x.at(j, 0)));
    if c > 0 {
        lemma_qsum_as_qdot(a, x, i, c - 1);
        assert(f.drop_last() =~= Seq::new((c - 1) as nat, |j: int| q_mul(a.at(i, j), x.at(j, 0))));
    }
}

/// A suffix dot product equals the prefix dot product of the whole
/// row: the two accumulate the same terms.
proof fn lemma_rev_dot(u: Matrix, x: Matrix, i: int, c: int)
    requires
        u.rows == u.cols,
        x.rows == u.rows,
        0 <= c <= u.rows,
    ensures
        q_add(q_dot(u, x, i, 0, c), q_dot_suffix(u, x, i, c)) == q_dot_suffix(u, x, i, 0),
    decreases c,
{
    if c == 0 {
        lemma_qsum_zero_sides(q_dot_suffix(u, x, i, 0));
    } else {
        lemma_rev_dot(u, x, i, c - 1);
        lemma_q_add_shuffle4(
            q_dot(u, x, i, 0, c - 1),
            q_dot_suffix(u, x, i, c),
            q_mul(u.at(i, c - 1), x.at(c - 1, 0)),
            q_zero(),
        );
        lemma_qsum_zero_sides(q_dot_suffix(u, x, i, c));
        lemma_qsum_zero_sides(q_mul(u.at(i, c - 1), x.at(c - 1, 0)));
        assert(q_add(q_dot(u, x, i, 0, c - 1), q_dot_suffix(u, x, i, c - 1)) == q_add(
            q_add(q_dot(u, x, i, 0, c - 1), q_dot_suffix(u, x, i, c)),
            q_add(q_mul(u.at(i, c - 1), x.at(c - 1, 0)), q_zero()),
        )) by {
            assert(q_dot_suffix(u, x, i, c - 1) == q_add(
                q_dot_suffix(u, x, i, c),
                q_mul(u.at(i, c - 1), x.at(c - 1, 0)),
            ));
            assert(q_add(q_mul(u.at(i, c - 1), x.at(c - 1, 0)), q_zero()) == q_mul(
                u.at(i, c - 1),
                x.at(c - 1, 0),
            ));
            lemma_q_add_shuffle4(
                q_dot(u, x, i, 0, c - 1),
                q_dot_suffix(u, x, i, c),
                q_zero(),
                q_mul(u.at(i, c - 1), x.at(c - 1, 0)),
            );
            assert(q_add(q_zero(), q_mul(u.at(i, c - 1), x.at(c - 1, 0))) == q_mul(
                u.at(i, c - 1),
                x.at(c - 1, 0),
            ));
            assert(q_add(q_add(q_dot(u, x, i, 0, c - 1), q_zero()), q_add(
                q_dot_suffix(u, x, i, c),
                q_mul(u.at(i, c - 1), x.at(c - 1, 0)),
            )) == q_add(q_dot(u, x, i, 0, c - 1), q_dot_suffix(u, x, i, c - 1))) by {
                assert(q_add(q_dot(u, x, i, 0, c - 1), q_zero()) == q_dot(u, x, i, 0, c - 1));
            }
        }
    }
}

/// Exchanging the summation order: summing row-prefix dot products
/// against the vector equals the prefix combination of whole-row dot
/// products.
proof fn lemma_exchange(l: Matrix, u: Matrix, x: Matrix, i: int, c: int)
    requires
        l.wf(),
        u.wf(),
        x.wf(),
        l.rows == l.cols,
        u.rows == l.rows,
        u.cols == l.rows,
        x.rows == l.rows,
        x.cols == 1,
        0 <= i < l.rows,
        0 <= c <= l.rows,
    ensures
        q_eq(qsum(wterm(l, u, x, i, c)), vdot(l, fseq(u, x), i, c)),
    decreases c,
{
    let m = l.rows as int;
    let w = wterm(l, u, x, i, c);
    assert forall|j: int| 0 <= j < m implies (#[trigger] q_dot(l, u, i, j, c)).d > 0 by {
        lemma_q_dot_dpos(l, u, i, j, c);
    }
    assert forall|j: int| 0 <= j < w.len() implies (#[trigger] w[j]).d > 0 by {
        lemma_q_dpos(q_dot(l, u, i, j, c), x.at(j, 0));
    }
    assert forall|t: int| 0 <= t < m implies (#[trigger] fseq(u, x)[t]).d > 0 by {
        lemma_q_dot_dpos(u, x, t, 0, m);
    }
    if c == 0 {
        assert forall|j: int| 0 <= j < w.len() implies (#[trigger] w[j]).d > 0 && w[j].n
            == 0 by {
            assert(q_dot(l, u, i, j, 0) == q_zero());
            assert(0 * x.at(j, 0).n == 0) by (nonlinear_arith);
        }
        lemma_qsum_zero(w);
    } else {
        lemma_exchange(l, u, x, i, c - 1);
        let wp = wterm(l, u, x, i, c - 1);
        let lic = l.at(i, c - 1);
        let g = Seq::new(x.rows as nat, |j: int| q_mul(q_mul(lic, u.at(c - 1, j)), x.at(j, 0)));
        let g2 = Seq::new(x.rows as nat, |j: int| q_mul(lic, q_mul(u.at(c - 1, j), x.at(j, 0))));
        let h2 = Seq::new(x.rows as nat, |j: int| q_add(wp[j], g[j]));
        assert forall|j: int| 0 <= j < m implies (#[trigger] q_dot(l, u, i, j, c - 1)).d > 0 by {
            lemma_q_dot_dpos(l, u, i, j, c - 1);
        }
        assert forall|j: int| 0 <= j < wp.len() implies (#[trigger] wp[j]).d > 0 by {
            lemma_q_dpos(q_dot(l, u, i, j, c - 1), x.at(j, 0));
        }
        assert forall|j: int| 0 <= j < g.len() implies (#[trigger] g[j]).d > 0 by {
            lemma_q_dpos(lic, u.at(c - 1, j));
            lemma_q_dpos(q_mul(lic, u.at(c - 1, j)), x.at(j, 0));
        }
        // each term of the longer prefix splits off the new product
        assert forall|j: int| 0 <= j < w.len() implies q_eq(#[trigger] w[j], h2[j]) by {
            lemma_q_mul_dist(q_dot(l, u, i, j, c - 1), q_mul(lic, u.at(c - 1, j)), x.at(j, 0));
            assert(q_dot(l, u, i, j, c) == q_add(
                q_dot(l, u, i, j, c - 1),
                q_mul(lic, u.at(c - 1, j)),
            ));
        }
        assert forall|j: int| 0 <= j < h2.len() implies (#[trigger] h2[j]).d > 0 by {
            lemma_q_dpos(wp[j], g[j]);
        }
        lemma_qsum_cong(w, h2);
        lemma_qsum_split(wp, g, h2);
        // factor the multiplier out of the split-off sum
        assert forall|j: int| 0 <= j < g.len() implies #[trigger] g[j] == g2[j] by {
            lemma_q_mul_assoc(lic, u.at(c - 1, j), x.at(j, 0));
        }
        assert(g =~= g2);
        let urow = Seq::new(x.rows as nat, |j: int| q_mul(u.at(c - 1, j), x.at(j, 0)));
        assert forall|j: int| 0 <= j < urow.len() implies (#[trigger] urow[j]).d > 0 by {
            lemma_q_dpos(u.at(c - 1, j), x.at(j, 0));
        }
        lemma_qsum_factor(lic, urow, g2);
        lemma_qsum_as_qdot(u, x, c - 1, m);
        assert(urow =~= Seq::new(m as nat, |j: int| q_mul(u.at(c - 1, j), x.at(j, 0))));
        assert(qsum(urow) == fseq(u, x)[c - 1]);
        // assemble: sum(w) ~ sum(wp) + sum(g) ~ vdot(c-1) + lic * fseq[c-1]
        lemma_qsum_dpos(w);
        lemma_qsum_dpos(wp);
        lemma_qsum_dpos(g);
        lemma_qsum_dpos(h2);
        lemma_q_dpos(qsum(wp), qsum(g));
        lemma_q_eq_trans(qsum(w), qsum(h2), q_add(qsum(wp), qsum(g)));
        lemma_vdot_dpos_local(l, fseq(u, x), i, c - 1);
        lemma_q_dpos(lic, fseq(u, x)[c - 1]);
        lemma_q_add_cong(
            qsum(wp),
            vdot(l, fseq(u, x), i, c - 1),
            qsum(g),
            q_mul(lic, fseq(u, x)[c - 1]),
        );
        lemma_q_dpos(vdot(l, fseq(u, x), i, c - 1), q_mul(lic, fseq(u, x)[c - 1]));
        lemma_q_eq_trans(
            qsum(w),
            q_add(qsum(wp), qsum(g)),
            q_add(vdot(l, fseq(u, x), i, c - 1), q_mul(lic, fseq(u, x)[c - 1])),
        );
        assert(vdot(l, fseq(u, x), i, c) == q_add(
            vdot(l, fseq(u, x), i, c - 1),
            q_mul(lic, fseq(u, x)[c - 1]),
        ));
    }
}

/// `vdot` has a positive denominator when its inputs do.
proof fn lemma_vdot_dpos_local(l: Matrix, ys: Seq<Q>, i: int, c: int)
    requires
        l.wf(),
        0 <= i < l.rows,
        c <= l.cols,
        c <= ys.len(),
        forall|t: int| 0 <= t < c ==> (#[trigger] ys[t]).d > 0,
    ensures
        vdot(l, ys, i, c).d > 0,
    decreases c,
{
    if c > 0 {
        lemma_vdot_dpos_local(l, ys, i, c - 1);
        lemma_q_dpos(l.at(i, c - 1), ys[c - 1]);
        lemma_q_dpos(vdot(l, ys, i, c - 1), q_mul(l.at(i, c - 1), ys[c - 1]));
    }
}

/// `vdot` respects `q_eq` on its vector, entry by entry.
proof fn lemma_vdot_cong(l: Matrix, f: Seq<Q>, g: Seq<Q>, i: int, c: int)
    requires
        l.wf(),
        0 <= i < l.rows,
        c <= l.cols,
        c <= f.len(),
        c <= g.len(),
        forall|t: int| 0 <= t < c ==> (#[trigger] f[t]).d > 0,
        forall|t: int| 0 <= t < c ==> (#[trigger] g[t]).d > 0,
        forall|t: int| 0 <= t < c ==> q_eq(#[trigger] f[t], g[t]),
    ensures
        q_eq(vdot(l, f, i, c), vdot(l, g, i, c)),
    decreases c,
{
    if c > 0 {
        lemma_vdot_cong(l, f, g, i, c - 1);
        lemma_vdot_dpos_local(l, f, i, c - 1);
        lemma_vdot_dpos_local(l, g, i, c - 1);
        lemma_q_mul_cong(l.at(i, c - 1), l.at(i, c - 1), f[c - 1], g[c - 1]);
        lemma_q_dpos(l.at(i, c - 1), f[c - 1]);
        lemma_q_dpos(l.at(i, c - 1), g[c - 1]);
        lemma_q_add_cong(
            vdot(l, f, i, c - 1),
            vdot(l, g, i, c - 1),
            q_mul(l.at(i, c - 1), f[c - 1]),
            q_mul(l.at(i, c - 1), g[c - 1]),
        );
    }
}

/// `vdot` over the entries of a single-column matrix is the matrix
/// dot product.
proof fn lemma_vdot_as_column(l: Matrix, y: Matrix, ys: Seq<Q>, i: int, c: int)
    requires
        forall|t: int| 0 <= t < c ==> #[trigger] y.at(t, 0) == ys[t],
    ensures
        q_dot(l, y, i, 0, c) == vdot(l, ys, i, c),
    decreases c,
{
    if c > 0 {
        lemma_vdot_as_column(l, y, ys, i, c - 1);
    }
}

/// End-to-end solve correctness: a solution connected to its inputs by
/// a `solve_witness` satisfies the original system `a * x = b` exactly,
/// row by row.
pub proof fn lemma_solve_correct(a: Matrix, b: Matrix, x: Matrix, l: Matrix, u: Matrix, y: Matrix)
    requires
        a.wf(),
        b.wf(),
        x.wf(),
        a.rows == a.cols,
        b.rows == a.rows,
        b.cols == 1,
        x.rows == a.rows,
        x.cols == 1,
        solve_witness(a, b, x, l, u, y),
    ensures
        forall|i: int|
            0 <= i < a.rows ==> q_eq(#[trigger] q_dot(a, x, i, 0, a.rows as int), b.at(i, 0)),
{
    let m = a.rows as int;
    lemma_backward_solve_correct(u, y, x);
    lemma_forward_solve_correct(l, b, y);
    let fs = fseq(u, x);
    let yq = Seq::new(a.rows as nat, |t: int| y.at(t, 0));
    assert forall|t: int| 0 <= t < m implies q_eq(#[trigger] fs[t], yq[t]) by {
        lemma_rev_dot(u, x, t, m);
        assert(q_dot_suffix(u, x, t, m) == q_zero());
        lemma_qsum_zero_sides(q_dot(u, x, t, 0, m));
        assert(q_dot(u, x, t, 0, m) == q_dot_suffix(u, x, t, 0));
    }
    assert forall|t: int| 0 <= t < m implies (#[trigger] fs[t]).d > 0 by {
        lemma_q_dot_dpos(u, x, t, 0, m);
    }
    assert forall|t: int| 0 <= t < m implies (#[trigger] yq[t]).d > 0 by {
        assert(q_wf(y.at(t, 0)));
    }
    assert forall|i: int| 0 <= i < m implies q_eq(
        #[trigger] q_dot(a, x, i, 0, m),
        b.at(i, 0),
    ) by {
        lemma_exchange(l, u, x, i, m);
        let w = wterm(l, u, x, i, m);
        let aterms = Seq::new(a.rows as nat, |j: int| q_mul(a.at(i, j), x.at(j, 0)));
        assert forall|j: int| 0 <= j < m implies q_eq(#[trigger] w[j], aterms[j]) by {
            lemma_q_mul_cong(q_dot(l, u, i, j, m), a.at(i, j), x.at(j, 0), x.at(j, 0));
        }
        assert forall|j: int| 0 <= j < m implies (#[trigger] w[j]).d > 0 by {
            lemma_q_dot_dpos(l, u, i, j, m);
            lemma_q_dpos(q_dot(l, u, i, j, m), x.at(j, 0));
        }
        assert forall|j: int| 0 <= j < m implies (#[trigger] aterms[j]).d > 0 by {
            lemma_q_dpos(a.at(i, j), x.at(j, 0));
        }
        lemma_qsum_cong(w, aterms);
        lemma_qsum_as_qdot(a, x, i, m);
        lemma_vdot_cong(l, fs, yq, i, m);
        lemma_vdot_as_column(l, y, yq, i, m);
        lemma_qsum_dpos(w);
        lemma_vdot_dpos_local(l, fs, i, m);
        lemma_vdot_dpos_local(l, yq, i, m);
        lemma_qsum_dpos(aterms);
        // q_dot(a, x) ~ sum(w) ~ vdot(fs) ~ vdot(yq) == q_dot(l, y) ~ b
        lemma_q_eq_trans(q_dot(a, x, i, 0, m), qsum(w), vdot(l, fs, i, m));
        lemma_q_eq_trans(q_dot(a, x, i, 0, m), vdot(l, fs, i, m), vdot(l, yq, i, m));
        lemma_q_eq_trans(q_dot(a, x, i, 0, m), q_dot(l, y, i, 0, m), b.at(i, 0));
    }
}

/// Transposing twice restores the original matrix exactly: shape and
/// every element representation, with no arithmetic involved.
pub proof fn lemma_transpose_involution(a: Matrix, b: Matrix, c: Matrix)
    requires
        b.rows == a.cols,
        b.cols == a.rows,
        forall|i: int, j: int|
            0 <= i < b.rows && 0 <= j < b.cols ==> #[trigger] b.at(i, j) == a.at(j, i),
        c.rows == b.cols,
        c.cols == b.rows,
        forall|i: int, j: int|
            0 <= i < c.rows && 0 <= j < c.cols ==> #[trigger] c.at(i, j) == b.at(j, i),
    ensures
        c.rows == a.rows,
        c.cols == a.cols,
        forall|i: int, j: int|
            0 <= i < a.rows && 0 <= j < a.cols ==> #[trigger] c.at(i, j) == a.at(i, j),
{
}

} // verus!
