//! Direct linear-system solving: LU decomposition without pivoting,
//! forward and backward substitution, and their composition.

use vstd::prelude::*;
use crate::matrix::{lemma_q_dot_dpos, lemma_q_dot_pad, MatError, Matrix, q_dot};
use crate::rat::{
    Q, Rat, lemma_canon, lemma_q_add_cong, lemma_q_add_zero_left, lemma_q_div_mul, lemma_q_dpos,
    lemma_q_eq_trans, lemma_q_mul_comm, lemma_q_mul_cong, lemma_q_mul_one_left, q_add, q_canon,
    q_div, q_eq, q_int, q_mul, q_sub, q_wf, q_zero,
};

verus! {

/// The element views of a vector of rationals.
pub open spec fn vviews(s: Seq<Rat>) -> Seq<Q> {
    s.map_values(|r: Rat| r@)
}

/// Dot product of row `i` of `l` with the first `c` entries of the
/// column vector `ys`.
pub open spec fn vdot(l: Matrix, ys: Seq<Q>, i: int, c: int) -> Q
    decreases c,
{
    if c <= 0 {
        q_zero()
    } else {
        q_add(vdot(l, ys, i, c - 1), q_mul(l.at(i, c - 1), ys[c - 1]))
    }
}

/// `vdot` has a positive denominator when its inputs do.
proof fn lemma_vdot_dpos(l: Matrix, ys: Seq<Q>, i: int, c: int)
    requires
        l.wf(),
        0 <= i < l.rows,
        c <= l.cols,
        c <= ys.len(),
        forall|t: int| 0 <= t < c ==> (#[trigger] ys[t]).d > 0,
    ensures
        vdot(l, ys, i, c).d > 0,
    decreases c,
{
    if c > 0 {
        lemma_vdot_dpos(l, ys, i, c - 1);
        lemma_q_dpos(l.at(i, c - 1), ys[c - 1]);
        lemma_q_dpos(vdot(l, ys, i, c - 1), q_mul(l.at(i, c - 1), ys[c - 1]));
    }
}

/// `vdot` only reads the first `c` entries of the vector.
proof fn lemma_vdot_frame(l: Matrix, ys1: Seq<Q>, ys2: Seq<Q>, i: int, c: int)
    requires
        forall|t: int| 0 <= t < c ==> ys1[t] == ys2[t],
    ensures
        vdot(l, ys1, i, c) == vdot(l, ys2, i, c),
    decreases c,
{
    if c > 0 {
        lemma_vdot_frame(l, ys1, ys2, i, c - 1);
    }
}

/// `vdot` over the entries of a single-column matrix is the matrix
/// dot product.
proof fn lemma_vdot_as_qdot(l: Matrix, y: Matrix, ys: Seq<Q>, i: int, c: int)
    requires
        forall|t: int| 0 <= t < c ==> #[trigger] y.at(t, 0) == ys[t],
    ensures
        q_dot(l, y, i, 0, c) == vdot(l, ys, i, c),
    decreases c,
{
    if c > 0 {
        lemma_vdot_as_qdot(l, y, ys, i, c - 1);
    }
}

/// Adding a term and subtracting it again cancels, up to `q_eq`.
proof fn lemma_q_add_sub_cancel(s: Q, m: Q, acc: Q)
    ensures
        q_eq(q_add(q_add(s, m), q_sub(acc, m)), q_add(s, acc)),
{
    let lhs = q_add(q_add(s, m), q_sub(acc, m));
    let rhs = q_add(s, acc);
    lemma_cancel_core(s.n, s.d, m.n, m.d, acc.n, acc.d);
    assert(lhs.n == (m.d * m.d) * rhs.n && lhs.d == (m.d * m.d) * rhs.d);
    assert(lhs.n * rhs.d == rhs.n * lhs.d) by (nonlinear_arith)
        requires
            lhs.n == (m.d * m.d) * rhs.n,
            lhs.d == (m.d * m.d) * rhs.d,
    ;
}

/// The ring identity behind `lemma_q_add_sub_cancel`.
#[verifier::rlimit(30)]
proof fn lemma_cancel_core(sn: int, sd: int, mn: int, md: int, an: int, ad: int)
    ensures
        (sn * md + mn * sd) * (ad * md) + (an * md - mn * ad) * (sd * md) == (md * md) * (sn * ad
            + an * sd),
        (sd * md) * (ad * md) == (md * md) * (sd * ad),
{
    assert((sn * md + mn * sd) * (ad * md) == (sn * md) * (ad * md) + (mn * sd) * (ad * md))
        by (nonlinear_arith);
    assert((sn * md) * (ad * md) == (md * md) * (sn * ad)) by (nonlinear_arith);
    assert((mn * sd) * (ad * md) == (mn * ad) * (sd * md)) by (nonlinear_arith);
    assert((an * md - mn * ad) * (sd * md) == (an * md) * (sd * md) - (mn * ad) * (sd * md))
        by (nonlinear_arith);
    assert((an * md) * (sd * md) == (md * md) * (an * sd)) by (nonlinear_arith);
    assert((md * md) * (sn * ad) + (md * md) * (an * sd) == (md * md) * (sn * ad + an * sd))
        by (nonlinear_arith);
    assert((sd * md) * (ad * md) == (md * md) * (sd * ad)) by (nonlinear_arith);
}

/// The value assigned to row `i` of the forward-substitution result:
/// the running value after all of the row's subtractions, divided by
/// the diagonal entry.
pub open spec fn fwd_y(l: Matrix, b: Matrix, i: int) -> Q
    decreases i, 1int, 0int,
    when i >= 0
{
    q_canon(q_div(fwd_acc(l, b, i, i), l.at(i, i)))
}

/// The running value of row `i` after its first `t` subtractions.
pub open spec fn fwd_acc(l: Matrix, b: Matrix, i: int, t: int) -> Q
    decreases i, 0int, t,
    when 0 <= t <= i
{
    if t <= 0 {
        b.at(i, 0)
    } else {
        q_canon(
            q_sub(fwd_acc(l, b, i, t - 1), q_canon(q_mul(l.at(i, t - 1), fwd_y(l, b, t - 1)))),
        )
    }
}

/// The values computed for row `i` through its first `t` subtractions
/// all stay in the representable window.
pub open spec fn fwd_step_ok(l: Matrix, b: Matrix, i: int, t: int) -> bool
    decreases t,
    when 0 <= t <= i
{
    if t <= 0 {
        true
    } else {
        &&& fwd_step_ok(l, b, i, t - 1)
        &&& q_wf(q_canon(q_mul(l.at(i, t - 1), fwd_y(l, b, t - 1))))
        &&& q_wf(fwd_acc(l, b, i, t))
    }
}

/// Row `i` of the forward substitution completes within the window.
pub open spec fn fwd_row_ok(l: Matrix, b: Matrix, i: int) -> bool {
    fwd_step_ok(l, b, i, i) && q_wf(fwd_y(l, b, i))
}

/// The whole forward substitution stays within the window.
pub open spec fn fwd_ok(l: Matrix, b: Matrix) -> bool {
    forall|i: int| 0 <= i < l.rows ==> #[trigger] fwd_row_ok(l, b, i)
}

/// A row whose whole run of subtractions fits also fits any prefix.
proof fn lemma_fwd_step_prefix(l: Matrix, b: Matrix, i: int, t1: int, t2: int)
    requires
        0 <= t1 <= t2 <= i,
        fwd_step_ok(l, b, i, t2),
    ensures
        fwd_step_ok(l, b, i, t1),
    decreases t2,
{
    if t1 < t2 {
        lemma_fwd_step_prefix(l, b, i, t1, t2 - 1);
    }
}

/// Solve the lower-triangular system `lower * y = b` top to bottom.
///
/// Only entries on or below the diagonal of `lower` are read, so the
/// result satisfies every row equation restricted to columns `0 ..= i`;
/// for a genuinely lower-triangular matrix that is the whole system.
/// The result values are pinned to the `fwd_y` recurrence; on
/// well-shaped inputs with nonzero diagonal, success holds exactly
/// when that recurrence stays in the window. A zero diagonal entry is
/// reported as `SingularMatrix`.
pub fn forward_substitution(lower: &Matrix, b: &Matrix) -> (r: Result<Matrix, MatError>)
    requires
        lower.wf(),
        b.wf(),
    ensures
        !(lower.rows == lower.cols && b.rows == lower.rows && b.cols == 1) ==> (r matches Err(e)
            && e == MatError::ShapeMismatch),
        lower.rows == lower.cols && b.rows == lower.rows && b.cols == 1 ==> {
            &&& ((exists|i: int|
                0 <= i < lower.rows && (#[trigger] lower.at(i, i)).n == 0) <==> (r matches Err(e)
                && e == MatError::SingularMatrix))
            &&& (r matches Err(e) ==> e == MatError::SingularMatrix || e == MatError::Overflow)
            &&& ((forall|i: int| 0 <= i < lower.rows ==> (#[trigger] lower.at(i, i)).n != 0)
                ==> ((r is Ok) <==> fwd_ok(*lower, *b)))
        },
        r matches Ok(y) ==> {
            &&& lower.rows == lower.cols
            &&& b.rows == lower.rows
            &&& b.cols == 1
            &&& y.wf()
            &&& y.rows == lower.rows
            &&& y.cols == 1
            &&& forall|i: int|
                0 <= i < lower.rows ==> q_eq(
                    #[trigger] q_dot(*lower, y, i, 0, i + 1),
                    b.at(i, 0),
                )
            &&& forall|i: int|
                0 <= i < lower.rows ==> #[trigger] y.at(i, 0) == fwd_y(*lower, *b, i)
        },
{
    let m = lower.rows;
    if lower.cols != m || b.rows != m || b.cols != 1 {
        return Err(MatError::ShapeMismatch);
    }
    let mut i: usize = 0;
    while i < m
        invariant
            i <= m,
            lower.wf(),
            m == lower.rows,
            lower.cols == m,
            b.rows == m,
            b.cols == 1,
            forall|ii: int| 0 <= ii < i ==> (#[trigger] lower.at(ii, ii)).n != 0,
        decreases m - i,
    {
        if lower.get(i, i).is_zero() {
            return Err(MatError::SingularMatrix);
        }
        i += 1;
    }
    let mut ys: Vec<Rat> = Vec::new();
    let mut i: usize = 0;
    while i < m
        invariant
            i <= m,
            lower.wf(),
            b.wf(),
            m == lower.rows,
            lower.cols == m,
            b.rows == m,
            b.cols == 1,
            forall|ii: int| 0 <= ii < m ==> (#[trigger] lower.at(ii, ii)).n != 0,
            ys@.len() == i as int,
            forall|t: int| 0 <= t < i ==> q_wf((#[trigger] ys@[t])@),
            forall|ii: int|
                0 <= ii < i ==> q_eq(
                    #[trigger] vdot(*lower, vviews(ys@), ii, ii + 1),
                    b.at(ii, 0),
                ),
            forall|t: int| 0 <= t < i ==> (#[trigger] ys@[t])@ == fwd_y(*lower, *b, t),
            forall|t: int| 0 <= t < i ==> #[trigger] fwd_row_ok(*lower, *b, t),
        decreases m - i,
    {
        let mut acc = b.get(i, 0);
        proof {
            assert(vdot(*lower, vviews(ys@), i as int, 0) == q_zero());
            assert(0 * acc@.d + acc@.n * 1 == acc@.n && 1 * acc@.d == acc@.d)
                by (nonlinear_arith);
            assert(q_add(q_zero(), acc@) == acc@);
        }
        let mut t: usize = 0;
        while t < i
            invariant
                t <= i,
                i < m,
                lower.wf(),
                b.wf(),
                m == lower.rows,
                lower.cols == m,
                b.rows == m,
                b.cols == 1,
                forall|ii: int| 0 <= ii < m ==> (#[trigger] lower.at(ii, ii)).n != 0,
                ys@.len() == i as int,
                forall|tt: int| 0 <= tt < i ==> q_wf((#[trigger] ys@[tt])@),
                forall|ii: int|
                    0 <= ii < i ==> q_eq(
                        #[trigger] vdot(*lower, vviews(ys@), ii, ii + 1),
                        b.at(ii, 0),
                    ),
                acc.wf(),
                q_eq(q_add(vdot(*lower, vviews(ys@), i as int, t as int), acc@), b.at(i as int, 0)),
                forall|tt: int| 0 <= tt < i ==> (#[trigger] ys@[tt])@ == fwd_y(*lower, *b, tt),
                forall|tt: int| 0 <= tt < i ==> #[trigger] fwd_row_ok(*lower, *b, tt),
                acc@ == fwd_acc(*lower, *b, i as int, t as int),
                fwd_step_ok(*lower, *b, i as int, t as int),
            decreases i - t,
        {
            let term = match lower.get(i, t).mul(&ys[t]) {
                Some(p) => p,
                None => {
                    proof {
                        let ii = i as int;
                        let tt = t as int;
                        assert(!q_wf(
                            q_canon(q_mul(lower.at(ii, tt), fwd_y(*lower, *b, tt))),
                        ));
                        if fwd_row_ok(*lower, *b, ii) {
                            lemma_fwd_step_prefix(*lower, *b, ii, tt + 1, ii);
                            assert(false);
                        }
                        assert(!fwd_ok(*lower, *b));
                    }
                    return Err(MatError::Overflow);
                },
            };
            let newacc = match acc.sub(&term) {
                Some(s) => s,
                None => {
                    proof {
                        let ii = i as int;
                        let tt = t as int;
                        assert(!q_wf(fwd_acc(*lower, *b, ii, tt + 1)));
                        if fwd_row_ok(*lower, *b, ii) {
                            lemma_fwd_step_prefix(*lower, *b, ii, tt + 1, ii);
                            assert(false);
                        }
                        assert(!fwd_ok(*lower, *b));
                    }
                    return Err(MatError::Overflow);
                },
            };
            proof {
                let lit = lower.at(i as int, t as int);
                let yt = vviews(ys@)[t as int];
                let s = vdot(*lower, vviews(ys@), i as int, t as int);
                let mraw = q_mul(lit, yt);
                assert forall|tt: int| 0 <= tt < i implies (#[trigger] vviews(ys@)[tt]).d > 0 by {
                    assert(q_wf(ys@[tt]@));
                }
                lemma_vdot_dpos(*lower, vviews(ys@), i as int, t as int);
                lemma_q_dpos(lit, yt);
                lemma_canon(mraw);
                lemma_q_dpos(acc@, term@);
                lemma_canon(q_sub(acc@, term@));
                // newacc ~ acc - mraw
                lemma_q_add_cong(acc@, acc@, term@, mraw);
                lemma_q_eq_trans(newacc@, q_sub(acc@, term@), q_sub(acc@, mraw));
                // (s + mraw) + (acc - mraw) ~ s + acc ~ b_i
                lemma_q_add_sub_cancel(s, mraw, acc@);
                lemma_q_dpos(s, mraw);
                lemma_q_dpos(acc@, mraw);
                lemma_q_dpos(s, acc@);
                lemma_q_dpos(q_add(s, mraw), q_sub(acc@, mraw));
                lemma_q_add_cong(
                    q_add(s, mraw),
                    q_add(s, mraw),
                    newacc@,
                    q_sub(acc@, mraw),
                );
                lemma_q_eq_trans(
                    q_add(q_add(s, mraw), newacc@),
                    q_add(q_add(s, mraw), q_sub(acc@, mraw)),
                    q_add(s, acc@),
                );
                lemma_q_dpos(q_add(s, mraw), newacc@);
                lemma_q_eq_trans(
                    q_add(q_add(s, mraw), newacc@),
                    q_add(s, acc@),
                    b.at(i as int, 0),
                );
                assert(term@ == q_canon(
                    q_mul(lower.at(i as int, t as int), fwd_y(*lower, *b, t as int)),
                ));
                assert(newacc@ == fwd_acc(*lower, *b, i as int, t as int + 1));
                assert(fwd_step_ok(*lower, *b, i as int, t as int + 1));
            }
            acc = newacc;
            t += 1;
        }
        let diag = lower.get(i, i);
        let yi = match acc.div(&diag) {
            Some(v) => v,
            None => {
                proof {
                    let ii = i as int;
                    assert(!q_wf(fwd_y(*lower, *b, ii)));
                    assert(!fwd_row_ok(*lower, *b, ii));
                    assert(!fwd_ok(*lower, *b));
                }
                return Err(MatError::Overflow);
            },
        };
        proof {
            let ghost ys2 = ys@.push(yi);
            assert forall|tt: int| 0 <= tt < i implies vviews(ys@)[tt] == vviews(ys2)[tt] by {}
            lemma_vdot_frame(*lower, vviews(ys2), vviews(ys@), i as int, i as int);
            // previous rows keep their equations
            assert forall|ii: int| 0 <= ii < i implies q_eq(
                #[trigger] vdot(*lower, vviews(ys2), ii, ii + 1),
                b.at(ii, 0),
            ) by {
                lemma_vdot_frame(*lower, vviews(ys2), vviews(ys@), ii, ii + 1);
            }
            // row i: vdot(ys2, i, i + 1) == vdot(ys, i, i) + l_ii * yi
            let s = vdot(*lower, vviews(ys@), i as int, i as int);
            let dq = lower.at(i as int, i as int);
            assert(vviews(ys2)[i as int] == yi@);
            assert(vdot(*lower, vviews(ys2), i as int, i as int + 1) == q_add(
                s,
                q_mul(dq, yi@),
            ));
            // l_ii * yi ~ acc
            lemma_q_dpos(acc@, dq);
            lemma_canon(q_div(acc@, dq));
            lemma_q_mul_cong(dq, dq, yi@, q_div(acc@, dq));
            lemma_q_mul_comm(dq, q_div(acc@, dq));
            lemma_q_div_mul(acc@, dq);
            assert(q_mul(dq, q_div(acc@, dq)).d != 0) by (nonlinear_arith)
                requires
                    dq.d > 0,
                    dq.n != 0,
                    acc@.d > 0,
            ;
            lemma_q_eq_trans(q_mul(dq, yi@), q_mul(dq, q_div(acc@, dq)), acc@);
            // sum + (l_ii * yi) ~ sum + acc ~ b_i
            assert forall|tt: int| 0 <= tt < i implies (#[trigger] vviews(ys@)[tt]).d > 0 by {
                assert(q_wf(ys@[tt]@));
            }
            lemma_vdot_dpos(*lower, vviews(ys@), i as int, i as int);
            lemma_q_dpos(dq, yi@);
            lemma_q_add_cong(s, s, q_mul(dq, yi@), acc@);
            lemma_q_dpos(s, q_mul(dq, yi@));
            lemma_q_dpos(s, acc@);
            lemma_q_eq_trans(
                q_add(s, q_mul(dq, yi@)),
                q_add(s, acc@),
                b.at(i as int, 0),
            );
            assert(yi@ == fwd_y(*lower, *b, i as int));
            assert(fwd_row_ok(*lower, *b, i as int));
        }
        ys.push(yi);
        i += 1;
    }
    let mut grid: Vec<Vec<Rat>> = Vec::new();
    let mut k: usize = 0;
    while k < m
        invariant
            k <= m,
            m == ys@.len(),
            forall|t: int| 0 <= t < m ==> q_wf((#[trigger] ys@[t])@),
            grid@.len() == k as int,
            forall|t: int| 0 <= t < k ==> (#[trigger] grid@[t])@.len() == 1,
            forall|t: int| 0 <= t < k ==> (#[trigger] grid@[t]@[0]) == ys@[t],
        decreases m - k,
    {
        let mut row: Vec<Rat> = Vec::new();
        row.push(ys[k]);
        grid.push(row);
        k += 1;
    }
    let y = Matrix { rows: m, cols: 1, data: grid };
    proof {
        assert forall|t: int| 0 <= t < m implies #[trigger] y.at(t, 0) == vviews(ys@)[t] by {
            assert(grid@[t]@[0] == ys@[t]);
        }
        assert forall|i2: int| 0 <= i2 < m implies q_eq(
            #[trigger] q_dot(*lower, y, i2, 0, i2 + 1),
            b.at(i2, 0),
        ) by {
            lemma_vdot_as_qdot(*lower, y, vviews(ys@), i2, i2 + 1);
        }
        assert forall|t: int| 0 <= t < m implies #[trigger] y.at(t, 0) == fwd_y(
            *lower,
            *b,
            t,
        ) by {
            assert(y.at(t, 0) == vviews(ys@)[t]);
            assert(ys@[t]@ == fwd_y(*lower, *b, t));
        }
        assert(fwd_ok(*lower, *b));
    }
    Ok(y)
}

/// The value assigned to row `i` of the backward-substitution result:
/// the running value after all of the row's subtractions, divided by
/// the diagonal entry.
pub open spec fn bwd_x(u: Matrix, y: Matrix, i: int) -> Q
    decreases u.rows - i, 1int, 0int,
    when 0 <= i < u.rows
{
    q_canon(q_div(bwd_acc(u, y, i, u.rows - 1 - i), u.at(i, i)))
}

/// The running value of row `i` after its first `t` subtractions,
/// which walk the columns downward from the last.
pub open spec fn bwd_acc(u: Matrix, y: Matrix, i: int, t: int) -> Q
    decreases u.rows - i, 0int, t,
    when 0 <= i < u.rows && 0 <= t <= u.rows - 1 - i
{
    if t <= 0 {
        y.at(i, 0)
    } else {
        q_canon(
            q_sub(
                bwd_acc(u, y, i, t - 1),
                q_canon(q_mul(u.at(i, u.rows - t), bwd_x(u, y, u.rows - t))),
            ),
        )
    }
}

/// The values computed for row `i` through its first `t` subtractions
/// all stay in the representable window.
pub open spec fn bwd_step_ok(u: Matrix, y: Matrix, i: int, t: int) -> bool
    decreases t,
    when 0 <= i < u.rows && 0 <= t <= u.rows - 1 - i
{
    if t <= 0 {
        true
    } else {
        &&& bwd_step_ok(u, y, i, t - 1)
        &&& q_wf(q_canon(q_mul(u.at(i, u.rows - t), bwd_x(u, y, u.rows - t))))
        &&& q_wf(bwd_acc(u, y, i, t))
    }
}

/// Row `i` of the backward substitution completes within the window.
pub open spec fn bwd_row_ok(u: Matrix, y: Matrix, i: int) -> bool {
    bwd_step_ok(u, y, i, u.rows - 1 - i) && q_wf(bwd_x(u, y, i))
}

/// The whole backward substitution stays within the window.
pub open spec fn bwd_ok(u: Matrix, y: Matrix) -> bool {
    forall|i: int| 0 <= i < u.rows ==> #[trigger] bwd_row_ok(u, y, i)
}

/// Forward substitution on the reversed system computes, row for row,
/// the backward recurrences on the original system.
proof fn lemma_bwd_corr_y(u: Matrix, y: Matrix, fu: Matrix, fy: Matrix, kk: int)
    requires
        u.rows == u.cols,
        fu.rows == u.rows,
        fu.cols == u.rows,
        y.rows == u.rows,
        y.cols == 1,
        fy.rows == u.rows,
        fy.cols == 1,
        forall|a: int, bb: int|
            0 <= a < u.rows && 0 <= bb < u.rows ==> #[trigger] fu.at(a, bb) == u.at(
                u.rows - 1 - a,
                u.rows - 1 - bb,
            ),
        forall|a: int| 0 <= a < u.rows ==> #[trigger] fy.at(a, 0) == y.at(u.rows - 1 - a, 0),
        0 <= kk < u.rows,
    ensures
        fwd_y(fu, fy, kk) == bwd_x(u, y, u.rows - 1 - kk),
        fwd_row_ok(fu, fy, kk) == bwd_row_ok(u, y, u.rows - 1 - kk),
    decreases kk, 1int, 0int,
{
    lemma_bwd_corr_acc(u, y, fu, fy, kk, kk);
    assert(fu.at(kk, kk) == u.at(u.rows - 1 - kk, u.rows - 1 - kk));
}

/// The accumulator half of `lemma_bwd_corr_y`.
proof fn lemma_bwd_corr_acc(u: Matrix, y: Matrix, fu: Matrix, fy: Matrix, kk: int, t: int)
    requires
        u.rows == u.cols,
        fu.rows == u.rows,
        fu.cols == u.rows,
        y.rows == u.rows,
        y.cols == 1,
        fy.rows == u.rows,
        fy.cols == 1,
        forall|a: int, bb: int|
            0 <= a < u.rows && 0 <= bb < u.rows ==> #[trigger] fu.at(a, bb) == u.at(
                u.rows - 1 - a,
                u.rows - 1 - bb,
            ),
        forall|a: int| 0 <= a < u.rows ==> #[trigger] fy.at(a, 0) == y.at(u.rows - 1 - a, 0),
        0 <= kk < u.rows,
        0 <= t <= kk,
    ensures
        fwd_acc(fu, fy, kk, t) == bwd_acc(u, y, u.rows - 1 - kk, t),
        fwd_step_ok(fu, fy, kk, t) == bwd_step_ok(u, y, u.rows - 1 - kk, t),
    decreases kk, 0int, t,
{
    if t > 0 {
        lemma_bwd_corr_acc(u, y, fu, fy, kk, t - 1);
        lemma_bwd_corr_y(u, y, fu, fy, t - 1);
        assert(fu.at(kk, t - 1) == u.at(u.rows - 1 - kk, u.rows - t));
        assert(fwd_y(fu, fy, t - 1) == bwd_x(u, y, u.rows - t));
    } else {
        assert(fy.at(kk, 0) == y.at(u.rows - 1 - kk, 0));
    }
}

/// Suffix dot product: row `i` of `u` against the column vector `x`,
/// over columns `c` to the last.
pub open spec fn q_dot_suffix(u: Matrix, x: Matrix, i: int, c: int) -> Q
    decreases u.rows - c,
{
    if c < 0 || c >= u.rows {
        q_zero()
    } else {
        q_add(q_dot_suffix(u, x, i, c + 1), q_mul(u.at(i, c), x.at(c, 0)))
    }
}

/// Reversing rows and columns turns a suffix dot product into a
/// prefix dot product, term for term.
proof fn lemma_suffix_as_flipped(u: Matrix, x: Matrix, fu: Matrix, fx: Matrix, i: int, c: int)
    requires
        u.rows == u.cols,
        fu.rows == u.rows,
        fu.cols == u.rows,
        fx.rows == u.rows,
        forall|a: int, bb: int|
            0 <= a < u.rows && 0 <= bb < u.rows ==> #[trigger] fu.at(a, bb) == u.at(
                u.rows - 1 - a,
                u.rows - 1 - bb,
            ),
        forall|a: int| 0 <= a < u.rows ==> #[trigger] fx.at(a, 0) == x.at(u.rows - 1 - a, 0),
        0 <= i < u.rows,
        0 <= c <= u.rows,
    ensures
        q_dot(fu, fx, u.rows - 1 - i, 0, u.rows - c) == q_dot_suffix(u, x, i, c),
    decreases u.rows - c,
{
    if c < u.rows {
        lemma_suffix_as_flipped(u, x, fu, fx, i, c + 1);
    }
}

/// A copy of `m` with both its row order and column order reversed.
fn flip(m: &Matrix) -> (r: Matrix)
    requires
        m.wf(),
    ensures
        r.wf(),
        r.rows == m.rows,
        r.cols == m.cols,
        forall|i: int, j: int|
            0 <= i < m.rows && 0 <= j < m.cols ==> #[trigger] r.at(i, j) == m.at(
                m.rows - 1 - i,
                m.cols - 1 - j,
            ),
{
    let mut grid: Vec<Vec<Rat>> = Vec::new();
    let mut i: usize = 0;
    while i < m.rows
        invariant
            i <= m.rows,
            m.wf(),
            grid@.len() == i as int,
            forall|ii: int| 0 <= ii < i ==> (#[trigger] grid@[ii])@.len() == m.cols as int,
            forall|ii: int, jj: int|
                0 <= ii < i && 0 <= jj < m.cols ==> (#[trigger] grid@[ii]@[jj])@ == m.at(
                    m.rows - 1 - ii,
                    m.cols - 1 - jj,
                ),
        decreases m.rows - i,
    {
        let mut row: Vec<Rat> = Vec::new();
        let mut j: usize = 0;
        while j < m.cols
            invariant
                j <= m.cols,
                i < m.rows,
                m.wf(),
                row@.len() == j as int,
                forall|jj: int|
                    0 <= jj < j ==> (#[trigger] row@[jj])@ == m.at(
                        m.rows - 1 - i as int,
                        m.cols - 1 - jj,
                    ),
            decreases m.cols - j,
        {
            row.push(m.get(m.rows - 1 - i, m.cols - 1 - j));
            j += 1;
        }
        grid.push(row);
        i += 1;
    }
    Matrix { rows: m.rows, cols: m.cols, data: grid }
}

/// Solve the upper-triangular system `upper * x = y` bottom to top.
///
/// Only entries on or above the diagonal of `upper` are read, so the
/// result satisfies every row equation restricted to columns `i ..`;
/// for a genuinely upper-triangular matrix that is the whole system.
/// A zero diagonal entry is reported as `SingularMatrix`.
pub fn backward_substitution(upper: &Matrix, y: &Matrix) -> (r: Result<Matrix, MatError>)
    requires
        upper.wf(),
        y.wf(),
    ensures
        !(upper.rows == upper.cols && y.rows == upper.rows && y.cols == 1) ==> (r matches Err(e)
            && e == MatError::ShapeMismatch),
        upper.rows == upper.cols && y.rows == upper.rows && y.cols == 1 ==> {
            &&& ((exists|i: int|
                0 <= i < upper.rows && (#[trigger] upper.at(i, i)).n == 0) <==> (r matches Err(e)
                && e == MatError::SingularMatrix))
            &&& (r matches Err(e) ==> e == MatError::SingularMatrix || e == MatError::Overflow)
            &&& ((forall|i: int| 0 <= i < upper.rows ==> (#[trigger] upper.at(i, i)).n != 0)
                ==> ((r is Ok) <==> bwd_ok(*upper, *y)))
        },
        r matches Ok(x) ==> {
            &&& upper.rows == upper.cols
            &&& y.rows == upper.rows
            &&& y.cols == 1
            &&& x.wf()
            &&& x.rows == upper.rows
            &&& x.cols == 1
            &&& forall|i: int|
                0 <= i < upper.rows ==> q_eq(#[trigger] q_dot_suffix(*upper, x, i, i), y.at(i, 0))
            &&& forall|i: int|
                0 <= i < upper.rows ==> #[trigger] x.at(i, 0) == bwd_x(*upper, *y, i)
        },
{
    let m = upper.rows;
    if upper.cols != m || y.rows != m || y.cols != 1 {
        return Err(MatError::ShapeMismatch);
    }
    let fu = flip(upper);
    let fy = flip(y);
    proof {
        assert forall|k: int| 0 <= k < m implies #[trigger] fu.at(k, k) == upper.at(
            m - 1 - k,
            m - 1 - k,
        ) by {}
        assert forall|kk: int| 0 <= kk < m implies (#[trigger] fwd_row_ok(fu, fy, kk))
            == bwd_row_ok(*upper, *y, m - 1 - kk) by {
            lemma_bwd_corr_y(*upper, *y, fu, fy, kk);
        }
        if (forall|i2: int| 0 <= i2 < m ==> (#[trigger] upper.at(i2, i2)).n != 0) {
            assert forall|k2: int| 0 <= k2 < m implies (#[trigger] fu.at(k2, k2)).n != 0 by {
                assert(upper.at(m - 1 - k2, m - 1 - k2).n != 0);
            }
        }
        if fwd_ok(fu, fy) {
            assert forall|i2: int| 0 <= i2 < m implies #[trigger] bwd_row_ok(
                *upper,
                *y,
                i2,
            ) by {
                assert(fwd_row_ok(fu, fy, m - 1 - i2));
            }
            assert(bwd_ok(*upper, *y));
        }
        if bwd_ok(*upper, *y) {
            assert forall|kk: int| 0 <= kk < m implies #[trigger] fwd_row_ok(fu, fy, kk) by {
                assert(bwd_row_ok(*upper, *y, m - 1 - kk));
            }
            assert(fwd_ok(fu, fy));
        }
    }
    match forward_substitution(&fu, &fy) {
        Ok(fx) => {
            let x = flip(&fx);
            proof {
                if exists|i: int| 0 <= i < m && (#[trigger] upper.at(i, i)).n == 0 {
                    let i = choose|i: int| 0 <= i < m && (#[trigger] upper.at(i, i)).n == 0;
                    assert(fu.at(m - 1 - i, m - 1 - i).n == 0);
                }
                assert forall|a: int| 0 <= a < m implies #[trigger] fx.at(a, 0) == x.at(
                    m - 1 - a,
                    0,
                ) by {
                    assert(x.at(m - 1 - a, 0) == fx.at(m - 1 - (m - 1 - a), 0));
                }
                assert forall|i2: int| 0 <= i2 < m implies #[trigger] x.at(i2, 0) == bwd_x(
                    *upper,
                    *y,
                    i2,
                ) by {
                    lemma_bwd_corr_y(*upper, *y, fu, fy, m - 1 - i2);
                    assert(fx.at(m - 1 - i2, 0) == fwd_y(fu, fy, m - 1 - i2));
                    assert(x.at(i2, 0) == fx.at(m - 1 - i2, 0));
                    assert(m - 1 - (m - 1 - i2) == i2);
                }
                assert forall|i: int| 0 <= i < m implies q_eq(
                    #[trigger] q_dot_suffix(*upper, x, i, i),
                    y.at(i, 0),
                ) by {
                    lemma_suffix_as_flipped(*upper, x, fu, fx, i, i);
                    assert(q_eq(q_dot(fu, fx, m - 1 - i, 0, (m - 1 - i) + 1), fy.at(m - 1 - i, 0)));
                    assert(fy.at(m - 1 - i, 0) == y.at(i, 0));
                    assert((m - 1 - i) + 1 == m as int - i);
                }
            }
            Ok(x)
        },
        Err(e) => {
            proof {
                if exists|i: int| 0 <= i < m && (#[trigger] upper.at(i, i)).n == 0 {
                    let i = choose|i: int| 0 <= i < m && (#[trigger] upper.at(i, i)).n == 0;
                    assert(fu.at(m - 1 - i, m - 1 - i).n == 0);
                }
                if exists|k: int| 0 <= k < m && (#[trigger] fu.at(k, k)).n == 0 {
                    let k = choose|k: int| 0 <= k < m && (#[trigger] fu.at(k, k)).n == 0;
                    assert(upper.at(m - 1 - k, m - 1 - k).n == 0);
                }
            }
            Err(e)
        },
    }
}

/// Unit diagonal and zeros strictly above it.
pub open spec fn unit_lower(l: Matrix) -> bool {
    &&& forall|i: int| 0 <= i < l.rows ==> #[trigger] l.at(i, i) == q_int(1)
    &&& forall|i: int, j: int|
        0 <= i < l.rows && i < j < l.cols ==> #[trigger] l.at(i, j) == q_zero()
}

/// Zeros strictly below the diagonal.
pub open spec fn upper_tri(u: Matrix) -> bool {
    forall|i: int, j: int| 0 <= j < u.cols && j < i < u.rows ==> #[trigger] u.at(i, j) == q_zero()
}

/// The lesser of two indices.
pub open spec fn min2(a: int, b: int) -> int {
    if a <= b {
        a
    } else {
        b
    }
}

/// Entry `(i, j)` of the exact working matrix of the no-pivot
/// elimination after `k` passes, each step in reduced rational
/// arithmetic: pass `kp` subtracts, from every row below the pivot
/// row, the multiplier times the pivot row.
pub open spec fn elim(a: Matrix, k: int, i: int, j: int) -> Q
    decreases k,
{
    if k <= 0 {
        a.at(i, j)
    } else if i > k - 1 {
        q_canon(
            q_sub(
                elim(a, k - 1, i, j),
                q_canon(
                    q_mul(
                        q_canon(q_div(elim(a, k - 1, i, k - 1), elim(a, k - 1, k - 1, k - 1))),
                        elim(a, k - 1, k - 1, j),
                    ),
                ),
            ),
        )
    } else {
        elim(a, k - 1, i, j)
    }
}

/// The multiplier stored at `(i, kp)` of the lower factor: the entry
/// below the pivot divided by the pivot, both taken at pass `kp`.
pub open spec fn lmult(a: Matrix, kp: int, i: int) -> Q {
    q_canon(q_div(elim(a, kp, i, kp), elim(a, kp, kp, kp)))
}

/// The entry of the unit-lower factor that the elimination produces.
pub open spec fn lower_entry(a: Matrix, i: int, j: int) -> Q {
    if i == j {
        q_int(1)
    } else if j < i {
        lmult(a, j, i)
    } else {
        q_zero()
    }
}

/// The three reduced values computed for entry `(i, j)` during pass
/// `kp` all stay in the representable window.
pub open spec fn pass_entry_ok(a: Matrix, kp: int, i: int, j: int) -> bool {
    &&& q_wf(lmult(a, kp, i))
    &&& q_wf(q_canon(q_mul(lmult(a, kp, i), elim(a, kp, kp, j))))
    &&& q_wf(
        q_canon(q_sub(elim(a, kp, i, j), q_canon(q_mul(lmult(a, kp, i), elim(a, kp, kp, j))))),
    )
}

/// Pass `kp` of the elimination stays in the window everywhere.
pub open spec fn pass_ok(a: Matrix, kp: int) -> bool {
    forall|i: int, j: int|
        kp < i < a.rows && 0 <= j < a.rows ==> #[trigger] pass_entry_ok(a, kp, i, j)
}

/// The first `k` passes meet nonzero pivots and stay in the window.
pub open spec fn prefix_ok(a: Matrix, k: int) -> bool {
    forall|t: int| 0 <= t < k ==> (#[trigger] elim(a, t, t, t)).n != 0 && pass_ok(a, t)
}

/// The whole elimination runs to completion: every pivot is nonzero
/// and every intermediate value is representable.
pub open spec fn lu_ok(a: Matrix) -> bool {
    prefix_ok(a, a.rows as int)
}

/// The elimination meets an exactly zero pivot, after completing all
/// earlier passes within the window.
pub open spec fn lu_singular(a: Matrix) -> bool {
    exists|k: int|
        0 <= k < a.rows && (#[trigger] elim(a, k, k, k)).n == 0 && prefix_ok(a, k)
}

/// The running reconstruction fact of the elimination: the dot product
/// of the filled part of row `i` of `l` with column `j` of the working
/// matrix `w`, plus the working entry itself, restores `a`.
spec fn recon_at(l: Matrix, w: Matrix, a: Matrix, i: int, j: int, k: int) -> bool {
    q_eq(q_add(q_dot(l, w, i, j, min2(i, k)), w.at(i, j)), a.at(i, j))
}

/// A dot product reads one row of its first argument and one column
/// of its second.
proof fn lemma_q_dot_frame(a1: Matrix, b1: Matrix, a2: Matrix, b2: Matrix, i: int, j: int, c: int)
    requires
        forall|t: int| 0 <= t < c ==> #[trigger] a2.at(i, t) == a1.at(i, t),
        forall|t: int| 0 <= t < c ==> #[trigger] b2.at(t, j) == b1.at(t, j),
    ensures
        q_dot(a2, b2, i, j, c) == q_dot(a1, b1, i, j, c),
    decreases c,
{
    if c > 0 {
        lemma_q_dot_frame(a1, b1, a2, b2, i, j, c - 1);
    }
}

/// When pass `k` leaves the window after sound earlier passes and a
/// nonzero pivot, the elimination neither completes nor turns out
/// singular.
proof fn lemma_lu_bail(a: Matrix, k: int)
    requires
        a.rows == a.cols,
        0 <= k < a.rows,
        prefix_ok(a, k),
        elim(a, k, k, k).n != 0,
        !pass_ok(a, k),
    ensures
        !lu_ok(a),
        !lu_singular(a),
{
    if lu_ok(a) {
        assert(pass_ok(a, k));
        assert(false);
    }
    if lu_singular(a) {
        let k2 = choose|k2: int|
            0 <= k2 < a.rows && (#[trigger] elim(a, k2, k2, k2)).n == 0 && prefix_ok(a, k2);
        if k2 <= k {
            assert(elim(a, k2, k2, k2).n != 0);
        } else {
            assert(pass_ok(a, k));
        }
        assert(false);
    }
}

/// Doolittle LU factorization without pivoting.
///
/// On success the factors are pinned to the exact elimination: the
/// first is unit lower triangular and holds the multipliers, the
/// second is the final working matrix, upper triangular, and their
/// product restores the input. Success, a `SingularMatrix` failure
/// and an `Overflow` failure are each characterized exactly by the
/// elimination recurrence: no pivoting is attempted, so matrices that
/// need row exchanges are rejected rather than silently mishandled.
#[verifier::rlimit(30)]
pub fn lu_decomposition(mat: &Matrix) -> (r: Result<(Matrix, Matrix), MatError>)
    requires
        mat.wf(),
    ensures
        mat.rows != mat.cols ==> (r matches Err(e) && e == MatError::ShapeMismatch),
        mat.rows == mat.cols ==> {
            &&& ((r is Ok) <==> lu_ok(*mat))
            &&& ((r matches Err(e) && e == MatError::SingularMatrix) <==> lu_singular(*mat))
            &&& (r matches Err(e) ==> e == MatError::SingularMatrix || e == MatError::Overflow)
        },
        r matches Ok(lu) ==> {
            &&& mat.rows == mat.cols
            &&& lu.0.wf()
            &&& lu.1.wf()
            &&& lu.0.rows == mat.rows
            &&& lu.0.cols == mat.rows
            &&& lu.1.rows == mat.rows
            &&& lu.1.cols == mat.rows
            &&& unit_lower(lu.0)
            &&& upper_tri(lu.1)
            &&& (forall|i: int, j: int|
                0 <= i < mat.rows && 0 <= j < mat.rows ==> #[trigger] lu.0.at(i, j)
                    == lower_entry(*mat, i, j))
            &&& (forall|i: int, j: int|
                0 <= i < mat.rows && 0 <= j < mat.rows ==> #[trigger] lu.1.at(i, j) == elim(
                    *mat,
                    mat.rows as int,
                    i,
                    j,
                ))
            &&& (forall|i: int, j: int|
                0 <= i < mat.rows && 0 <= j < mat.rows ==> q_eq(
                    #[trigger] q_dot(lu.0, lu.1, i, j, mat.rows as int),
                    mat.at(i, j),
                ))
        },
{
    let m = mat.rows;
    if mat.cols != m {
        return Err(MatError::ShapeMismatch);
    }
    let mut lg: Vec<Vec<Rat>> = Vec::new();
    let mut i: usize = 0;
    while i < m
        invariant
            i <= m,
            lg@.len() == i as int,
            forall|ii: int| 0 <= ii < i ==> (#[trigger] lg@[ii])@.len() == m as int,
            forall|ii: int, jj: int|
                0 <= ii < i && 0 <= jj < m ==> (#[trigger] lg@[ii]@[jj])@ == (if ii == jj {
                    q_int(1)
                } else {
                    q_zero()
                }),
        decreases m - i,
    {
        let mut row: Vec<Rat> = Vec::new();
        let mut j: usize = 0;
        while j < m
            invariant
                j <= m,
                i < m,
                row@.len() == j as int,
                forall|jj: int|
                    0 <= jj < j ==> (#[trigger] row@[jj])@ == (if i as int == jj {
                        q_int(1)
                    } else {
                        q_zero()
                    }),
            decreases m - j,
        {
            if i == j {
                row.push(Rat::from_int(1));
            } else {
                row.push(Rat::from_int(0));
            }
            j += 1;
        }
        lg.push(row);
        i += 1;
    }
    let mut ug: Vec<Vec<Rat>> = Vec::new();
    let mut i: usize = 0;
    while i < m
        invariant
            i <= m,
            mat.wf(),
            m == mat.rows,
            mat.cols == m,
            ug@.len() == i as int,
            forall|ii: int| 0 <= ii < i ==> (#[trigger] ug@[ii])@.len() == m as int,
            forall|ii: int, jj: int|
                0 <= ii < i && 0 <= jj < m ==> (#[trigger] ug@[ii]@[jj])@ == mat.at(ii, jj),
        decreases m - i,
    {
        let mut row: Vec<Rat> = Vec::new();
        let mut j: usize = 0;
        while j < m
            invariant
                j <= m,
                i < m,
                mat.wf(),
                m == mat.rows,
                mat.cols == m,
                row@.len() == j as int,
                forall|jj: int| 0 <= jj < j ==> (#[trigger] row@[jj])@ == mat.at(i as int, jj),
            decreases m - j,
        {
            row.push(mat.get(i, j));
            j += 1;
        }
        ug.push(row);
        i += 1;
    }
    let mut l = Matrix { rows: m, cols: m, data: lg };
    let mut u = Matrix { rows: m, cols: m, data: ug };
    proof {
        assert forall|i2: int, j2: int| 0 <= i2 < m && 0 <= j2 < m implies #[trigger] recon_at(
            l,
            u,
            *mat,
            i2,
            j2,
            0,
        ) by {
            lemma_q_add_zero_left(u.at(i2, j2));
        }
    }
    let mut k: usize = 0;
    while k < m
        invariant
            k <= m,
            mat.wf(),
            m == mat.rows,
            mat.cols == m,
            l.wf(),
            l.rows == m,
            l.cols == m,
            u.wf(),
            u.rows == m,
            u.cols == m,
            forall|i2: int| 0 <= i2 < m ==> #[trigger] l.at(i2, i2) == q_int(1),
            forall|i2: int, j2: int|
                0 <= i2 < m && i2 < j2 < m ==> #[trigger] l.at(i2, j2) == q_zero(),
            forall|i2: int, j2: int|
                k <= j2 < m && j2 < i2 < m ==> #[trigger] l.at(i2, j2) == q_zero(),
            forall|i2: int, j2: int|
                0 <= j2 < k && j2 < i2 < m ==> #[trigger] u.at(i2, j2) == q_zero(),
            forall|i2: int, j2: int|
                0 <= i2 < m && 0 <= j2 < m ==> #[trigger] u.at(i2, j2) == elim(
                    *mat,
                    k as int,
                    i2,
                    j2,
                ),
            forall|i2: int, j2: int|
                0 <= i2 < m && 0 <= j2 < m ==> #[trigger] l.at(i2, j2) == (if i2 == j2 {
                    q_int(1)
                } else if j2 < k && j2 < i2 {
                    lmult(*mat, j2, i2)
                } else {
                    q_zero()
                }),
            prefix_ok(*mat, k as int),
            forall|i2: int, j2: int|
                0 <= i2 < m && 0 <= j2 < m ==> #[trigger] recon_at(l, u, *mat, i2, j2, k as int),
        decreases m - k,
    {
        let p = u.get(k, k);
        if p.is_zero() {
            proof {
                let ki = k as int;
                assert(elim(*mat, ki, ki, ki).n == 0);
                assert(lu_singular(*mat));
                if lu_ok(*mat) {
                    assert(elim(*mat, ki, ki, ki).n != 0);
                    assert(false);
                }
            }
            return Err(MatError::SingularMatrix);
        }
        let mut lg2: Vec<Vec<Rat>> = Vec::new();
        let mut i: usize = 0;
        while i < m
            invariant
                i <= m,
                k < m,
                m == mat.rows,
                mat.cols == m,
                l.wf(),
                l.rows == m,
                l.cols == m,
                u.wf(),
                u.rows == m,
                u.cols == m,
                p.wf(),
                p@ == u.at(k as int, k as int),
                p@.n != 0,
                forall|i2: int, j2: int|
                    0 <= i2 < m && 0 <= j2 < m ==> #[trigger] u.at(i2, j2) == elim(
                        *mat,
                        k as int,
                        i2,
                        j2,
                    ),
                prefix_ok(*mat, k as int),
                lg2@.len() == i as int,
                forall|ii: int| 0 <= ii < i ==> (#[trigger] lg2@[ii])@.len() == m as int,
                forall|ii: int, jj: int|
                    0 <= ii < i && 0 <= jj < m ==> (#[trigger] lg2@[ii]@[jj])@ == (if ii > k && jj
                        == k {
                        q_canon(q_div(u.at(ii, k as int), u.at(k as int, k as int)))
                    } else {
                        l.at(ii, jj)
                    }) && q_wf((lg2@[ii]@[jj])@),
            decreases m - i,
        {
            let mut row: Vec<Rat> = Vec::new();
            let mut j: usize = 0;
            while j < m
                invariant
                    j <= m,
                    i < m,
                    k < m,
                    m == mat.rows,
                    mat.cols == m,
                    l.wf(),
                    l.rows == m,
                    l.cols == m,
                    u.wf(),
                    u.rows == m,
                    u.cols == m,
                    p.wf(),
                    p@ == u.at(k as int, k as int),
                    p@.n != 0,
                    forall|i2: int, j2: int|
                        0 <= i2 < m && 0 <= j2 < m ==> #[trigger] u.at(i2, j2) == elim(
                            *mat,
                            k as int,
                            i2,
                            j2,
                        ),
                    prefix_ok(*mat, k as int),
                    row@.len() == j as int,
                    forall|jj: int|
                        0 <= jj < j ==> (#[trigger] row@[jj])@ == (if i as int > k && jj
                            == k {
                            q_canon(q_div(u.at(i as int, k as int), u.at(k as int, k as int)))
                        } else {
                            l.at(i as int, jj)
                        }) && q_wf((row@[jj])@),
                decreases m - j,
            {
                if i > k && j == k {
                    match u.get(i, k).div(&p) {
                        Some(v) => {
                            row.push(v);
                        },
                        None => {
                            proof {
                                let ki = k as int;
                                assert(!q_wf(lmult(*mat, ki, i as int)));
                                assert(!pass_entry_ok(*mat, ki, i as int, 0));
                                assert(!pass_ok(*mat, ki));
                                lemma_lu_bail(*mat, ki);
                            }
                            return Err(MatError::Overflow);
                        },
                    }
                } else {
                    row.push(l.get(i, j));
                }
                j += 1;
            }
            lg2.push(row);
            i += 1;
        }
        let l2 = Matrix { rows: m, cols: m, data: lg2 };
        let mut ug2: Vec<Vec<Rat>> = Vec::new();
        let mut i: usize = 0;
        while i < m
            invariant
                i <= m,
                k < m,
                m == mat.rows,
                mat.cols == m,
                u.wf(),
                u.rows == m,
                u.cols == m,
                p.wf(),
                p@ == u.at(k as int, k as int),
                p@.n != 0,
                forall|i2: int, j2: int|
                    0 <= i2 < m && 0 <= j2 < m ==> #[trigger] u.at(i2, j2) == elim(
                        *mat,
                        k as int,
                        i2,
                        j2,
                    ),
                prefix_ok(*mat, k as int),
                ug2@.len() == i as int,
                forall|ii: int| 0 <= ii < i ==> (#[trigger] ug2@[ii])@.len() == m as int,
                forall|ii: int, jj: int|
                    0 <= ii < i && 0 <= jj < m ==> (#[trigger] ug2@[ii]@[jj])@ == (if ii > k {
                        q_canon(
                            q_sub(
                                u.at(ii, jj),
                                q_canon(
                                    q_mul(
                                        q_canon(
                                            q_div(u.at(ii, k as int), u.at(k as int, k as int)),
                                        ),
                                        u.at(k as int, jj),
                                    ),
                                ),
                            ),
                        )
                    } else {
                        u.at(ii, jj)
                    }) && q_wf((ug2@[ii]@[jj])@) && (ii > k ==> q_wf(
                        q_canon(
                            q_mul(
                                q_canon(q_div(u.at(ii, k as int), u.at(k as int, k as int))),
                                u.at(k as int, jj),
                            ),
                        ),
                    )),
            decreases m - i,
        {
            let mut row: Vec<Rat> = Vec::new();
            let mut j: usize = 0;
            while j < m
                invariant
                    j <= m,
                    i < m,
                    k < m,
                    m == mat.rows,
                    mat.cols == m,
                    u.wf(),
                    u.rows == m,
                    u.cols == m,
                    p.wf(),
                    p@ == u.at(k as int, k as int),
                    p@.n != 0,
                    forall|i2: int, j2: int|
                        0 <= i2 < m && 0 <= j2 < m ==> #[trigger] u.at(i2, j2) == elim(
                            *mat,
                            k as int,
                            i2,
                            j2,
                        ),
                    prefix_ok(*mat, k as int),
                    row@.len() == j as int,
                    forall|jj: int|
                        0 <= jj < j ==> (#[trigger] row@[jj])@ == (if i as int > k {
                            q_canon(
                                q_sub(
                                    u.at(i as int, jj),
                                    q_canon(
                                        q_mul(
                                            q_canon(
                                                q_div(
                                                    u.at(i as int, k as int),
                                                    u.at(k as int, k as int),
                                                ),
                                            ),
                                            u.at(k as int, jj),
                                        ),
                                    ),
                                ),
                            )
                        } else {
                            u.at(i as int, jj)
                        }),
                    forall|jj: int| 0 <= jj < j ==> q_wf((#[trigger] row@[jj])@),
                    forall|jj: int|
                        0 <= jj < j && i as int > k ==> q_wf(
                            q_canon(
                                q_mul(
                                    q_canon(
                                        q_div(u.at(i as int, k as int), u.at(k as int, k as int)),
                                    ),
                                    #[trigger] u.at(k as int, jj),
                                ),
                            ),
                        ),
                decreases m - j,
            {
                if i > k {
                    let lik = match u.get(i, k).div(&p) {
                        Some(v) => v,
                        None => {
                            proof {
                                let ki = k as int;
                                assert(!q_wf(lmult(*mat, ki, i as int)));
                                assert(!pass_entry_ok(*mat, ki, i as int, 0));
                                assert(!pass_ok(*mat, ki));
                                lemma_lu_bail(*mat, ki);
                            }
                            return Err(MatError::Overflow);
                        },
                    };
                    let prod = match lik.mul(&u.get(k, j)) {
                        Some(v) => v,
                        None => {
                            proof {
                                let ki = k as int;
                                assert(lik@ == lmult(*mat, ki, i as int));
                                assert(!q_wf(
                                    q_canon(
                                        q_mul(
                                            lmult(*mat, ki, i as int),
                                            elim(*mat, ki, ki, j as int),
                                        ),
                                    ),
                                ));
                                assert(!pass_entry_ok(*mat, ki, i as int, j as int));
                                assert(!pass_ok(*mat, ki));
                                lemma_lu_bail(*mat, ki);
                            }
                            return Err(MatError::Overflow);
                        },
                    };
                    match u.get(i, j).sub(&prod) {
                        Some(v) => {
                            proof {
                                assert(v@ == q_canon(
                                    q_sub(
                                        u.at(i as int, j as int),
                                        q_canon(
                                            q_mul(
                                                q_canon(
                                                    q_div(
                                                        u.at(i as int, k as int),
                                                        u.at(k as int, k as int),
                                                    ),
                                                ),
                                                u.at(k as int, j as int),
                                            ),
                                        ),
                                    ),
                                ));
                            }
                            row.push(v);
                        },
                        None => {
                            proof {
                                let ki = k as int;
                                assert(lik@ == lmult(*mat, ki, i as int));
                                assert(prod@ == q_canon(
                                    q_mul(lmult(*mat, ki, i as int), elim(*mat, ki, ki, j as int)),
                                ));
                                assert(!q_wf(
                                    q_canon(q_sub(elim(*mat, ki, i as int, j as int), prod@)),
                                ));
                                assert(!pass_entry_ok(*mat, ki, i as int, j as int));
                                assert(!pass_ok(*mat, ki));
                                lemma_lu_bail(*mat, ki);
                            }
                            return Err(MatError::Overflow);
                        },
                    }
                } else {
                    row.push(u.get(i, j));
                }
                j += 1;
            }
            proof {
                assert forall|jj: int| 0 <= jj < m implies (i as int > k ==> q_wf(
                    q_canon(
                        q_mul(
                            q_canon(q_div(u.at(i as int, k as int), u.at(k as int, k as int))),
                            u.at(k as int, jj),
                        ),
                    ),
                )) by {
                    let v = row@[jj];
                    assert(q_wf(v@));
                }
            }
            ug2.push(row);
            i += 1;
        }
        let u2 = Matrix { rows: m, cols: m, data: ug2 };
        proof {
            let ki = k as int;
            let pv = u.at(ki, ki);
            assert forall|i2: int, j2: int|
                0 <= j2 < ki + 1 && j2 < i2 < m implies #[trigger] u2.at(i2, j2)
                == q_zero() by {
                if i2 <= ki {
                    assert(u2.at(i2, j2) == u.at(i2, j2));
                } else {
                    let likc = q_canon(q_div(u.at(i2, ki), pv));
                    let ukj = u.at(ki, j2);
                    lemma_q_dpos(u.at(i2, ki), pv);
                    lemma_canon(q_div(u.at(i2, ki), pv));
                    if j2 < ki {
                        // the pivot row is zero here, so the update is zero
                        assert(ukj == q_zero());
                        assert(likc.n * 0 == 0 && likc.d * 1 == likc.d) by (nonlinear_arith);
                        assert(q_mul(likc, ukj) == (Q { n: 0, d: likc.d }));
                        lemma_canon(q_mul(likc, ukj));
                        assert(q_canon(q_mul(likc, ukj)) == q_zero());
                        assert(u.at(i2, j2) == q_zero());
                        assert(q_sub(q_zero(), q_zero()) == (Q { n: 0int * 1 - 0 * 1, d: 1int * 1 }));
                        lemma_canon(q_sub(u.at(i2, j2), q_canon(q_mul(likc, ukj))));
                    } else {
                        // the multiplier times the pivot gives the entry back
                        lemma_q_mul_cong(likc, q_div(u.at(i2, ki), pv), ukj, ukj);
                        lemma_q_div_mul(u.at(i2, ki), pv);
                        assert(q_mul(q_div(u.at(i2, ki), pv), ukj).d != 0) by (nonlinear_arith)
                            requires
                                u.at(i2, ki).d > 0,
                                pv.n != 0,
                                ukj.d > 0,
                        ;
                        lemma_q_eq_trans(
                            q_mul(likc, ukj),
                            q_mul(q_div(u.at(i2, ki), pv), ukj),
                            u.at(i2, ki),
                        );
                        let mc = q_canon(q_mul(likc, ukj));
                        assert(likc.d > 0 && ukj.d > 0);
                        lemma_q_dpos(likc, ukj);
                        lemma_canon(q_mul(likc, ukj));
                        lemma_q_eq_trans(mc, q_mul(likc, ukj), u.at(i2, ki));
                        assert(q_sub(u.at(i2, j2), mc).n == 0);
                        lemma_q_dpos(u.at(i2, j2), mc);
                        lemma_canon(q_sub(u.at(i2, j2), mc));
                    }
                }
            }
            // the new matrices are the next elimination state
            assert forall|i2: int, j2: int|
                0 <= i2 < m && 0 <= j2 < m implies #[trigger] u2.at(i2, j2) == elim(
                *mat,
                ki + 1,
                i2,
                j2,
            ) by {
                if i2 > ki {
                    assert(u2.at(i2, j2) == q_canon(
                        q_sub(
                            u.at(i2, j2),
                            q_canon(
                                q_mul(
                                    q_canon(q_div(u.at(i2, ki), u.at(ki, ki))),
                                    u.at(ki, j2),
                                ),
                            ),
                        ),
                    ));
                } else {
                    assert(u2.at(i2, j2) == u.at(i2, j2));
                }
            }
            assert forall|i2: int, j2: int|
                0 <= i2 < m && 0 <= j2 < m implies #[trigger] l2.at(i2, j2) == (if i2 == j2 {
                q_int(1)
            } else if j2 < ki + 1 && j2 < i2 {
                lmult(*mat, j2, i2)
            } else {
                q_zero()
            }) by {
                if i2 > ki && j2 == ki {
                    assert(l2.at(i2, j2) == q_canon(q_div(u.at(i2, ki), u.at(ki, ki))));
                } else {
                    assert(l2.at(i2, j2) == l.at(i2, j2));
                }
            }
            // pass k stayed inside the window everywhere
            assert forall|i2: int, j2: int|
                ki < i2 < m && 0 <= j2 < m implies #[trigger] pass_entry_ok(
                *mat,
                ki,
                i2,
                j2,
            ) by {
                assert(l2.at(i2, ki) == q_canon(q_div(u.at(i2, ki), u.at(ki, ki))) && q_wf(
                    l2.at(i2, ki),
                ));
                assert(u2.at(i2, j2) == q_canon(
                    q_sub(
                        u.at(i2, j2),
                        q_canon(
                            q_mul(q_canon(q_div(u.at(i2, ki), u.at(ki, ki))), u.at(ki, j2)),
                        ),
                    ),
                ) && q_wf(u2.at(i2, j2)));
                assert(q_wf(
                    q_canon(
                        q_mul(q_canon(q_div(u.at(i2, ki), u.at(ki, ki))), u.at(ki, j2)),
                    ),
                ));
            }
            assert(prefix_ok(*mat, ki + 1)) by {
                assert forall|t: int|
                    0 <= t < ki + 1 implies (#[trigger] elim(*mat, t, t, t)).n != 0 && pass_ok(
                    *mat,
                    t,
                ) by {
                    if t < ki {
                        assert(elim(*mat, t, t, t).n != 0 && pass_ok(*mat, t));
                    } else {
                        assert(elim(*mat, ki, ki, ki).n != 0);
                        assert(pass_ok(*mat, ki));
                    }
                }
            }
            // the reconstruction fact carries one pass further
            assert forall|i2: int, j2: int|
                0 <= i2 < m && 0 <= j2 < m implies #[trigger] recon_at(
                l2,
                u2,
                *mat,
                i2,
                j2,
                ki + 1,
            ) by {
                assert(recon_at(l, u, *mat, i2, j2, ki));
                if i2 <= ki {
                    assert forall|t: int| 0 <= t < i2 implies #[trigger] l2.at(i2, t) == l.at(
                        i2,
                        t,
                    ) && #[trigger] u2.at(t, j2) == u.at(t, j2) by {}
                    lemma_q_dot_frame(l, u, l2, u2, i2, j2, i2);
                    assert(u2.at(i2, j2) == u.at(i2, j2));
                    assert(min2(i2, ki + 1) == i2 && min2(i2, ki) == i2);
                } else {
                    assert forall|t: int| 0 <= t < ki implies #[trigger] l2.at(i2, t) == l.at(
                        i2,
                        t,
                    ) && #[trigger] u2.at(t, j2) == u.at(t, j2) by {}
                    lemma_q_dot_frame(l, u, l2, u2, i2, j2, ki);
                    let s = q_dot(l, u, i2, j2, ki);
                    let lm = l2.at(i2, ki);
                    let ukj = u.at(ki, j2);
                    assert(u2.at(ki, j2) == ukj);
                    assert(q_dot(l2, u2, i2, j2, ki + 1) == q_add(s, q_mul(lm, ukj)));
                    let mraw = q_mul(lm, ukj);
                    let mc = q_canon(mraw);
                    assert(lm == q_canon(q_div(u.at(i2, ki), u.at(ki, ki))) && q_wf(lm));
                    lemma_q_dpos(lm, ukj);
                    lemma_canon(mraw);
                    let uij = u.at(i2, j2);
                    lemma_q_dpos(uij, mc);
                    lemma_canon(q_sub(uij, mc));
                    assert(u2.at(i2, j2) == q_canon(q_sub(uij, mc)));
                    lemma_q_add_cong(uij, uij, mc, mraw);
                    lemma_q_eq_trans(u2.at(i2, j2), q_sub(uij, mc), q_sub(uij, mraw));
                    lemma_q_add_sub_cancel(s, mraw, uij);
                    lemma_q_dot_dpos(l, u, i2, j2, ki);
                    lemma_q_dpos(s, mraw);
                    lemma_q_dpos(uij, mraw);
                    lemma_q_dpos(s, uij);
                    lemma_q_dpos(q_add(s, mraw), q_sub(uij, mraw));
                    lemma_q_add_cong(
                        q_add(s, mraw),
                        q_add(s, mraw),
                        u2.at(i2, j2),
                        q_sub(uij, mraw),
                    );
                    lemma_q_eq_trans(
                        q_add(q_add(s, mraw), u2.at(i2, j2)),
                        q_add(q_add(s, mraw), q_sub(uij, mraw)),
                        q_add(s, uij),
                    );
                    assert(min2(i2, ki) == ki && min2(i2, ki + 1) == ki + 1);
                    lemma_q_eq_trans(
                        q_add(q_add(s, mraw), u2.at(i2, j2)),
                        q_add(s, uij),
                        mat.at(i2, j2),
                    );
                }
            }
        }
        l = l2;
        u = u2;
        k += 1;
    }
    proof {
        let mi = m as int;
        assert(lu_ok(*mat));
        if lu_singular(*mat) {
            let k2 = choose|k2: int|
                0 <= k2 < mi && (#[trigger] elim(*mat, k2, k2, k2)).n == 0 && prefix_ok(*mat, k2);
            assert(elim(*mat, k2, k2, k2).n != 0);
            assert(false);
        }
        assert forall|i2: int, j2: int|
            0 <= i2 < mi && 0 <= j2 < mi implies #[trigger] l.at(i2, j2) == lower_entry(
            *mat,
            i2,
            j2,
        ) by {}
        assert forall|i2: int, j2: int|
            0 <= i2 < mi && 0 <= j2 < mi implies q_eq(
            #[trigger] q_dot(l, u, i2, j2, mi),
            mat.at(i2, j2),
        ) by {
            lemma_q_dot_pad(l, u, i2, j2, mi);
            lemma_q_mul_one_left(u.at(i2, j2));
            assert(l.at(i2, i2) == q_int(1));
            assert(q_dot(l, u, i2, j2, i2 + 1) == q_add(q_dot(l, u, i2, j2, i2), u.at(i2, j2)));
            assert(recon_at(l, u, *mat, i2, j2, mi));
            assert(min2(i2, mi) == i2);
            lemma_q_dot_dpos(l, u, i2, j2, i2 + 1);
            lemma_q_eq_trans(q_dot(l, u, i2, j2, mi), q_dot(l, u, i2, j2, i2 + 1), mat.at(i2, j2));
        }
    }
    Ok((l, u))
}

/// A row of the working matrix no longer changes once the pass index
/// has reached it.
proof fn lemma_elim_row_stable(a: Matrix, k1: int, k2: int, i: int, j: int)
    requires
        0 <= i <= k1 <= k2,
    ensures
        elim(a, k2, i, j) == elim(a, k1, i, j),
    decreases k2,
{
    if k1 < k2 {
        lemma_elim_row_stable(a, k1, k2 - 1, i, j);
    }
}

/// Solve `mat * x = b` by LU decomposition, forward substitution and
/// backward substitution, propagating any failure unchanged.
pub fn linsolve(mat: &Matrix, b: &Matrix) -> (r: Result<Matrix, MatError>)
    requires
        mat.wf(),
        b.wf(),
    ensures
        r matches Err(e) ==> (e == MatError::ShapeMismatch || e == MatError::SingularMatrix || e
            == MatError::Overflow),
        mat.rows != mat.cols ==> (r matches Err(e) && e == MatError::ShapeMismatch),
        mat.rows == mat.cols ==> ((r matches Err(e) && e == MatError::SingularMatrix)
            <==> lu_singular(*mat)),
        mat.rows == mat.cols && b.rows == mat.rows && b.cols == 1 ==> (r matches Err(e) ==> e
            == MatError::SingularMatrix || e == MatError::Overflow),
        r matches Ok(x) ==> {
            &&& mat.rows == mat.cols
            &&& b.rows == mat.rows
            &&& b.cols == 1
            &&& x.wf()
            &&& x.rows == mat.rows
            &&& x.cols == 1
            &&& exists|l: Matrix, u: Matrix, y: Matrix| #[trigger] solve_witness(
                *mat,
                *b,
                x,
                l,
                u,
                y,
            )
            &&& forall|i: int|
                0 <= i < mat.rows ==> q_eq(
                    #[trigger] q_dot(*mat, x, i, 0, mat.rows as int),
                    b.at(i, 0),
                )
        },
{
    let (l, u) = match lu_decomposition(mat) {
        Ok(lu) => lu,
        Err(e) => {
            return Err(e);
        },
    };
    let y = match forward_substitution(&l, b) {
        Ok(y) => y,
        Err(e) => {
            proof {
                if exists|i2: int| 0 <= i2 < l.rows && (#[trigger] l.at(i2, i2)).n == 0 {
                    let i2 = choose|i2: int|
                        0 <= i2 < l.rows && (#[trigger] l.at(i2, i2)).n == 0;
                    assert(l.at(i2, i2) == q_int(1));
                    assert(false);
                }
            }
            return Err(e);
        },
    };
    let x = match backward_substitution(&u, &y) {
        Ok(x) => x,
        Err(e) => {
            proof {
                if exists|i2: int| 0 <= i2 < u.rows && (#[trigger] u.at(i2, i2)).n == 0 {
                    let i2 = choose|i2: int|
                        0 <= i2 < u.rows && (#[trigger] u.at(i2, i2)).n == 0;
                    lemma_elim_row_stable(*mat, i2, mat.rows as int, i2, i2);
                    assert(elim(*mat, i2, i2, i2).n != 0);
                    assert(false);
                }
            }
            return Err(e);
        },
    };
    proof {
        assert(solve_witness(*mat, *b, x, l, u, y));
        crate::laws::lemma_solve_correct(*mat, *b, x, l, u, y);
    }
    Ok(x)
}

/// The intermediate factors and vectors that connect a solution `x`
/// of `linsolve` to its inputs: `l` and `u` are the triangular factors
/// of `a`, `y` solves the lower system against `b`, and `x` solves the
/// upper system against `y`.
pub open spec fn solve_witness(a: Matrix, b: Matrix, x: Matrix, l: Matrix, u: Matrix, y: Matrix) -> bool {
    &&& l.wf()
    &&& u.wf()
    &&& y.wf()
    &&& l.rows == a.rows
    &&& l.cols == a.rows
    &&& u.rows == a.rows
    &&& u.cols == a.rows
    &&& y.rows == a.rows
    &&& y.cols == 1
    &&& unit_lower(l)
    &&& upper_tri(u)
    &&& forall|i: int, j: int|
        0 <= i < a.rows && 0 <= j < a.rows ==> q_eq(
            #[trigger] q_dot(l, u, i, j, a.rows as int),
            a.at(i, j),
        )
    &&& forall|i: int| 0 <= i < a.rows ==> q_eq(#[trigger] q_dot(l, y, i, 0, i + 1), b.at(i, 0))
    &&& forall|i: int| 0 <= i < a.rows ==> q_eq(#[trigger] q_dot_suffix(u, x, i, i), y.at(i, 0))
}

} // verus!
