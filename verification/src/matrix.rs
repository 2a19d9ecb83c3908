//! Dense matrices of exact rationals with runtime-checked shapes.
//!
//! Every operation validates operand shapes and returns a
//! `ShapeMismatch` error instead of reading out of bounds; reductions
//! on an empty matrix report `InvalidShape`; arithmetic whose exact
//! result leaves the representable window reports `Overflow`.

use vstd::prelude::*;
use crate::rat::{
    Q, Rat, lemma_canon, lemma_q_abs_cong, lemma_q_add_cong, lemma_q_dpos, lemma_q_eq_trans,
    lemma_q_le_cong, lemma_q_le_trans, lemma_q_mul_cong, q_abs, q_add, q_canon, q_div, q_eq,
    q_int, q_le, q_mul, q_neg, q_sub, q_wf, q_zero,
};

verus! {

/// Failures of matrix operations.
#[derive(Clone, Copy, Debug, PartialEq, Eq, Structural)]
pub enum MatError {
    /// Operand dimensions violate the required relationship.
    ShapeMismatch,
    /// A pivot or diagonal element is exactly zero.
    SingularMatrix,
    /// A reduction was requested on a matrix without elements.
    InvalidShape,
    /// An exact result left the representable window.
    Overflow,
}

/// A dense `rows` by `cols` grid of rationals, stored row-major.
#[derive(Debug)]
pub struct Matrix {
    pub rows: usize,
    pub cols: usize,
    pub data: Vec<Vec<Rat>>,
}

impl Matrix {
    /// The element in row `i`, column `j`, as a fraction.
    pub open spec fn at(self, i: int, j: int) -> Q {
        self.data@[i]@[j]@
    }

    /// Shape bookkeeping is coherent and every element is representable.
    pub open spec fn wf(self) -> bool {
        &&& self.data@.len() == self.rows as int
        &&& forall|i: int|
            0 <= i < self.rows ==> (#[trigger] self.data@[i])@.len() == self.cols as int
        &&& forall|i: int, j: int|
            0 <= i < self.rows && 0 <= j < self.cols ==> q_wf(#[trigger] self.at(i, j))
    }

    /// Build a matrix from complete rows; every row must have the same
    /// length, else `InvalidShape`.
    pub fn from_rows(grid: Vec<Vec<Rat>>) -> (r: Result<Matrix, MatError>)
        requires
            forall|i: int, j: int|
                0 <= i < grid@.len() && 0 <= j < grid@[i]@.len() ==> q_wf(
                    (#[trigger] grid@[i]@[j])@,
                ),
        ensures
            r matches Ok(m) ==> {
                &&& m.wf()
                &&& m.rows as int == grid@.len()
                &&& (grid@.len() > 0 ==> m.cols as int == grid@[0]@.len())
                &&& forall|i: int, j: int|
                    0 <= i < m.rows && 0 <= j < m.cols ==> m.at(i, j) == (
                    #[trigger] grid@[i]@[j])@
            },
            r is Ok <==> (forall|i: int|
                0 <= i < grid@.len() ==> (#[trigger] grid@[i])@.len() == grid@[0]@.len()),
            r matches Err(e) ==> e == MatError::InvalidShape,
    {
        let rows = grid.len();
        let cols = if rows == 0 {
            0
        } else {
            grid[0].len()
        };
        let mut i: usize = 0;
        while i < rows
            invariant
                i <= rows,
                rows == grid@.len(),
                rows > 0 ==> cols as int == grid@[0]@.len(),
                rows == 0 ==> cols == 0,
                forall|ii: int| 0 <= ii < i ==> (#[trigger] grid@[ii])@.len() == cols as int,
            decreases rows - i,
        {
            if grid[i].len() != cols {
                return Err(MatError::InvalidShape);
            }
            i += 1;
        }
        Ok(Matrix { rows, cols, data: grid })
    }

    /// Build a matrix of integers given as complete rows.
    pub fn from_int_rows(vals: Vec<Vec<i64>>) -> (r: Result<Matrix, MatError>)
        requires
            forall|i: int, j: int|
                0 <= i < vals@.len() && 0 <= j < vals@[i]@.len() ==> (#[trigger] vals@[i]@[j])
                    != i64::MIN,
        ensures
            r matches Ok(m) ==> {
                &&& m.wf()
                &&& m.rows as int == vals@.len()
                &&& (vals@.len() > 0 ==> m.cols as int == vals@[0]@.len())
                &&& forall|i: int, j: int|
                    0 <= i < m.rows && 0 <= j < m.cols ==> m.at(i, j) == q_int(
                        (#[trigger] vals@[i]@[j]) as int,
                    )
            },
            r is Ok <==> (forall|i: int|
                0 <= i < vals@.len() ==> (#[trigger] vals@[i])@.len() == vals@[0]@.len()),
            r matches Err(e) ==> e == MatError::InvalidShape,
    {
        let rows = vals.len();
        let cols = if rows == 0 {
            0
        } else {
            vals[0].len()
        };
        let mut grid: Vec<Vec<Rat>> = Vec::new();
        let mut i: usize = 0;
        while i < rows
            invariant
                i <= rows,
                rows == vals@.len(),
                rows > 0 ==> cols as int == vals@[0]@.len(),
                rows == 0 ==> cols == 0,
                grid@.len() == i as int,
                forall|ii: int, jj: int|
                    0 <= ii < vals@.len() && 0 <= jj < vals@[ii]@.len() ==> (
                    #[trigger] vals@[ii]@[jj]) != i64::MIN,
                forall|ii: int| 0 <= ii < i ==> (#[trigger] vals@[ii])@.len() == cols as int,
                forall|ii: int| 0 <= ii < i ==> (#[trigger] grid@[ii])@.len() == cols as int,
                forall|ii: int, jj: int|
                    0 <= ii < i && 0 <= jj < cols ==> (#[trigger] grid@[ii]@[jj])@ == q_int(
                        vals@[ii]@[jj] as int,
                    ),
            decreases rows - i,
        {
            if vals[i].len() != cols {
                return Err(MatError::InvalidShape);
            }
            let mut row: Vec<Rat> = Vec::new();
            let mut j: usize = 0;
            while j < cols
                invariant
                    j <= cols,
                    i < rows,
                    rows == vals@.len(),
                    vals@[i as int]@.len() == cols as int,
                    forall|ii: int, jj: int|
                        0 <= ii < vals@.len() && 0 <= jj < vals@[ii]@.len() ==> (
                        #[trigger] vals@[ii]@[jj]) != i64::MIN,
                    row@.len() == j as int,
                    forall|jj: int|
                        0 <= jj < j ==> (#[trigger] row@[jj])@ == q_int(
                            vals@[i as int]@[jj] as int,
                        ),
                decreases cols - j,
            {
                row.push(Rat::from_int(vals[i][j]));
                j += 1;
            }
            grid.push(row);
            i += 1;
        }
        Ok(Matrix { rows, cols, data: grid })
    }

    /// The element in row `i`, column `j`.
    pub fn get(&self, i: usize, j: usize) -> (r: Rat)
        requires
            self.wf(),
            i < self.rows,
            j < self.cols,
        ensures
            r@ == self.at(i as int, j as int),
            r.wf(),
    {
        self.data[i][j]
    }

    /// The transpose: element `(i, j)` of the result is element
    /// `(j, i)` of `self`, copied without any computation.
    pub fn transpose(&self) -> (r: Matrix)
        requires
            self.wf(),
        ensures
            r.wf(),
            r.rows == self.cols,
            r.cols == self.rows,
            forall|i: int, j: int|
                0 <= i < r.rows && 0 <= j < r.cols ==> #[trigger] r.at(i, j) == self.at(j, i),
    {
        let mut grid: Vec<Vec<Rat>> = Vec::new();
        let mut i: usize = 0;
        while i < self.cols
            invariant
                i <= self.cols,
                self.wf(),
                grid@.len() == i as int,
                forall|ii: int| 0 <= ii < i ==> (#[trigger] grid@[ii])@.len() == self.rows as int,
                forall|ii: int, jj: int|
                    0 <= ii < i && 0 <= jj < self.rows ==> (#[trigger] grid@[ii]@[jj])@ == self.at(
                        jj,
                        ii,
                    ),
            decreases self.cols - i,
        {
            let mut row: Vec<Rat> = Vec::new();
            let mut j: usize = 0;
            while j < self.rows
                invariant
                    j <= self.rows,
                    i < self.cols,
                    self.wf(),
                    row@.len() == j as int,
                    forall|jj: int|
                        0 <= jj < j ==> (#[trigger] row@[jj])@ == self.at(jj, i as int),
                decreases self.rows - j,
            {
                row.push(self.get(j, i));
                j += 1;
            }
            grid.push(row);
            i += 1;
        }
        Matrix { rows: self.cols, cols: self.rows, data: grid }
    }

    /// Whether two matrices have the same shape and exactly the same
    /// element representations.
    pub fn eq_exact(&self, other: &Matrix) -> (r: bool)
        requires
            self.wf(),
            other.wf(),
        ensures
            r == {
                &&& self.rows == other.rows
                &&& self.cols == other.cols
                &&& forall|i: int, j: int|
                    0 <= i < self.rows && 0 <= j < self.cols ==> #[trigger] self.at(i, j)
                        == other.at(i, j)
            },
    {
        if self.rows != other.rows || self.cols != other.cols {
            return false;
        }
        let mut i: usize = 0;
        while i < self.rows
            invariant
                i <= self.rows,
                self.wf(),
                other.wf(),
                self.rows == other.rows,
                self.cols == other.cols,
                forall|ii: int, jj: int|
                    0 <= ii < i && 0 <= jj < self.cols ==> #[trigger] self.at(ii, jj) == other.at(
                        ii,
                        jj,
                    ),
            decreases self.rows - i,
        {
            let mut j: usize = 0;
            while j < self.cols
                invariant
                    j <= self.cols,
                    i < self.rows,
                    self.wf(),
                    other.wf(),
                    self.rows == other.rows,
                    self.cols == other.cols,
                    forall|ii: int, jj: int|
                        0 <= ii < i && 0 <= jj < self.cols ==> #[trigger] self.at(ii, jj)
                            == other.at(ii, jj),
                    forall|jj: int|
                        0 <= jj < j ==> #[trigger] self.at(i as int, jj) == other.at(i as int, jj),
                decreases self.cols - j,
            {
                let a = self.get(i, j);
                let b = other.get(i, j);
                if a.n != b.n || a.d != b.d {
                    return false;
                }
                j += 1;
            }
            i += 1;
        }
        true
    }

    /// The least element; `InvalidShape` on a matrix without elements.
    pub fn min(&self) -> (r: Result<Rat, MatError>)
        requires
            self.wf(),
        ensures
            r is Err <==> (self.rows == 0 || self.cols == 0),
            r matches Err(e) ==> e == MatError::InvalidShape,
            r matches Ok(v) ==> {
                &&& v.wf()
                &&& exists|i: int, j: int|
                    0 <= i < self.rows && 0 <= j < self.cols && v@ == #[trigger] self.at(i, j)
                &&& forall|i: int, j: int|
                    0 <= i < self.rows && 0 <= j < self.cols ==> q_le(v@, #[trigger] self.at(i, j))
            },
    {
        self.extremum(true)
    }

    /// The greatest element; `InvalidShape` on a matrix without
    /// elements.
    pub fn max(&self) -> (r: Result<Rat, MatError>)
        requires
            self.wf(),
        ensures
            r is Err <==> (self.rows == 0 || self.cols == 0),
            r matches Err(e) ==> e == MatError::InvalidShape,
            r matches Ok(v) ==> {
                &&& v.wf()
                &&& exists|i: int, j: int|
                    0 <= i < self.rows && 0 <= j < self.cols && v@ == #[trigger] self.at(i, j)
                &&& forall|i: int, j: int|
                    0 <= i < self.rows && 0 <= j < self.cols ==> q_le(#[trigger] self.at(i, j), v@)
            },
    {
        self.extremum(false)
    }

    /// Shared scan for `min` and `max`.
    fn extremum(&self, want_min: bool) -> (r: Result<Rat, MatError>)
        requires
            self.wf(),
        ensures
            r is Err <==> (self.rows == 0 || self.cols == 0),
            r matches Err(e) ==> e == MatError::InvalidShape,
            r matches Ok(v) ==> {
                &&& v.wf()
                &&& exists|i: int, j: int|
                    0 <= i < self.rows && 0 <= j < self.cols && v@ == #[trigger] self.at(i, j)
                &&& forall|i: int, j: int|
                    0 <= i < self.rows && 0 <= j < self.cols ==> if want_min {
                        q_le(v@, #[trigger] self.at(i, j))
                    } else {
                        q_le(#[trigger] self.at(i, j), v@)
                    }
            },
    {
        if self.rows == 0 || self.cols == 0 {
            return Err(MatError::InvalidShape);
        }
        let mut best = self.get(0, 0);
        let mut i: usize = 0;
        while i < self.rows
            invariant
                i <= self.rows,
                self.wf(),
                self.rows > 0,
                self.cols > 0,
                best.wf(),
                exists|ii: int, jj: int|
                    0 <= ii < self.rows && 0 <= jj < self.cols && best@ == #[trigger] self.at(
                        ii,
                        jj,
                    ),
                forall|ii: int, jj: int|
                    0 <= ii < i && 0 <= jj < self.cols ==> if want_min {
                        q_le(best@, #[trigger] self.at(ii, jj))
                    } else {
                        q_le(#[trigger] self.at(ii, jj), best@)
                    },
            decreases self.rows - i,
        {
            let mut j: usize = 0;
            while j < self.cols
                invariant
                    j <= self.cols,
                    i < self.rows,
                    self.wf(),
                    self.cols > 0,
                    best.wf(),
                    exists|ii: int, jj: int|
                        0 <= ii < self.rows && 0 <= jj < self.cols && best@ == #[trigger] self.at(
                            ii,
                            jj,
                        ),
                    forall|ii: int, jj: int|
                        0 <= ii < i && 0 <= jj < self.cols ==> if want_min {
                            q_le(best@, #[trigger] self.at(ii, jj))
                        } else {
                            q_le(#[trigger] self.at(ii, jj), best@)
                        },
                    forall|jj: int|
                        0 <= jj < j ==> if want_min {
                            q_le(best@, #[trigger] self.at(i as int, jj))
                        } else {
                            q_le(#[trigger] self.at(i as int, jj), best@)
                        },
                decreases self.cols - j,
            {
                let e = self.get(i, j);
                let replace = if want_min {
                    e.le(&best)
                } else {
                    best.le(&e)
                };
                if replace {
                    proof {
                        let old_best = best@;
                        assert forall|ii: int, jj: int|
                            0 <= ii < i && 0 <= jj < self.cols implies (if want_min {
                            q_le(e@, self.at(ii, jj))
                        } else {
                            q_le(self.at(ii, jj), e@)
                        }) by {
                            if want_min {
                                lemma_q_le_trans(e@, old_best, self.at(ii, jj));
                            } else {
                                lemma_q_le_trans(self.at(ii, jj), old_best, e@);
                            }
                        }
                        assert forall|jj: int| 0 <= jj < j implies (if want_min {
                            q_le(e@, self.at(i as int, jj))
                        } else {
                            q_le(self.at(i as int, jj), e@)
                        }) by {
                            if want_min {
                                lemma_q_le_trans(e@, old_best, self.at(i as int, jj));
                            } else {
                                lemma_q_le_trans(self.at(i as int, jj), old_best, e@);
                            }
                        }
                    }
                    best = e;
                }
                j += 1;
            }
            i += 1;
        }
        Ok(best)
    }

    /// Element-wise sum: both operands must have identical shape.
    pub fn add(&self, other: &Matrix) -> (r: Result<Matrix, MatError>)
        requires
            self.wf(),
            other.wf(),
        ensures
            !(self.rows == other.rows && self.cols == other.cols) ==> (r matches Err(e) && e
                == MatError::ShapeMismatch),
            self.rows == other.rows && self.cols == other.cols ==> ((r is Ok) <==> (forall|
                i: int,
                j: int,
            |
                0 <= i < self.rows && 0 <= j < self.cols ==> q_wf(
                    q_canon(q_add(#[trigger] self.at(i, j), other.at(i, j))),
                ))),
            self.rows == other.rows && self.cols == other.cols ==> (r matches Err(e) ==> e
                == MatError::Overflow),
            r matches Ok(m) ==> {
                &&& self.rows == other.rows
                &&& self.cols == other.cols
                &&& m.wf()
                &&& m.rows == self.rows
                &&& m.cols == self.cols
                &&& forall|i: int, j: int|
                    0 <= i < m.rows && 0 <= j < m.cols ==> #[trigger] m.at(i, j) == q_canon(
                        q_add(self.at(i, j), other.at(i, j)),
                    )
            },
    {
        self.elementwise(other, true)
    }

    /// Element-wise difference: both operands must have identical
    /// shape.
    pub fn sub(&self, other: &Matrix) -> (r: Result<Matrix, MatError>)
        requires
            self.wf(),
            other.wf(),
        ensures
            !(self.rows == other.rows && self.cols == other.cols) ==> (r matches Err(e) && e
                == MatError::ShapeMismatch),
            self.rows == other.rows && self.cols == other.cols ==> ((r is Ok) <==> (forall|
                i: int,
                j: int,
            |
                0 <= i < self.rows && 0 <= j < self.cols ==> q_wf(
                    q_canon(q_sub(#[trigger] self.at(i, j), other.at(i, j))),
                ))),
            self.rows == other.rows && self.cols == other.cols ==> (r matches Err(e) ==> e
                == MatError::Overflow),
            r matches Ok(m) ==> {
                &&& self.rows == other.rows
                &&& self.cols == other.cols
                &&& m.wf()
                &&& m.rows == self.rows
                &&& m.cols == self.cols
                &&& forall|i: int, j: int|
                    0 <= i < m.rows && 0 <= j < m.cols ==> #[trigger] m.at(i, j) == q_canon(
                        q_sub(self.at(i, j), other.at(i, j)),
                    )
            },
    {
        self.elementwise(other, false)
    }

    /// Shared loop for `add` and `sub`.
    fn elementwise(&self, other: &Matrix, is_add: bool) -> (r: Result<Matrix, MatError>)
        requires
            self.wf(),
            other.wf(),
        ensures
            !(self.rows == other.rows && self.cols == other.cols) ==> (r matches Err(e) && e
                == MatError::ShapeMismatch),
            self.rows == other.rows && self.cols == other.cols ==> ((r is Ok) <==> (forall|
                i: int,
                j: int,
            |
                0 <= i < self.rows && 0 <= j < self.cols ==> q_wf(
                    q_canon(
                        if is_add {
                            q_add(#[trigger] self.at(i, j), other.at(i, j))
                        } else {
                            q_sub(#[trigger] self.at(i, j), other.at(i, j))
                        },
                    ),
                ))),
            self.rows == other.rows && self.cols == other.cols ==> (r matches Err(e) ==> e
                == MatError::Overflow),
            r matches Ok(m) ==> {
                &&& self.rows == other.rows
                &&& self.cols == other.cols
                &&& m.wf()
                &&& m.rows == self.rows
                &&& m.cols == self.cols
                &&& forall|i: int, j: int|
                    0 <= i < m.rows && 0 <= j < m.cols ==> #[trigger] m.at(i, j) == q_canon(
                        if is_add {
                            q_add(self.at(i, j), other.at(i, j))
                        } else {
                            q_sub(self.at(i, j), other.at(i, j))
                        },
                    )
            },
    {
        if self.rows != other.rows || self.cols != other.cols {
            return Err(MatError::ShapeMismatch);
        }
        let mut grid: Vec<Vec<Rat>> = Vec::new();
        let mut i: usize = 0;
        while i < self.rows
            invariant
                i <= self.rows,
                self.wf(),
                other.wf(),
                self.rows == other.rows,
                self.cols == other.cols,
                grid@.len() == i as int,
                forall|ii: int| 0 <= ii < i ==> (#[trigger] grid@[ii])@.len() == self.cols as int,
                forall|ii: int, jj: int|
                    0 <= ii < i && 0 <= jj < self.cols ==> (#[trigger] grid@[ii]@[jj])@ == q_canon(
                        if is_add {
                            q_add(self.at(ii, jj), other.at(ii, jj))
                        } else {
                            q_sub(self.at(ii, jj), other.at(ii, jj))
                        },
                    ) && q_wf((grid@[ii]@[jj])@),
            decreases self.rows - i,
        {
            let mut row: Vec<Rat> = Vec::new();
            let mut j: usize = 0;
            while j < self.cols
                invariant
                    j <= self.cols,
                    i < self.rows,
                    self.wf(),
                    other.wf(),
                    self.rows == other.rows,
                    self.cols == other.cols,
                    row@.len() == j as int,
                    forall|jj: int|
                        0 <= jj < j ==> (#[trigger] row@[jj])@ == q_canon(
                            if is_add {
                                q_add(self.at(i as int, jj), other.at(i as int, jj))
                            } else {
                                q_sub(self.at(i as int, jj), other.at(i as int, jj))
                            },
                        ) && q_wf((row@[jj])@),
                decreases self.cols - j,
            {
                let a = self.get(i, j);
                let b = other.get(i, j);
                let c = if is_add {
                    a.add(&b)
                } else {
                    a.sub(&b)
                };
                match c {
                    Some(v) => {
                        row.push(v);
                    },
                    None => {
                        return Err(MatError::Overflow);
                    },
                }
                j += 1;
            }
            grid.push(row);
            i += 1;
        }
        proof {
            assert forall|ii: int, jj: int|
                0 <= ii < self.rows && 0 <= jj < self.cols implies q_wf(
                q_canon(
                    if is_add {
                        q_add(#[trigger] self.at(ii, jj), other.at(ii, jj))
                    } else {
                        q_sub(#[trigger] self.at(ii, jj), other.at(ii, jj))
                    },
                ),
            ) by {
                assert((grid@[ii]@[jj])@ == q_canon(
                    if is_add {
                        q_add(self.at(ii, jj), other.at(ii, jj))
                    } else {
                        q_sub(self.at(ii, jj), other.at(ii, jj))
                    },
                ) && q_wf((grid@[ii]@[jj])@));
            }
        }
        Ok(Matrix { rows: self.rows, cols: self.cols, data: grid })
    }

    /// Matrix product: the inner dimensions must agree.
    pub fn mul(&self, other: &Matrix) -> (r: Result<Matrix, MatError>)
        requires
            self.wf(),
            other.wf(),
        ensures
            self.cols != other.rows ==> (r matches Err(e) && e == MatError::ShapeMismatch),
            self.cols == other.rows ==> ((r is Ok) <==> (forall|i: int, j: int|
                0 <= i < self.rows && 0 <= j < other.cols ==> #[trigger] dot_ok(
                    *self,
                    *other,
                    i,
                    j,
                    self.cols as int,
                ))),
            self.cols == other.rows ==> (r matches Err(e) ==> e == MatError::Overflow),
            r matches Ok(m) ==> {
                &&& self.cols == other.rows
                &&& m.wf()
                &&& m.rows == self.rows
                &&& m.cols == other.cols
                &&& forall|i: int, j: int|
                    0 <= i < m.rows && 0 <= j < m.cols ==> #[trigger] m.at(i, j) == q_dotc(
                        *self,
                        *other,
                        i,
                        j,
                        self.cols as int,
                    )
            },
    {
        if self.cols != other.rows {
            return Err(MatError::ShapeMismatch);
        }
        let inner = self.cols;
        let mut grid: Vec<Vec<Rat>> = Vec::new();
        let mut i: usize = 0;
        while i < self.rows
            invariant
                i <= self.rows,
                self.wf(),
                other.wf(),
                inner == self.cols,
                self.cols == other.rows,
                grid@.len() == i as int,
                forall|ii: int| 0 <= ii < i ==> (#[trigger] grid@[ii])@.len() == other.cols as int,
                forall|ii: int, jj: int|
                    0 <= ii < i && 0 <= jj < other.cols ==> (#[trigger] grid@[ii]@[jj])@ == q_dotc(
                        *self,
                        *other,
                        ii,
                        jj,
                        inner as int,
                    ) && q_wf((grid@[ii]@[jj])@) && dot_ok(*self, *other, ii, jj, inner as int),
            decreases self.rows - i,
        {
            let mut row: Vec<Rat> = Vec::new();
            let mut j: usize = 0;
            while j < other.cols
                invariant
                    j <= other.cols,
                    i < self.rows,
                    self.wf(),
                    other.wf(),
                    inner == self.cols,
                    self.cols == other.rows,
                    row@.len() == j as int,
                    forall|jj: int|
                        0 <= jj < j ==> (#[trigger] row@[jj])@ == q_dotc(
                            *self,
                            *other,
                            i as int,
                            jj,
                            inner as int,
                        ) && q_wf((row@[jj])@) && dot_ok(*self, *other, i as int, jj, inner as int),
                decreases other.cols - j,
            {
                let mut acc = Rat::from_int(0);
                let mut k: usize = 0;
                while k < inner
                    invariant
                        k <= inner,
                        i < self.rows,
                        j < other.cols,
                        self.wf(),
                        other.wf(),
                        inner == self.cols,
                        self.cols == other.rows,
                        acc.wf(),
                        acc@ == q_dotc(*self, *other, i as int, j as int, k as int),
                        dot_ok(*self, *other, i as int, j as int, k as int),
                    decreases inner - k,
                {
                    let p = match self.get(i, k).mul(&other.get(k, j)) {
                        Some(p) => p,
                        None => {
                            proof {
                                if dot_ok(*self, *other, i as int, j as int, inner as int) {
                                    lemma_dot_ok_prefix(
                                        *self,
                                        *other,
                                        i as int,
                                        j as int,
                                        inner as int,
                                        k as int + 1,
                                    );
                                }
                            }
                            return Err(MatError::Overflow);
                        },
                    };
                    let next = match acc.add(&p) {
                        Some(s) => s,
                        None => {
                            proof {
                                if dot_ok(*self, *other, i as int, j as int, inner as int) {
                                    lemma_dot_ok_prefix(
                                        *self,
                                        *other,
                                        i as int,
                                        j as int,
                                        inner as int,
                                        k as int + 1,
                                    );
                                }
                            }
                            return Err(MatError::Overflow);
                        },
                    };
                    acc = next;
                    k += 1;
                }
                row.push(acc);
                j += 1;
            }
            grid.push(row);
            i += 1;
        }
        proof {
            assert forall|ii: int, jj: int|
                0 <= ii < self.rows && 0 <= jj < other.cols implies #[trigger] dot_ok(
                *self,
                *other,
                ii,
                jj,
                inner as int,
            ) by {
                let v = grid@[ii]@[jj];
                assert(v@ == q_dotc(*self, *other, ii, jj, inner as int));
                assert(q_wf(v@));
                assert(dot_ok(*self, *other, ii, jj, inner as int));
            }
        }
        Ok(Matrix { rows: self.rows, cols: other.cols, data: grid })
    }
}

/// Exact dot product of row `i` of `a` with column `j` of `b`, over
/// the first `k` terms.
pub open spec fn q_dot(a: Matrix, b: Matrix, i: int, j: int, k: int) -> Q
    decreases k,
{
    if k <= 0 {
        q_zero()
    } else {
        q_add(q_dot(a, b, i, j, k - 1), q_mul(a.at(i, k - 1), b.at(k - 1, j)))
    }
}

/// The same dot product as the reduced accumulator that `mul` builds.
pub open spec fn q_dotc(a: Matrix, b: Matrix, i: int, j: int, k: int) -> Q
    decreases k,
{
    if k <= 0 {
        q_zero()
    } else {
        q_canon(
            q_add(q_dotc(a, b, i, j, k - 1), q_canon(q_mul(a.at(i, k - 1), b.at(k - 1, j)))),
        )
    }
}

/// Every intermediate value of the accumulator stays in the window.
pub open spec fn dot_ok(a: Matrix, b: Matrix, i: int, j: int, k: int) -> bool
    decreases k,
{
    if k <= 0 {
        true
    } else {
        &&& dot_ok(a, b, i, j, k - 1)
        &&& q_wf(q_canon(q_mul(a.at(i, k - 1), b.at(k - 1, j))))
        &&& q_wf(
            q_canon(
                q_add(q_dotc(a, b, i, j, k - 1), q_canon(q_mul(a.at(i, k - 1), b.at(k - 1, j)))),
            ),
        )
    }
}

/// A dot product whose accumulator stays in the window does so over
/// every prefix.
pub proof fn lemma_dot_ok_prefix(a: Matrix, b: Matrix, i: int, j: int, k: int, kk: int)
    requires
        0 <= kk <= k,
        dot_ok(a, b, i, j, k),
    ensures
        dot_ok(a, b, i, j, kk),
    decreases k,
{
    if kk < k {
        lemma_dot_ok_prefix(a, b, i, j, k - 1, kk);
    }
}

/// The reduced accumulator equals the exact dot product.
pub proof fn lemma_dotc_eq(a: Matrix, b: Matrix, i: int, j: int, k: int)
    requires
        a.wf(),
        b.wf(),
        0 <= i < a.rows,
        0 <= j < b.cols,
        k <= a.cols,
        k <= b.rows,
        dot_ok(a, b, i, j, k),
    ensures
        q_wf(q_dotc(a, b, i, j, k)),
        q_dot(a, b, i, j, k).d > 0,
        q_eq(q_dotc(a, b, i, j, k), q_dot(a, b, i, j, k)),
    decreases k,
{
    if k <= 0 {
    } else {
        lemma_dotc_eq(a, b, i, j, k - 1);
        let e1 = a.at(i, k - 1);
        let e2 = b.at(k - 1, j);
        let p = q_mul(e1, e2);
        let pc = q_canon(p);
        lemma_q_dpos(e1, e2);
        lemma_canon(p);
        let s_prev_c = q_dotc(a, b, i, j, k - 1);
        let s_prev = q_dot(a, b, i, j, k - 1);
        let s = q_add(s_prev_c, pc);
        lemma_q_dpos(s_prev_c, pc);
        lemma_canon(s);
        lemma_q_add_cong(s_prev_c, s_prev, pc, p);
        lemma_q_eq_trans(q_canon(s), s, q_add(s_prev, p));
        lemma_q_dpos(s_prev, p);
    }
}

/// Prefix dot products have positive denominators.
pub proof fn lemma_q_dot_dpos(a: Matrix, b: Matrix, i: int, j: int, c: int)
    requires
        a.wf(),
        b.wf(),
        0 <= i < a.rows,
        0 <= j < b.cols,
        c <= a.cols,
        c <= b.rows,
    ensures
        q_dot(a, b, i, j, c).d > 0,
    decreases c,
{
    if c > 0 {
        lemma_q_dot_dpos(a, b, i, j, c - 1);
        lemma_q_dpos(a.at(i, c - 1), b.at(c - 1, j));
        lemma_q_dpos(q_dot(a, b, i, j, c - 1), q_mul(a.at(i, c - 1), b.at(c - 1, j)));
    }
}

/// Extending a prefix dot product across zero coefficients keeps its
/// value.
pub proof fn lemma_q_dot_pad(a: Matrix, b: Matrix, i: int, j: int, c: int)
    requires
        a.wf(),
        b.wf(),
        0 <= i < a.rows,
        0 <= j < b.cols,
        a.cols == b.rows,
        i + 1 <= c <= a.cols,
        forall|t: int| i < t < a.cols ==> #[trigger] a.at(i, t) == q_zero(),
    ensures
        q_eq(q_dot(a, b, i, j, c), q_dot(a, b, i, j, i + 1)),
    decreases c,
{
    if c == i + 1 {
        lemma_q_dot_dpos(a, b, i, j, c);
    } else {
        lemma_q_dot_pad(a, b, i, j, c - 1);
        let s = q_dot(a, b, i, j, c - 1);
        let e = b.at(c - 1, j);
        let z = q_mul(a.at(i, c - 1), e);
        assert(a.at(i, c - 1) == q_zero());
        assert(0 * e.n == 0 && 1 * e.d == e.d) by (nonlinear_arith);
        assert(z == (Q { n: 0, d: e.d }));
        lemma_q_dot_dpos(a, b, i, j, c - 1);
        assert((s.n * z.d + 0 * s.d) * s.d == s.n * (s.d * z.d)) by (nonlinear_arith);
        assert(q_eq(q_dot(a, b, i, j, c), s));
        lemma_q_dot_dpos(a, b, i, j, i + 1);
        lemma_q_eq_trans(q_dot(a, b, i, j, c), s, q_dot(a, b, i, j, i + 1));
    }
}

/// The fixed tolerance of `all_near`: ten times the precision of a
/// 53-bit mantissa, i.e. 10 / 2^52.
pub open spec fn tol_q() -> Q {
    Q { n: 10, d: 0x10000000000000 }
}

/// The tolerance as a rational value.
fn tol_rat() -> (r: Rat)
    ensures
        r@ == tol_q(),
        r.wf(),
{
    Rat { n: 10, d: 0x10000000000000 }
}

/// Whether two matrices of identical shape agree element-wise within
/// the fixed tolerance `tol_q()` in absolute value.
pub fn all_near(a: &Matrix, b: &Matrix) -> (r: Result<bool, MatError>)
    requires
        a.wf(),
        b.wf(),
    ensures
        !(a.rows == b.rows && a.cols == b.cols) ==> (r matches Err(e) && e
            == MatError::ShapeMismatch),
        a.rows == b.rows && a.cols == b.cols ==> ((r is Ok) <==> (forall|i: int, j: int|
            0 <= i < a.rows && 0 <= j < a.cols ==> q_wf(
                q_canon(q_sub(#[trigger] a.at(i, j), b.at(i, j))),
            ))),
        a.rows == b.rows && a.cols == b.cols ==> (r matches Err(e) ==> e == MatError::Overflow),
        r matches Ok(res) ==> res == (forall|i: int, j: int|
            0 <= i < a.rows && 0 <= j < a.cols ==> q_le(
                q_abs(q_sub(#[trigger] a.at(i, j), b.at(i, j))),
                tol_q(),
            )),
{
    if a.rows != b.rows || a.cols != b.cols {
        return Err(MatError::ShapeMismatch);
    }
    let tol = tol_rat();
    let mut ok = true;
    let mut i: usize = 0;
    while i < a.rows
        invariant
            i <= a.rows,
            a.wf(),
            b.wf(),
            a.rows == b.rows,
            a.cols == b.cols,
            tol@ == tol_q(),
            tol.wf(),
            forall|ii: int, jj: int|
                0 <= ii < i && 0 <= jj < a.cols ==> q_wf(
                    q_canon(q_sub(#[trigger] a.at(ii, jj), b.at(ii, jj))),
                ),
            ok == (forall|ii: int, jj: int|
                0 <= ii < i && 0 <= jj < a.cols ==> q_le(
                    q_abs(q_sub(#[trigger] a.at(ii, jj), b.at(ii, jj))),
                    tol_q(),
                )),
        decreases a.rows - i,
    {
        let mut j: usize = 0;
        while j < a.cols
            invariant
                j <= a.cols,
                i < a.rows,
                a.wf(),
                b.wf(),
                a.rows == b.rows,
                a.cols == b.cols,
                tol@ == tol_q(),
                tol.wf(),
                forall|ii: int, jj: int|
                    0 <= ii < i && 0 <= jj < a.cols ==> q_wf(
                        q_canon(q_sub(#[trigger] a.at(ii, jj), b.at(ii, jj))),
                    ),
                forall|jj: int|
                    0 <= jj < j ==> q_wf(q_canon(q_sub(#[trigger] a.at(i as int, jj), b.at(i as int, jj)))),
                ok == ((forall|ii: int, jj: int|
                    0 <= ii < i && 0 <= jj < a.cols ==> q_le(
                        q_abs(q_sub(#[trigger] a.at(ii, jj), b.at(ii, jj))),
                        tol_q(),
                    )) && (forall|jj: int|
                    0 <= jj < j ==> q_le(
                        q_abs(q_sub(#[trigger] a.at(i as int, jj), b.at(i as int, jj))),
                        tol_q(),
                    ))),
            decreases a.cols - j,
        {
            let x = a.get(i, j);
            let y = b.get(i, j);
            let diff = match x.sub(&y) {
                Some(d) => d,
                None => {
                    return Err(MatError::Overflow);
                },
            };
            let within = diff.abs().le(&tol);
            proof {
                let raw = q_sub(x@, y@);
                lemma_q_dpos(x@, y@);
                lemma_canon(raw);
                lemma_q_abs_cong(diff@, raw);
                lemma_q_le_cong(q_abs(diff@), q_abs(raw), tol_q());
            }
            ok = ok && within;
            j += 1;
        }
        i += 1;
    }
    Ok(ok)
}

} // verus!
