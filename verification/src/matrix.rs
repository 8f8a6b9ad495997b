//! Dense two-dimensional matrices over an arbitrary scalar type `T`.
//!
//! The matrix engine never computes with the scalars itself: operations that
//! need arithmetic take the scalar operations as caller-supplied closures.
//! Contracts pin each result down relative to those closures: whenever a
//! closure implements a mathematical function (see [`fn2_models`]), the
//! result equals the corresponding specification-level matrix operation.
use vstd::prelude::*;

use crate::Error;

verus! {

/// A dense matrix in row-major order: `data` has `rows` rows, each of
/// exactly `cols` entries.
#[derive(Debug)]
pub struct Matrix<T> {
    pub rows: usize,
    pub cols: usize,
    pub data: Vec<Vec<T>>,
}

impl<T> View for Matrix<T> {
    type V = Seq<Seq<T>>;

    open spec fn view(&self) -> Seq<Seq<T>> {
        self.data@.map_values(|row: Vec<T>| row@)
    }
}

/// Every row of `m` has exactly `cols` entries.
pub open spec fn rect<T>(m: Seq<Seq<T>>, cols: nat) -> bool {
    forall|i: int| 0 <= i < m.len() ==> (#[trigger] m[i]).len() == cols
}

/// The `Error::ShapeMismatch` value reporting an expected and an actual
/// length.
pub open spec fn shape_err(expected: int, actual: int) -> Error {
    Error::ShapeMismatch { expected: expected as usize, actual: actual as usize }
}

/// The transpose of a rectangular nested sequence whose rows have length
/// `cols`.
pub open spec fn transpose_of<T>(m: Seq<Seq<T>>, cols: nat) -> Seq<Seq<T>> {
    Seq::new(cols, |j: int| Seq::new(m.len(), |i: int| m[i][j]))
}

/// The closure `f` never refuses an argument.
pub open spec fn fn1_total<T, F: Fn(T) -> T>(f: F) -> bool {
    forall|x: T| #[trigger] call_requires(f, (x,))
}

/// Every value `f` can return on `x` equals `sf(x)`: the closure implements
/// the mathematical function `sf`.
pub open spec fn fn1_models<T, F: Fn(T) -> T>(f: F, sf: spec_fn(T) -> T) -> bool {
    forall|x: T, y: T| #[trigger] call_ensures(f, (x,), y) ==> y == sf(x)
}

/// The two-argument closure `f` never refuses its arguments.
pub open spec fn fn2_total<T, F: Fn(T, T) -> T>(f: F) -> bool {
    forall|x: T, y: T| #[trigger] call_requires(f, (x, y))
}

/// Every value `f` can return on `(x, y)` equals `sf(x, y)`.
pub open spec fn fn2_models<T, F: Fn(T, T) -> T>(f: F, sf: spec_fn(T, T) -> T) -> bool {
    forall|x: T, y: T, z: T| #[trigger] call_ensures(f, (x, y), z) ==> z == sf(x, y)
}

impl<T: Copy> Matrix<T> {
    /// The shape invariant: the dimension fields describe `data` exactly.
    pub open spec fn wf(self) -> bool {
        &&& self@.len() == self.rows
        &&& rect(self@, self.cols as nat)
    }

    /// A `rows` by `cols` matrix with every entry equal to `zero`.
    pub fn zeros(rows: usize, cols: usize, zero: T) -> (m: Matrix<T>)
        ensures
            m.wf(),
            m.rows == rows,
            m.cols == cols,
            forall|i: int, j: int|
                0 <= i < rows && 0 <= j < cols ==> #[trigger] m@[i][j] == zero,
    {
        let mut data: Vec<Vec<T>> = Vec::new();
        let mut i: usize = 0;
        while i < rows
            invariant
                i <= rows,
                data@.len() == i,
                forall|p: int| 0 <= p < i ==> (#[trigger] data@[p])@.len() == cols,
                forall|p: int, q: int|
                    0 <= p < i && 0 <= q < cols ==> #[trigger] data@[p]@[q] == zero,
            decreases rows - i,
        {
            let mut row: Vec<T> = Vec::new();
            let mut j: usize = 0;
            while j < cols
                invariant
                    j <= cols,
                    row@.len() == j,
                    forall|q: int| 0 <= q < j ==> #[trigger] row@[q] == zero,
                decreases cols - j,
            {
                row.push(zero);
                j += 1;
            }
            data.push(row);
            i += 1;
        }
        Matrix { rows, cols, data }
    }

    /// A `rows` by `cols` matrix whose every entry was produced by an
    /// independent call of `draw` (for instance a pseudo-random source).
    /// Nothing more is promised of the entries than that each is a possible
    /// result of `draw`.
    pub fn random<R: Fn() -> T>(rows: usize, cols: usize, draw: &R) -> (m: Matrix<T>)
        requires
            call_requires(*draw, ()),
        ensures
            m.wf(),
            m.rows == rows,
            m.cols == cols,
            forall|i: int, j: int|
                0 <= i < rows && 0 <= j < cols ==> call_ensures(*draw, (), #[trigger] m@[i][j]),
    {
        let mut data: Vec<Vec<T>> = Vec::new();
        let mut i: usize = 0;
        while i < rows
            invariant
                i <= rows,
                data@.len() == i,
                call_requires(*draw, ()),
                forall|p: int| 0 <= p < i ==> (#[trigger] data@[p])@.len() == cols,
                forall|p: int, q: int|
                    0 <= p < i && 0 <= q < cols
                        ==> call_ensures(*draw, (), #[trigger] data@[p]@[q]),
            decreases rows - i,
        {
            let mut row: Vec<T> = Vec::new();
            let mut j: usize = 0;
            while j < cols
                invariant
                    j <= cols,
                    row@.len() == j,
                    call_requires(*draw, ()),
                    forall|q: int| 0 <= q < j ==> call_ensures(*draw, (), #[trigger] row@[q]),
                decreases cols - j,
            {
                let v = draw();
                row.push(v);
                j += 1;
            }
            data.push(row);
            i += 1;
        }
        Matrix { rows, cols, data }
    }

    /// Builds a matrix from a literal row-major nested sequence. Succeeds
    /// exactly when the outer sequence is non-empty and every row has the
    /// same length as the first; otherwise reports the offending lengths.
    pub fn from_rows(data: Vec<Vec<T>>) -> (r: Result<Matrix<T>, Error>)
        ensures
            r is Ok <==> (data@.len() > 0 && forall|i: int|
                0 <= i < data@.len() ==> (#[trigger] data@[i])@.len() == data@[0]@.len()),
            r matches Ok(m) ==> {
                &&& m.wf()
                &&& m.rows == data@.len()
                &&& m.cols == data@[0]@.len()
                &&& m@ == data@.map_values(|row: Vec<T>| row@)
            },
            data@.len() == 0 ==> r == Err::<Matrix<T>, Error>(shape_err(1, 0)),
            data@.len() > 0 && r is Err ==> exists|i: int|
                {
                    &&& 0 < i < data@.len()
                    &&& (#[trigger] data@[i])@.len() != data@[0]@.len()
                    &&& forall|q: int|
                        0 < q < i ==> (#[trigger] data@[q])@.len() == data@[0]@.len()
                    &&& r == Err::<Matrix<T>, Error>(
                        shape_err(data@[0]@.len() as int, data@[i]@.len() as int),
                    )
                },
    {
        if data.len() == 0 {
            return Err(Error::ShapeMismatch { expected: 1, actual: 0 });
        }
        let cols = data[0].len();
        let mut i: usize = 1;
        while i < data.len()
            invariant
                1 <= i <= data@.len(),
                cols == data@[0]@.len(),
                forall|q: int| 0 <= q < i ==> (#[trigger] data@[q])@.len() == cols,
            decreases data@.len() - i,
        {
            if data[i].len() != cols {
                return Err(Error::ShapeMismatch { expected: cols, actual: data[i].len() });
            }
            i += 1;
        }
        let rows = data.len();
        Ok(Matrix { rows, cols, data })
    }

    /// The transpose: rows and columns swapped, `r@[j][i] == self@[i][j]`.
    pub fn transpose(&self) -> (r: Matrix<T>)
        requires
            self.wf(),
        ensures
            r.wf(),
            r.rows == self.cols,
            r.cols == self.rows,
            r@ == transpose_of(self@, self.cols as nat),
            forall|j: int, i: int|
                0 <= j < self.cols && 0 <= i < self.rows ==> #[trigger] r@[j][i] == self@[i][j],
    {
        let mut data: Vec<Vec<T>> = Vec::new();
        let mut j: usize = 0;
        while j < self.cols
            invariant
                self.wf(),
                j <= self.cols,
                data@.len() == j,
                forall|p: int| 0 <= p < j ==> (#[trigger] data@[p])@.len() == self.rows,
                forall|p: int, q: int|
                    0 <= p < j && 0 <= q < self.rows ==> #[trigger] data@[p]@[q] == self@[q][p],
            decreases self.cols - j,
        {
            let mut row: Vec<T> = Vec::new();
            let mut i: usize = 0;
            while i < self.rows
                invariant
                    self.wf(),
                    j < self.cols,
                    i <= self.rows,
                    row@.len() == i,
                    forall|q: int| 0 <= q < i ==> #[trigger] row@[q] == self@[q][j as int],
                decreases self.rows - i,
            {
                proof {
                    assert(self@[i as int] == self.data@[i as int]@);
                    assert(self@[i as int].len() == self.cols);
                }
                let v = self.data[i][j];
                row.push(v);
                i += 1;
            }
            data.push(row);
            j += 1;
        }
        let r = Matrix { rows: self.cols, cols: self.rows, data };
        proof {
            let t = transpose_of(self@, self.cols as nat);
            assert forall|p: int| 0 <= p < r@.len() implies r@[p] =~= t[p] by {}
            assert(r@ =~= t);
        }
        r
    }
}

/// The entrywise image of `m` under `sf`.
pub open spec fn map_of<T>(m: Seq<Seq<T>>, sf: spec_fn(T) -> T) -> Seq<Seq<T>> {
    m.map_values(|row: Seq<T>| row.map_values(sf))
}

/// The entrywise combination of `a` and `b` under `sf` (addition,
/// subtraction and the Hadamard product are instances).
pub open spec fn zip_of<T>(a: Seq<Seq<T>>, b: Seq<Seq<T>>, sf: spec_fn(T, T) -> T) -> Seq<Seq<T>> {
    Seq::new(a.len(), |i: int| Seq::new(a[i].len(), |j: int| sf(a[i][j], b[i][j])))
}

/// Every entry of `m` combined with the fixed `factor` under `sm`.
pub open spec fn scale_of<T>(m: Seq<Seq<T>>, factor: T, sm: spec_fn(T, T) -> T) -> Seq<Seq<T>> {
    map_of(m, |x: T| sm(x, factor))
}

/// Column `j` of `m`.
pub open spec fn col_of<T>(m: Seq<Seq<T>>, j: int) -> Seq<T> {
    Seq::new(m.len(), |k: int| m[k][j])
}

/// The inner product of `r` and `c` under scalar addition `sa` and
/// multiplication `sm`, folded left to right from `zero`:
/// `sa(..sa(sa(zero, sm(r[0], c[0])), sm(r[1], c[1])).., sm(r[n-1], c[n-1]))`.
pub open spec fn dot_of<T>(
    r: Seq<T>,
    c: Seq<T>,
    sa: spec_fn(T, T) -> T,
    sm: spec_fn(T, T) -> T,
    zero: T,
) -> T
    decreases r.len(),
{
    if r.len() == 0 {
        zero
    } else {
        sa(dot_of(r.drop_last(), c.drop_last(), sa, sm, zero), sm(r.last(), c.last()))
    }
}

/// The algebraic matrix product of `a` and `b`, where `b` has `bcols`
/// columns: entry `(i, j)` is the inner product of row `i` of `a` with
/// column `j` of `b`.
pub open spec fn product_of<T>(
    a: Seq<Seq<T>>,
    b: Seq<Seq<T>>,
    bcols: nat,
    sa: spec_fn(T, T) -> T,
    sm: spec_fn(T, T) -> T,
    zero: T,
) -> Seq<Seq<T>> {
    Seq::new(a.len(), |i: int| Seq::new(bcols, |j: int| dot_of(a[i], col_of(b, j), sa, sm, zero)))
}

/// The `n` by `n` matrix with `one` on the diagonal and `zero` elsewhere.
pub open spec fn identity_of<T>(n: nat, zero: T, one: T) -> Seq<Seq<T>> {
    Seq::new(n, |i: int| Seq::new(n, |j: int| if i == j { one } else { zero }))
}

impl<T: Copy> Matrix<T> {
    /// Applies `f` to every entry, preserving the shape. Whenever `f`
    /// implements a mathematical function `sf`, the result is exactly the
    /// entrywise image of the matrix under `sf`.
    pub fn map<F: Fn(T) -> T>(&self, f: &F) -> (r: Matrix<T>)
        requires
            self.wf(),
            fn1_total(*f),
        ensures
            r.wf(),
            r.rows == self.rows,
            r.cols == self.cols,
            forall|i: int, j: int|
                0 <= i < self.rows && 0 <= j < self.cols
                    ==> call_ensures(*f, (self@[i][j],), #[trigger] r@[i][j]),
            forall|sf: spec_fn(T) -> T|
                fn1_models(*f, sf) ==> r@ == #[trigger] map_of(self@, sf),
    {
        let mut data: Vec<Vec<T>> = Vec::new();
        let mut i: usize = 0;
        while i < self.rows
            invariant
                self.wf(),
                fn1_total(*f),
                i <= self.rows,
                data@.len() == i,
                forall|p: int| 0 <= p < i ==> (#[trigger] data@[p])@.len() == self.cols,
                forall|p: int, q: int|
                    0 <= p < i && 0 <= q < self.cols
                        ==> call_ensures(*f, (self@[p][q],), #[trigger] data@[p]@[q]),
            decreases self.rows - i,
        {
            let mut row: Vec<T> = Vec::new();
            let mut j: usize = 0;
            while j < self.cols
                invariant
                    self.wf(),
                    fn1_total(*f),
                    i < self.rows,
                    j <= self.cols,
                    row@.len() == j,
                    forall|q: int|
                        0 <= q < j
                            ==> call_ensures(*f, (self@[i as int][q],), #[trigger] row@[q]),
                decreases self.cols - j,
            {
                proof {
                    assert(self@[i as int] == self.data@[i as int]@);
                    assert(self@[i as int].len() == self.cols);
                }
                let v = f(self.data[i][j]);
                row.push(v);
                j += 1;
            }
            data.push(row);
            i += 1;
        }
        let r = Matrix { rows: self.rows, cols: self.cols, data };
        proof {
            assert forall|sf: spec_fn(T) -> T| fn1_models(*f, sf) implies r@ == #[trigger] map_of(
                self@,
                sf,
            ) by {
                let mo = map_of(self@, sf);
                assert forall|p: int| 0 <= p < r@.len() implies r@[p] =~= mo[p] by {
                    assert(mo[p] == self@[p].map_values(sf));
                }
                assert(r@ =~= mo);
            }
        }
        r
    }

    /// Combines two matrices entry by entry under `f`. Succeeds exactly when
    /// the shapes agree; used for elementwise addition, subtraction and the
    /// Hadamard product.
    pub fn combine<F: Fn(T, T) -> T>(&self, other: &Matrix<T>, f: &F) -> (r: Result<
        Matrix<T>,
        Error,
    >)
        requires
            self.wf(),
            other.wf(),
            fn2_total(*f),
        ensures
            r is Ok <==> (self.rows == other.rows && self.cols == other.cols),
            self.rows != other.rows ==> r == Err::<Matrix<T>, Error>(
                shape_err(self.rows as int, other.rows as int),
            ),
            self.rows == other.rows && self.cols != other.cols ==> r == Err::<Matrix<T>, Error>(
                shape_err(self.cols as int, other.cols as int),
            ),
            r matches Ok(m) ==> {
                &&& m.wf()
                &&& m.rows == self.rows
                &&& m.cols == self.cols
                &&& forall|i: int, j: int|
                    0 <= i < self.rows && 0 <= j < self.cols
                        ==> call_ensures(*f, (self@[i][j], other@[i][j]), #[trigger] m@[i][j])
                &&& forall|sf: spec_fn(T, T) -> T|
                    fn2_models(*f, sf) ==> m@ == #[trigger] zip_of(self@, other@, sf)
            },
    {
        if self.rows != other.rows {
            return Err(Error::ShapeMismatch { expected: self.rows, actual: other.rows });
        }
        if self.cols != other.cols {
            return Err(Error::ShapeMismatch { expected: self.cols, actual: other.cols });
        }
        let mut data: Vec<Vec<T>> = Vec::new();
        let mut i: usize = 0;
        while i < self.rows
            invariant
                self.wf(),
                other.wf(),
                fn2_total(*f),
                self.rows == other.rows,
                self.cols == other.cols,
                i <= self.rows,
                data@.len() == i,
                forall|p: int| 0 <= p < i ==> (#[trigger] data@[p])@.len() == self.cols,
                forall|p: int, q: int|
                    0 <= p < i && 0 <= q < self.cols
                        ==> call_ensures(
                        *f,
                        (self@[p][q], other@[p][q]),
                        #[trigger] data@[p]@[q],
                    ),
            decreases self.rows - i,
        {
            let mut row: Vec<T> = Vec::new();
            let mut j: usize = 0;
            while j < self.cols
                invariant
                    self.wf(),
                    other.wf(),
                    fn2_total(*f),
                    self.rows == other.rows,
                    self.cols == other.cols,
                    i < self.rows,
                    j <= self.cols,
                    row@.len() == j,
                    forall|q: int|
                        0 <= q < j
                            ==> call_ensures(
                            *f,
                            (self@[i as int][q], other@[i as int][q]),
                            #[trigger] row@[q],
                        ),
                decreases self.cols - j,
            {
                proof {
                    assert(self@[i as int] == self.data@[i as int]@);
                    assert(other@[i as int] == other.data@[i as int]@);
                    assert(self@[i as int].len() == self.cols);
                    assert(other@[i as int].len() == other.cols);
                }
                let v = f(self.data[i][j], other.data[i][j]);
                row.push(v);
                j += 1;
            }
            data.push(row);
            i += 1;
        }
        let m = Matrix { rows: self.rows, cols: self.cols, data };
        proof {
            assert forall|sf: spec_fn(T, T) -> T| fn2_models(*f, sf) implies m@ == #[trigger] zip_of(
                self@,
                other@,
                sf,
            ) by {
                let z = zip_of(self@, other@, sf);
                assert forall|p: int| 0 <= p < m@.len() implies m@[p] =~= z[p] by {}
                assert(m@ =~= z);
            }
        }
        Ok(m)
    }

    /// Combines every entry with the fixed scalar `factor` under `times`
    /// (scaling by a learning rate is the intended use).
    pub fn scale<M: Fn(T, T) -> T>(&self, factor: T, times: &M) -> (r: Matrix<T>)
        requires
            self.wf(),
            fn2_total(*times),
        ensures
            r.wf(),
            r.rows == self.rows,
            r.cols == self.cols,
            forall|i: int, j: int|
                0 <= i < self.rows && 0 <= j < self.cols
                    ==> call_ensures(*times, (self@[i][j], factor), #[trigger] r@[i][j]),
            forall|sm: spec_fn(T, T) -> T|
                fn2_models(*times, sm) ==> r@ == #[trigger] scale_of(self@, factor, sm),
    {
        let mut data: Vec<Vec<T>> = Vec::new();
        let mut i: usize = 0;
        while i < self.rows
            invariant
                self.wf(),
                fn2_total(*times),
                i <= self.rows,
                data@.len() == i,
                forall|p: int| 0 <= p < i ==> (#[trigger] data@[p])@.len() == self.cols,
                forall|p: int, q: int|
                    0 <= p < i && 0 <= q < self.cols
                        ==> call_ensures(
                        *times,
                        (self@[p][q], factor),
                        #[trigger] data@[p]@[q],
                    ),
            decreases self.rows - i,
        {
            let mut row: Vec<T> = Vec::new();
            let mut j: usize = 0;
            while j < self.cols
                invariant
                    self.wf(),
                    fn2_total(*times),
                    i < self.rows,
                    j <= self.cols,
                    row@.len() == j,
                    forall|q: int|
                        0 <= q < j
                            ==> call_ensures(
                            *times,
                            (self@[i as int][q], factor),
                            #[trigger] row@[q],
                        ),
                decreases self.cols - j,
            {
                proof {
                    assert(self@[i as int] == self.data@[i as int]@);
                    assert(self@[i as int].len() == self.cols);
                }
                let v = times(self.data[i][j], factor);
                row.push(v);
                j += 1;
            }
            data.push(row);
            i += 1;
        }
        let r = Matrix { rows: self.rows, cols: self.cols, data };
        proof {
            assert forall|sm: spec_fn(T, T) -> T| fn2_models(*times, sm) implies r@
                == #[trigger] scale_of(self@, factor, sm) by {
                let sc = scale_of(self@, factor, sm);
                assert forall|p: int| 0 <= p < r@.len() implies r@[p] =~= sc[p] by {
                    assert(sc[p] == self@[p].map_values(|x: T| sm(x, factor)));
                }
                assert(r@ =~= sc);
            }
        }
        r
    }

    /// The `n` by `n` identity pattern over the caller's `zero` and `one`.
    pub fn identity(n: usize, zero: T, one: T) -> (m: Matrix<T>)
        ensures
            m.wf(),
            m.rows == n,
            m.cols == n,
            m@ == identity_of(n as nat, zero, one),
    {
        let mut data: Vec<Vec<T>> = Vec::new();
        let mut i: usize = 0;
        while i < n
            invariant
                i <= n,
                data@.len() == i,
                forall|p: int| 0 <= p < i ==> (#[trigger] data@[p])@.len() == n,
                forall|p: int, q: int|
                    0 <= p < i && 0 <= q < n
                        ==> #[trigger] data@[p]@[q] == (if p == q { one } else { zero }),
            decreases n - i,
        {
            let mut row: Vec<T> = Vec::new();
            let mut j: usize = 0;
            while j < n
                invariant
                    i < n,
                    j <= n,
                    row@.len() == j,
                    forall|q: int|
                        0 <= q < j ==> #[trigger] row@[q] == (if i == q { one } else { zero }),
                decreases n - j,
            {
                if i == j {
                    row.push(one);
                } else {
                    row.push(zero);
                }
                j += 1;
            }
            data.push(row);
            i += 1;
        }
        let m = Matrix { rows: n, cols: n, data };
        proof {
            let idm = identity_of(n as nat, zero, one);
            assert forall|p: int| 0 <= p < m@.len() implies m@[p] =~= idm[p] by {}
            assert(m@ =~= idm);
        }
        m
    }

    /// The standard algebraic matrix product, with scalar addition and
    /// multiplication supplied as `plus` and `times` and the empty-sum value
    /// as `zero`. Succeeds exactly when `self.cols == other.rows`; the
    /// result has shape `(self.rows, other.cols)` and, whenever the closures
    /// implement mathematical functions, equals the specification product.
    pub fn multiply<A: Fn(T, T) -> T, M: Fn(T, T) -> T>(
        &self,
        other: &Matrix<T>,
        plus: &A,
        times: &M,
        zero: T,
    ) -> (r: Result<Matrix<T>, Error>)
        requires
            self.wf(),
            other.wf(),
            fn2_total(*plus),
            fn2_total(*times),
        ensures
            r is Ok <==> self.cols == other.rows,
            self.cols != other.rows ==> r == Err::<Matrix<T>, Error>(
                shape_err(self.cols as int, other.rows as int),
            ),
            r matches Ok(m) ==> {
                &&& m.wf()
                &&& m.rows == self.rows
                &&& m.cols == other.cols
                &&& forall|sa: spec_fn(T, T) -> T, sm: spec_fn(T, T) -> T|
                    fn2_models(*plus, sa) && fn2_models(*times, sm)
                        ==> m@ == #[trigger] product_of(
                        self@,
                        other@,
                        other.cols as nat,
                        sa,
                        sm,
                        zero,
                    )
            },
    {
        if self.cols != other.rows {
            return Err(Error::ShapeMismatch { expected: self.cols, actual: other.rows });
        }
        let mut data: Vec<Vec<T>> = Vec::new();
        let mut i: usize = 0;
        while i < self.rows
            invariant
                self.wf(),
                other.wf(),
                fn2_total(*plus),
                fn2_total(*times),
                self.cols == other.rows,
                i <= self.rows,
                data@.len() == i,
                forall|p: int| 0 <= p < i ==> (#[trigger] data@[p])@.len() == other.cols,
                forall|sa: spec_fn(T, T) -> T, sm: spec_fn(T, T) -> T, p: int, q: int|
                    fn2_models(*plus, sa) && fn2_models(*times, sm) && 0 <= p < i && 0 <= q
                        < other.cols ==> data@[p]@[q] == #[trigger] dot_of(
                        self@[p],
                        col_of(other@, q),
                        sa,
                        sm,
                        zero,
                    ),
            decreases self.rows - i,
        {
            let mut row: Vec<T> = Vec::new();
            let mut j: usize = 0;
            while j < other.cols
                invariant
                    self.wf(),
                    other.wf(),
                    fn2_total(*plus),
                    fn2_total(*times),
                    self.cols == other.rows,
                    i < self.rows,
                    j <= other.cols,
                    row@.len() == j,
                    forall|sa: spec_fn(T, T) -> T, sm: spec_fn(T, T) -> T, q: int|
                        fn2_models(*plus, sa) && fn2_models(*times, sm) && 0 <= q < j
                            ==> row@[q] == #[trigger] dot_of(
                            self@[i as int],
                            col_of(other@, q),
                            sa,
                            sm,
                            zero,
                        ),
                decreases other.cols - j,
            {
                let ghost rowseq = self@[i as int];
                let ghost colseq = col_of(other@, j as int);
                let mut acc: T = zero;
                let mut k: usize = 0;
                proof {
                    assert(self@[i as int].len() == self.cols);
                    assert(colseq.len() == other.rows);
                }
                while k < self.cols
                    invariant
                        self.wf(),
                        other.wf(),
                        fn2_total(*plus),
                        fn2_total(*times),
                        self.cols == other.rows,
                        i < self.rows,
                        j < other.cols,
                        k <= self.cols,
                        rowseq == self@[i as int],
                        colseq == col_of(other@, j as int),
                        rowseq.len() == self.cols,
                        colseq.len() == self.cols,
                        forall|sa: spec_fn(T, T) -> T, sm: spec_fn(T, T) -> T|
                            fn2_models(*plus, sa) && fn2_models(*times, sm) ==> acc
                                == #[trigger] dot_of(
                                rowseq.take(k as int),
                                colseq.take(k as int),
                                sa,
                                sm,
                                zero,
                            ),
                    decreases self.cols - k,
                {
                    proof {
                        assert(self@[i as int] == self.data@[i as int]@);
                        assert(other@[k as int] == other.data@[k as int]@);
                        assert(other@[k as int].len() == other.cols);
                    }
                    let aik = self.data[i][k];
                    let bkj = other.data[k][j];
                    let p = times(aik, bkj);
                    let acc2 = plus(acc, p);
                    proof {
                        assert(aik == rowseq[k as int]);
                        assert(bkj == colseq[k as int]);
                        assert forall|sa: spec_fn(T, T) -> T, sm: spec_fn(T, T) -> T|
                            fn2_models(*plus, sa) && fn2_models(*times, sm) implies acc2
                            == #[trigger] dot_of(
                            rowseq.take(k as int + 1),
                            colseq.take(k as int + 1),
                            sa,
                            sm,
                            zero,
                        ) by {
                            lemma_dot_take_step(rowseq, colseq, sa, sm, zero, k as int);
                        }
                    }
                    acc = acc2;
                    k += 1;
                }
                proof {
                    assert(rowseq.take(self.cols as int) =~= rowseq);
                    assert(colseq.take(self.cols as int) =~= colseq);
                }
                row.push(acc);
                j += 1;
            }
            data.push(row);
            i += 1;
        }
        let m = Matrix { rows: self.rows, cols: other.cols, data };
        proof {
            assert forall|sa: spec_fn(T, T) -> T, sm: spec_fn(T, T) -> T|
                fn2_models(*plus, sa) && fn2_models(*times, sm) implies m@
                == #[trigger] product_of(self@, other@, other.cols as nat, sa, sm, zero) by {
                let pr = product_of(self@, other@, other.cols as nat, sa, sm, zero);
                assert forall|p: int| 0 <= p < m@.len() implies m@[p] =~= pr[p] by {}
                assert(m@ =~= pr);
            }
        }
        Ok(m)
    }
}

/// The flat sequence `s` as a single-column nested sequence.
pub open spec fn col_seq_of<T>(s: Seq<T>) -> Seq<Seq<T>> {
    Seq::new(s.len(), |i: int| seq![s[i]])
}

/// The views of a sequence of matrices.
pub open spec fn views_of<T>(ms: Seq<Matrix<T>>) -> Seq<Seq<Seq<T>>> {
    ms.map_values(|m: Matrix<T>| m@)
}

impl<T: Copy> Matrix<T> {
    /// The flat sequence `v` as a single-column matrix.
    pub fn column(v: Vec<T>) -> (m: Matrix<T>)
        ensures
            m.wf(),
            m.rows == v@.len(),
            m.cols == 1,
            m@ == col_seq_of(v@),
    {
        let mut data: Vec<Vec<T>> = Vec::new();
        let mut i: usize = 0;
        let n = v.len();
        while i < n
            invariant
                i <= n,
                n == v@.len(),
                data@.len() == i,
                forall|p: int| 0 <= p < i ==> (#[trigger] data@[p])@ =~= seq![v@[p]],
            decreases n - i,
        {
            let mut row: Vec<T> = Vec::new();
            row.push(v[i]);
            data.push(row);
            i += 1;
        }
        let m = Matrix { rows: n, cols: 1, data };
        proof {
            let c = col_seq_of(v@);
            assert forall|p: int| 0 <= p < m@.len() implies m@[p] =~= c[p] by {}
            assert(m@ =~= c);
        }
        m
    }

    /// The entries of a single-column matrix, top to bottom.
    pub fn column_entries(&self) -> (r: Vec<T>)
        requires
            self.wf(),
            self.cols == 1,
        ensures
            r@.len() == self.rows,
            forall|k: int| 0 <= k < self.rows ==> #[trigger] r@[k] == self@[k][0],
    {
        let mut r: Vec<T> = Vec::new();
        let mut i: usize = 0;
        while i < self.rows
            invariant
                self.wf(),
                self.cols == 1,
                i <= self.rows,
                r@.len() == i,
                forall|k: int| 0 <= k < i ==> #[trigger] r@[k] == self@[k][0],
            decreases self.rows - i,
        {
            proof {
                assert(self@[i as int] == self.data@[i as int]@);
                assert(self@[i as int].len() == 1);
            }
            let v = self.data[i][0];
            r.push(v);
            i += 1;
        }
        r
    }
}

/// Extending both vectors by one entry extends the inner-product fold by
/// one step.
proof fn lemma_dot_take_step<T>(
    r: Seq<T>,
    c: Seq<T>,
    sa: spec_fn(T, T) -> T,
    sm: spec_fn(T, T) -> T,
    zero: T,
    k: int,
)
    requires
        0 <= k < r.len(),
        k < c.len(),
    ensures
        dot_of(r.take(k + 1), c.take(k + 1), sa, sm, zero) == sa(
            dot_of(r.take(k), c.take(k), sa, sm, zero),
            sm(r[k], c[k]),
        ),
{
    let r1 = r.take(k + 1);
    let c1 = c.take(k + 1);
    assert(r1.drop_last() =~= r.take(k));
    assert(c1.drop_last() =~= c.take(k));
    assert(r1.last() == r[k]);
    assert(c1.last() == c[k]);
}

/// The inner product of `r` with a standard basis vector (entry `one` at
/// index `j`, `zero` elsewhere) selects `r[j]`, given that the scalar
/// operations treat `zero` and `one` as the usual identities.
proof fn lemma_dot_basis<T>(
    r: Seq<T>,
    c: Seq<T>,
    j: int,
    sa: spec_fn(T, T) -> T,
    sm: spec_fn(T, T) -> T,
    zero: T,
    one: T,
)
    requires
        r.len() == c.len(),
        forall|k: int| 0 <= k < c.len() ==> #[trigger] c[k] == (if k == j { one } else { zero }),
        forall|x: T| #[trigger] sm(x, zero) == zero,
        forall|x: T| #[trigger] sm(x, one) == x,
        forall|x: T| #[trigger] sa(x, zero) == x,
        forall|x: T| #[trigger] sa(zero, x) == x,
    ensures
        dot_of(r, c, sa, sm, zero) == (if 0 <= j < r.len() { r[j] } else { zero }),
    decreases r.len(),
{
    if r.len() > 0 {
        lemma_dot_basis(r.drop_last(), c.drop_last(), j, sa, sm, zero, one);
    }
}

/// Multiplying a rectangular matrix on the right by the identity pattern
/// gives the matrix back, provided the scalar operations treat `zero` and
/// `one` as the usual identities (`sm(x, zero) == zero`, `sm(x, one) == x`,
/// `sa(x, zero) == x`, `sa(zero, x) == x`).
pub proof fn lemma_multiply_identity<T>(
    a: Seq<Seq<T>>,
    cols: nat,
    sa: spec_fn(T, T) -> T,
    sm: spec_fn(T, T) -> T,
    zero: T,
    one: T,
)
    requires
        rect(a, cols),
        forall|x: T| #[trigger] sm(x, zero) == zero,
        forall|x: T| #[trigger] sm(x, one) == x,
        forall|x: T| #[trigger] sa(x, zero) == x,
        forall|x: T| #[trigger] sa(zero, x) == x,
    ensures
        product_of(a, identity_of(cols, zero, one), cols, sa, sm, zero) == a,
{
    let idm = identity_of(cols, zero, one);
    let pr = product_of(a, idm, cols, sa, sm, zero);
    assert forall|i: int| 0 <= i < a.len() implies pr[i] =~= a[i] by {
        assert forall|j: int| 0 <= j < cols implies pr[i][j] == a[i][j] by {
            let c = col_of(idm, j);
            assert(forall|k: int|
                0 <= k < c.len() ==> #[trigger] c[k] == (if k == j { one } else { zero }));
            lemma_dot_basis(a[i], c, j, sa, sm, zero, one);
        }
    }
    assert(pr =~= a);
}

/// Transposition is involutive: transposing a rectangular matrix twice
/// gives the matrix back.
pub proof fn lemma_transpose_involutive<T>(m: Seq<Seq<T>>, cols: nat)
    requires
        rect(m, cols),
    ensures
        transpose_of(transpose_of(m, cols), m.len() as nat) == m,
{
    let t = transpose_of(m, cols);
    let tt = transpose_of(t, m.len() as nat);
    assert forall|i: int| 0 <= i < m.len() implies tt[i] =~= m[i] by {}
    assert(tt =~= m);
}

} // verus!
