//! Dense matrices of fixed dimensions.
use vstd::prelude::*;

use crate::{AddIdentity, AlgebraError, Carrier, One, Ring, RingLaws, Times, Zero};

verus! {

/// An `N × M` matrix (`N` rows) stored row by row: the entry at
/// `(row, col)` is element `row * M + col`.
#[derive(Debug)]
pub struct Matrix<const N: usize, const M: usize, T> {
    data: Vec<T>,
}

/// `r · cols + c` lies inside a `rows × cols` block.
pub proof fn lemma_position_in_bounds(r: int, c: int, rows: int, cols: int)
    requires
        0 <= r < rows,
        0 <= c < cols,
    ensures
        0 <= r * cols + c < rows * cols,
{
    assert(r * cols + c < rows * cols) by (nonlinear_arith)
        requires
            0 <= r < rows,
            0 <= c < cols,
    ;
    assert(0 <= r * cols) by (nonlinear_arith)
        requires
            0 <= r,
            0 <= c < cols,
    ;
}

/// `Σ_{t < len} a[row, t] · b[t, col]`, summed in order of `t` from zero,
/// where `a` has `k` columns and `b` has `m` columns.
pub open spec fn dot<T: Ring>(
    a: Seq<T::V>,
    b: Seq<T::V>,
    k: int,
    m: int,
    row: int,
    col: int,
    len: nat,
) -> T::V
    decreases len,
{
    if len == 0 {
        T::spec_zero()
    } else {
        T::add_spec(
            dot::<T>(a, b, k, m, row, col, (len - 1) as nat),
            T::mul_spec(a[row * k + (len - 1)], b[(len - 1) * m + col]),
        )
    }
}

/// The product of an `n × k` matrix by a `k × m` matrix.
pub open spec fn matmul<T: Ring>(a: Seq<T::V>, b: Seq<T::V>, n: int, k: int, m: int) -> Seq<T::V> {
    Seq::new((n * m) as nat, |idx: int| dot::<T>(a, b, k, m, idx / m, idx % m, k as nat))
}

/// Entries combined position by position.
pub open spec fn zip_add<T: Ring>(a: Seq<T::V>, b: Seq<T::V>) -> Seq<T::V> {
    Seq::new(a.len(), |i: int| T::add_spec(a[i], b[i]))
}

pub open spec fn zip_sub<T: Ring>(a: Seq<T::V>, b: Seq<T::V>) -> Seq<T::V> {
    Seq::new(a.len(), |i: int| T::sub_spec(a[i], b[i]))
}

pub open spec fn map_neg<T: Ring>(a: Seq<T::V>) -> Seq<T::V> {
    Seq::new(a.len(), |i: int| T::neg_spec(a[i]))
}

/// Every entry multiplied on the right by the integer `s`.
pub open spec fn map_times<E: Times<i32, E>>(a: Seq<E::V>, s: i32) -> Seq<E::V> {
    Seq::new(a.len(), |i: int| E::times_spec(a[i], s))
}

/// `value` on the main diagonal, zero elsewhere.
pub open spec fn eye_entries<T: Zero>(value: T::V, n: int, m: int) -> Seq<T::V> {
    Seq::new(
        (n * m) as nat,
        |idx: int|
            if idx / m == idx % m {
                value
            } else {
                T::spec_zero()
            },
    )
}

/// The views of the elements of `s`, in order.
pub open spec fn views_of<T: View>(s: Seq<T>) -> Seq<T::V> {
    s.map_values(|t: T| t@)
}

impl<const N: usize, const M: usize, T: View> View for Matrix<N, M, T> {
    type V = Seq<T::V>;

    closed spec fn view(&self) -> Seq<T::V> {
        views_of(self.data@)
    }
}

impl<const N: usize, const M: usize, T: View> Matrix<N, M, T> {
    /// The matrix with every entry equal to `value`.
    pub fn full(value: T) -> (r: Matrix<N, M, T>)
        where
            T: Zero,
        requires
            N * M <= usize::MAX,
        ensures
            r@ == Seq::new((N * M) as nat, |i: int| value@),
            T::valid(value@) && T::has_zero() ==> Self::valid(r@),
    {
        let len: usize = N * M;
        let mut data: Vec<T> = Vec::new();
        let mut i: usize = 0;
        while i < len
            invariant
                i <= len == N * M,
                data@.len() == i,
                forall|j: int| 0 <= j < i ==> #[trigger] data@[j]@ == value@,
            decreases len - i,
        {
            data.push(value.duplicate());
            i = i + 1;
        }
        let r = Matrix { data };
        assert(r@ =~= Seq::new((N * M) as nat, |i: int| value@));
        proof {
            if T::valid(value@) {
                assert(forall|j: int| 0 <= j < r@.len() ==> #[trigger] r@[j] == value@);
            }
        }
        r
    }

    /// The matrix with `value` on the main diagonal (positions `(i, i)`
    /// for `i < min(N, M)`) and zero elsewhere.
    pub fn eye(value: T) -> (r: Matrix<N, M, T>)
        where
            T: Zero,
        requires
            T::has_zero(),
            N * M <= usize::MAX,
        ensures
            r@ == eye_entries::<T>(value@, N as int, M as int),
            T::valid(value@) ==> Self::valid(r@),
    {
        let len: usize = N * M;
        let mut data: Vec<T> = Vec::new();
        let mut i: usize = 0;
        while i < len
            invariant
                i <= len == N * M,
                T::has_zero(),
                data@.len() == i,
                forall|j: int|
                    0 <= j < i ==> #[trigger] data@[j]@ == eye_entries::<T>(
                        value@,
                        N as int,
                        M as int,
                    )[j],
                T::valid(value@) ==> forall|j: int|
                    0 <= j < i ==> #[trigger] T::valid(data@[j]@),
            decreases len - i,
        {
            assert(M > 0) by (nonlinear_arith)
                requires
                    i < N * M,
            ;
            if i / M == i % M {
                data.push(value.duplicate());
            } else {
                data.push(T::zero());
            }
            i = i + 1;
        }
        let r = Matrix { data };
        assert(r@ =~= eye_entries::<T>(value@, N as int, M as int));
        r
    }

    /// The matrix whose entries, row by row, are `data`; fails unless
    /// `data` has exactly `N · M` elements.
    pub fn from_data(data: Vec<T>) -> (r: Result<Matrix<N, M, T>, AlgebraError>)
        ensures
            r is Ok <==> data@.len() == N * M,
            r matches Ok(m) ==> m@ == views_of(data@),
            r matches Err(e) ==> e == AlgebraError::ShapeMismatch,
    {
        let _ = data.len();
        match N.checked_mul(M) {
            Some(len) => {
                if len == data.len() {
                    Ok(Matrix { data })
                } else {
                    Err(AlgebraError::ShapeMismatch)
                }
            },
            None => Err(AlgebraError::ShapeMismatch),
        }
    }

    /// The entries, row by row.
    pub fn get_data(&self) -> (r: &Vec<T>)
        ensures
            views_of(r@) == self@,
    {
        &self.data
    }

    /// Replaces all entries, row by row, by `data`; fails, leaving the
    /// matrix as it was, unless `data` has exactly `N · M` elements.
    pub fn set_data(&mut self, data: Vec<T>) -> (r: Result<(), AlgebraError>)
        ensures
            r is Ok <==> data@.len() == N * M,
            r is Ok ==> final(self)@ == views_of(data@),
            r matches Err(e) ==> e == AlgebraError::ShapeMismatch && final(self)@ == old(self)@,
    {
        let _ = data.len();
        match N.checked_mul(M) {
            Some(len) => {
                if len == data.len() {
                    self.data = data;
                    Ok(())
                } else {
                    Err(AlgebraError::ShapeMismatch)
                }
            },
            None => Err(AlgebraError::ShapeMismatch),
        }
    }

    /// The entry at `(row, col)`; fails outside the matrix.
    pub fn get(&self, row: usize, col: usize) -> (r: Result<&T, AlgebraError>)
        requires
            self@.len() == N * M,
        ensures
            r is Ok <==> row < N && col < M,
            r matches Ok(v) ==> v@ == self@[row * M + col],
            r matches Err(e) ==> e == AlgebraError::OutOfBounds,
    {
        if row >= N || col >= M {
            return Err(AlgebraError::OutOfBounds);
        }
        let _ = self.data.len();
        assert(self.data@.len() == self@.len());
        proof {
            lemma_position_in_bounds(row as int, col as int, N as int, M as int);
        }
        Ok(&self.data[row * M + col])
    }

    /// Replaces the entry at `(row, col)` by `value`; fails outside the
    /// matrix, leaving it as it was.
    pub fn set(&mut self, row: usize, col: usize, value: T) -> (r: Result<(), AlgebraError>)
        requires
            old(self)@.len() == N * M,
        ensures
            r is Ok <==> row < N && col < M,
            r is Ok ==> final(self)@ == old(self)@.update(row * M + col, value@),
            r matches Err(e) ==> e == AlgebraError::OutOfBounds && final(self)@ == old(self)@,
    {
        if row >= N || col >= M {
            return Err(AlgebraError::OutOfBounds);
        }
        let _ = self.data.len();
        assert(self.data@.len() == self@.len());
        proof {
            lemma_position_in_bounds(row as int, col as int, N as int, M as int);
        }
        let ghost before = self@;
        self.data.set(row * M + col, value);
        assert(self@ =~= before.update(row * M + col, value@));
        Ok(())
    }
}


impl<const N: usize, const M: usize, T: Ring> Matrix<N, M, T> {
    /// The product of this `N × M` matrix by an `M × P` matrix: entry
    /// `(n, p)` is `Σ_m self[n, m] · rhs[m, p]`, summed in order of `m`.
    pub fn matmul<const P: usize>(&self, rhs: &Matrix<M, P, T>) -> (r: Matrix<N, P, T>)
        requires
            Self::valid(self@),
            Matrix::<M, P, T>::valid(rhs@),
            T::has_zero(),
            N * P <= usize::MAX,
        ensures
            r@ == matmul::<T>(self@, rhs@, N as int, M as int, P as int),
            Matrix::<N, P, T>::valid(r@),
    {
        let _ = self.data.len();
        let _ = rhs.data.len();
        assert(self.data@.len() == self@.len() && rhs.data@.len() == rhs@.len());
        let len: usize = N * P;
        let mut data: Vec<T> = Vec::new();
        let mut idx: usize = 0;
        while idx < len
            invariant
                idx <= len == N * P,
                N * M <= usize::MAX,
                M * P <= usize::MAX,
                Self::valid(self@),
                Matrix::<M, P, T>::valid(rhs@),
                T::has_zero(),
                data@.len() == idx,
                forall|j: int|
                    0 <= j < idx ==> #[trigger] data@[j]@ == matmul::<T>(
                        self@,
                        rhs@,
                        N as int,
                        M as int,
                        P as int,
                    )[j],
                forall|j: int| 0 <= j < idx ==> #[trigger] T::valid(data@[j]@),
            decreases len - idx,
        {
            assert(P > 0) by (nonlinear_arith)
                requires
                    idx < N * P,
            ;
            let row = idx / P;
            let col = idx % P;
            assert(row < N) by (nonlinear_arith)
                requires
                    idx < N * P,
                    row == idx / P,
                    P > 0,
            ;
            let mut acc = T::zero();
            let mut t: usize = 0;
            while t < M
                invariant
                    t <= M,
                    N * M <= usize::MAX,
                    M * P <= usize::MAX,
                    row < N,
                    col < P,
                    Self::valid(self@),
                    Matrix::<M, P, T>::valid(rhs@),
                    T::valid(acc@),
                    acc@ == dot::<T>(self@, rhs@, M as int, P as int, row as int, col as int, t as nat),
                decreases M - t,
            {
                proof {
                    lemma_position_in_bounds(row as int, t as int, N as int, M as int);
                    lemma_position_in_bounds(t as int, col as int, M as int, P as int);
                }
                assert(T::valid(self@[row * M + t]));
                assert(T::valid(rhs@[t * P + col]));
                let prod = self.data[row * M + t].mul(&rhs.data[t * P + col]);
                acc = acc.add(&prod);
                t = t + 1;
            }
            data.push(acc);
            idx = idx + 1;
        }
        let r = Matrix { data };
        assert(r@ =~= matmul::<T>(self@, rhs@, N as int, M as int, P as int));
        r
    }

    /// The entrywise sum.
    pub fn add(&self, o: &Matrix<N, M, T>) -> (r: Matrix<N, M, T>)
        requires
            Self::valid(self@),
            Self::valid(o@),
        ensures
            r@ == zip_add::<T>(self@, o@),
            Self::valid(r@),
    {
        let mut data: Vec<T> = Vec::new();
        let mut i: usize = 0;
        while i < self.data.len()
            invariant
                i <= self@.len(),
                Self::valid(self@),
                Self::valid(o@),
                data@.len() == i,
                forall|j: int| 0 <= j < i ==> #[trigger] data@[j]@ == T::add_spec(self@[j], o@[j]),
                forall|j: int| 0 <= j < i ==> #[trigger] T::valid(data@[j]@),
            decreases self@.len() - i,
        {
            assert(T::valid(self@[i as int]) && T::valid(o@[i as int]));
            data.push(self.data[i].add(&o.data[i]));
            i = i + 1;
        }
        let r = Matrix { data };
        assert(r@ =~= zip_add::<T>(self@, o@));
        r
    }

    /// Every entry negated.
    pub fn neg(&self) -> (r: Matrix<N, M, T>)
        requires
            Self::valid(self@),
        ensures
            r@ == map_neg::<T>(self@),
            Self::valid(r@),
    {
        let mut data: Vec<T> = Vec::new();
        let mut i: usize = 0;
        while i < self.data.len()
            invariant
                i <= self@.len(),
                Self::valid(self@),
                data@.len() == i,
                forall|j: int| 0 <= j < i ==> #[trigger] data@[j]@ == T::neg_spec(self@[j]),
                forall|j: int| 0 <= j < i ==> #[trigger] T::valid(data@[j]@),
            decreases self@.len() - i,
        {
            assert(T::valid(self@[i as int]));
            data.push(self.data[i].neg());
            i = i + 1;
        }
        let r = Matrix { data };
        assert(r@ =~= map_neg::<T>(self@));
        r
    }

    /// The entrywise difference.
    pub fn sub(&self, o: &Matrix<N, M, T>) -> (r: Matrix<N, M, T>)
        requires
            Self::valid(self@),
            Self::valid(o@),
        ensures
            r@ == zip_sub::<T>(self@, o@),
            Self::valid(r@),
    {
        let mut data: Vec<T> = Vec::new();
        let mut i: usize = 0;
        while i < self.data.len()
            invariant
                i <= self@.len(),
                Self::valid(self@),
                Self::valid(o@),
                data@.len() == i,
                forall|j: int| 0 <= j < i ==> #[trigger] data@[j]@ == T::sub_spec(self@[j], o@[j]),
                forall|j: int| 0 <= j < i ==> #[trigger] T::valid(data@[j]@),
            decreases self@.len() - i,
        {
            assert(T::valid(self@[i as int]) && T::valid(o@[i as int]));
            data.push(self.data[i].sub(&o.data[i]));
            i = i + 1;
        }
        let r = Matrix { data };
        assert(r@ =~= zip_sub::<T>(self@, o@));
        r
    }
}

impl<const N: usize, const M: usize, T: Ring> Matrix<N, M, T> {
    /// `self = self + rhs`, entrywise.
    pub fn add_assign(&mut self, rhs: Matrix<N, M, T>)
        requires
            Self::valid(old(self)@),
            Self::valid(rhs@),
        ensures
            final(self)@ == zip_add::<T>(old(self)@, rhs@),
            Self::valid(final(self)@),
    {
        *self = Matrix::add(&*self, &rhs);
    }

    /// `self = self - rhs`, entrywise.
    pub fn sub_assign(&mut self, rhs: Matrix<N, M, T>)
        requires
            Self::valid(old(self)@),
            Self::valid(rhs@),
        ensures
            final(self)@ == zip_sub::<T>(old(self)@, rhs@),
            Self::valid(final(self)@),
    {
        *self = Matrix::sub(&*self, &rhs);
    }
}

impl<const N: usize, T: Ring> Matrix<N, N, T> {
    /// `self = self · rhs`, the matrix product.
    pub fn mul_assign(&mut self, rhs: Matrix<N, N, T>)
        requires
            Self::valid(old(self)@),
            Self::valid(rhs@),
        ensures
            final(self)@ == matmul::<T>(old(self)@, rhs@, N as int, N as int, N as int),
            Self::valid(final(self)@),
    {
        *self = Ring::mul(&*self, &rhs);
    }
}

impl<const N: usize, const M: usize, E: Zero + Times<i32, E>> Matrix<N, M, E> {
    /// `self = self · s`, every entry multiplied by the integer `s`.
    pub fn scale_assign(&mut self, s: i32)
        requires
            Self::valid(old(self)@),
        ensures
            final(self)@ == map_times::<E>(old(self)@, s),
            Self::valid(final(self)@),
    {
        *self = self.scale(s);
    }
}

/// Entries come from a type with a zero: the product of matrices sums
/// from it.
impl<const N: usize, const M: usize, T: Zero> Carrier for Matrix<N, M, T> {
    open spec fn valid(v: Seq<T::V>) -> bool {
        &&& T::has_zero()
        &&& v.len() == N * M
        &&& forall|i: int| 0 <= i < v.len() ==> #[trigger] T::valid(v[i])
    }

    fn duplicate(&self) -> (r: Matrix<N, M, T>) {
        let mut data: Vec<T> = Vec::new();
        let mut i: usize = 0;
        while i < self.data.len()
            invariant
                i <= self@.len(),
                data@.len() == i,
                forall|j: int| 0 <= j < i ==> #[trigger] data@[j]@ == self@[j],
            decreases self@.len() - i,
        {
            data.push(self.data[i].duplicate());
            i = i + 1;
        }
        let r = Matrix { data };
        assert(r@ =~= self@);
        r
    }
}

/// The zero matrix: every entry zero.
impl<const N: usize, const M: usize, T: Zero> Zero for Matrix<N, M, T> {
    open spec fn has_zero() -> bool {
        T::has_zero() && N * M <= usize::MAX
    }

    open spec fn spec_zero() -> Seq<T::V> {
        Seq::new((N * M) as nat, |i: int| T::spec_zero())
    }

    /// An empty matrix is the zero matrix whatever its entries' type.
    open spec fn tests_zero() -> bool {
        T::tests_zero() || N * M == 0
    }

    fn zero() -> (r: Matrix<N, M, T>) {
        Self::full(T::zero())
    }

    fn is_zero(&self) -> (r: Result<bool, AlgebraError>) {
        let mut i: usize = 0;
        let mut all: bool = true;
        while i < self.data.len()
            invariant
                i <= self@.len() == N * M,
                Self::valid(self@),
                i > 0 ==> T::tests_zero(),
                all == (forall|j: int| 0 <= j < i ==> self@[j] == T::spec_zero()),
            decreases self@.len() - i,
        {
            assert(T::valid(self@[i as int]) && self.data@[i as int]@ == self@[i as int]);
            match self.data[i].is_zero() {
                Ok(z) => {
                    all = all && z;
                },
                Err(e) => {
                    return Err(e);
                },
            }
            i = i + 1;
        }
        assert(all == (self@ =~= Self::spec_zero()));
        Ok(all)
    }
}

/// The identity matrix: one on the diagonal, zero elsewhere.
impl<const N: usize, T: Zero + One> One for Matrix<N, N, T> {
    open spec fn has_one() -> bool {
        T::has_zero() && T::has_one() && N * N <= usize::MAX
    }

    open spec fn spec_one() -> Seq<T::V> {
        eye_entries::<T>(T::spec_one(), N as int, N as int)
    }

    /// Only the diagonal is asked for one, the rest for zero.
    open spec fn tests_one() -> bool {
        (T::tests_one() && (T::tests_zero() || N <= 1)) || N == 0
    }

    fn one() -> (r: Matrix<N, N, T>) {
        Self::eye(T::one())
    }

    fn is_one(&self) -> (r: Result<bool, AlgebraError>) {
        let mut i: usize = 0;
        let mut all: bool = true;
        while i < self.data.len()
            invariant
                i <= self@.len() == N * N,
                Self::valid(self@),
                i > 0 ==> T::tests_one(),
                i > 1 ==> T::tests_zero(),
                all == (forall|j: int| 0 <= j < i ==> self@[j] == Self::spec_one()[j]),
            decreases self@.len() - i,
        {
            assert(T::valid(self@[i as int]) && self.data@[i as int]@ == self@[i as int]);
            assert(N > 0) by (nonlinear_arith)
                requires
                    i < N * N,
            ;
            assert((i == 1 && N > 1 ==> i / N == 0 && i % N == 1) && (i == 0 ==> i / N == i % N)) by (nonlinear_arith)
                requires
                    N > 0,
            ;
            assert(Self::spec_one()[i as int] == if (i as int) / (N as int) == (i as int) % (
            N as int) {
                T::spec_one()
            } else {
                T::spec_zero()
            });
            let test = if i / N == i % N {
                self.data[i].is_one()
            } else {
                self.data[i].is_zero()
            };
            match test {
                Ok(z) => {
                    all = all && z;
                },
                Err(e) => {
                    return Err(e);
                },
            }
            i = i + 1;
        }
        assert(all == (self@ =~= Self::spec_one()));
        assert(N == 0 || N == 1 || N * N >= 2) by (nonlinear_arith);
        Ok(all)
    }
}

/// Square matrices: entrywise sums, products by `matmul`.
impl<const N: usize, T: Ring> Ring for Matrix<N, N, T> {
    open spec fn add_spec(a: Seq<T::V>, b: Seq<T::V>) -> Seq<T::V> {
        zip_add::<T>(a, b)
    }

    open spec fn neg_spec(a: Seq<T::V>) -> Seq<T::V> {
        map_neg::<T>(a)
    }

    open spec fn sub_spec(a: Seq<T::V>, b: Seq<T::V>) -> Seq<T::V> {
        zip_sub::<T>(a, b)
    }

    open spec fn mul_spec(a: Seq<T::V>, b: Seq<T::V>) -> Seq<T::V> {
        matmul::<T>(a, b, N as int, N as int, N as int)
    }

    fn add(&self, o: &Matrix<N, N, T>) -> (r: Matrix<N, N, T>) {
        Matrix::add(self, o)
    }

    fn neg(&self) -> (r: Matrix<N, N, T>) {
        Matrix::neg(self)
    }

    fn sub(&self, o: &Matrix<N, N, T>) -> (r: Matrix<N, N, T>) {
        Matrix::sub(self, o)
    }

    fn mul(&self, o: &Matrix<N, N, T>) -> (r: Matrix<N, N, T>) {
        let _ = self.data.len();
        assert(self.data@.len() == self@.len());
        self.matmul(o)
    }
}


impl<const N: usize, const M: usize, E: Zero + Times<i32, E>> Matrix<N, M, E> {
    /// Every entry multiplied on the right by the integer `s`.
    pub fn scale(&self, s: i32) -> (r: Matrix<N, M, E>)
        requires
            Self::valid(self@),
        ensures
            r@ == map_times::<E>(self@, s),
            Self::valid(r@),
    {
        let mut data: Vec<E> = Vec::new();
        let mut i: usize = 0;
        while i < self.data.len()
            invariant
                i <= self@.len(),
                Self::valid(self@),
                data@.len() == i,
                forall|j: int| 0 <= j < i ==> #[trigger] data@[j]@ == E::times_spec(self@[j], s),
                forall|j: int| 0 <= j < i ==> #[trigger] E::valid(data@[j]@),
            decreases self@.len() - i,
        {
            assert(E::valid(self@[i as int]) && self.data@[i as int]@ == self@[i as int]);
            data.push(self.data[i].times(&s));
            i = i + 1;
        }
        let r = Matrix { data };
        assert(r@ =~= map_times::<E>(self@, s));
        r
    }
}

/// A matrix times an integer on its right.
impl<const N: usize, const M: usize, E: Zero + Times<i32, E>> Times<i32, Matrix<N, M, E>> for Matrix<
    N,
    M,
    E,
> {
    open spec fn times_spec(a: Seq<E::V>, s: i32) -> Seq<E::V> {
        map_times::<E>(a, s)
    }

    fn times(&self, s: &i32) -> (o: Matrix<N, M, E>) {
        self.scale(*s)
    }
}

/// An integer times a matrix: each entry is multiplied by the integer
/// (entry on the left), as for a matrix times an integer.
impl<const N: usize, const M: usize, E: Zero + Times<i32, E>> Times<Matrix<N, M, E>, Matrix<N, M, E>> for i32 {
    open spec fn times_spec(s: i32, a: Seq<E::V>) -> Seq<E::V> {
        map_times::<E>(a, s)
    }

    fn times(&self, a: &Matrix<N, M, E>) -> (o: Matrix<N, M, E>) {
        a.scale(*self)
    }
}


/// Adding the zero matrix changes nothing, entry by entry.
impl<const N: usize, T: AddIdentity> AddIdentity for Matrix<N, N, T> {
    proof fn lemma_add_zero(a: Seq<T::V>) {
        assert forall|i: int| 0 <= i < a.len() implies #[trigger] T::add_spec(
            a[i],
            T::spec_zero(),
        ) == a[i] by {
            T::lemma_add_zero(a[i]);
        }
        assert(zip_add::<T>(a, Self::spec_zero()) =~= a);
    }

    proof fn lemma_add_closed(a: Seq<T::V>, b: Seq<T::V>) {
        assert forall|i: int| 0 <= i < a.len() implies #[trigger] T::valid(
            zip_add::<T>(a, b)[i],
        ) by {
            T::lemma_add_closed(a[i], b[i]);
        }
    }
}


/// Position `r · n + c` of an `n`-column matrix is row `r`, column `c`.
proof fn lemma_row_col(r: int, c: int, n: int)
    requires
        0 <= r,
        0 <= c < n,
    ensures
        (r * n + c) / n == r,
        (r * n + c) % n == c,
{
    vstd::arithmetic::div_mod::lemma_fundamental_div_mod_converse(r * n + c, n, r, c);
}

proof fn lemma_dot_identity_right<T: RingLaws>(a: Seq<T::V>, n: int, r: int, c: int, len: nat)
    requires
        0 <= r < n,
        0 <= c < n,
        len <= n,
        a.len() == n * n,
        forall|i: int| 0 <= i < a.len() ==> #[trigger] T::valid(a[i]),
        T::has_zero(),
        T::has_one(),
    ensures
        dot::<T>(a, eye_entries::<T>(T::spec_one(), n, n), n, n, r, c, len) == if c < len {
            a[r * n + c]
        } else {
            T::spec_zero()
        },
    decreases len,
{
    let e = eye_entries::<T>(T::spec_one(), n, n);
    if len > 0 {
        let k = len - 1;
        lemma_dot_identity_right::<T>(a, n, r, c, k as nat);
        lemma_row_col(k, c, n);
        lemma_row_col(r, k, n);
        lemma_position_in_bounds(k, c, n, n);
        lemma_position_in_bounds(r, k, n, n);
        let x = a[r * n + k];
        lemma_position_in_bounds(r, c, n, n);
        T::lemma_zero_valid();
        if k == c {
            assert(e[k * n + c] == T::spec_one());
            T::lemma_mul_one(x);
            T::lemma_zero_add(x);
        } else {
            assert(e[k * n + c] == T::spec_zero());
            T::lemma_mul_zero(x);
            if c < k {
                T::lemma_add_zero(a[r * n + c]);
            } else {
                T::lemma_add_zero(T::spec_zero());
            }
        }
    }
}

proof fn lemma_dot_identity_left<T: RingLaws>(a: Seq<T::V>, n: int, r: int, c: int, len: nat)
    requires
        0 <= r < n,
        0 <= c < n,
        len <= n,
        a.len() == n * n,
        forall|i: int| 0 <= i < a.len() ==> #[trigger] T::valid(a[i]),
        T::has_zero(),
        T::has_one(),
    ensures
        dot::<T>(eye_entries::<T>(T::spec_one(), n, n), a, n, n, r, c, len) == if r < len {
            a[r * n + c]
        } else {
            T::spec_zero()
        },
    decreases len,
{
    let e = eye_entries::<T>(T::spec_one(), n, n);
    if len > 0 {
        let k = len - 1;
        lemma_dot_identity_left::<T>(a, n, r, c, k as nat);
        lemma_row_col(r, k, n);
        lemma_row_col(k, c, n);
        lemma_position_in_bounds(k, c, n, n);
        lemma_position_in_bounds(r, k, n, n);
        let x = a[k * n + c];
        lemma_position_in_bounds(r, c, n, n);
        T::lemma_zero_valid();
        if k == r {
            assert(e[r * n + k] == T::spec_one());
            T::lemma_mul_one(x);
            T::lemma_zero_add(x);
        } else {
            assert(e[r * n + k] == T::spec_zero());
            T::lemma_mul_zero(x);
            if r < k {
                T::lemma_add_zero(a[r * n + c]);
            } else {
                T::lemma_add_zero(T::spec_zero());
            }
        }
    }
}

/// The identity matrix is a two-sided identity of the matrix product.
pub proof fn lemma_matrix_mul_one<const N: usize, T: RingLaws>(a: Seq<T::V>)
    requires
        Matrix::<N, N, T>::valid(a),
        Matrix::<N, N, T>::has_one(),
    ensures
        Matrix::<N, N, T>::mul_spec(a, Matrix::<N, N, T>::spec_one()) == a,
        Matrix::<N, N, T>::mul_spec(Matrix::<N, N, T>::spec_one(), a) == a,
{
    let n = N as int;
    let one = Matrix::<N, N, T>::spec_one();
    assert forall|idx: int| 0 <= idx < a.len() implies #[trigger] matmul::<T>(a, one, n, n, n)[idx]
        == a[idx] && matmul::<T>(one, a, n, n, n)[idx] == a[idx] by {
        assert(n > 0) by (nonlinear_arith)
            requires
                0 <= idx < n * n,
                n >= 0,
        ;
        let (r, c) = (idx / n, idx % n);
        vstd::arithmetic::div_mod::lemma_fundamental_div_mod(idx, n);
        assert(r < n) by (nonlinear_arith)
            requires
                idx < n * n,
                r == idx / n,
                n > 0,
        ;
        assert(0 <= r) by (nonlinear_arith)
            requires
                idx >= 0,
                r == idx / n,
                n > 0,
        ;
        lemma_dot_identity_right::<T>(a, n, r, c, n as nat);
        lemma_dot_identity_left::<T>(a, n, r, c, n as nat);
        assert(r * n + c == idx) by (nonlinear_arith)
            requires
                idx == n * r + c,
        ;
    }
    assert(matmul::<T>(a, one, n, n, n) =~= a);
    assert(matmul::<T>(one, a, n, n, n) =~= a);
}

} // verus!
