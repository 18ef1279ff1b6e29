use polylib::custom_types::Matrix;
use polylib::{AlgebraError, One, Ring, Times, Zero};

type M12 = Matrix<1, 2, i32>;
type M21 = Matrix<2, 1, i32>;
type M22 = Matrix<2, 2, i32>;

fn m22(v: Vec<i32>) -> M22 {
    M22::from_data(v).unwrap()
}

#[test]
fn test_full() {
    let m = M22::full(12);
    assert_eq!(m.get_data(), &vec![12, 12, 12, 12]);

    let m = M12::full(-2);
    assert_eq!(m.get_data(), &vec![-2, -2]);

    let m = M21::full(0);
    assert_eq!(m.get_data(), &vec![0, 0]);
}

#[test]
fn test_eye() {
    let m = M22::eye(1);
    assert_eq!(m.get_data(), &vec![1, 0, 0, 1]);

    let m = M12::eye(-1);
    assert_eq!(m.get_data(), &vec![-1, 0]);

    let m = M21::eye(0);
    assert_eq!(m.get_data(), &vec![0, 0]);

    let m = Matrix::<2, 3, i32>::eye(-2);
    assert_eq!(m.get_data(), &vec![-2, 0, 0, 0, -2, 0]);

    let m = Matrix::<3, 2, i32>::eye(-2);
    assert_eq!(m.get_data(), &vec![-2, 0, 0, -2, 0, 0])
}

#[test]
fn test_from_data() {
    let m = M22::from_data(vec![1, 2, 3, 4]).unwrap();
    assert_eq!(m.get_data(), &vec![1, 2, 3, 4]);

    let m = M12::from_data(vec![1, 2]).unwrap();
    assert_eq!(m.get_data(), &vec![1, 2]);

    let m = M21::from_data(vec![1, 2]).unwrap();
    assert_eq!(m.get_data(), &vec![1, 2]);

    M22::from_data(vec![1, 2]).expect_err("incorrect size of m");
    M22::from_data(vec![1, 2, 3, 4, 5]).expect_err("incorrect size of m");
    M12::from_data(vec![1, 2, 3, 4]).expect_err("incorrect size of m");
    assert_eq!(M22::from_data(vec![1, 2, 3, 4, 5]).err(), Some(AlgebraError::ShapeMismatch));
}

#[test]
fn test_get_data() {
    let m = M22::from_data(vec![1, 2, 3, 4]).unwrap();
    assert_eq!(m.get_data(), &vec![1, 2, 3, 4]);

    let m = M12::from_data(vec![1, 2]).unwrap();
    assert_eq!(m.get_data(), &vec![1, 2]);

    let m = M21::from_data(vec![1, 2]).unwrap();
    assert_eq!(m.get_data(), &vec![1, 2]);
}

#[test]
fn test_set_data() {
    let mut m = m22(vec![1, 2, 3, 4]);
    assert_eq!(m.get_data(), &vec![1, 2, 3, 4]);
    m.set_data(vec![4, 3, 2, 1]).unwrap();
    assert_eq!(m.get_data(), &vec![4, 3, 2, 1]);

    let mut m = M12::from_data(vec![1, 2]).unwrap();
    assert_eq!(m.get_data(), &vec![1, 2]);
    m.set_data(vec![2, 1]).unwrap();
    assert_eq!(m.get_data(), &vec![2, 1]);

    let mut m = m22(vec![1, 2, 3, 4]);
    m.set_data(vec![1, 2]).expect_err("incorrect size of set");
    assert_eq!(m.get_data(), &vec![1, 2, 3, 4]);

    let mut m = m22(vec![1, 2, 3, 4]);
    m.set_data(vec![1, 2, 3, 4, 5]).expect_err("incorrect size of set");

    let mut m = M12::from_data(vec![1, 2]).unwrap();
    m.set_data(vec![1, 2, 3, 4]).expect_err("incorrect size of set");
}

#[test]
fn test_get_index() {
    let m = m22(vec![1, 2, 3, 4]);
    assert_eq!(*m.get(0, 0).unwrap(), 1);
    assert_eq!(*m.get(0, 1).unwrap(), 2);
    assert_eq!(*m.get(1, 0).unwrap(), 3);
    assert_eq!(*m.get(1, 1).unwrap(), 4);

    m.get(2, 0).expect_err("index out of bounds");
    m.get(3, 0).expect_err("index out of bounds");
    m.get(0, 2).expect_err("index out of bounds");
    m.get(0, 3).expect_err("index out of bounds");
    assert_eq!(m.get(2, 0).err(), Some(AlgebraError::OutOfBounds));

    let m = M12::from_data(vec![1, 2]).unwrap();
    assert_eq!(*m.get(0, 0).unwrap(), 1);
    assert_eq!(*m.get(0, 1).unwrap(), 2);

    let m = M21::from_data(vec![1, 2]).unwrap();
    assert_eq!(*m.get(0, 0).unwrap(), 1);
    assert_eq!(*m.get(1, 0).unwrap(), 2);
}

#[test]
fn test_set_index() {
    let mut m = m22(vec![1, 2, 3, 4]);
    assert_eq!(m.get_data(), &vec![1, 2, 3, 4]);
    m.set(0, 0, 5).unwrap();
    assert_eq!(m.get_data(), &vec![5, 2, 3, 4]);
    m.set(1, 0, 6).unwrap();
    assert_eq!(m.get_data(), &vec![5, 2, 6, 4]);
    m.set(1, 1, 7).unwrap();
    assert_eq!(m.get_data(), &vec![5, 2, 6, 7]);
    m.set(0, 1, 8).unwrap();
    assert_eq!(m.get_data(), &vec![5, 8, 6, 7]);

    m.set(2, 0, 5).expect_err("index out of bounds");
    m.set(3, 0, 5).expect_err("index out of bounds");
    m.set(0, 2, 5).expect_err("index out of bounds");
    m.set(0, 3, 5).expect_err("index out of bounds");
    assert_eq!(m.get_data(), &vec![5, 8, 6, 7]);

    let mut m = M12::from_data(vec![1, 2]).unwrap();
    m.set(0, 1, 3).unwrap();
    assert_eq!(m.get_data(), &vec![1, 3]);
    m.set(0, 0, 4).unwrap();
    assert_eq!(m.get_data(), &vec![4, 3]);

    let mut m = M21::from_data(vec![1, 2]).unwrap();
    m.set(1, 0, 3).unwrap();
    assert_eq!(m.get_data(), &vec![1, 3]);
    m.set(0, 0, 4).unwrap();
    assert_eq!(m.get_data(), &vec![4, 3]);
}

#[test]
fn matrix_test_add() {
    let a = m22(vec![1, 2, 3, 4]);
    let b = m22(vec![3, -5, 2, 0]);
    assert_eq!(a.add(&b).get_data(), &vec![4, -3, 5, 4]);

    let a = M12::from_data(vec![1, 2]).unwrap();
    let b = M12::from_data(vec![3, -2]).unwrap();
    assert_eq!(a.add(&b).get_data(), &vec![4, 0]);

    let a = M21::from_data(vec![1, 2]).unwrap();
    let b = M21::from_data(vec![3, -2]).unwrap();
    assert_eq!(a.add(&b).get_data(), &vec![4, 0]);

    let a = M21::from_data(vec![1, 2]).unwrap();
    let b = M21::from_data(vec![-1, 2]).unwrap();
    assert_eq!(a.add(&b).get_data(), &vec![0, 4]);
}

#[test]
fn matrix_test_neg() {
    let a = m22(vec![1, 2, 3, 0]);
    assert_eq!(a.neg().get_data(), &vec![-1, -2, -3, 0]);

    let a = M12::from_data(vec![0, -1]).unwrap();
    assert_eq!(a.neg().get_data(), &vec![0, 1]);
}

#[test]
fn matrix_test_sub() {
    let a = m22(vec![1, 2, 3, 4]);
    let b = m22(vec![3, -5, 2, 0]);
    assert_eq!(a.sub(&b).get_data(), &vec![-2, 7, 1, 4]);

    let a = M12::from_data(vec![1, 2]).unwrap();
    let b = M12::from_data(vec![3, -2]).unwrap();
    assert_eq!(a.sub(&b).get_data(), &vec![-2, 4]);

    let a = M21::from_data(vec![1, 2]).unwrap();
    let b = M21::from_data(vec![3, -2]).unwrap();
    assert_eq!(a.sub(&b).get_data(), &vec![-2, 4]);

    let a = M21::from_data(vec![1, 2]).unwrap();
    let b = M21::from_data(vec![-1, 2]).unwrap();
    assert_eq!(a.sub(&b).get_data(), &vec![2, 0]);
}

#[test]
fn matrix_test_mul() {
    let a = m22(vec![1, 2, 3, 4]);
    let b = m22(vec![3, -5, 2, 0]);
    assert_eq!(Ring::mul(&a, &b).get_data(), &vec![7, -5, 17, -15]);
    assert_eq!(a.matmul(&b).get_data(), &vec![7, -5, 17, -15]);

    let a = M12::from_data(vec![1, 2]).unwrap();
    let b = M21::from_data(vec![3, 4]).unwrap();

    let c = a.matmul(&b);
    assert_eq!(c.get_data(), &vec![11]);

    let c = b.matmul(&a);
    assert_eq!(c.get_data(), &vec![3, 6, 4, 8]);
}

#[test]
fn test_scalar_mul() {
    let a = m22(vec![1, 2, 3, 4]);
    assert_eq!(a.scale(-3).get_data(), &vec![-3, -6, -9, -12]);

    let a = M12::from_data(vec![1, 2]).unwrap();
    assert_eq!(a.scale(-3).get_data(), &vec![-3, -6]);

    let a = M21::from_data(vec![1, 2]).unwrap();
    assert_eq!(a.scale(-3).get_data(), &vec![-3, -6]);
}

#[test]
fn matrix_test_zero() {
    let a = M22::zero();
    assert_eq!(a.get_data(), &vec![0; 4]);

    let a = Matrix::<100, 200, i32>::zero();
    assert_eq!(a.get_data(), &vec![0; 20_000]);
}

#[test]
fn matrix_test_one() {
    let a = M22::one();
    assert_eq!(a.get_data(), &vec![1, 0, 0, 1]);

    let a = Matrix::<1, 1, i32>::one();
    assert_eq!(a.get_data(), &vec![1]);
}

#[test]
fn matrix_identity_membership() {
    assert_eq!(M22::zero().is_zero(), Ok(true));
    assert_eq!(m22(vec![0, 0, 1, 0]).is_zero(), Ok(false));
    assert_eq!(M22::one().is_one(), Ok(true));
    assert_eq!(m22(vec![1, 0, 0, 2]).is_one(), Ok(false));
    assert_eq!(m22(vec![1, 1, 0, 1]).is_one(), Ok(false));
}

#[test]
fn matrix_shape_failures() {
    assert!(M22::from_data(vec![1, 2, 3, 4, 5]).is_err());
    let m = m22(vec![1, 2, 3, 4]);
    assert_eq!(m.get(2, 0).err(), Some(AlgebraError::OutOfBounds));
}

#[test]
fn integer_times_matrix() {
    let a = m22(vec![1, 2, 3, 4]);
    let r: M22 = 2i32.times(&a);
    assert_eq!(r.get_data(), &vec![2, 4, 6, 8]);
    let r: M22 = a.times(&-1i32);
    assert_eq!(r.get_data(), &vec![-1, -2, -3, -4]);
}

#[test]
fn identity_matrix_is_neutral() {
    let a = m22(vec![3, -1, 4, 1]);
    assert_eq!(a.mul(&M22::one()).get_data(), &vec![3, -1, 4, 1]);
    assert_eq!(M22::one().mul(&a).get_data(), &vec![3, -1, 4, 1]);
    assert_eq!(a.add(&M22::zero()).get_data(), &vec![3, -1, 4, 1]);
}
