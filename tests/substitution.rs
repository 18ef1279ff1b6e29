use polylib::custom_types::{Matrix, Zn};
use polylib::polynom::{Polynomial, X};
use polylib::{Carrier, Ring};

type Poly = Polynomial<i32, X<i32>>;

fn matrix_check<const N: usize>(poly: Poly, input: Vec<Matrix<N, N, i32>>, expect: Vec<Matrix<N, N, i32>>) {
    assert_eq!(input.len(), expect.len(), "bad test: different sizes of x, ans");
    for i in 0..input.len() {
        let actual: Matrix<N, N, i32> = poly.substitude(input[i].duplicate());
        assert_eq!(actual.get_data(), expect[i].get_data(), "incorrect substitution at {}", i);
    }
}

#[test]
fn test_diagonal_matrix() {
    type Type = Matrix<3, 3, i32>;
    let x = X::<i32>::default();
    let poly = x.pow(3).add(x.pow(1)).add_value(1);

    let input = vec![Type::eye(-2), Type::eye(-1), Type::eye(0), Type::eye(1), Type::eye(2)];
    let expect = vec![Type::eye(-9), Type::eye(-1), Type::eye(1), Type::eye(3), Type::eye(11)];

    matrix_check(poly, input, expect);
}

#[test]
fn test_test_funny_matrix() {
    type Type = Matrix<2, 2, i32>;
    let poly = Poly::from_coefs(vec![2, 3, 4, 5, 6, 7]);

    let input = vec![Type::from_data(vec![0, 1, 1, 0]).unwrap()];
    let expect = vec![Type::from_data(vec![12, 15, 15, 12]).unwrap()];

    matrix_check(poly, input, expect);
}

#[test]
fn test_nilpotent_matrix() {
    type Type = Matrix<3, 3, i32>;
    let x = X::<i32>::default();
    let poly = x.pow(1000).add(x.pow(1));

    let input = vec![Type::from_data(vec![0, 0, 0, 0, 0, 0, 1, 1, 0]).unwrap()];
    let expect = vec![Type::from_data(vec![0, 0, 0, 0, 0, 0, 1, 1, 0]).unwrap()];

    matrix_check(poly, input, expect);
}

#[test]
fn nilpotent_matrix_reverse_substitution() {
    type Type = Matrix<3, 3, i32>;
    let x = X::<i32>::default();
    let poly = x.pow(1000).add(x.pow(1));
    let m = Type::from_data(vec![0, 0, 0, 0, 0, 0, 1, 1, 0]).unwrap();
    let r: Type = poly.rsubstitude(m);
    assert_eq!(r.get_data(), &vec![0, 0, 0, 0, 0, 0, 1, 1, 0]);
}

#[test]
fn test_zn() {
    type TestType = Zn<3>;
    type ZPoly = Polynomial<TestType, X<TestType>>;
    let coef = vec![TestType::new(1), TestType::new(4), TestType::new(6), TestType::new(7)];
    let poly = ZPoly::from_coefs(coef.clone());
    let reduced = poly.duplicate().reduce();
    assert_eq!(reduced.len(), 3);
    assert_eq!(reduced.get(0), Some(&TestType::new(1)));
    assert_eq!(reduced.get(1), Some(&TestType::new(1)));
    assert_eq!(reduced.get(2), None);
    assert_eq!(reduced.get(3), Some(&TestType::new(1)));

    let points = vec![TestType::new(0), TestType::new(1), TestType::new(2)];
    let answers = vec![TestType::new(1), TestType::new(0), TestType::new(2)];
    for i in 0..points.len() {
        let actual: TestType = poly.substitude(points[i]);
        assert_eq!(actual, answers[i]);
    }
}

#[test]
fn test_calcs_are_fast() {
    type Inner = Zn<9_999>;
    type Type = Matrix<5, 5, Inner>;

    let x = X::<i32>::default();
    let poly = x
        .pow(2_000_000_000)
        .scale(23)
        .add(x.pow(1_321_654).scale(5))
        .add(x.pow(1337).scale(7))
        .add(x.pow(228));

    let mut input_data = Vec::<Inner>::new();
    for i in 1..=25 {
        input_data.push(Inner::new(i));
    }
    let input = Type::from_data(input_data).unwrap();

    let _: Type = poly.substitude(input);
}

#[test]
fn power_of_zero_is_one() {
    let x = X::<i32>::default();
    let p = x.pow(0);
    let at_zero: i32 = p.substitude(0);
    assert_eq!(at_zero, 1);
    let m: Matrix<2, 2, i32> = p.substitude(Matrix::<2, 2, i32>::full(0));
    assert_eq!(m.get_data(), &vec![1, 0, 0, 1]);
}

#[test]
fn matrix_power_by_squaring() {
    let x = X::<i32>::default();
    let fib = Matrix::<2, 2, i32>::from_data(vec![1, 1, 1, 0]).unwrap();
    let r: Matrix<2, 2, i32> = x.pow(10).substitude(fib.duplicate());
    assert_eq!(r.get_data(), &vec![89, 55, 55, 34]);
    let sq = fib.mul(&fib);
    assert_eq!(sq.get_data(), &vec![2, 1, 1, 1]);
}
