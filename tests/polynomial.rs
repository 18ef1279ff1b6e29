use std::fmt::Debug;

use polylib::polynom::{Polynomial, X, Y};
use polylib::{Carrier, One, Ring, Times, Zero};

type TestType = i32;
type Poly = Polynomial<TestType, X<TestType>>;

/// After reduction, `poly` has exactly the non-zero coefficients of `coef`.
fn same_coef<T, U>(poly: Polynomial<T, U>, coef: Vec<T>)
where
    T: Ring + PartialEq + Debug,
{
    let poly = poly.reduce();
    let mut need_coef = 0;
    for i in 0..coef.len() {
        if coef[i].is_zero() == Ok(true) {
            continue;
        }
        need_coef += 1;
        match poly.get(i as u32) {
            None => panic!("poly is expected to have coef {} equal to {:?}", i, coef[i]),
            Some(val) => assert_eq!(val, &coef[i], "poly has bad coef {}", i),
        }
    }
    assert_eq!(need_coef, poly.len(), "poly is expected to have {} non zero coefs", need_coef);
}

fn expect_substitution<T, U>(poly: Polynomial<T, U>, x: Vec<i32>, ans: Vec<i32>)
where
    T: Times<i32, i32>,
{
    assert_eq!(x.len(), ans.len(), "bad test: different sizes of x, ans");
    for i in 0..x.len() {
        let actual: i32 = poly.substitude(x[i]);
        assert_eq!(ans[i], actual, "incorrect substitution, x = {}", x[i]);
    }
}

#[test]
fn test_const() {
    let c = Poly::new_const(0);
    same_coef(c, vec![0]);

    let c = Poly::new_const(1);
    same_coef(c, vec![1]);

    let c = Poly::new_const(-1);
    same_coef(c, vec![-1]);
}

#[test]
fn test_from_coefs() {
    let c = Poly::from_coefs(vec![0, 0, 0]);
    assert_eq!(c.len(), 0);

    let c = Poly::from_coefs(vec![3, 0, 1, 2]);
    assert_eq!(c.get(0).expect("coef 0 should be 3").clone(), 3);
    assert_eq!(c.get(2).expect("coef 2 should be 1").clone(), 1);
    assert_eq!(c.get(3).expect("coef 3 should be 2").clone(), 2);

    assert!(c.get(1).is_none(), "coef 1 should be None");
    assert!(c.get(4).is_none(), "coef 4 should be None");
}

#[test]
fn test_const_add() {
    let c = Poly::new_const(0);
    let c = c.add_value(32);
    same_coef(c, vec![32]);

    let c = Poly::from_coefs(vec![0, 2, 3]);
    let c = c.add_value(32);
    same_coef(c, vec![32, 2, 3]);

    let c = Poly::from_coefs(vec![1, 2]);
    let c = c.add_value(32);
    same_coef(c, vec![33, 2]);

    let c = Poly::from_coefs(vec![1, 2]);
    let c = c.add_value(-32);
    same_coef(c, vec![-31, 2]);
}

#[test]
fn test_i32_test_add() {
    let a = Poly::from_coefs(vec![1, 1]);
    let b = Poly::from_coefs(vec![2, 3]);
    same_coef(a.add(b), vec![3, 4]);

    let a = Poly::from_coefs(vec![0, 1, 1]);
    let b = Poly::from_coefs(vec![2, 3]);
    same_coef(a.add(b), vec![2, 4, 1]);

    let a = Poly::from_coefs(vec![1]);
    let b = Poly::from_coefs(vec![0, 1]);
    same_coef(a.add(b), vec![1, 1]);
}

#[test]
fn test_i32_test_zero() {
    let zero = Poly::zero();
    same_coef(zero, vec![]);

    let a = Poly::from_coefs(vec![1, 0, 1]);
    same_coef(a.duplicate().add(Poly::zero()), vec![1, 0, 1]);
    same_coef(Poly::zero().add(a), vec![1, 0, 1]);

    let a = Poly::from_coefs(vec![0, 2]);
    same_coef(a.duplicate().add(Poly::zero()), vec![0, 2]);
    same_coef(Poly::zero().add(a), vec![0, 2]);

    same_coef(Poly::zero().add(Poly::zero()), vec![0]);
}

#[test]
fn test_const_sub() {
    let c = Poly::from_coefs(vec![5, 5, 5]);
    same_coef(c.sub_value(3), vec![2, 5, 5]);

    let c = Poly::from_coefs(vec![5, 5, 5]);
    same_coef(c.sub_value(7), vec![-2, 5, 5]);

    let c = Poly::from_coefs(vec![0, 1]);
    same_coef(c.sub_value(1), vec![-1, 1]);
}

#[test]
fn test_i32_test_sub() {
    let a = Poly::from_coefs(vec![5, 5, 5]);
    let b = Poly::from_coefs(vec![2, 0, 7]);
    same_coef(a.sub(b), vec![3, 5, -2]);

    let a = Poly::from_coefs(vec![1, 0, 0, 1]);
    let b = Poly::from_coefs(vec![1, 7]);
    same_coef(a.sub(b), vec![0, -7, 0, 1]);

    let a = Poly::from_coefs(vec![1, 7]);
    let b = Poly::from_coefs(vec![1, 0, 0, 1]);
    same_coef(a.sub(b), vec![0, 7, 0, -1]);
}

#[test]
fn test_i32_test_neg() {
    let a = Poly::from_coefs(vec![1, 0, -1]);
    same_coef(a.negate(), vec![-1, 0, 1]);

    let a = Poly::from_coefs(vec![0]);
    same_coef(a.negate(), vec![0]);
}

#[test]
fn test_const_mul() {
    let a = Poly::from_coefs(vec![2, 1, 0, -2]);
    same_coef(a.duplicate().scale(3), vec![6, 3, 0, -6]);
    same_coef(a.duplicate().scale(1), vec![2, 1, 0, -2]);
    same_coef(a.duplicate().scale(-1), vec![-2, -1, 0, 2]);
    same_coef(a.scale(0), vec![0]);

    let a = Poly::from_coefs(vec![0]);
    same_coef(a.duplicate().scale(3), vec![0]);
    same_coef(a.duplicate().scale(1), vec![0]);
    same_coef(a.duplicate().scale(-1), vec![0]);
    same_coef(a.scale(0), vec![0]);
}

#[test]
fn test_i32_test_mul() {
    let a = Poly::from_coefs(vec![2, 1, 0, -2]);
    let b = Poly::from_coefs(vec![3]);
    same_coef(a.mul(b), vec![6, 3, 0, -6]);

    let a = Poly::from_coefs(vec![1, 1]);
    let b = Poly::from_coefs(vec![-1, 1]);
    same_coef(a.mul(b), vec![-1, 0, 1]);

    let a = Poly::from_coefs(vec![1, 0, 0, 2, 0, 0]);
    let b = Poly::from_coefs(vec![2, 0, -1]);
    same_coef(a.mul(b), vec![2, 0, -1, 4, 0, -2]);
}

#[test]
fn test_i32_test_one() {
    let one = Poly::one();
    same_coef(one, vec![1]);

    let a = Poly::from_coefs(vec![3, -2, 0, 1]);
    same_coef(a.duplicate().mul(Poly::one()), vec![3, -2, 0, 1]);
    same_coef(Poly::one().mul(a.duplicate()), vec![3, -2, 0, 1]);

    let a = Poly::from_coefs(vec![0]);
    same_coef(a.duplicate().mul(Poly::one()), vec![0]);
    same_coef(Poly::one().mul(a.duplicate()), vec![0]);

    same_coef(Poly::one().mul(Poly::one()), vec![1]);
}

#[test]
fn test_pow() {
    let a = Poly::from_coefs(vec![2]);
    same_coef(a.pow(10), vec![1024]);

    let a = Poly::from_coefs(vec![0, -1]);
    same_coef(a.pow(3), vec![0, 0, 0, -1]);

    let a = Poly::from_coefs(vec![-1, 1]);
    same_coef(a.duplicate().pow(3), vec![-1, 3, -3, 1]);
    same_coef(a.duplicate().pow(1), vec![-1, 1]);
    same_coef(a.pow(0), vec![1]);
}

#[test]
fn substitude_i32() {
    let simple = Poly::from_coefs(vec![1]);
    expect_substitution(simple, vec![-2, -1, 0, 1, 2], vec![1, 1, 1, 1, 1]);

    let a = Poly::from_coefs(vec![0, 1, 1]);
    expect_substitution(a, vec![-2, -1, 0, 1, 2], vec![2, 0, 0, 2, 6]);

    let a = Poly::from_coefs(vec![1, 0, 1]);
    expect_substitution(a, vec![-2, -1, 0, 1, 2], vec![5, 2, 1, 2, 5]);
}

#[test]
fn substitude_poly() {
    type PolyX = Polynomial<i32, X<i32>>;
    type PolyY = Polynomial<i32, Y<i32>>;

    let x_poly = PolyX::from_coefs(vec![0, 1, 1]);
    let y_poly = PolyY::from_coefs(vec![1, 0, 1]);

    // (1 + y^2) + (1 + y^2)^2
    let xy: PolyY = x_poly.rsubstitude(y_poly.duplicate());
    same_coef(xy, vec![2, 0, 3, 0, 1]);

    // 1 + (x + x^2)^2
    let yx: PolyX = y_poly.rsubstitude(x_poly);
    same_coef(yx, vec![1, 0, 1, 2, 1]);
}

#[test]
fn test_gc() {
    let x = X::<i32>::default();
    let c = Poly::from_coefs(vec![1, 1]);
    let c = c.add(x.pow(1));
    assert_eq!(c.get(1).expect("has coef x").clone(), 1, "perhaps, gc was called");
    let at_one: i32 = c.substitude(1);
    assert_eq!(at_one, 3, "(1 + x + x) where x = 1 is 3");
    let c = c.reduce();
    assert_eq!(
        c.get(1).expect("has coef x").clone(),
        2,
        "(1 + x + x) should transform into (1 + 2x)"
    );
}

#[test]
fn test_build() {
    let x = X::<i32>::default();
    let poly = Poly::default().add_value(1).add(x.pow(2).scale(3)).sub(x.pow(1)).add_value(8);
    same_coef(poly, vec![9, -1, 3]);
}

#[test]
fn reduction_collapses_cancelling_terms() {
    let x = X::<i32>::default();
    // 2x^2 + 1 - 1 - x^2 - x^2 + 1
    let p = x.pow(2).scale(2).add_value(1).sub_value(1).sub(x.pow(2)).sub(x.pow(2)).add_value(1);
    assert_eq!(p.len(), 6);
    let p = p.reduce();
    assert_eq!(p.len(), 1);
    assert_eq!(p.get(0), Some(&1));
}

#[test]
fn reduction_is_idempotent() {
    let p = Poly::from_coefs(vec![1, 2, 0, 3]).add(Poly::from_coefs(vec![-1, 0, 5])).add_value(7);
    let once = p.reduce();
    let twice = once.duplicate().reduce();
    assert_eq!(once.len(), twice.len());
    for e in 0..5u32 {
        assert_eq!(once.get(e), twice.get(e));
    }
    assert_eq!(once.get(0), Some(&7));
    assert_eq!(once.get(1), Some(&2));
    assert_eq!(once.get(2), Some(&5));
    assert_eq!(once.get(3), Some(&3));
}

#[test]
fn reduction_orders_by_exponent() {
    let x = X::<i32>::default();
    let p = x.pow(5).add(x.pow(1)).add(x.pow(3).scale(4)).add(x.pow(1)).reduce();
    assert_eq!(p.len(), 3);
    let at_two: i32 = p.substitude(2);
    assert_eq!(at_two, 32 + 32 + 4);
    assert_eq!(p.get(1), Some(&2));
}

#[test]
fn adding_zero_keeps_reduced_form() {
    let p = Poly::from_coefs(vec![4, 0, -3]).add_value(2);
    let with_zero = p.duplicate().add(Poly::zero()).reduce();
    let alone = p.reduce();
    assert_eq!(with_zero.len(), alone.len());
    for e in 0..4u32 {
        assert_eq!(with_zero.get(e), alone.get(e));
    }
    assert_eq!(alone.get(0), Some(&6));
}

#[test]
fn identity_values_for_integers() {
    for v in [-7, 0, 1, 12345, i32::MAX, i32::MIN] {
        assert_eq!(v.add(&i32::zero()), v);
        assert_eq!(v.mul(&i32::one()), v);
    }
}

#[test]
fn binomial_expansion_by_squaring() {
    let p = Poly::from_coefs(vec![-1, 1]);
    same_coef(p.duplicate().pow(3), vec![-1, 3, -3, 1]);
    same_coef(p.duplicate().pow(4), vec![1, -4, 6, -4, 1]);
    same_coef(p.pow(5), vec![-1, 5, -10, 10, -5, 1]);
}

#[test]
fn forward_and_reverse_substitution_agree() {
    let x = X::<i32>::default();
    let p = x.pow(2).add_value(1);
    let f: i32 = p.substitude(4);
    let r: i32 = p.rsubstitude(4);
    assert_eq!(f, 17);
    assert_eq!(r, 17);
}

#[test]
fn polynomial_identity_tests_are_unsupported() {
    assert_eq!(Poly::zero().is_zero(), Err(polylib::AlgebraError::Unsupported));
    assert_eq!(Poly::one().is_one(), Err(polylib::AlgebraError::Unsupported));
}

#[test]
fn integer_coefficients_wrap() {
    let p = Poly::new_const(i32::MAX).add_value(1).reduce();
    assert_eq!(p.get(0), Some(&i32::MIN));
}
