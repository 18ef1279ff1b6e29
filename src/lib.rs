//! Single-variable polynomials over an arbitrary coefficient ring, with
//! evaluation at points of other ring-like types (modular integers,
//! matrices, other polynomials).
//!
//! Every algebraic type is described through its view (`@`): the
//! contracts of the ring operations say what they compute on views.
use vstd::prelude::*;

pub mod custom_types;
pub mod laws;
pub mod polynom;
pub mod text;

verus! {

/// Failures reported by the library's fallible operations.
#[derive(Debug, Clone, Copy, PartialEq, Eq, Structural)]
pub enum AlgebraError {
    /// A flat value list whose length is not rows times columns.
    ShapeMismatch,
    /// A matrix position outside its dimensions.
    OutOfBounds,
    /// The multiplicative identity of a type that has none (integers
    /// modulo zero).
    UndefinedIdentity,
    /// An identity-membership test that this type does not support.
    Unsupported,
}

/// Values of an algebraic type: which views are well formed, and an exact
/// copy of a value.
pub trait Carrier: View + Sized {
    spec fn valid(v: Self::V) -> bool;

    fn duplicate(&self) -> (r: Self)
        ensures
            r@ == self@,
    ;
}

/// The type has an additive identity.
pub trait Zero: Carrier {
    /// Whether the identity exists for this type.
    spec fn has_zero() -> bool;

    spec fn spec_zero() -> Self::V;

    /// Whether `is_zero` decides membership for this type.
    spec fn tests_zero() -> bool;

    fn zero() -> (r: Self)
        requires
            Self::has_zero(),
        ensures
            r@ == Self::spec_zero(),
            Self::valid(r@),
    ;

    fn is_zero(&self) -> (r: Result<bool, AlgebraError>)
        requires
            Self::valid(self@),
        ensures
            r == (if Self::tests_zero() {
                Ok::<bool, AlgebraError>(self@ == Self::spec_zero())
            } else {
                Err::<bool, AlgebraError>(AlgebraError::Unsupported)
            }),
    ;
}

/// The type has a multiplicative identity.
pub trait One: Carrier {
    /// Whether the identity exists for this type.
    spec fn has_one() -> bool;

    spec fn spec_one() -> Self::V;

    /// Whether `is_one` decides membership for this type.
    spec fn tests_one() -> bool;

    fn one() -> (r: Self)
        requires
            Self::has_one(),
        ensures
            r@ == Self::spec_one(),
            Self::valid(r@),
    ;

    fn is_one(&self) -> (r: Result<bool, AlgebraError>)
        requires
            Self::valid(self@),
        ensures
            r == (if Self::tests_one() {
                Ok::<bool, AlgebraError>(self@ == Self::spec_one())
            } else {
                Err::<bool, AlgebraError>(AlgebraError::Unsupported)
            }),
    ;
}

/// Ring operations on one type. They are total on well-formed values;
/// laws such as associativity are stated apart (`AddIdentity`,
/// `MulMonoid`), since not every type here obeys them exactly.
pub trait Ring: Zero + One {
    spec fn add_spec(a: Self::V, b: Self::V) -> Self::V;

    spec fn neg_spec(a: Self::V) -> Self::V;

    spec fn sub_spec(a: Self::V, b: Self::V) -> Self::V;

    spec fn mul_spec(a: Self::V, b: Self::V) -> Self::V;

    fn add(&self, o: &Self) -> (r: Self)
        requires
            Self::valid(self@),
            Self::valid(o@),
        ensures
            r@ == Self::add_spec(self@, o@),
            Self::valid(r@),
    ;

    fn neg(&self) -> (r: Self)
        requires
            Self::valid(self@),
        ensures
            r@ == Self::neg_spec(self@),
            Self::valid(r@),
    ;

    fn sub(&self, o: &Self) -> (r: Self)
        requires
            Self::valid(self@),
            Self::valid(o@),
        ensures
            r@ == Self::sub_spec(self@, o@),
            Self::valid(r@),
    ;

    fn mul(&self, o: &Self) -> (r: Self)
        requires
            Self::valid(self@),
            Self::valid(o@),
        ensures
            r@ == Self::mul_spec(self@, o@),
            Self::valid(r@),
    ;
}

/// Multiplication of a value of this type (on the left) by a value of
/// type `R` (on the right), giving a value of type `O`.
pub trait Times<R: Carrier, O: Carrier>: Carrier {
    spec fn times_spec(a: Self::V, r: R::V) -> O::V;

    fn times(&self, r: &R) -> (o: O)
        requires
            Self::valid(self@),
            R::valid(r@),
        ensures
            o@ == Self::times_spec(self@, r@),
            O::valid(o@),
    ;
}

/// Adding zero changes nothing, exactly on views; sums stay well formed.
pub trait AddIdentity: Ring {
    proof fn lemma_add_zero(a: Self::V)
        requires
            Self::valid(a),
            Self::has_zero(),
        ensures
            Self::add_spec(a, Self::spec_zero()) == a,
    ;

    proof fn lemma_add_closed(a: Self::V, b: Self::V)
        requires
            Self::valid(a),
            Self::valid(b),
        ensures
            Self::valid(Self::add_spec(a, b)),
    ;
}

/// Multiplication is associative and has a two-sided identity, exactly on
/// views; products stay well formed.
pub trait MulMonoid: Ring {
    proof fn lemma_mul_one(a: Self::V)
        requires
            Self::valid(a),
            Self::has_one(),
        ensures
            Self::mul_spec(a, Self::spec_one()) == a,
            Self::mul_spec(Self::spec_one(), a) == a,
    ;

    proof fn lemma_mul_assoc(a: Self::V, b: Self::V, c: Self::V)
        requires
            Self::valid(a),
            Self::valid(b),
            Self::valid(c),
        ensures
            Self::mul_spec(Self::mul_spec(a, b), c) == Self::mul_spec(a, Self::mul_spec(b, c)),
    ;

    proof fn lemma_mul_closed(a: Self::V, b: Self::V)
        requires
            Self::valid(a),
            Self::valid(b),
        ensures
            Self::valid(Self::mul_spec(a, b)),
    ;

    proof fn lemma_one_valid()
        requires
            Self::has_one(),
        ensures
            Self::valid(Self::spec_one()),
    ;
}

/// Zero is an identity on both sides of a sum and absorbs products on both
/// sides, exactly on views.
pub trait RingLaws: AddIdentity + MulMonoid {
    proof fn lemma_zero_add(a: Self::V)
        requires
            Self::valid(a),
            Self::has_zero(),
        ensures
            Self::add_spec(Self::spec_zero(), a) == a,
    ;

    proof fn lemma_mul_zero(a: Self::V)
        requires
            Self::valid(a),
            Self::has_zero(),
        ensures
            Self::mul_spec(a, Self::spec_zero()) == Self::spec_zero(),
            Self::mul_spec(Self::spec_zero(), a) == Self::spec_zero(),
    ;

    proof fn lemma_zero_valid()
        requires
            Self::has_zero(),
        ensures
            Self::valid(Self::spec_zero()),
    ;
}

/// Wrapping a product to 32 bits depends only on its residue modulo 2^32.
proof fn lemma_wrap_by_residue(x: int, y: int)
    requires
        x % 0x1_0000_0000 == y % 0x1_0000_0000,
    ensures
        vstd::wrapping::i32_specs::signed_crop(x) == vstd::wrapping::i32_specs::signed_crop(y),
{
}

impl Carrier for i32 {
    open spec fn valid(v: i32) -> bool {
        true
    }

    fn duplicate(&self) -> (r: Self) {
        *self
    }
}

impl Zero for i32 {
    open spec fn has_zero() -> bool {
        true
    }

    open spec fn spec_zero() -> i32 {
        0
    }

    open spec fn tests_zero() -> bool {
        true
    }

    fn zero() -> (r: Self) {
        0
    }

    fn is_zero(&self) -> (r: Result<bool, AlgebraError>) {
        Ok(*self == 0)
    }
}

impl One for i32 {
    open spec fn has_one() -> bool {
        true
    }

    open spec fn spec_one() -> i32 {
        1
    }

    open spec fn tests_one() -> bool {
        true
    }

    fn one() -> (r: Self) {
        1
    }

    fn is_one(&self) -> (r: Result<bool, AlgebraError>) {
        Ok(*self == 1)
    }
}

/// Machine integers wrap around on overflow.
impl Ring for i32 {
    open spec fn add_spec(a: i32, b: i32) -> i32 {
        a.wrapping_add(b)
    }

    open spec fn neg_spec(a: i32) -> i32 {
        0i32.wrapping_sub(a)
    }

    open spec fn sub_spec(a: i32, b: i32) -> i32 {
        a.wrapping_sub(b)
    }

    open spec fn mul_spec(a: i32, b: i32) -> i32 {
        a.wrapping_mul(b)
    }

    fn add(&self, o: &Self) -> (r: Self) {
        self.wrapping_add(*o)
    }

    fn neg(&self) -> (r: Self) {
        0i32.wrapping_sub(*self)
    }

    fn sub(&self, o: &Self) -> (r: Self) {
        self.wrapping_sub(*o)
    }

    fn mul(&self, o: &Self) -> (r: Self) {
        self.wrapping_mul(*o)
    }
}

impl Times<i32, i32> for i32 {
    open spec fn times_spec(a: i32, r: i32) -> i32 {
        a.wrapping_mul(r)
    }

    fn times(&self, r: &i32) -> (o: i32) {
        self.wrapping_mul(*r)
    }
}

impl AddIdentity for i32 {
    proof fn lemma_add_zero(a: i32) {
    }

    proof fn lemma_add_closed(a: i32, b: i32) {
    }
}

impl MulMonoid for i32 {
    proof fn lemma_mul_one(a: i32) {
        assert(a * 1 == a && 1 * a == a);
    }

    proof fn lemma_mul_assoc(a: i32, b: i32, c: i32) {
        let m: int = 0x1_0000_0000;
        let ab = a.wrapping_mul(b);
        let bc = b.wrapping_mul(c);
        assert(ab as int % m == (a * b) % m);
        assert(bc as int % m == (b * c) % m);
        vstd::arithmetic::div_mod::lemma_mul_mod_noop_left(ab as int, c as int, m);
        vstd::arithmetic::div_mod::lemma_mul_mod_noop_left(a * b, c as int, m);
        vstd::arithmetic::div_mod::lemma_mul_mod_noop_right(a as int, bc as int, m);
        vstd::arithmetic::div_mod::lemma_mul_mod_noop_right(a as int, b * c, m);
        vstd::arithmetic::mul::lemma_mul_is_associative(a as int, b as int, c as int);
        lemma_wrap_by_residue(ab * c, a * bc);
    }

    proof fn lemma_mul_closed(a: i32, b: i32) {
    }

    proof fn lemma_one_valid() {
    }
}

impl RingLaws for i32 {
    proof fn lemma_zero_add(a: i32) {
    }

    proof fn lemma_mul_zero(a: i32) {
        assert(a * 0 == 0 && 0 * a == 0);
    }

    proof fn lemma_zero_valid() {
    }
}

} // verus!
