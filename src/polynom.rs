//! Polynomials of one variable, stored as unreduced lists of
//! (coefficient, exponent) terms.
use core::marker::PhantomData;
use vstd::prelude::*;
use vstd::string::StringExecFns;

use crate::text::{decimal, decimal_text, Render};
use crate::{AlgebraError, Carrier, One, Ring, Times, Zero};

verus! {

/// `acc * base^e`, computed by repeated squaring: whenever the lowest
/// bit of `e` is set the accumulator takes one more factor of `base`
/// (on the right), and `base` is squared at each step.
pub open spec fn power_loop<P: Ring>(acc: P::V, base: P::V, e: nat) -> P::V
    decreases e,
{
    if e == 0 {
        acc
    } else {
        power_loop::<P>(
            if e % 2 == 1 {
                P::mul_spec(acc, base)
            } else {
                acc
            },
            P::mul_spec(base, base),
            e / 2,
        )
    }
}

/// `v^e` by repeated squaring, starting from the multiplicative identity.
/// In particular `v^0` is the identity, whatever `v` is.
pub open spec fn power<P: Ring>(v: P::V, e: nat) -> P::V {
    power_loop::<P>(P::spec_one(), v, e)
}

/// The variable raised to an exponent, independent of the ring in which
/// it is later evaluated. `V` only names the variable.
pub struct Powered<V> {
    power: u32,
    var: PhantomData<V>,
}

impl<V> Powered<V> {
    pub closed spec fn exponent(&self) -> u32 {
        self.power
    }

    fn new(power: u32) -> (r: Powered<V>)
        ensures
            r.exponent() == power,
    {
        Powered { power, var: PhantomData }
    }

    fn duplicate(&self) -> (r: Powered<V>)
        ensures
            r.exponent() == self.exponent(),
    {
        Powered { power: self.power, var: PhantomData }
    }

    /// `value` raised to this exponent, by repeated squaring:
    /// O(log exponent) multiplications.
    fn substitude<P: Ring>(&self, value: P) -> (r: P)
        requires
            P::has_one(),
            P::valid(value@),
        ensures
            r@ == power::<P>(value@, self.exponent() as nat),
            P::valid(r@),
    {
        let ghost v = value@;
        let mut ans = P::one();
        let mut to_mul = value;
        let mut pow: u32 = self.power;
        while pow > 0
            invariant
                P::valid(ans@),
                P::valid(to_mul@),
                power_loop::<P>(ans@, to_mul@, pow as nat) == power::<P>(
                    v,
                    self.exponent() as nat,
                ),
            decreases pow,
        {
            let ghost (a0, b0, p0) = (ans@, to_mul@, pow as nat);
            if pow % 2 == 1 {
                ans = ans.mul(&to_mul);
            }
            pow = pow / 2;
            if pow > 0 {
                to_mul = to_mul.mul(&to_mul);
            }
            assert(power_loop::<P>(a0, b0, p0) == power_loop::<P>(
                ans@,
                P::mul_spec(b0, b0),
                pow as nat,
            ));
        }
        ans
    }

    /// The product of two powers of the variable: exponents add, wrapping
    /// around at 2^32 as `u32` arithmetic does.
    fn add(self, rhs: Powered<V>) -> (r: Powered<V>)
        ensures
            r.exponent() == self.exponent().wrapping_add(rhs.exponent()),
    {
        Powered::new(self.power.wrapping_add(rhs.power))
    }
}


/// The variable `x`. `T` is the coefficient type of the polynomials that
/// `pow` builds; nothing of it is stored.
pub struct X<T>(pub PhantomData<T>);

/// The variable `y`: polynomials in `y` cannot be combined with
/// polynomials in `x`.
pub struct Y<T>(pub PhantomData<T>);

impl<T> Default for X<T> {
    fn default() -> (r: X<T>)
        ensures
            r == X::<T>(PhantomData),
    {
        X(PhantomData)
    }
}

impl<T> Default for Y<T> {
    fn default() -> (r: Y<T>)
        ensures
            r == Y::<T>(PhantomData),
    {
        Y(PhantomData)
    }
}

impl<T: One> X<T> {
    /// The polynomial `x^power`, with coefficient one.
    pub fn pow(&self, power: u32) -> (r: Polynomial<T, X<T>>)
        requires
            T::has_one(),
        ensures
            r@ == seq![(T::spec_one(), power)],
    {
        let mut ans = Polynomial::<T, X<T>>::new();
        ans.push(T::one(), Powered::<X<T>>::new(power));
        ans
    }
}

impl<T: One> Y<T> {
    /// The polynomial `y^power`, with coefficient one.
    pub fn pow(&self, power: u32) -> (r: Polynomial<T, Y<T>>)
        requires
            T::has_one(),
        ensures
            r@ == seq![(T::spec_one(), power)],
    {
        let mut ans = Polynomial::<T, Y<T>>::new();
        ans.push(T::one(), Powered::<Y<T>>::new(power));
        ans
    }
}

/// A polynomial in the variable `U` with coefficients of type `T`: a list
/// of (coefficient, exponent) terms in the order in which they were made.
/// Exponents may repeat and coefficients may be zero until `reduce`.
pub struct Polynomial<T, U = X<T>> {
    members: Vec<(T, Powered<U>)>,
}

impl<T: View, U> View for Polynomial<T, U> {
    type V = Seq<(T::V, u32)>;

    closed spec fn view(&self) -> Seq<(T::V, u32)> {
        self.members@.map_values(|m: (T, Powered<U>)| (m.0@, m.1.exponent()))
    }
}

/// The terms of a dense coefficient list: position `i` gives exponent `i`,
/// and positions holding zero give no term.
pub open spec fn dense_terms<T: Zero>(s: Seq<T::V>) -> Seq<(T::V, u32)>
    decreases s.len(),
{
    if s.len() == 0 {
        seq![]
    } else {
        let rest = dense_terms::<T>(s.drop_last());
        if s.last() == T::spec_zero() {
            rest
        } else {
            rest.push((s.last(), (s.len() - 1) as u32))
        }
    }
}

/// `Σ c_i · point^e_i` over the terms in order, the coefficient on the
/// left of each product, summed from the zero of `Y`.
pub open spec fn eval_forward<T: Times<P, Y>, P: Ring, Y: Ring>(
    s: Seq<(T::V, u32)>,
    point: P::V,
) -> Y::V
    decreases s.len(),
{
    if s.len() == 0 {
        Y::spec_zero()
    } else {
        Y::add_spec(
            eval_forward::<T, P, Y>(s.drop_last(), point),
            T::times_spec(s.last().0, power::<P>(point, s.last().1 as nat)),
        )
    }
}

/// `Σ point^e_i · c_i` over the terms in order, the power of the point on
/// the left of each product, summed from the zero of `Y`.
pub open spec fn eval_reverse<T: Carrier, P: Ring + Times<T, Y>, Y: Ring>(
    s: Seq<(T::V, u32)>,
    point: P::V,
) -> Y::V
    decreases s.len(),
{
    if s.len() == 0 {
        Y::spec_zero()
    } else {
        Y::add_spec(
            eval_reverse::<T, P, Y>(s.drop_last(), point),
            P::times_spec(power::<P>(point, s.last().1 as nat), s.last().0),
        )
    }
}

/// Every coefficient is a well-formed value of `T`.
pub open spec fn valid_terms<T: Carrier>(s: Seq<(T::V, u32)>) -> bool {
    forall|i: int| 0 <= i < s.len() ==> #[trigger] T::valid(s[i].0)
}

/// The empty polynomial: no terms at all.
impl<T: View, U> Default for Polynomial<T, U> {
    fn default() -> (r: Polynomial<T, U>)
        ensures
            r@ == Seq::<(T::V, u32)>::empty(),
    {
        Polynomial::new()
    }
}

impl<T: View, U> Polynomial<T, U> {
    fn new() -> (r: Polynomial<T, U>)
        ensures
            r@ == Seq::<(T::V, u32)>::empty(),
    {
        let r = Polynomial { members: Vec::new() };
        assert(r@ =~= Seq::<(T::V, u32)>::empty());
        r
    }

    fn push(&mut self, coef: T, var: Powered<U>)
        ensures
            final(self)@ == old(self)@.push((coef@, var.exponent())),
    {
        self.members.push((coef, var));
        assert(final(self)@ =~= old(self)@.push((coef@, var.exponent())));
    }

    /// The polynomial with coefficient `coefs[i]` for exponent `i`,
    /// leaving out the zero coefficients.
    pub fn from_coefs(coefs: Vec<T>) -> (r: Polynomial<T, U>)
        where
            T: Zero,
        requires
            T::tests_zero(),
            coefs@.len() <= u32::MAX + 1,
            forall|i: int| 0 <= i < coefs@.len() ==> #[trigger] T::valid(coefs@[i]@),
        ensures
            r@ == dense_terms::<T>(coefs@.map_values(|c: T| c@)),
    {
        let ghost cs = coefs@.map_values(|c: T| c@);
        let mut v = Polynomial::<T, U>::new();
        let mut i: usize = 0;
        while i < coefs.len()
            invariant
                i <= coefs@.len() <= u32::MAX + 1,
                T::tests_zero(),
                forall|i: int| 0 <= i < coefs@.len() ==> #[trigger] T::valid(coefs@[i]@),
                cs == coefs@.map_values(|c: T| c@),
                v@ == dense_terms::<T>(cs.subrange(0, i as int)),
            decreases coefs@.len() - i,
        {
            assert(cs.subrange(0, i as int) =~= cs.subrange(0, i + 1).drop_last());
            let ghost next = cs.subrange(0, i + 1);
            assert(next.last() == coefs@[i as int]@);
            assert(next.len() - 1 == i);
            assert(dense_terms::<T>(next) == if next.last() == T::spec_zero() {
                dense_terms::<T>(next.drop_last())
            } else {
                dense_terms::<T>(next.drop_last()).push((next.last(), i as u32))
            });
            let z = coefs[i].is_zero();
            if let Ok(false) = z {
                v.push(coefs[i].duplicate(), Powered::<U>::new(i as u32));
            }
            i = i + 1;
        }
        assert(cs.subrange(0, i as int) =~= cs);
        v
    }

    /// The constant polynomial `value`.
    pub fn new_const(value: T) -> (r: Polynomial<T, U>)
        ensures
            r@ == seq![(value@, 0u32)],
    {
        let mut ans = Polynomial::<T, U>::new();
        ans.push(value, Powered::<U>::new(0));
        ans
    }

    /// The value at `point`, each term's coefficient multiplied on the
    /// left of the point's power.
    pub fn substitude<P, Y>(&self, point: P) -> (r: Y)
        where
            P: Ring,
            Y: Ring,
            T: Times<P, Y>,
        requires
            valid_terms::<T>(self@),
            P::valid(point@),
            P::has_one(),
            Y::has_zero(),
        ensures
            r@ == eval_forward::<T, P, Y>(self@, point@),
            Y::valid(r@),
    {
        let mut ans = Y::zero();
        let mut i: usize = 0;
        while i < self.members.len()
            invariant
                i <= self@.len(),
                valid_terms::<T>(self@),
                P::valid(point@),
                P::has_one(),
                Y::valid(ans@),
                ans@ == eval_forward::<T, P, Y>(self@.subrange(0, i as int), point@),
            decreases self@.len() - i,
        {
            assert(self@.subrange(0, i as int) =~= self@.subrange(0, i + 1).drop_last());
            assert(T::valid(self@[i as int].0));
            let rhs = self.members[i].1.substitude(point.duplicate());
            let term = self.members[i].0.times(&rhs);
            ans = ans.add(&term);
            i = i + 1;
        }
        assert(self@.subrange(0, i as int) =~= self@);
        ans
    }

    /// The value at `point`, the point's power multiplied on the left of
    /// each coefficient: the order needed where the two do not commute,
    /// such as a polynomial substituted into another.
    pub fn rsubstitude<P, Y>(&self, value: P) -> (r: Y)
        where
            T: Carrier,
            P: Ring + Times<T, Y>,
            Y: Ring,
        requires
            valid_terms::<T>(self@),
            P::valid(value@),
            P::has_one(),
            Y::has_zero(),
        ensures
            r@ == eval_reverse::<T, P, Y>(self@, value@),
            Y::valid(r@),
    {
        let mut ans = Y::zero();
        let mut i: usize = 0;
        while i < self.members.len()
            invariant
                i <= self@.len(),
                valid_terms::<T>(self@),
                P::valid(value@),
                P::has_one(),
                Y::valid(ans@),
                ans@ == eval_reverse::<T, P, Y>(self@.subrange(0, i as int), value@),
            decreases self@.len() - i,
        {
            assert(self@.subrange(0, i as int) =~= self@.subrange(0, i + 1).drop_last());
            assert(T::valid(self@[i as int].0));
            let rhs = self.members[i].1.substitude(value.duplicate());
            let term = rhs.times(&self.members[i].0);
            ans = ans.add(&term);
            i = i + 1;
        }
        assert(self@.subrange(0, i as int) =~= self@);
        ans
    }

    /// The coefficient of the first term with exponent `index`, if any.
    /// On an unreduced polynomial later terms of that exponent are not
    /// looked at.
    pub fn get(&self, index: u32) -> (r: Option<&T>)
        ensures
            r is None <==> (forall|i: int| 0 <= i < self@.len() ==> self@[i].1 != index),
            r matches Some(c) ==> exists|i: int|
                0 <= i < self@.len() && self@[i].1 == index && self@[i].0 == c@ && (forall|j: int|
                    0 <= j < i ==> self@[j].1 != index),
    {
        let mut i: usize = 0;
        while i < self.members.len()
            invariant
                i <= self@.len(),
                forall|j: int| 0 <= j < i ==> self@[j].1 != index,
            decreases self@.len() - i,
        {
            if self.members[i].1.power == index {
                assert(self@[i as int].1 == index);
                return Some(&self.members[i].0);
            }
            i = i + 1;
        }
        None
    }

    /// The number of stored terms.
    pub fn len(&self) -> (r: usize)
        ensures
            r == self@.len(),
    {
        self.members.len()
    }
}


/// Every coefficient mapped through ring negation, exponents kept.
pub open spec fn negate_terms<T: Ring>(s: Seq<(T::V, u32)>) -> Seq<(T::V, u32)> {
    s.map_values(|t: (T::V, u32)| (T::neg_spec(t.0), t.1))
}

/// Every coefficient multiplied on the right by `c`, exponents kept.
pub open spec fn scale_terms<T: Ring>(s: Seq<(T::V, u32)>, c: T::V) -> Seq<(T::V, u32)> {
    s.map_values(|t: (T::V, u32)| (T::mul_spec(t.0, c), t.1))
}

/// One term times every term of `b`: coefficients multiply, exponents add
/// (wrapping at 2^32).
pub open spec fn term_times<T: Ring>(t: (T::V, u32), b: Seq<(T::V, u32)>) -> Seq<(T::V, u32)> {
    b.map_values(|u: (T::V, u32)| (T::mul_spec(t.0, u.0), t.1.wrapping_add(u.1)))
}

/// The full distribution of `a` over `b`: for each term of `a` in order,
/// its products with every term of `b` in order.
pub open spec fn product_terms<T: Ring>(a: Seq<(T::V, u32)>, b: Seq<(T::V, u32)>) -> Seq<
    (T::V, u32),
>
    decreases a.len(),
{
    if a.len() == 0 {
        seq![]
    } else {
        product_terms::<T>(a.drop_last(), b) + term_times::<T>(a.last(), b)
    }
}

impl<T: View, U> Polynomial<T, U> {
    /// The sum: the terms of `self` followed by those of `rhs`, unmerged.
    pub fn add(self, rhs: Polynomial<T, U>) -> (r: Polynomial<T, U>)
        ensures
            r@ == self@ + rhs@,
    {
        let mut lhs = self;
        let mut rhs = rhs;
        let ghost (a, b) = (lhs@, rhs@);
        lhs.members.append(&mut rhs.members);
        assert(lhs@ =~= a + b);
        lhs
    }

    /// The sum with a constant: one more term `value·x^0`.
    pub fn add_value(self, value: T) -> (r: Polynomial<T, U>)
        ensures
            r@ == self@.push((value@, 0u32)),
    {
        let mut ans = self;
        ans.push(value, Powered::<U>::new(0));
        ans
    }
}

impl<T: Ring, U> Polynomial<T, U> {
    /// Every coefficient negated.
    pub fn negate(self) -> (r: Polynomial<T, U>)
        requires
            valid_terms::<T>(self@),
        ensures
            r@ == negate_terms::<T>(self@),
            valid_terms::<T>(r@),
    {
        let mut ans = Polynomial::<T, U>::new();
        let mut i: usize = 0;
        while i < self.members.len()
            invariant
                i <= self@.len(),
                valid_terms::<T>(self@),
                valid_terms::<T>(ans@),
                ans@ == negate_terms::<T>(self@.subrange(0, i as int)),
            decreases self@.len() - i,
        {
            assert(T::valid(self@[i as int].0));
            let c = self.members[i].0.neg();
            ans.push(c, self.members[i].1.duplicate());
            i = i + 1;
            assert(negate_terms::<T>(self@.subrange(0, i as int)) =~= negate_terms::<T>(
                self@.subrange(0, i - 1),
            ).push((T::neg_spec(self@[i - 1].0), self@[i - 1].1)));
        }
        assert(self@.subrange(0, i as int) =~= self@);
        ans
    }

    /// The difference: the terms of `self` followed by the negated terms
    /// of `rhs`.
    pub fn sub(self, rhs: Polynomial<T, U>) -> (r: Polynomial<T, U>)
        requires
            valid_terms::<T>(rhs@),
        ensures
            r@ == self@ + negate_terms::<T>(rhs@),
    {
        self.add(rhs.negate())
    }

    /// The difference with a constant: one more term `-value·x^0`.
    pub fn sub_value(self, value: T) -> (r: Polynomial<T, U>)
        requires
            T::valid(value@),
        ensures
            r@ == self@.push((T::neg_spec(value@), 0u32)),
    {
        self.add_value(value.neg())
    }

    /// Every coefficient multiplied on the right by `value`.
    pub fn scale(self, value: T) -> (r: Polynomial<T, U>)
        requires
            valid_terms::<T>(self@),
            T::valid(value@),
        ensures
            r@ == scale_terms::<T>(self@, value@),
            valid_terms::<T>(r@),
    {
        let mut ans = Polynomial::<T, U>::new();
        let mut i: usize = 0;
        while i < self.members.len()
            invariant
                i <= self@.len(),
                valid_terms::<T>(self@),
                T::valid(value@),
                valid_terms::<T>(ans@),
                ans@ == scale_terms::<T>(self@.subrange(0, i as int), value@),
            decreases self@.len() - i,
        {
            assert(T::valid(self@[i as int].0));
            let c = self.members[i].0.mul(&value);
            ans.push(c, self.members[i].1.duplicate());
            i = i + 1;
            assert(scale_terms::<T>(self@.subrange(0, i as int), value@) =~= scale_terms::<T>(
                self@.subrange(0, i - 1),
                value@,
            ).push((T::mul_spec(self@[i - 1].0, value@), self@[i - 1].1)));
        }
        assert(self@.subrange(0, i as int) =~= self@);
        ans
    }

    /// The product: every term of `self` times every term of `rhs`, with
    /// `len() * rhs.len()` terms in all.
    pub fn mul(self, rhs: Polynomial<T, U>) -> (r: Polynomial<T, U>)
        requires
            valid_terms::<T>(self@),
            valid_terms::<T>(rhs@),
        ensures
            r@ == product_terms::<T>(self@, rhs@),
            valid_terms::<T>(r@),
    {
        let mut ans = Polynomial::<T, U>::new();
        let mut i: usize = 0;
        while i < self.members.len()
            invariant
                i <= self@.len(),
                valid_terms::<T>(self@),
                valid_terms::<T>(rhs@),
                valid_terms::<T>(ans@),
                ans@ == product_terms::<T>(self@.subrange(0, i as int), rhs@),
            decreases self@.len() - i,
        {
            assert(self@.subrange(0, i as int) =~= self@.subrange(0, i + 1).drop_last());
            assert(T::valid(self@[i as int].0));
            let ghost before = ans@;
            let mut j: usize = 0;
            while j < rhs.members.len()
                invariant
                    i < self@.len(),
                    j <= rhs@.len(),
                    valid_terms::<T>(self@),
                    valid_terms::<T>(rhs@),
                    valid_terms::<T>(ans@),
                    ans@ == before + term_times::<T>(self@[i as int], rhs@.subrange(0, j as int)),
                decreases rhs@.len() - j,
            {
                assert(T::valid(rhs@[j as int].0));
                let c = self.members[i].0.mul(&rhs.members[j].0);
                let p = self.members[i].1.duplicate().add(rhs.members[j].1.duplicate());
                ans.push(c, p);
                j = j + 1;
                assert(term_times::<T>(self@[i as int], rhs@.subrange(0, j as int)) =~= term_times::<T>(
                    self@[i as int],
                    rhs@.subrange(0, j - 1),
                ).push(
                    (
                        T::mul_spec(self@[i as int].0, rhs@[j - 1].0),
                        self@[i as int].1.wrapping_add(rhs@[j - 1].1),
                    ),
                ));
                assert(ans@ =~= before + term_times::<T>(self@[i as int], rhs@.subrange(0, j as int)));
            }
            assert(rhs@.subrange(0, j as int) =~= rhs@);
            i = i + 1;
        }
        assert(self@.subrange(0, i as int) =~= self@);
        ans
    }

    /// The polynomial raised to `power`, by repeated squaring over
    /// polynomial multiplication: O(log power) products, left unreduced.
    pub fn pow(self, power: u32) -> (r: Polynomial<T, U>)
        requires
            T::has_one(),
            valid_terms::<T>(self@),
        ensures
            r@ == crate::polynom::power::<Polynomial<T, U>>(self@, power as nat),
            valid_terms::<T>(r@),
    {
        let powered = Powered::<U>::new(power);
        powered.substitude(self)
    }
}

impl<T: Carrier, U> Carrier for Polynomial<T, U> {
    open spec fn valid(v: Seq<(T::V, u32)>) -> bool {
        valid_terms::<T>(v)
    }

    fn duplicate(&self) -> (r: Polynomial<T, U>) {
        let mut ans = Polynomial::<T, U>::new();
        let mut i: usize = 0;
        while i < self.members.len()
            invariant
                i <= self@.len(),
                ans@ == self@.subrange(0, i as int),
            decreases self@.len() - i,
        {
            ans.push(self.members[i].0.duplicate(), self.members[i].1.duplicate());
            i = i + 1;
            assert(ans@ =~= self@.subrange(0, i as int));
        }
        assert(self@.subrange(0, i as int) =~= self@);
        ans
    }
}

/// Identity membership is not decided for polynomials: `is_zero` reports
/// `Unsupported`.
impl<T: Zero, U> Zero for Polynomial<T, U> {
    open spec fn has_zero() -> bool {
        T::has_zero()
    }

    open spec fn spec_zero() -> Seq<(T::V, u32)> {
        seq![(T::spec_zero(), 0u32)]
    }

    open spec fn tests_zero() -> bool {
        false
    }

    fn zero() -> (r: Polynomial<T, U>) {
        let r = Self::new_const(T::zero());
        assert(valid_terms::<T>(r@));
        r
    }

    fn is_zero(&self) -> (r: Result<bool, AlgebraError>) {
        Err(AlgebraError::Unsupported)
    }
}

/// Identity membership is not decided for polynomials: `is_one` reports
/// `Unsupported`.
impl<T: One, U> One for Polynomial<T, U> {
    open spec fn has_one() -> bool {
        T::has_one()
    }

    open spec fn spec_one() -> Seq<(T::V, u32)> {
        seq![(T::spec_one(), 0u32)]
    }

    open spec fn tests_one() -> bool {
        false
    }

    fn one() -> (r: Polynomial<T, U>) {
        let r = Self::new_const(T::one());
        assert(valid_terms::<T>(r@));
        r
    }

    fn is_one(&self) -> (r: Result<bool, AlgebraError>) {
        Err(AlgebraError::Unsupported)
    }
}

impl<T: Ring, U> Ring for Polynomial<T, U> {
    open spec fn add_spec(a: Seq<(T::V, u32)>, b: Seq<(T::V, u32)>) -> Seq<(T::V, u32)> {
        a + b
    }

    open spec fn neg_spec(a: Seq<(T::V, u32)>) -> Seq<(T::V, u32)> {
        negate_terms::<T>(a)
    }

    open spec fn sub_spec(a: Seq<(T::V, u32)>, b: Seq<(T::V, u32)>) -> Seq<(T::V, u32)> {
        a + negate_terms::<T>(b)
    }

    open spec fn mul_spec(a: Seq<(T::V, u32)>, b: Seq<(T::V, u32)>) -> Seq<(T::V, u32)> {
        product_terms::<T>(a, b)
    }

    fn add(&self, o: &Self) -> (r: Self) {
        let r = self.duplicate().add(o.duplicate());
        assert(valid_terms::<T>(r@)) by {
            assert forall|i: int| 0 <= i < r@.len() implies #[trigger] T::valid(r@[i].0) by {
                if i >= self@.len() {
                    assert(r@[i] == o@[i - self@.len()]);
                }
            }
        }
        r
    }

    fn neg(&self) -> (r: Self) {
        self.duplicate().negate()
    }

    fn sub(&self, o: &Self) -> (r: Self) {
        let n = o.duplicate().negate();
        let r = self.duplicate().add(n);
        assert(valid_terms::<T>(r@)) by {
            assert forall|i: int| 0 <= i < r@.len() implies #[trigger] T::valid(r@[i].0) by {
                if i >= self@.len() {
                    assert(r@[i] == n@[i - self@.len()]);
                }
            }
        }
        r
    }

    fn mul(&self, o: &Self) -> (r: Self) {
        self.duplicate().mul(o.duplicate())
    }
}

/// A polynomial times a coefficient on its right: `scale`.
impl<T: Ring, U> Times<T, Polynomial<T, U>> for Polynomial<T, U> {
    open spec fn times_spec(a: Seq<(T::V, u32)>, r: T::V) -> Seq<(T::V, u32)> {
        scale_terms::<T>(a, r)
    }

    fn times(&self, r: &T) -> (o: Polynomial<T, U>) {
        self.duplicate().scale(r.duplicate())
    }
}


/// The sum, in term order, of the coefficients of the terms with exponent
/// `e` (`((c1 + c2) + c3) + ...`); `None` where no term has exponent `e`.
pub open spec fn sum_at<T: Ring>(s: Seq<(T::V, u32)>, e: u32) -> Option<T::V>
    decreases s.len(),
{
    if s.len() == 0 {
        None
    } else {
        let rest = sum_at::<T>(s.drop_last(), e);
        if s.last().1 == e {
            match rest {
                None => Some(s.last().0),
                Some(c) => Some(T::add_spec(c, s.last().0)),
            }
        } else {
            rest
        }
    }
}

/// Exponents strictly increase along the terms.
pub open spec fn strictly_sorted<C>(r: Seq<(C, u32)>) -> bool {
    forall|i: int, j: int| 0 <= i < j < r.len() ==> r[i].1 < r[j].1
}

/// `r` is the canonical form of `s`: one term per exponent whose summed
/// coefficient is not zero, holding that sum, in increasing exponent
/// order.
pub open spec fn is_reduction<T: Ring>(r: Seq<(T::V, u32)>, s: Seq<(T::V, u32)>) -> bool {
    &&& strictly_sorted(r)
    &&& forall|i: int|
        0 <= i < r.len() ==> r[i].0 != T::spec_zero() && #[trigger] sum_at::<T>(s, r[i].1) == Some(
            r[i].0,
        )
    &&& forall|e: u32|
        (#[trigger] sum_at::<T>(s, e) matches Some(c) && c != T::spec_zero()) ==> exists|i: int|
            0 <= i < r.len() && r[i].1 == e
}

impl<T: Ring, U> Polynomial<T, U> {
    /// The first position whose exponent is at least `e`, in a polynomial
    /// whose exponents strictly increase.
    fn position(&self, e: u32) -> (r: usize)
        requires
            strictly_sorted(self@),
        ensures
            r <= self@.len(),
            forall|j: int| 0 <= j < r ==> self@[j].1 < e,
            forall|j: int| r <= j < self@.len() ==> self@[j].1 >= e,
    {
        let mut lo: usize = 0;
        let mut hi: usize = self.members.len();
        while lo < hi
            invariant
                lo <= hi <= self@.len(),
                strictly_sorted(self@),
                forall|j: int| 0 <= j < lo ==> self@[j].1 < e,
                forall|j: int| hi <= j < self@.len() ==> self@[j].1 >= e,
            decreases hi - lo,
        {
            let mid = lo + (hi - lo) / 2;
            assert(self@[mid as int].1 == self.members@[mid as int].1.power);
            if self.members[mid].1.power < e {
                lo = mid + 1;
            } else {
                hi = mid;
            }
        }
        lo
    }

    /// The canonical form: terms of equal exponent merged by summing their
    /// coefficients in order, zero sums dropped, exponents increasing.
    pub fn reduce(self) -> (r: Polynomial<T, U>)
        requires
            T::tests_zero(),
            valid_terms::<T>(self@),
        ensures
            is_reduction::<T>(r@, self@),
            valid_terms::<T>(r@),
    {
        let mut acc = Polynomial::<T, U>::new();
        let mut k: usize = 0;
        while k < self.members.len()
            invariant
                k <= self@.len(),
                valid_terms::<T>(self@),
                valid_terms::<T>(acc@),
                strictly_sorted(acc@),
                forall|i: int|
                    0 <= i < acc@.len() ==> #[trigger] sum_at::<T>(
                        self@.subrange(0, k as int),
                        acc@[i].1,
                    ) == Some(acc@[i].0),
                forall|e: u32|
                    (#[trigger] sum_at::<T>(self@.subrange(0, k as int), e) is Some) ==> exists|
                        i: int,
                    | 0 <= i < acc@.len() && acc@[i].1 == e,
            decreases self@.len() - k,
        {
            let ghost p = self@.subrange(0, k as int);
            let ghost np = self@.subrange(0, k + 1);
            let ghost old_acc = acc@;
            let ghost t = self@[k as int];
            assert(np.drop_last() =~= p);
            assert(np.last() == t);
            assert(T::valid(t.0));
            let e = self.members[k].1.power;
            let lo = acc.position(e);
            if lo < acc.members.len() && acc.members[lo].1.power == e {
                assert(T::valid(acc@[lo as int].0));
                let c = acc.members[lo].0.add(&self.members[k].0);
                let pw = acc.members[lo].1.duplicate();
                acc.members.set(lo, (c, pw));
                assert(acc@ =~= old_acc.update(lo as int, (T::add_spec(old_acc[lo as int].0, t.0), e)));
                assert forall|i: int| 0 <= i < acc@.len() implies #[trigger] sum_at::<T>(
                    np,
                    acc@[i].1,
                ) == Some(acc@[i].0) by {
                    assert(sum_at::<T>(p, old_acc[i].1) == Some(old_acc[i].0));
                    if i != lo {
                        assert(old_acc[i].1 != e);
                    }
                }
                assert forall|e2: u32| (#[trigger] sum_at::<T>(np, e2) is Some) implies exists|
                    i: int,
                | 0 <= i < acc@.len() && acc@[i].1 == e2 by {
                    if e2 == e {
                        assert(acc@[lo as int].1 == e2);
                    } else {
                        assert(sum_at::<T>(p, e2) is Some);
                        let i = choose|i: int| 0 <= i < old_acc.len() && old_acc[i].1 == e2;
                        assert(acc@[i].1 == e2);
                    }
                }
            } else {
                assert forall|i: int| 0 <= i < old_acc.len() implies old_acc[i].1 != e by {}
                assert(sum_at::<T>(p, e) is None) by {
                    if sum_at::<T>(p, e) is Some {
                        let i = choose|i: int| 0 <= i < old_acc.len() && old_acc[i].1 == e;
                    }
                }
                acc.members.insert(
                    lo,
                    (self.members[k].0.duplicate(), self.members[k].1.duplicate()),
                );
                assert(acc@ =~= old_acc.insert(lo as int, (t.0, e)));
                assert forall|i: int| 0 <= i < acc@.len() implies #[trigger] sum_at::<T>(
                    np,
                    acc@[i].1,
                ) == Some(acc@[i].0) by {
                    if i < lo {
                        assert(acc@[i] == old_acc[i]);
                        assert(sum_at::<T>(p, old_acc[i].1) == Some(old_acc[i].0));
                    } else if i > lo {
                        assert(acc@[i] == old_acc[i - 1]);
                        assert(sum_at::<T>(p, old_acc[i - 1].1) == Some(old_acc[i - 1].0));
                    }
                }
                assert forall|e2: u32| (#[trigger] sum_at::<T>(np, e2) is Some) implies exists|
                    i: int,
                | 0 <= i < acc@.len() && acc@[i].1 == e2 by {
                    if e2 == e {
                        assert(acc@[lo as int].1 == e2);
                    } else {
                        assert(sum_at::<T>(p, e2) is Some);
                        let i = choose|i: int| 0 <= i < old_acc.len() && old_acc[i].1 == e2;
                        if i < lo {
                            assert(acc@[i].1 == e2);
                        } else {
                            assert(acc@[i + 1].1 == e2);
                        }
                    }
                }
            }
            k = k + 1;
        }
        assert(self@.subrange(0, k as int) =~= self@);
        let mut ans = Polynomial::<T, U>::new();
        let mut i: usize = 0;
        while i < acc.members.len()
            invariant
                i <= acc@.len(),
                T::tests_zero(),
                valid_terms::<T>(acc@),
                valid_terms::<T>(ans@),
                strictly_sorted(acc@),
                strictly_sorted(ans@),
                forall|m: int, j: int|
                    0 <= m < ans@.len() && i <= j < acc@.len() ==> ans@[m].1 < acc@[j].1,
                forall|m: int|
                    0 <= m < ans@.len() ==> ans@[m].0 != T::spec_zero() && #[trigger] sum_at::<T>(
                        self@,
                        ans@[m].1,
                    ) == Some(ans@[m].0),
                forall|j: int|
                    0 <= j < acc@.len() ==> #[trigger] sum_at::<T>(self@, acc@[j].1) == Some(
                        acc@[j].0,
                    ),
                forall|j: int|
                    0 <= j < i && acc@[j].0 != T::spec_zero() ==> exists|m: int|
                        0 <= m < ans@.len() && ans@[m].1 == #[trigger] acc@[j].1,
            decreases acc@.len() - i,
        {
            let ghost old_ans = ans@;
            assert(T::valid(acc@[i as int].0));
            let z = acc.members[i].0.is_zero();
            if let Ok(false) = z {
                ans.push(acc.members[i].0.duplicate(), acc.members[i].1.duplicate());
                assert(ans@[old_ans.len() as int] == acc@[i as int]);
                assert forall|j: int|
                    0 <= j < i + 1 && acc@[j].0 != T::spec_zero() implies exists|m: int|
                    0 <= m < ans@.len() && ans@[m].1 == #[trigger] acc@[j].1 by {
                    if j < i {
                        let m = choose|m: int| 0 <= m < old_ans.len() && old_ans[m].1 == acc@[j].1;
                        assert(ans@[m] == old_ans[m]);
                    } else {
                        assert(ans@[old_ans.len() as int].1 == acc@[j].1);
                    }
                }
            }
            i = i + 1;
        }
        assert forall|e: u32|
            (#[trigger] sum_at::<T>(self@, e) matches Some(c) && c != T::spec_zero()) implies exists|
            m: int,
        | 0 <= m < ans@.len() && ans@[m].1 == e by {
            assert(sum_at::<T>(self@.subrange(0, k as int), e) is Some);
            let j = choose|j: int| 0 <= j < acc@.len() && acc@[j].1 == e;
            assert(sum_at::<T>(self@, acc@[j].1) == Some(acc@[j].0));
        }
        ans
    }
}


/// The name of a polynomial variable, used when writing polynomials out.
pub trait Variable {
    spec fn symbol_spec() -> Seq<char>;

    fn symbol() -> (r: &'static str)
        ensures
            r@ == Self::symbol_spec(),
    ;
}

impl<T> Variable for X<T> {
    open spec fn symbol_spec() -> Seq<char> {
        seq!['x']
    }

    fn symbol() -> (r: &'static str) {
        proof {
            reveal_strlit("x");
        }
        let r = "x";
        assert(r@ =~= seq!['x']);
        r
    }
}

impl<T> Variable for Y<T> {
    open spec fn symbol_spec() -> Seq<char> {
        seq!['y']
    }

    fn symbol() -> (r: &'static str) {
        proof {
            reveal_strlit("y");
        }
        let r = "y";
        assert(r@ =~= seq!['y']);
        r
    }
}

/// The variable to the power `e`: nothing for `e == 0`, the bare symbol
/// for `e == 1`, otherwise `symbol^e`.
pub open spec fn power_text<U: Variable>(e: u32) -> Seq<char> {
    if e == 0 {
        seq![]
    } else if e == 1 {
        U::symbol_spec()
    } else {
        U::symbol_spec() + seq!['^'] + decimal(e as nat)
    }
}

/// One term: a coefficient of one is left out unless the exponent is
/// zero; otherwise the coefficient is followed by the power.
pub open spec fn term_text<T: Render + One, U: Variable>(t: (T::V, u32)) -> Seq<char> {
    if t.0 == T::spec_one() && t.1 == 0 {
        T::text(t.0)
    } else if t.0 == T::spec_one() {
        power_text::<U>(t.1)
    } else {
        T::text(t.0) + power_text::<U>(t.1)
    }
}

/// The terms whose coefficient is not zero, in order.
pub open spec fn shown_terms<T: Zero>(s: Seq<(T::V, u32)>) -> Seq<(T::V, u32)>
    decreases s.len(),
{
    if s.len() == 0 {
        seq![]
    } else if s.last().0 == T::spec_zero() {
        shown_terms::<T>(s.drop_last())
    } else {
        shown_terms::<T>(s.drop_last()).push(s.last())
    }
}

/// The texts of the terms, separated by `" + "`.
pub open spec fn joined_text<T: Render + One, U: Variable>(s: Seq<(T::V, u32)>) -> Seq<char>
    decreases s.len(),
{
    if s.len() == 0 {
        seq![]
    } else if s.len() == 1 {
        term_text::<T, U>(s[0])
    } else {
        joined_text::<T, U>(s.drop_last()) + seq![' ', '+', ' '] + term_text::<T, U>(s.last())
    }
}

/// The written form of a polynomial: its non-zero terms in stored order,
/// separated by `" + "`; the zero of `T` when there is none.
pub open spec fn poly_text<T: Render + Zero + One, U: Variable>(s: Seq<(T::V, u32)>) -> Seq<char> {
    let shown = shown_terms::<T>(s);
    if shown.len() == 0 {
        T::text(T::spec_zero())
    } else {
        joined_text::<T, U>(shown)
    }
}

impl<U: Variable> Powered<U> {
    fn text(&self) -> (r: String)
        ensures
            r@ == power_text::<U>(self.exponent()),
    {
        proof {
            reveal_strlit("");
            reveal_strlit("^");
        }
        if self.power == 0 {
            String::from_str("")
        } else if self.power == 1 {
            String::from_str(U::symbol())
        } else {
            let mut s = String::from_str(U::symbol());
            s.append("^");
            let d = decimal_text(self.power as u64);
            s.append(d.as_str());
            s
        }
    }
}

impl<T: Render + Zero + One, U: Variable> Polynomial<T, U> {
    /// The polynomial written out, such as `3 + x^2 + 2x^3`.
    pub fn to_text(&self) -> (r: String)
        requires
            valid_terms::<T>(self@),
            T::tests_zero(),
            T::tests_one(),
            T::has_zero(),
        ensures
            r@ == poly_text::<T, U>(self@),
    {
        let mut out = String::new();
        let mut first = true;
        let mut i: usize = 0;
        while i < self.members.len()
            invariant
                i <= self@.len(),
                valid_terms::<T>(self@),
                T::tests_zero(),
                T::tests_one(),
                first == (shown_terms::<T>(self@.subrange(0, i as int)).len() == 0),
                out@ == joined_text::<T, U>(shown_terms::<T>(self@.subrange(0, i as int))),
            decreases self@.len() - i,
        {
            let ghost prev = self@.subrange(0, i as int);
            let ghost next = self@.subrange(0, i + 1);
            assert(next.drop_last() =~= prev);
            assert(next.last() == self@[i as int]);
            assert(T::valid(self@[i as int].0));
            let coef = &self.members[i].0;
            if let Ok(false) = coef.is_zero() {
                let ghost shown = shown_terms::<T>(next);
                assert(shown == shown_terms::<T>(prev).push(self@[i as int]));
                assert(shown.drop_last() =~= shown_terms::<T>(prev));
                let ghost t = self@[i as int];
                assert(coef@ == t.0 && self.members@[i as int].1.exponent() == t.1);
                let var = self.members[i].1.text();
                let piece = if let Ok(true) = coef.is_one() {
                    if self.members[i].1.power == 0 {
                        coef.render()
                    } else {
                        var
                    }
                } else {
                    let mut c = coef.render();
                    c.append(var.as_str());
                    c
                };
                assert(piece@ == term_text::<T, U>(t));
                let ghost before = out@;
                if !first {
                    proof {
                        reveal_strlit(" + ");
                    }
                    out.append(" + ");
                    assert(" + "@ =~= seq![' ', '+', ' ']);
                    assert(shown.len() > 1);
                    assert(shown.last() == t);
                    assert(joined_text::<T, U>(shown) == joined_text::<T, U>(shown.drop_last()) + seq![
                        ' ',
                        '+',
                        ' ',
                    ] + term_text::<T, U>(t));
                } else {
                    assert(shown.len() == 1 && shown[0] == t);
                    assert(before =~= seq![]);
                }
                out.append(piece.as_str());
                first = false;
                assert(out@ =~= joined_text::<T, U>(shown));
            }
            i = i + 1;
        }
        assert(self@.subrange(0, i as int) =~= self@);
        if first {
            let z = T::zero();
            out = z.render();
        }
        out
    }
}


} // verus!
