//! Integers modulo a fixed `N`.
use vstd::prelude::*;

use vstd::string::StringExecFns;

use crate::text::{decimal, decimal_text, Render};
use crate::{AddIdentity, AlgebraError, Carrier, MulMonoid, One, Ring, RingLaws, Times, Zero};

verus! {

/// A remainder modulo `N`, always held in `[0, N)`.
#[derive(Clone, Copy, Debug)]
pub struct Zn<const N: u32>(u32);

impl<const N: u32> View for Zn<N> {
    type V = u32;

    closed spec fn view(&self) -> u32 {
        self.0
    }
}

/// `(a + b) mod n`.
pub open spec fn mod_add(a: u32, b: u32, n: u32) -> u32 {
    ((a + b) % (n as int)) as u32
}

/// `(a - b) mod n`, for `b < n`.
pub open spec fn mod_sub(a: u32, b: u32, n: u32) -> u32 {
    ((a + n - b) % (n as int)) as u32
}

/// `(a · b) mod n`.
pub open spec fn mod_mul(a: u32, b: u32, n: u32) -> u32 {
    ((a * b) % (n as int)) as u32
}

impl<const N: u32> Zn<N> {
    /// The remainder of `value` modulo `N`.
    pub fn new(value: u32) -> (r: Zn<N>)
        requires
            N > 0,
        ensures
            r@ == value % N,
    {
        Zn(value % N)
    }

    /// The multiplicative identity, or `UndefinedIdentity` when `N == 0`.
    pub fn try_one() -> (r: Result<Zn<N>, AlgebraError>)
        ensures
            r is Ok <==> N > 0,
            r matches Ok(v) ==> v@ == Self::spec_one(),
            r matches Err(e) ==> e == AlgebraError::UndefinedIdentity,
    {
        if N == 0 {
            Err(AlgebraError::UndefinedIdentity)
        } else {
            Ok(Self::one())
        }
    }

    /// The held remainder.
    pub fn value(&self) -> (r: u32)
        ensures
            r == self@,
    {
        self.0
    }

    /// `self = self + rhs`.
    pub fn add_assign(&mut self, rhs: Zn<N>)
        requires
            old(self)@ < N,
            rhs@ < N,
        ensures
            final(self)@ == mod_add(old(self)@, rhs@, N),
    {
        *self = Ring::add(&*self, &rhs);
    }

    /// `self = self - rhs`.
    pub fn sub_assign(&mut self, rhs: Zn<N>)
        requires
            old(self)@ < N,
            rhs@ < N,
        ensures
            final(self)@ == mod_sub(old(self)@, rhs@, N),
    {
        *self = Ring::sub(&*self, &rhs);
    }

    /// `self = self · rhs`.
    pub fn mul_assign(&mut self, rhs: Zn<N>)
        requires
            old(self)@ < N,
            rhs@ < N,
        ensures
            final(self)@ == mod_mul(old(self)@, rhs@, N),
    {
        *self = Ring::mul(&*self, &rhs);
    }
}

impl<const N: u32> Carrier for Zn<N> {
    open spec fn valid(v: u32) -> bool {
        v < N
    }

    fn duplicate(&self) -> (r: Zn<N>) {
        Zn(self.0)
    }
}

/// Without a modulus (`N == 0`) there are no values, and no identity.
impl<const N: u32> Zero for Zn<N> {
    open spec fn has_zero() -> bool {
        N > 0
    }

    open spec fn spec_zero() -> u32 {
        0
    }

    open spec fn tests_zero() -> bool {
        true
    }

    fn zero() -> (r: Zn<N>) {
        Zn(0)
    }

    fn is_zero(&self) -> (r: Result<bool, AlgebraError>) {
        Ok(self.0 == 0)
    }
}

/// Without a modulus (`N == 0`) there is no multiplicative identity.
impl<const N: u32> One for Zn<N> {
    open spec fn has_one() -> bool {
        N > 0
    }

    open spec fn spec_one() -> u32 {
        (1int % (N as int)) as u32
    }

    open spec fn tests_one() -> bool {
        true
    }

    fn one() -> (r: Zn<N>) {
        Zn(1 % N)
    }

    fn is_one(&self) -> (r: Result<bool, AlgebraError>) {
        Ok(self.0 == 1 % N)
    }
}

impl<const N: u32> Ring for Zn<N> {
    open spec fn add_spec(a: u32, b: u32) -> u32 {
        mod_add(a, b, N)
    }

    open spec fn neg_spec(a: u32) -> u32 {
        mod_sub(0, a, N)
    }

    open spec fn sub_spec(a: u32, b: u32) -> u32 {
        mod_sub(a, b, N)
    }

    open spec fn mul_spec(a: u32, b: u32) -> u32 {
        mod_mul(a, b, N)
    }

    fn add(&self, o: &Zn<N>) -> (r: Zn<N>) {
        let s: u64 = self.0 as u64 + o.0 as u64;
        Zn((s % (N as u64)) as u32)
    }

    fn neg(&self) -> (r: Zn<N>) {
        Zn((N - self.0) % N)
    }

    fn sub(&self, o: &Zn<N>) -> (r: Zn<N>) {
        let s: u64 = self.0 as u64 + N as u64 - o.0 as u64;
        Zn((s % (N as u64)) as u32)
    }

    fn mul(&self, o: &Zn<N>) -> (r: Zn<N>) {
        let (a, b) = (self.0 as u64, o.0 as u64);
        assert(a * b <= 0xffff_fffe_0000_0001) by (nonlinear_arith)
            requires
                a <= 0xffff_ffff,
                b <= 0xffff_ffff,
        ;
        let p: u64 = a * b;
        Zn((p % (N as u64)) as u32)
    }
}

impl<const N: u32> Times<Zn<N>, Zn<N>> for Zn<N> {
    open spec fn times_spec(a: u32, r: u32) -> u32 {
        mod_mul(a, r, N)
    }

    fn times(&self, r: &Zn<N>) -> (o: Zn<N>) {
        Ring::mul(self, r)
    }
}

/// A remainder times a machine integer `s`: `(a · s) mod N`, with `s`
/// taken modulo `N` first (so a negative `s` counts from `N` down).
impl<const N: u32> Times<i32, Zn<N>> for Zn<N> {
    open spec fn times_spec(a: u32, s: i32) -> u32 {
        mod_mul(a, ((s as int) % (N as int)) as u32, N)
    }

    fn times(&self, s: &i32) -> (o: Zn<N>) {
        let n: u64 = N as u64;
        let k: u64 = if *s >= 0 {
            (*s as u64) % n
        } else {
            let m: u64 = ((0 - (*s as i64)) as u64) % n;
            proof {
                let x = *s as int;
                let d = N as int;
                let q = (-x) / d;
                vstd::arithmetic::div_mod::lemma_fundamental_div_mod(-x, d);
                if m == 0 {
                    assert(x == (-q) * d + 0) by (nonlinear_arith)
                        requires
                            -x == d * q + 0,
                    ;
                    vstd::arithmetic::div_mod::lemma_fundamental_div_mod_converse(x, d, -q, 0);
                } else {
                    assert(x == (-q - 1) * d + (d - m)) by (nonlinear_arith)
                        requires
                            -x == d * q + m,
                    ;
                    vstd::arithmetic::div_mod::lemma_fundamental_div_mod_converse(
                        x,
                        d,
                        -q - 1,
                        d - m,
                    );
                }
            }
            if m == 0 {
                0
            } else {
                n - m
            }
        };
        assert(k == (*s as int) % (N as int));
        Ring::mul(self, &Zn(k as u32))
    }
}

impl<const N: u32> AddIdentity for Zn<N> {
    proof fn lemma_add_zero(a: u32) {
        vstd::arithmetic::div_mod::lemma_small_mod(a as nat, N as nat);
    }

    proof fn lemma_add_closed(a: u32, b: u32) {
    }
}

impl<const N: u32> MulMonoid for Zn<N> {
    proof fn lemma_mul_one(a: u32) {
        if N == 1 {
            assert(a == 0);
        } else {
            vstd::arithmetic::div_mod::lemma_small_mod(1, N as nat);
            vstd::arithmetic::div_mod::lemma_small_mod(a as nat, N as nat);
        }
        assert(a * 1 == a && 1 * a == a);
        assert(a * 0 == 0 && 0 * a == 0);
    }

    proof fn lemma_mul_assoc(a: u32, b: u32, c: u32) {
        let n = N as int;
        vstd::arithmetic::div_mod::lemma_mul_mod_noop_left(a * b, c as int, n);
        vstd::arithmetic::div_mod::lemma_mul_mod_noop_right(a as int, b * c, n);
        vstd::arithmetic::mul::lemma_mul_is_associative(a as int, b as int, c as int);
        vstd::arithmetic::mul::lemma_mul_nonnegative(a as int, b as int);
        vstd::arithmetic::mul::lemma_mul_nonnegative(b as int, c as int);
    }

    proof fn lemma_mul_closed(a: u32, b: u32) {
        vstd::arithmetic::mul::lemma_mul_nonnegative(a as int, b as int);
    }

    proof fn lemma_one_valid() {
    }
}

impl<const N: u32> RingLaws for Zn<N> {
    proof fn lemma_zero_add(a: u32) {
        vstd::arithmetic::div_mod::lemma_small_mod(a as nat, N as nat);
    }

    proof fn lemma_mul_zero(a: u32) {
        assert(a * 0 == 0 && 0 * a == 0);
    }

    proof fn lemma_zero_valid() {
    }
}

/// Written `<ZN v>`, such as `<Z5 3>`.
impl<const N: u32> Render for Zn<N> {
    open spec fn text(v: u32) -> Seq<char> {
        seq!['<', 'Z'] + decimal(N as nat) + seq![' '] + decimal(v as nat) + seq!['>']
    }

    fn render(&self) -> (r: String) {
        proof {
            reveal_strlit("<Z");
            reveal_strlit(" ");
            reveal_strlit(">");
        }
        let mut s = String::from_str("<Z");
        let n = decimal_text(N as u64);
        s.append(n.as_str());
        s.append(" ");
        let v = decimal_text(self.0 as u64);
        s.append(v.as_str());
        s.append(">");
        assert(s@ =~= seq!['<', 'Z'] + decimal(N as nat) + seq![' '] + decimal(self.0 as nat) + seq!['>']);
        s
    }
}

impl<const N: u32> PartialEq for Zn<N> {
    fn eq(&self, o: &Zn<N>) -> (r: bool) {
        self.0 == o.0
    }
}

impl<const N: u32> vstd::std_specs::cmp::PartialEqSpecImpl for Zn<N> {
    open spec fn obeys_eq_spec() -> bool {
        true
    }

    open spec fn eq_spec(&self, o: &Zn<N>) -> bool {
        self@ == o@
    }
}

impl<const N: u32> Eq for Zn<N> {
}

} // verus!
