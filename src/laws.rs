//! Laws of the polynomial engine: what `reduce` and `pow` satisfy
//! beyond their contracts, proved from those contracts' spec functions.
use vstd::prelude::*;

use crate::polynom::{
    eval_forward, eval_reverse, is_reduction, power, power_loop, product_terms, strictly_sorted,
    sum_at, term_times,
    valid_terms, Polynomial,
};
use crate::{AddIdentity, MulMonoid, Ring};

verus! {

/// A summed coefficient, kept only where it is present and not zero.
pub open spec fn nonzero_sum<T: Ring>(o: Option<T::V>) -> Option<T::V> {
    match o {
        Some(c) => if c != T::spec_zero() {
            Some(c)
        } else {
            None
        },
        None => None,
    }
}

/// `t` is one of the terms of `s`.
pub open spec fn holds_term<C>(s: Seq<(C, u32)>, t: (C, u32)) -> bool {
    exists|j: int| 0 <= j < s.len() && s[j] == t
}

/// Two sequences of terms whose exponents strictly increase and which hold
/// the same terms are equal.
proof fn lemma_sorted_unique<C>(a: Seq<(C, u32)>, b: Seq<(C, u32)>)
    requires
        strictly_sorted(a),
        strictly_sorted(b),
        forall|i: int| 0 <= i < a.len() ==> holds_term(b, #[trigger] a[i]),
        forall|j: int| 0 <= j < b.len() ==> holds_term(a, #[trigger] b[j]),
    ensures
        a == b,
    decreases a.len() + b.len(),
{
    if a.len() == 0 {
        if b.len() > 0 {
            assert(holds_term(a, b[0]));
        }
        assert(b =~= a);
    } else if b.len() == 0 {
        assert(holds_term(b, a[0]));
    } else {
        assert(holds_term(b, a[0]));
        assert(holds_term(a, b[0]));
        let j = choose|j: int| 0 <= j < b.len() && b[j] == a[0];
        let i = choose|i: int| 0 <= i < a.len() && a[i] == b[0];
        assert(i == 0 && j == 0) by {
            if i > 0 {
                assert(a[0].1 < a[i].1);
                assert(b[0].1 <= b[j].1);
            }
            if j > 0 {
                assert(b[0].1 < b[j].1);
                assert(a[0].1 <= a[i].1);
            }
        }
        let (a1, b1) = (a.drop_first(), b.drop_first());
        assert forall|i: int| 0 <= i < a1.len() implies holds_term(b1, #[trigger] a1[i]) by {
            assert(a1[i] == a[i + 1]);
            assert(holds_term(b, a[i + 1]));
            let j = choose|j: int| 0 <= j < b.len() && b[j] == a[i + 1];
            assert(a[0].1 < a[i + 1].1);
            assert(j != 0);
            assert(b1[j - 1] == b[j]);
        }
        assert forall|j: int| 0 <= j < b1.len() implies holds_term(a1, #[trigger] b1[j]) by {
            assert(b1[j] == b[j + 1]);
            assert(holds_term(a, b[j + 1]));
            let i = choose|i: int| 0 <= i < a.len() && a[i] == b[j + 1];
            assert(b[0].1 < b[j + 1].1);
            assert(i != 0);
            assert(a1[i - 1] == a[i]);
        }
        lemma_sorted_unique(a1, b1);
        assert(a =~= seq![a[0]] + a1);
        assert(b =~= seq![b[0]] + b1);
    }
}

/// In terms whose exponents strictly increase, the sum at an exponent is
/// the one coefficient stored for it, if any.
proof fn lemma_sum_at_sorted<T: Ring>(r: Seq<(T::V, u32)>, e: u32)
    requires
        strictly_sorted(r),
    ensures
        (forall|i: int| 0 <= i < r.len() ==> r[i].1 != e) ==> sum_at::<T>(r, e) is None,
        forall|i: int| 0 <= i < r.len() && r[i].1 == e ==> sum_at::<T>(r, e) == Some(r[i].0),
    decreases r.len(),
{
    if r.len() > 0 {
        let rest = r.drop_last();
        lemma_sum_at_sorted::<T>(rest, e);
        if r.last().1 == e {
            assert forall|i: int| 0 <= i < rest.len() implies rest[i].1 != e by {
                assert(r[i].1 < r[r.len() - 1].1);
            }
        }
        assert forall|i: int| 0 <= i < r.len() && r[i].1 == e implies sum_at::<T>(r, e) == Some(
            r[i].0,
        ) by {
            if i < r.len() - 1 {
                assert(r[i].1 < r[r.len() - 1].1);
                assert(rest[i] == r[i]);
            }
        }
    }
}

/// Reductions of two term lists are equal wherever the two lists have the
/// same non-zero coefficient sums at every exponent.
pub proof fn lemma_same_sums_same_reduction<T: Ring>(
    s1: Seq<(T::V, u32)>,
    s2: Seq<(T::V, u32)>,
    r1: Seq<(T::V, u32)>,
    r2: Seq<(T::V, u32)>,
)
    requires
        is_reduction::<T>(r1, s1),
        is_reduction::<T>(r2, s2),
        forall|e: u32| nonzero_sum::<T>(sum_at::<T>(s1, e)) == nonzero_sum::<T>(#[trigger] sum_at::<T>(s2, e)),
    ensures
        r1 == r2,
{
    assert forall|i: int| 0 <= i < r1.len() implies holds_term(r2, #[trigger] r1[i]) by {
        let e = r1[i].1;
        assert(sum_at::<T>(s1, e) == Some(r1[i].0));
        assert(nonzero_sum::<T>(sum_at::<T>(s2, e)) == Some(r1[i].0));
        let j = choose|j: int| 0 <= j < r2.len() && r2[j].1 == e;
        assert(sum_at::<T>(s2, r2[j].1) == Some(r2[j].0));
    }
    assert forall|j: int| 0 <= j < r2.len() implies holds_term(r1, #[trigger] r2[j]) by {
        let e = r2[j].1;
        assert(sum_at::<T>(s2, e) == Some(r2[j].0));
        assert(nonzero_sum::<T>(sum_at::<T>(s1, e)) == Some(r2[j].0));
        let i = choose|i: int| 0 <= i < r1.len() && r1[i].1 == e;
        assert(sum_at::<T>(s1, r1[i].1) == Some(r1[i].0));
    }
    lemma_sorted_unique(r1, r2);
}

/// Reducing a reduced polynomial changes nothing: if `r` is the reduction
/// of `s` and `r2` the reduction of `r`, then `r2 == r`.
pub proof fn lemma_reduce_idempotent<T: Ring>(
    s: Seq<(T::V, u32)>,
    r: Seq<(T::V, u32)>,
    r2: Seq<(T::V, u32)>,
)
    requires
        is_reduction::<T>(r, s),
        is_reduction::<T>(r2, r),
    ensures
        r2 == r,
{
    assert forall|e: u32| nonzero_sum::<T>(sum_at::<T>(r, e)) == nonzero_sum::<T>(
        #[trigger] sum_at::<T>(s, e),
    ) by {
        lemma_sum_at_sorted::<T>(r, e);
        if exists|i: int| 0 <= i < r.len() && r[i].1 == e {
            let i = choose|i: int| 0 <= i < r.len() && r[i].1 == e;
            assert(sum_at::<T>(s, r[i].1) == Some(r[i].0));
        } else {
            if sum_at::<T>(s, e) matches Some(c) && c != T::spec_zero() {
                assert(exists|i: int| 0 <= i < r.len() && r[i].1 == e);
            }
        }
    }
    lemma_same_sums_same_reduction::<T>(r, s, r2, r);
}


/// `v · v · ... · v` with `n` factors, multiplied one at a time on the
/// right, starting from the identity.
pub open spec fn repeated_product<P: Ring>(v: P::V, n: nat) -> P::V
    decreases n,
{
    if n == 0 {
        P::spec_one()
    } else {
        P::mul_spec(repeated_product::<P>(v, (n - 1) as nat), v)
    }
}

proof fn lemma_repeated_valid<P: MulMonoid>(v: P::V, n: nat)
    requires
        P::valid(v),
        P::has_one(),
    ensures
        P::valid(repeated_product::<P>(v, n)),
    decreases n,
{
    if n == 0 {
        P::lemma_one_valid();
    } else {
        lemma_repeated_valid::<P>(v, (n - 1) as nat);
        P::lemma_mul_closed(repeated_product::<P>(v, (n - 1) as nat), v);
    }
}

/// A value commutes with its own powers.
proof fn lemma_repeated_commutes<P: MulMonoid>(v: P::V, n: nat)
    requires
        P::valid(v),
        P::has_one(),
    ensures
        P::mul_spec(v, repeated_product::<P>(v, n)) == P::mul_spec(repeated_product::<P>(v, n), v),
    decreases n,
{
    if n == 0 {
        P::lemma_mul_one(v);
    } else {
        let r = repeated_product::<P>(v, (n - 1) as nat);
        lemma_repeated_valid::<P>(v, (n - 1) as nat);
        lemma_repeated_commutes::<P>(v, (n - 1) as nat);
        P::lemma_mul_assoc(v, r, v);
    }
}

/// The `k`-th power of `v · v` is the `2k`-th power of `v`.
proof fn lemma_repeated_square<P: MulMonoid>(v: P::V, k: nat)
    requires
        P::valid(v),
        P::has_one(),
    ensures
        repeated_product::<P>(P::mul_spec(v, v), k) == repeated_product::<P>(v, 2 * k),
    decreases k,
{
    if k > 0 {
        lemma_repeated_square::<P>(v, (k - 1) as nat);
        let r = repeated_product::<P>(v, (2 * k - 2) as nat);
        lemma_repeated_valid::<P>(v, (2 * k - 2) as nat);
        P::lemma_mul_assoc(r, v, v);
        assert(repeated_product::<P>(v, (2 * k - 1) as nat) == P::mul_spec(r, v));
        assert(repeated_product::<P>(v, 2 * k) == P::mul_spec(
            repeated_product::<P>(v, (2 * k - 1) as nat),
            v,
        ));
    }
}

/// One step of repeated squaring keeps `acc · base^e` unchanged.
proof fn lemma_power_loop<P: MulMonoid>(acc: P::V, base: P::V, e: nat)
    requires
        P::valid(acc),
        P::valid(base),
        P::has_one(),
    ensures
        power_loop::<P>(acc, base, e) == P::mul_spec(acc, repeated_product::<P>(base, e)),
    decreases e,
{
    if e == 0 {
        P::lemma_mul_one(acc);
    } else {
        let k = e / 2;
        let bb = P::mul_spec(base, base);
        let next = if e % 2 == 1 {
            P::mul_spec(acc, base)
        } else {
            acc
        };
        P::lemma_mul_closed(base, base);
        P::lemma_mul_closed(acc, base);
        lemma_power_loop::<P>(next, bb, k);
        lemma_repeated_square::<P>(base, k);
        if e % 2 == 1 {
            let r = repeated_product::<P>(base, 2 * k);
            lemma_repeated_valid::<P>(base, 2 * k);
            P::lemma_mul_assoc(acc, base, r);
            lemma_repeated_commutes::<P>(base, 2 * k);
            assert(e == 2 * k + 1);
            assert(repeated_product::<P>(base, e) == P::mul_spec(r, base));
        } else {
            assert(e == 2 * k);
        }
    }
}

/// Raising to a power by repeated squaring gives the same value as
/// multiplying `n` copies of `v` one at a time, in any type whose
/// multiplication is associative with an identity.
pub proof fn lemma_power_is_repeated_product<P: MulMonoid>(v: P::V, n: nat)
    requires
        P::valid(v),
        P::has_one(),
    ensures
        power::<P>(v, n) == repeated_product::<P>(v, n),
{
    P::lemma_one_valid();
    lemma_power_loop::<P>(P::spec_one(), v, n);
    lemma_repeated_valid::<P>(v, n);
    P::lemma_mul_one(repeated_product::<P>(v, n));
}


proof fn lemma_sum_at_valid<T: AddIdentity>(s: Seq<(T::V, u32)>, e: u32)
    requires
        valid_terms::<T>(s),
    ensures
        sum_at::<T>(s, e) matches Some(c) ==> T::valid(c),
    decreases s.len(),
{
    if s.len() > 0 {
        lemma_sum_at_valid::<T>(s.drop_last(), e);
        assert(T::valid(s[s.len() - 1].0));
        if let Some(c) = sum_at::<T>(s.drop_last(), e) {
            T::lemma_add_closed(c, s.last().0);
        }
    }
}

/// Adding the zero polynomial does not change the reduced form: if `r1`
/// is the reduction of `p + zero` and `r2` that of `p`, then `r1 == r2`.
pub proof fn lemma_reduce_add_zero<T: AddIdentity>(
    p: Seq<(T::V, u32)>,
    r1: Seq<(T::V, u32)>,
    r2: Seq<(T::V, u32)>,
)
    requires
        valid_terms::<T>(p),
        T::has_zero(),
        is_reduction::<T>(r1, p + seq![(T::spec_zero(), 0u32)]),
        is_reduction::<T>(r2, p),
    ensures
        r1 == r2,
{
    let s = p + seq![(T::spec_zero(), 0u32)];
    assert(s.drop_last() =~= p);
    assert forall|e: u32| nonzero_sum::<T>(sum_at::<T>(s, e)) == nonzero_sum::<T>(
        #[trigger] sum_at::<T>(p, e),
    ) by {
        lemma_sum_at_valid::<T>(p, e);
        if let Some(c) = sum_at::<T>(p, e) {
            T::lemma_add_zero(c);
        }
    }
    lemma_same_sums_same_reduction::<T>(s, p, r1, r2);
}

/// Over machine integers, whose multiplication commutes, forward and
/// reverse substitution give the same value.
pub proof fn lemma_substitution_orders_agree(s: Seq<(i32, u32)>, x: i32)
    ensures
        eval_forward::<i32, i32, i32>(s, x) == eval_reverse::<i32, i32, i32>(s, x),
    decreases s.len(),
{
    if s.len() > 0 {
        lemma_substitution_orders_agree(s.drop_last(), x);
        let c = s.last().0;
        let v = power::<i32>(x, s.last().1 as nat);
        assert(c * v == v * c) by (nonlinear_arith);
    }
}


proof fn lemma_term_times_concat<T: Ring>(
    t: (T::V, u32),
    s1: Seq<(T::V, u32)>,
    s2: Seq<(T::V, u32)>,
)
    ensures
        term_times::<T>(t, s1 + s2) == term_times::<T>(t, s1) + term_times::<T>(t, s2),
{
    assert(term_times::<T>(t, s1 + s2) =~= term_times::<T>(t, s1) + term_times::<T>(t, s2));
}

/// The product distributes over concatenation of its left operand.
proof fn lemma_product_concat<T: Ring>(
    a1: Seq<(T::V, u32)>,
    a2: Seq<(T::V, u32)>,
    c: Seq<(T::V, u32)>,
)
    ensures
        product_terms::<T>(a1 + a2, c) == product_terms::<T>(a1, c) + product_terms::<T>(a2, c),
    decreases a2.len(),
{
    if a2.len() == 0 {
        assert(a1 + a2 =~= a1);
        assert(product_terms::<T>(a1, c) + product_terms::<T>(a2, c) =~= product_terms::<T>(a1, c));
    } else {
        let a2p = a2.drop_last();
        lemma_product_concat::<T>(a1, a2p, c);
        assert((a1 + a2).drop_last() =~= a1 + a2p);
        assert((a1 + a2).last() == a2.last());
        let t = term_times::<T>(a2.last(), c);
        assert(product_terms::<T>(a1, c) + product_terms::<T>(a2p, c) + t =~= product_terms::<T>(
            a1,
            c,
        ) + (product_terms::<T>(a2p, c) + t));
    }
}

/// Multiplying by one term and then by another is multiplying by their
/// product.
proof fn lemma_term_times_twice<T: MulMonoid>(t: (T::V, u32), u: (T::V, u32), c: Seq<(T::V, u32)>)
    requires
        T::valid(t.0),
        T::valid(u.0),
        valid_terms::<T>(c),
    ensures
        term_times::<T>(t, term_times::<T>(u, c)) == term_times::<T>(
            (T::mul_spec(t.0, u.0), t.1.wrapping_add(u.1)),
            c,
        ),
{
    assert forall|k: int| 0 <= k < c.len() implies #[trigger] term_times::<T>(
        t,
        term_times::<T>(u, c),
    )[k] == term_times::<T>((T::mul_spec(t.0, u.0), t.1.wrapping_add(u.1)), c)[k] by {
        T::lemma_mul_assoc(t.0, u.0, c[k].0);
    }
    assert(term_times::<T>(t, term_times::<T>(u, c)) =~= term_times::<T>(
        (T::mul_spec(t.0, u.0), t.1.wrapping_add(u.1)),
        c,
    ));
}

proof fn lemma_term_times_product<T: MulMonoid>(
    t: (T::V, u32),
    b: Seq<(T::V, u32)>,
    c: Seq<(T::V, u32)>,
)
    requires
        T::valid(t.0),
        valid_terms::<T>(b),
        valid_terms::<T>(c),
    ensures
        term_times::<T>(t, product_terms::<T>(b, c)) == product_terms::<T>(term_times::<T>(t, b), c),
    decreases b.len(),
{
    if b.len() == 0 {
        assert(term_times::<T>(t, b) =~= seq![]);
        assert(term_times::<T>(t, product_terms::<T>(b, c)) =~= seq![]);
    } else {
        let bp = b.drop_last();
        assert(valid_terms::<T>(bp));
        assert(T::valid(b.last().0));
        lemma_term_times_product::<T>(t, bp, c);
        lemma_term_times_concat::<T>(t, product_terms::<T>(bp, c), term_times::<T>(b.last(), c));
        lemma_term_times_twice::<T>(t, b.last(), c);
        let tb = term_times::<T>(t, b);
        assert(tb.drop_last() =~= term_times::<T>(t, bp));
        assert(tb.last() == (T::mul_spec(t.0, b.last().0), t.1.wrapping_add(b.last().1)));
    }
}

proof fn lemma_product_valid<T: MulMonoid>(a: Seq<(T::V, u32)>, b: Seq<(T::V, u32)>)
    requires
        valid_terms::<T>(a),
        valid_terms::<T>(b),
    ensures
        valid_terms::<T>(product_terms::<T>(a, b)),
    decreases a.len(),
{
    if a.len() > 0 {
        lemma_product_valid::<T>(a.drop_last(), b);
        let p = product_terms::<T>(a.drop_last(), b);
        let t = term_times::<T>(a.last(), b);
        assert(T::valid(a.last().0));
        assert forall|i: int| 0 <= i < (p + t).len() implies #[trigger] T::valid((p + t)[i].0) by {
            if i >= p.len() {
                T::lemma_mul_closed(a.last().0, b[i - p.len()].0);
            }
        }
    }
}

proof fn lemma_product_assoc<T: MulMonoid>(
    a: Seq<(T::V, u32)>,
    b: Seq<(T::V, u32)>,
    c: Seq<(T::V, u32)>,
)
    requires
        valid_terms::<T>(a),
        valid_terms::<T>(b),
        valid_terms::<T>(c),
    ensures
        product_terms::<T>(product_terms::<T>(a, b), c) == product_terms::<T>(
            a,
            product_terms::<T>(b, c),
        ),
    decreases a.len(),
{
    if a.len() == 0 {
        assert(product_terms::<T>(a, b) =~= seq![]);
    } else {
        let ap = a.drop_last();
        assert(valid_terms::<T>(ap));
        assert(T::valid(a.last().0));
        lemma_product_assoc::<T>(ap, b, c);
        lemma_product_concat::<T>(product_terms::<T>(ap, b), term_times::<T>(a.last(), b), c);
        lemma_term_times_product::<T>(a.last(), b, c);
    }
}

/// Polynomials over a type with associative multiplication: the full
/// distribution is associative on term lists, and the constant one is a
/// two-sided identity.
impl<T: MulMonoid, U> MulMonoid for Polynomial<T, U> {
    proof fn lemma_mul_one(a: Seq<(T::V, u32)>) {
        let one = seq![(T::spec_one(), 0u32)];
        assert forall|i: int| 0 <= i < a.len() implies #[trigger] T::mul_spec(
            a[i].0,
            T::spec_one(),
        ) == a[i].0 && T::mul_spec(T::spec_one(), a[i].0) == a[i].0 by {
            T::lemma_mul_one(a[i].0);
        }
        lemma_product_one_right::<T>(a);
        assert(product_terms::<T>(one, a) == product_terms::<T>(one.drop_last(), a) + term_times::<T>(
            one.last(),
            a,
        ));
        assert(one.drop_last() =~= Seq::<(T::V, u32)>::empty());
        let empty = Seq::<(T::V, u32)>::empty();
        assert(product_terms::<T>(empty, a) =~= empty);
        assert(one.last() == (T::spec_one(), 0u32));
        assert forall|i: int| 0 <= i < a.len() implies #[trigger] term_times::<T>(one.last(), a)[i]
            == a[i] by {
            T::lemma_mul_one(a[i].0);
        }
        assert(term_times::<T>(one.last(), a) =~= a);
        assert(empty + a =~= a);
    }

    proof fn lemma_mul_assoc(a: Seq<(T::V, u32)>, b: Seq<(T::V, u32)>, c: Seq<(T::V, u32)>) {
        lemma_product_assoc::<T>(a, b, c);
    }

    proof fn lemma_mul_closed(a: Seq<(T::V, u32)>, b: Seq<(T::V, u32)>) {
        lemma_product_valid::<T>(a, b);
    }

    proof fn lemma_one_valid() {
        T::lemma_one_valid();
    }
}

proof fn lemma_product_one_right<T: MulMonoid>(a: Seq<(T::V, u32)>)
    requires
        valid_terms::<T>(a),
        T::has_one(),
    ensures
        product_terms::<T>(a, seq![(T::spec_one(), 0u32)]) == a,
    decreases a.len(),
{
    if a.len() > 0 {
        let ap = a.drop_last();
        assert(valid_terms::<T>(ap));
        lemma_product_one_right::<T>(ap);
        T::lemma_mul_one(a.last().0);
        assert(term_times::<T>(a.last(), seq![(T::spec_one(), 0u32)]) =~= seq![a.last()]);
        assert(ap.push(a.last()) =~= a);
    } else {
        assert(product_terms::<T>(a, seq![(T::spec_one(), 0u32)]) =~= a);
    }
}


/// `p.pow(n)`, computed by repeated squaring, is term for term the product
/// `p · p · ... · p` of `n` copies multiplied one at a time, when the
/// coefficients' multiplication is associative with an identity.
pub proof fn lemma_polynomial_pow_is_repeated_product<T: MulMonoid, U>(p: Seq<(T::V, u32)>, n: nat)
    requires
        valid_terms::<T>(p),
        T::has_one(),
    ensures
        power::<Polynomial<T, U>>(p, n) == repeated_product::<Polynomial<T, U>>(p, n),
{
    lemma_power_is_repeated_product::<Polynomial<T, U>>(p, n);
}

} // verus!
