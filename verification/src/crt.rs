//! The Chinese Remainder construction: one term per modulus, the sum of the
//! terms folded into the canonical range, and the check of every congruence.

use vstd::prelude::*;
use vstd::arithmetic::div_mod::*;
use crate::arith::{abs, gcd, gcd_nat, is_multiple, lemma_trunc_is_floor, trunc_div, trunc_rem};
use crate::bezout::{
    bezout, bezout_coeffs, lemma_bezout_identity, lemma_last_remainder_nonnegative,
};
use crate::theorem::{all_positive, all_reduced, lemma_solution_checks};
use crate::bigint::{
    big_abs, big_add, big_div, big_eq, big_gcd, big_is_multiple_of, big_lt,
    big_mul, big_rem, big_sub, values, BigInt,
};

verus! {

/// Why a computation on a system of congruences was refused.
#[derive(Debug, Clone)]
pub enum CrtError {
    /// The list of moduli and the list of congruents differ in length.
    InputShape { moduli: usize, congruents: usize },
    /// The token at `index` of a comma-separated list is no decimal integer.
    Parse { index: usize },
    /// A modulus does not divide the product that it should be a factor of.
    Divisibility,
    /// A modulus shares a factor with `cofactor`, the product of the others.
    Coprimality { cofactor: BigInt },
    /// A modulus is zero.
    InvalidModulus,
    /// The solution leaves `actual` at the modulus at `index`, where
    /// `expected` was asked for.
    Verification { index: usize, expected: BigInt, actual: BigInt },
}

/// Whether a term can be built for the modulus `n_i` of the product `big_n`:
/// `n_i` is a non-zero factor of `big_n` and coprime to the rest of it.
pub open spec fn term_defined(big_n: int, n_i: int) -> bool {
    &&& is_multiple(big_n, n_i)
    &&& n_i != 0
    &&& gcd(n_i, trunc_div(big_n, n_i)) == 1
}

/// The term of the modulus `n_i` with residue `a_i` in the product `big_n`:
/// `a_i * s * (big_n / n_i)`, with `s` the Bezout coefficient of `big_n / n_i`
/// against `n_i`.
pub open spec fn term(big_n: int, n_i: int, a_i: int) -> int {
    let rest = trunc_div(big_n, n_i);
    a_i * bezout(rest, n_i).0 * rest
}

/// The representative that `gate_in_mod` picks for `s` at a non-zero modulus
/// `n`, in terms of truncating division.
pub open spec fn canonical(s: int, n: int) -> int {
    if s < 0 {
        trunc_rem(s + n * (trunc_div(abs(0 - s) as int, n) + 1), n)
    } else if s >= n {
        trunc_rem(s, n)
    } else {
        s
    }
}

/// Whether `s` leaves the remainder `congruent` at `modulus`, by the
/// truncating remainder.
pub open spec fn congruence_holds(s: int, modulus: int, congruent: int) -> bool {
    modulus != 0 && trunc_rem(s, modulus) == congruent
}

/// Whether `index` is the first place at which `s` fails a congruence.
pub open spec fn first_failure(
    s: int,
    moduli: Seq<BigInt>,
    congruents: Seq<BigInt>,
    index: int,
) -> bool {
    &&& 0 <= index < moduli.len()
    &&& index < congruents.len()
    &&& !congruence_holds(s, moduli[index]@, congruents[index]@)
    &&& forall|j: int|
        0 <= j < index ==> congruence_holds(s, #[trigger] moduli[j]@, congruents[j]@)
}

/// The sum of a sequence of integers.
pub open spec fn seq_sum(s: Seq<int>) -> int
    decreases s.len(),
{
    if s.len() == 0 {
        0
    } else {
        seq_sum(s.drop_last()) + s.last()
    }
}

/// The product of a sequence of integers; the empty product is one.
pub open spec fn seq_product(s: Seq<int>) -> int
    decreases s.len(),
{
    if s.len() == 0 {
        1
    } else {
        seq_product(s.drop_last()) * s.last()
    }
}

/// The greatest common divisor does not depend on the order of its operands.
pub proof fn lemma_gcd_symmetric(a: int, b: int)
    ensures
        gcd(a, b) == gcd(b, a),
{
    let x = abs(a);
    let y = abs(b);
    if y == 0 {
        assert(gcd_nat(x, 0) == x);
        if x != 0 {
            assert(gcd_nat(0, x) == gcd_nat(x, 0nat % x));
        }
    } else if x == 0 {
        assert(gcd_nat(y, 0) == y);
        assert(gcd_nat(0, y) == gcd_nat(y, 0nat % y));
    } else if x < y {
        lemma_small_mod(x, y);
        assert(gcd_nat(x, y) == gcd_nat(y, x % y));
    } else if y < x {
        lemma_small_mod(y, x);
        assert(gcd_nat(y, x) == gcd_nat(x, y % x));
    }
}

/// A product with `b` as a factor is a multiple of `b`.
pub proof fn lemma_product_is_multiple(b: int, k: int)
    ensures
        is_multiple(b * k, b),
{
    if b == 0 {
        assert(b * k == 0) by (nonlinear_arith)
            requires
                b == 0,
        ;
    } else {
        let y = abs(b) as int;
        let m = abs(k) as int;
        assert(abs(b * k) == m * y) by (nonlinear_arith)
            requires
                y == abs(b),
                m == abs(k),
        ;
        lemma_mod_multiples_basic(m, y);
    }
}

/// A term leaves the remainder of its residue at its own modulus and is a
/// multiple of the rest of the product, where the product is not negative
/// and the modulus is positive.
pub proof fn lemma_term_congruences(big_n: int, n_i: int, a_i: int)
    requires
        big_n >= 0,
        n_i > 0,
        term_defined(big_n, n_i),
    ensures
        term(big_n, n_i, a_i) % n_i == a_i % n_i,
        is_multiple(term(big_n, n_i, a_i), trunc_div(big_n, n_i)),
{
    let rest = trunc_div(big_n, n_i);
    let (s, t) = bezout(rest, n_i);
    lemma_trunc_is_floor(big_n, n_i);
    lemma_div_pos_is_pos(big_n, n_i);
    lemma_last_remainder_nonnegative(rest, n_i);
    lemma_bezout_identity(rest, n_i);
    lemma_gcd_symmetric(rest, n_i);
    assert(rest * s + n_i * t == 1);
    assert(a_i * s * rest == n_i * (-(a_i * t)) + a_i) by (nonlinear_arith)
        requires
            rest * s + n_i * t == 1,
    ;
    lemma_mod_multiples_vanish(-(a_i * t), a_i, n_i);
    assert(a_i * s * rest == rest * (a_i * s)) by (nonlinear_arith);
    lemma_product_is_multiple(rest, a_i * s);
}

/// The term of one congruence: `a_i * s * (big_n / n_i)`, with `s` the first
/// Bezout coefficient of `big_n / n_i` and `n_i`. It is refused where `n_i`
/// does not divide `big_n`, where `n_i` is zero, and where `n_i` shares a
/// factor with `big_n / n_i`.
pub fn solution(big_n: &BigInt, n_i: &BigInt, a_i: &BigInt) -> (r: Result<BigInt, CrtError>)
    ensures
        match r {
            Ok(t) => term_defined(big_n@, n_i@) && t@ == term(big_n@, n_i@, a_i@),
            Err(CrtError::Divisibility) => !is_multiple(big_n@, n_i@),
            Err(CrtError::InvalidModulus) => is_multiple(big_n@, n_i@) && n_i@ == 0,
            Err(CrtError::Coprimality { cofactor }) => {
                &&& is_multiple(big_n@, n_i@)
                &&& n_i@ != 0
                &&& cofactor@ == trunc_div(big_n@, n_i@)
                &&& gcd(n_i@, cofactor@) != 1
            },
            Err(_) => false,
        },
        r is Ok && big_n@ >= 0 && n_i@ > 0 ==> {
            &&& r->Ok_0@ % n_i@ == a_i@ % n_i@
            &&& is_multiple(r->Ok_0@, trunc_div(big_n@, n_i@))
        },
{
    if !big_is_multiple_of(big_n, n_i) {
        return Err(CrtError::Divisibility);
    }
    let zero = BigInt::from_i64(0);
    if big_eq(n_i, &zero) {
        return Err(CrtError::InvalidModulus);
    }
    let rest = big_div(big_n, n_i);
    let one = BigInt::from_i64(1);
    if !big_eq(&big_gcd(n_i, &rest), &one) {
        return Err(CrtError::Coprimality { cofactor: rest });
    }
    let coeffs = bezout_coeffs(&rest, n_i);
    proof {
        if big_n@ >= 0 && n_i@ > 0 {
            lemma_term_congruences(big_n@, n_i@, a_i@);
        }
    }
    Ok(big_mul(&big_mul(a_i, &coeffs.0), &rest))
}

/// At a positive modulus the canonical representative is the mathematical
/// remainder: it lies in `[0, n)` and differs from `s` by a multiple of `n`.
pub proof fn lemma_canonical_is_mod(s: int, n: int)
    requires
        n > 0,
    ensures
        canonical(s, n) == s % n,
        0 <= canonical(s, n) < n,
        (canonical(s, n) - s) % n == 0,
{
    lemma_mod_bound(s, n);
    lemma_fundamental_div_mod(s, n);
    assert((s % n - s) % n == 0) by {
        assert(s % n - s == n * (-(s / n))) by (nonlinear_arith)
            requires
                s == n * (s / n) + s % n,
        ;
        lemma_mod_multiples_basic(-(s / n), n);
        assert(n * (-(s / n)) == (-(s / n)) * n) by (nonlinear_arith);
    }
    if s < 0 {
        let m = abs(0 - s) as int;
        lemma_trunc_is_floor(m, n);
        let k = m / n + 1;
        lemma_fundamental_div_mod(m, n);
        lemma_mod_bound(m, n);
        assert(n * k == n * (m / n) + n) by (nonlinear_arith)
            requires
                k == m / n + 1,
        ;
        assert(s + n * k > 0);
        lemma_trunc_is_floor(s + n * k, n);
        lemma_mod_multiples_vanish(k, s, n);
        assert(n * k + s == s + n * k);
    } else if s >= n {
        lemma_trunc_is_floor(s, n);
    } else {
        lemma_small_mod(s as nat, n as nat);
    }
}

/// Folding twice is folding once.
pub proof fn lemma_canonical_idempotent(s: int, n: int)
    requires
        n > 0,
    ensures
        canonical(canonical(s, n), n) == canonical(s, n),
{
    lemma_canonical_is_mod(s, n);
}

/// The representative of `s` in `[0, modulus)` that is congruent to `s`, for
/// a positive modulus. A zero modulus is refused; at a negative one the
/// result is what the truncating operations give.
pub fn gate_in_mod(s: &BigInt, modulus: &BigInt) -> (r: Result<BigInt, CrtError>)
    ensures
        match r {
            Ok(v) => modulus@ != 0 && v@ == canonical(s@, modulus@),
            Err(CrtError::InvalidModulus) => modulus@ == 0,
            Err(_) => false,
        },
        modulus@ > 0 ==> r is Ok && r->Ok_0@ == s@ % modulus@ && 0 <= r->Ok_0@ < modulus@,
{
    let zero = BigInt::from_i64(0);
    if big_eq(modulus, &zero) {
        return Err(CrtError::InvalidModulus);
    }
    proof {
        if modulus@ > 0 {
            lemma_canonical_is_mod(s@, modulus@);
        }
    }
    if big_lt(s, &zero) {
        let one = BigInt::from_i64(1);
        let copies = big_add(&big_div(&big_abs(&big_sub(&zero, s)), modulus), &one);
        Ok(big_rem(&big_add(s, &big_mul(modulus, &copies)), modulus))
    } else if !big_lt(s, modulus) {
        Ok(big_rem(s, modulus))
    } else {
        Ok(s.copy())
    }
}

/// Checks `s` against every congruence, in order, and stops at the first
/// that fails: at a zero modulus, or at a remainder other than the congruent.
pub fn prove_solution(s: &BigInt, moduli: &[BigInt], congruents: &[BigInt]) -> (r: Result<
    (),
    CrtError,
>)
    ensures
        match r {
            Ok(()) => {
                &&& moduli@.len() == congruents@.len()
                &&& forall|i: int|
                    0 <= i < moduli@.len() ==> congruence_holds(
                        s@,
                        #[trigger] moduli@[i]@,
                        congruents@[i]@,
                    )
            },
            Err(CrtError::InputShape { moduli: m, congruents: c }) => {
                &&& m == moduli@.len()
                &&& c == congruents@.len()
                &&& m != c
            },
            Err(CrtError::InvalidModulus) => {
                &&& moduli@.len() == congruents@.len()
                &&& exists|i: int| #[trigger]
                    first_failure(s@, moduli@, congruents@, i) && moduli@[i]@ == 0
            },
            Err(CrtError::Verification { index, expected, actual }) => {
                &&& moduli@.len() == congruents@.len()
                &&& first_failure(s@, moduli@, congruents@, index as int)
                &&& moduli@[index as int]@ != 0
                &&& expected@ == congruents@[index as int]@
                &&& actual@ == trunc_rem(s@, moduli@[index as int]@)
            },
            Err(_) => false,
        },
{
    if moduli.len() != congruents.len() {
        return Err(CrtError::InputShape { moduli: moduli.len(), congruents: congruents.len() });
    }
    let zero = BigInt::from_i64(0);
    let mut i: usize = 0;
    while i < moduli.len()
        invariant
            zero@ == 0,
            i <= moduli@.len(),
            moduli@.len() == congruents@.len(),
            forall|j: int|
                0 <= j < i ==> congruence_holds(s@, #[trigger] moduli@[j]@, congruents@[j]@),
        decreases moduli@.len() - i,
    {
        if big_eq(&moduli[i], &zero) {
            assert(first_failure(s@, moduli@, congruents@, i as int));
            return Err(CrtError::InvalidModulus);
        }
        let actual = big_rem(s, &moduli[i]);
        if !big_eq(&actual, &congruents[i]) {
            return Err(
                CrtError::Verification { index: i, expected: congruents[i].copy(), actual },
            );
        }
        i += 1;
    }
    Ok(())
}

/// The sum of a sequence grows by the element that is pushed.
proof fn lemma_sum_push(s: Seq<int>, x: int)
    ensures
        seq_sum(s.push(x)) == seq_sum(s) + x,
        seq_product(s.push(x)) == seq_product(s) * x,
{
    assert(s.push(x).drop_last() =~= s);
}

/// The sum of a sequence is the element at `i` plus the sum of the others.
proof fn lemma_sum_remove(s: Seq<int>, i: int)
    requires
        0 <= i < s.len(),
    ensures
        seq_sum(s) == seq_sum(s.remove(i)) + s[i],
    decreases s.len(),
{
    if i == s.len() - 1 {
        assert(s.remove(i) =~= s.drop_last());
    } else {
        lemma_sum_remove(s.drop_last(), i);
        assert(s.remove(i).drop_last() =~= s.drop_last().remove(i));
        assert(s.remove(i).last() == s.last());
    }
}

/// The sum of the terms does not depend on the order in which they come in:
/// two sequences with the same elements, each as often, have the same sum.
pub proof fn lemma_sum_order_independent(a: Seq<int>, b: Seq<int>)
    requires
        a.to_multiset() == b.to_multiset(),
    ensures
        seq_sum(a) == seq_sum(b),
    decreases a.len(),
{
    broadcast use vstd::seq_lib::group_to_multiset_ensures;

    a.to_multiset_ensures();
    b.to_multiset_ensures();
    if a.len() == 0 {
        assert(b.len() == 0);
    } else {
        let x = a.last();
        assert(a.to_multiset().count(x) > 0);
        assert(b.contains(x));
        let i = choose|i: int| 0 <= i < b.len() && b[i] == x;
        assert(a.drop_last() =~= a.remove(a.len() - 1));
        assert(a.drop_last().to_multiset() =~= b.remove(i).to_multiset());
        lemma_sum_order_independent(a.drop_last(), b.remove(i));
        lemma_sum_remove(b, i);
    }
}

/// Terms that come in in another order combine to the same canonical
/// solution.
pub proof fn lemma_combine_order_independent(a: Seq<BigInt>, b: Seq<BigInt>, big_n: int)
    requires
        values(a).to_multiset() == values(b).to_multiset(),
    ensures
        canonical(seq_sum(values(a)), big_n) == canonical(seq_sum(values(b)), big_n),
{
    lemma_sum_order_independent(values(a), values(b));
}

/// The product of the moduli.
pub fn product(moduli: &[BigInt]) -> (r: BigInt)
    ensures
        r@ == seq_product(values(moduli@)),
{
    let mut acc = BigInt::from_i64(1);
    let mut i: usize = 0;
    while i < moduli.len()
        invariant
            i <= moduli@.len(),
            acc@ == seq_product(values(moduli@.take(i as int))),
        decreases moduli@.len() - i,
    {
        proof {
            lemma_sum_push(values(moduli@.take(i as int)), moduli@[i as int]@);
            assert(values(moduli@.take(i as int)).push(moduli@[i as int]@) =~= values(
                moduli@.take(i + 1),
            ));
        }
        acc = big_mul(&acc, &moduli[i]);
        i += 1;
    }
    assert(moduli@.take(i as int) =~= moduli@);
    acc
}

/// The canonical solution that a collection of terms adds up to: their sum,
/// folded into `[0, big_n)`. The order of the terms does not matter.
pub fn combine(terms: &[BigInt], big_n: &BigInt) -> (r: Result<BigInt, CrtError>)
    ensures
        match r {
            Ok(v) => big_n@ != 0 && v@ == canonical(seq_sum(values(terms@)), big_n@),
            Err(CrtError::InvalidModulus) => big_n@ == 0,
            Err(_) => false,
        },
        big_n@ > 0 ==> r is Ok && r->Ok_0@ == seq_sum(values(terms@)) % big_n@,
{
    let mut acc = BigInt::from_i64(0);
    let mut i: usize = 0;
    while i < terms.len()
        invariant
            i <= terms@.len(),
            acc@ == seq_sum(values(terms@.take(i as int))),
        decreases terms@.len() - i,
    {
        proof {
            lemma_sum_push(values(terms@.take(i as int)), terms@[i as int]@);
            assert(values(terms@.take(i as int)).push(terms@[i as int]@) =~= values(
                terms@.take(i + 1),
            ));
        }
        acc = big_add(&acc, &terms[i]);
        i += 1;
    }
    assert(terms@.take(i as int) =~= terms@);
    gate_in_mod(&acc, big_n)
}

/// Whether a term can be built for each of the first `k` moduli.
pub open spec fn terms_defined(big_n: int, moduli: Seq<BigInt>, k: int) -> bool {
    forall|j: int| 0 <= j < k ==> term_defined(big_n, #[trigger] moduli[j]@)
}

/// Whether `index` is the first modulus for which no term can be built.
pub open spec fn first_undefined(big_n: int, moduli: Seq<BigInt>, index: int) -> bool {
    &&& 0 <= index < moduli.len()
    &&& !term_defined(big_n, moduli[index]@)
    &&& terms_defined(big_n, moduli, index)
}

/// The terms of a system of congruences, one per modulus, in order.
pub open spec fn terms(big_n: int, moduli: Seq<BigInt>, congruents: Seq<BigInt>) -> Seq<int> {
    Seq::new(moduli.len(), |i: int| term(big_n, moduli[i]@, congruents[i]@))
}

/// A product of non-zero factors is not zero.
pub proof fn lemma_product_nonzero(s: Seq<int>)
    requires
        forall|i: int| 0 <= i < s.len() ==> s[i] != 0,
    ensures
        seq_product(s) != 0,
    decreases s.len(),
{
    if s.len() > 0 {
        lemma_product_nonzero(s.drop_last());
        assert(seq_product(s.drop_last()) * s.last() != 0) by (nonlinear_arith)
            requires
                seq_product(s.drop_last()) != 0,
                s.last() != 0,
        ;
    }
}

/// The canonical solution of the system `x = congruents[i] (mod moduli[i])`:
/// the sum of the terms, one per modulus of the product of all moduli, folded
/// into the canonical range and then checked against every congruence. The
/// first modulus for which no term can be built decides the error; where all
/// terms can be built, the first congruence that the result fails does.
/// There is a solution whenever the moduli are positive and pairwise coprime
/// and each congruent is a remainder of its modulus.
pub fn solve(moduli: &[BigInt], congruents: &[BigInt]) -> (r: Result<BigInt, CrtError>)
    ensures
        match r {
            Ok(x) => {
                let big_n = seq_product(values(moduli@));
                &&& moduli@.len() == congruents@.len()
                &&& big_n != 0
                &&& terms_defined(big_n, moduli@, moduli@.len() as int)
                &&& x@ == canonical(seq_sum(terms(big_n, moduli@, congruents@)), big_n)
                &&& forall|i: int|
                    0 <= i < moduli@.len() ==> congruence_holds(
                        x@,
                        #[trigger] moduli@[i]@,
                        congruents@[i]@,
                    )
            },
            Err(CrtError::InputShape { moduli: m, congruents: c }) => {
                &&& m == moduli@.len()
                &&& c == congruents@.len()
                &&& m != c
            },
            Err(CrtError::Divisibility) => {
                let big_n = seq_product(values(moduli@));
                &&& moduli@.len() == congruents@.len()
                &&& exists|i: int| #[trigger]
                    first_undefined(big_n, moduli@, i) && !is_multiple(big_n, moduli@[i]@)
            },
            Err(CrtError::InvalidModulus) => {
                let big_n = seq_product(values(moduli@));
                &&& moduli@.len() == congruents@.len()
                &&& exists|i: int| #[trigger]
                    first_undefined(big_n, moduli@, i) && is_multiple(big_n, moduli@[i]@)
                        && moduli@[i]@ == 0
            },
            Err(CrtError::Coprimality { cofactor }) => {
                let big_n = seq_product(values(moduli@));
                &&& moduli@.len() == congruents@.len()
                &&& exists|i: int| #[trigger]
                    first_undefined(big_n, moduli@, i) && is_multiple(big_n, moduli@[i]@)
                        && moduli@[i]@ != 0 && cofactor@ == trunc_div(big_n, moduli@[i]@)
            },
            Err(CrtError::Verification { index, expected, actual }) => {
                let big_n = seq_product(values(moduli@));
                let x = canonical(seq_sum(terms(big_n, moduli@, congruents@)), big_n);
                &&& moduli@.len() == congruents@.len()
                &&& big_n != 0
                &&& terms_defined(big_n, moduli@, moduli@.len() as int)
                &&& first_failure(x, moduli@, congruents@, index as int)
                &&& expected@ == congruents@[index as int]@
                &&& actual@ == trunc_rem(x, moduli@[index as int]@)
            },
            Err(_) => false,
        },
        ({
            &&& moduli@.len() == congruents@.len()
            &&& all_positive(moduli@)
            &&& all_reduced(moduli@, congruents@)
            &&& terms_defined(seq_product(values(moduli@)), moduli@, moduli@.len() as int)
        }) ==> r is Ok,
{
    if moduli.len() != congruents.len() {
        return Err(CrtError::InputShape { moduli: moduli.len(), congruents: congruents.len() });
    }
    let big_n = product(moduli);
    let mut parts: Vec<BigInt> = Vec::new();
    let mut i: usize = 0;
    while i < moduli.len()
        invariant
            i <= moduli@.len(),
            moduli@.len() == congruents@.len(),
            big_n@ == seq_product(values(moduli@)),
            terms_defined(big_n@, moduli@, i as int),
            values(parts@) =~= terms(big_n@, moduli@, congruents@).take(i as int),
        decreases moduli@.len() - i,
    {
        match solution(&big_n, &moduli[i], &congruents[i]) {
            Ok(t) => {
                proof {
                    let all = terms(big_n@, moduli@, congruents@);
                    assert(all.take(i + 1) =~= all.take(i as int).push(t@));
                    assert(values(parts@.push(t)) =~= values(parts@).push(t@));
                }
                parts.push(t);
            },
            Err(e) => {
                assert(first_undefined(big_n@, moduli@, i as int));
                return Err(e);
            },
        }
        i += 1;
    }
    proof {
        assert(values(parts@) =~= terms(big_n@, moduli@, congruents@));
        assert forall|j: int| 0 <= j < moduli@.len() implies #[trigger] values(moduli@)[j]
            != 0 by {
            assert(term_defined(big_n@, moduli@[j]@));
        }
        lemma_product_nonzero(values(moduli@));
    }
    match combine(&parts, &big_n) {
        Ok(x) => match prove_solution(&x, moduli, congruents) {
            Ok(()) => Ok(x),
            Err(e) => {
                proof {
                    if e is InvalidModulus {
                        let k = choose|k: int| #[trigger]
                            first_failure(x@, moduli@, congruents@, k) && moduli@[k]@ == 0;
                        assert(term_defined(big_n@, moduli@[k]@));
                    }
                    if all_positive(moduli@) && all_reduced(moduli@, congruents@) {
                        lemma_solution_checks(moduli@, congruents@);
                    }
                }
                Err(e)
            },
        },
        Err(e) => Err(e),
    }
}

} // verus!
