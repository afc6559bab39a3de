//! The Chinese Remainder Theorem for the construction of this crate: the sum
//! of the terms, folded into the canonical range, meets every congruence.

use vstd::prelude::*;
use vstd::arithmetic::div_mod::*;
use crate::arith::{lemma_trunc_div_exact, lemma_trunc_is_floor, trunc_div};
use crate::bezout::bezout;
use crate::bigint::{values, BigInt};
use crate::crt::{
    canonical, congruence_holds, lemma_canonical_is_mod, lemma_term_congruences, seq_product,
    seq_sum, term, term_defined, terms, terms_defined,
};

verus! {

/// Whether every modulus is positive.
pub open spec fn all_positive(moduli: Seq<BigInt>) -> bool {
    forall|j: int| 0 <= j < moduli.len() ==> (#[trigger] moduli[j])@ > 0
}

/// Whether every congruent is a remainder of its modulus: at least zero and
/// less than the modulus.
pub open spec fn all_reduced(moduli: Seq<BigInt>, congruents: Seq<BigInt>) -> bool {
    forall|j: int|
        0 <= j < moduli.len() && j < congruents.len() ==> 0 <= (#[trigger] congruents[j])@
            < moduli[j]@
}

/// The canonical solution that the construction yields for a system.
pub open spec fn canonical_solution(moduli: Seq<BigInt>, congruents: Seq<BigInt>) -> int {
    let big_n = seq_product(values(moduli));
    canonical(seq_sum(terms(big_n, moduli, congruents)), big_n)
}

/// A product is the factor at `j` times the product of the other factors.
proof fn lemma_product_remove(s: Seq<int>, j: int)
    requires
        0 <= j < s.len(),
    ensures
        seq_product(s) == s[j] * seq_product(s.remove(j)),
    decreases s.len(),
{
    if j == s.len() - 1 {
        assert(s.remove(j) =~= s.drop_last());
        assert(seq_product(s.drop_last()) * s.last() == s.last() * seq_product(s.drop_last()))
            by (nonlinear_arith);
    } else {
        lemma_product_remove(s.drop_last(), j);
        assert(s.remove(j).drop_last() =~= s.drop_last().remove(j));
        assert(s.remove(j).last() == s.last());
        let p = seq_product(s.drop_last().remove(j));
        assert((s[j] * p) * s.last() == s[j] * (p * s.last())) by (nonlinear_arith);
    }
}

/// A product of positive factors is positive.
proof fn lemma_product_positive(s: Seq<int>)
    requires
        forall|i: int| 0 <= i < s.len() ==> s[i] > 0,
    ensures
        seq_product(s) > 0,
    decreases s.len(),
{
    if s.len() > 0 {
        lemma_product_positive(s.drop_last());
        assert(seq_product(s.drop_last()) * s.last() > 0) by (nonlinear_arith)
            requires
                seq_product(s.drop_last()) > 0,
                s.last() > 0,
        ;
    }
}

/// The term of another modulus of the same product vanishes at the modulus
/// at `i`.
proof fn lemma_other_term(s: Seq<int>, i: int, j: int, a_j: int)
    requires
        0 <= i < s.len(),
        0 <= j < s.len(),
        i != j,
        forall|k: int| 0 <= k < s.len() ==> s[k] > 0,
    ensures
        term(seq_product(s), s[j], a_j) % s[i] == 0,
{
    lemma_product_remove(s, j);
    let others = s.remove(j);
    let at: int = if i < j {
        i
    } else {
        i - 1
    };
    assert(others[at] == s[i]);
    lemma_product_remove(others, at);
    let k = seq_product(others.remove(at));
    lemma_trunc_div_exact(s[j], s[i] * k);
    let rest = trunc_div(seq_product(s), s[j]);
    assert(rest == s[i] * k);
    let c = bezout(rest, s[j]).0;
    assert(a_j * c * rest == (a_j * c * k) * s[i]) by (nonlinear_arith)
        requires
            rest == s[i] * k,
    ;
    lemma_mod_multiples_basic(a_j * c * k, s[i]);
}

/// A sum in which every summand but the one at `i` vanishes at `m` leaves,
/// over its first `k` summands, the remainder of that summand once it is
/// among them, and zero before.
proof fn lemma_sum_residue(t: Seq<int>, i: int, m: int, k: int)
    requires
        m > 0,
        0 <= i < t.len(),
        0 <= k <= t.len(),
        forall|j: int| 0 <= j < t.len() && j != i ==> #[trigger] t[j] % m == 0,
    ensures
        seq_sum(t.take(k)) % m == (if k > i {
            t[i] % m
        } else {
            0
        }),
    decreases k,
{
    if k == 0 {
        assert(t.take(0) =~= Seq::<int>::empty());
        lemma_small_mod(0, m as nat);
    } else {
        lemma_sum_residue(t, i, m, k - 1);
        assert(t.take(k).drop_last() =~= t.take(k - 1));
        assert(t.take(k).last() == t[k - 1]);
        lemma_add_mod_noop(seq_sum(t.take(k - 1)), t[k - 1], m);
        lemma_mod_twice(t[i], m);
        lemma_small_mod(0, m as nat);
        if k - 1 != i {
            assert(t[k - 1] % m == 0);
        }
    }
}

/// The Chinese Remainder Theorem: where every modulus is positive and a term
/// is defined for each, the canonical solution lies in `[0, N)`, with `N` the
/// product of the moduli, and leaves at each modulus the remainder that the
/// congruent of that modulus leaves there.
pub proof fn lemma_chinese_remainder(moduli: Seq<BigInt>, congruents: Seq<BigInt>, i: int)
    requires
        moduli.len() == congruents.len(),
        all_positive(moduli),
        terms_defined(seq_product(values(moduli)), moduli, moduli.len() as int),
        0 <= i < moduli.len(),
    ensures
        0 <= canonical_solution(moduli, congruents) < seq_product(values(moduli)),
        canonical_solution(moduli, congruents) % moduli[i]@ == congruents[i]@ % moduli[i]@,
{
    let s = values(moduli);
    let big_n = seq_product(s);
    let t = terms(big_n, moduli, congruents);
    let m = moduli[i]@;
    assert forall|k: int| 0 <= k < s.len() implies s[k] > 0 by {
        assert(moduli[k]@ > 0);
    }
    lemma_product_positive(s);
    assert forall|j: int| 0 <= j < t.len() && j != i implies #[trigger] t[j] % m == 0 by {
        lemma_other_term(s, i, j, congruents[j]@);
    }
    assert(term_defined(big_n, moduli[i]@));
    lemma_term_congruences(big_n, m, congruents[i]@);
    lemma_sum_residue(t, i, m, t.len() as int);
    assert(t.take(t.len() as int) =~= t);
    lemma_canonical_is_mod(seq_sum(t), big_n);
    lemma_product_remove(s, i);
    lemma_product_positive(s.remove(i));
    lemma_mod_mod(seq_sum(t), m, seq_product(s.remove(i)));
}

/// Where, besides, every congruent is a remainder of its modulus, the
/// canonical solution passes the check of every congruence.
pub proof fn lemma_solution_checks(moduli: Seq<BigInt>, congruents: Seq<BigInt>)
    requires
        moduli.len() == congruents.len(),
        all_positive(moduli),
        all_reduced(moduli, congruents),
        terms_defined(seq_product(values(moduli)), moduli, moduli.len() as int),
    ensures
        forall|i: int|
            0 <= i < moduli.len() ==> congruence_holds(
                canonical_solution(moduli, congruents),
                #[trigger] moduli[i]@,
                congruents[i]@,
            ),
{
    let x = canonical_solution(moduli, congruents);
    assert forall|i: int| 0 <= i < moduli.len() implies congruence_holds(
        x,
        #[trigger] moduli[i]@,
        congruents[i]@,
    ) by {
        lemma_chinese_remainder(moduli, congruents, i);
        lemma_trunc_is_floor(x, moduli[i]@);
        assert(0 <= congruents[i]@ < moduli[i]@);
        lemma_small_mod(congruents[i]@ as nat, moduli[i]@ as nat);
    }
}

} // verus!
