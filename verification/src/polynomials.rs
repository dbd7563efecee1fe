//! Sparse multivariate polynomials over a prime field, and the dense
//! univariate polynomials they restrict to.

use crate::evaluation::{
    as_ints, coefficients_of, lemma_coefficients_of, mono_eval, only_variable, poly_eval, power_sum,
    uni_degree, uni_eval, zero_elsewhere,
};
use crate::monomials::{
    exponent, is_canonical, lemma_canonical_unique, lemma_entry_bounds, lemma_exponent_absent,
    lemma_exponent_bounds, lemma_exponent_present, lemma_exponent_witness,
    lemma_precedes_irreflexive, lemma_precedes_total, lemma_precedes_transitive,
    lemma_total_degree_prefix, monomial_degree,
    monomial_equal, monomial_precedes, precedes, same_monomial, sorted_powers, total_degree, within,
};
use crate::small_fields::{
    add_mod, congruent, lemma_congruent_by_difference, lemma_congruent_mul, lemma_pow_step, mul_mod,
    pow_mod, FieldConfig,
};
use crate::summation::{
    free_part, lemma_coeff_of_congruent, lemma_free_part, lemma_summation_single,
    lemma_summation_value, lemma_summed_terms_free, point_selection, selections, summation,
    summed_terms, weight,
};
use crate::terms::{
    coeff_of, coeff_of_monomial, lemma_canonical_terms_unique, lemma_coeff_of_canonical,
    lemma_coeff_of_insert, lemma_coeff_of_monomial_reverse, lemma_coeff_of_range,
    lemma_coeff_of_remove, lemma_coeff_of_sorted, lemma_coeff_of_update, lemma_coeff_of_witness,
    lemma_max_total_degree, lemma_max_total_degree_below, max_exponent, max_total_degree,
    monomials_wf, pure_power, term_views, terms_wf,
};
use crate::text::{decimal, decimal_text};
use vstd::arithmetic::div_mod::*;
use vstd::arithmetic::power::{lemma_pow0, pow};
use vstd::prelude::*;
use vstd::string::*;

verus! {

/// A polynomial in `num_vars` variables over `Z/modulus`: its terms, each
/// a coefficient with the canonical list of a monomial.
#[derive(Clone, Debug, PartialEq, Eq)]
pub struct MultiPoly {
    pub modulus: u64,
    pub num_vars: usize,
    pub terms: Vec<(u64, Vec<(usize, usize)>)>,
}

impl View for MultiPoly {
    type V = Seq<(int, Seq<(usize, usize)>)>;

    /// The terms, with the coefficients as integers and the monomials
    /// as sequences.
    open spec fn view(&self) -> Self::V {
        term_views(self.terms@)
    }
}

impl MultiPoly {
    /// The terms are in order, no monomial is listed twice, and every
    /// coefficient is a canonical representative other than zero.
    pub open spec fn wf(&self) -> bool {
        &&& self.modulus >= 2
        &&& terms_wf(self@, self.modulus as int, self.num_vars as int)
    }

    /// The polynomial with the given terms: terms with the same monomial
    /// are added up, and monomials whose coefficient comes to zero are
    /// left out.
    pub fn from_coefficients_vec(
        modulus: u64,
        num_vars: usize,
        terms: Vec<(u64, Vec<(usize, usize)>)>,
    ) -> (r: MultiPoly)
        requires
            modulus >= 2,
            monomials_wf(term_views(terms@), num_vars as int),
        ensures
            r.wf(),
            r.modulus == modulus,
            r.num_vars == num_vars,
            forall|m: Seq<(usize, usize)>| #[trigger]
                coeff_of(r@, m) == coeff_of(term_views(terms@), m) % (modulus as int),
    {
        let mut rest = terms;
        let mut acc: Vec<(u64, Vec<(usize, usize)>)> = Vec::new();
        let ghost orig = term_views(terms@);
        let ghost p = modulus as int;
        while rest.len() > 0
            invariant
                modulus >= 2,
                p == modulus as int,
                monomials_wf(term_views(rest@), num_vars as int),
                terms_wf(term_views(acc@), p, num_vars as int),
                forall|m: Seq<(usize, usize)>|
                    congruent(
                        #[trigger] coeff_of(term_views(acc@), m) + coeff_of(term_views(rest@), m),
                        coeff_of(orig, m),
                        p,
                    ),
            decreases rest.len(),
        {
            let ghost rest_old = term_views(rest@);
            let ghost acc_old = term_views(acc@);
            let ghost last = rest_old.last();
            proof {
                assert(rest_old[rest_old.len() - 1] == last);
            }
            let (raw, mono) = rest.pop().unwrap();
            proof {
                assert(term_views(rest@) =~= rest_old.drop_last());
                assert(last == (raw as int, mono@));
            }
            let c = raw % modulus;
            if c != 0 {
                let mut pos: usize = 0;
                proof {
                    assert forall|j: int| 0 <= j < acc.len() implies total_degree(
                        (#[trigger] acc@[j]).1@,
                    ) < usize::MAX by {
                        assert(acc_old[j].1 == acc@[j].1@);
                    }
                }
                while pos < acc.len() && monomial_precedes(&acc[pos].1, &mono)
                    invariant
                        pos <= acc.len(),
                        forall|j: int|
                            0 <= j < acc.len() ==> total_degree((#[trigger] acc@[j]).1@)
                                < usize::MAX,
                        acc_old == term_views(acc@),
                        monomials_wf(acc_old, num_vars as int),
                        total_degree(mono@) < usize::MAX,
                        forall|j: int| 0 <= j < pos ==> precedes((#[trigger] acc_old[j]).1, mono@),
                    decreases acc.len() - pos,
                {
                    pos = pos + 1;
                }
                if pos < acc.len() && monomial_equal(&acc[pos].1, &mono) {
                    let sum = add_mod(acc[pos].0, c, modulus);
                    if sum == 0 {
                        acc.remove(pos);
                        proof {
                            let acc_new = term_views(acc@);
                            assert(acc_new =~= acc_old.remove(pos as int));
                            assert forall|m: Seq<(usize, usize)>|
                                congruent(
                                    #[trigger] coeff_of(acc_new, m) + coeff_of(
                                        term_views(rest@),
                                        m,
                                    ),
                                    coeff_of(orig, m),
                                    p,
                                ) by {
                                lemma_coeff_of_remove(acc_old, pos as int, m);
                                let before = coeff_of(acc_old, m) + coeff_of(rest_old, m);
                                let after = coeff_of(acc_new, m) + coeff_of(term_views(rest@), m);
                                assert(congruent(before, coeff_of(orig, m), p));
                                if mono@ == m {
                                    lemma_add_mod_noop_right(acc_old[pos as int].0, raw as int, p);
                                    lemma_mod_equivalence(0, before - after, p);
                                    lemma_congruent_by_difference(before, after, p);
                                }
                            }
                        }
                    } else {
                        acc.set(pos, (sum, mono));
                        proof {
                            let acc_new = term_views(acc@);
                            assert(acc_new =~= acc_old.update(pos as int, (sum as int, mono@)));
                            assert forall|m: Seq<(usize, usize)>|
                                congruent(
                                    #[trigger] coeff_of(acc_new, m) + coeff_of(
                                        term_views(rest@),
                                        m,
                                    ),
                                    coeff_of(orig, m),
                                    p,
                                ) by {
                                lemma_coeff_of_update(acc_old, pos as int, (sum as int, mono@), m);
                                let before = coeff_of(acc_old, m) + coeff_of(rest_old, m);
                                let after = coeff_of(acc_new, m) + coeff_of(term_views(rest@), m);
                                assert(congruent(before, coeff_of(orig, m), p));
                                if mono@ == m {
                                    let old = acc_old[pos as int].0;
                                    lemma_add_mod_noop_right(old, raw as int, p);
                                    lemma_mod_twice(old + raw, p);
                                    lemma_mod_equivalence(sum as int, old + raw, p);
                                    lemma_congruent_by_difference(after, before, p);
                                }
                            }
                        }
                    }
                } else {
                    proof {
                        if pos < acc.len() {
                            if !precedes(mono@, acc_old[pos as int].1) {
                                lemma_precedes_total(mono@, acc_old[pos as int].1);
                            }
                            assert forall|j: int| pos <= j < acc_old.len() implies precedes(
                                mono@,
                                (#[trigger] acc_old[j]).1,
                            ) by {
                                if j > pos {
                                    assert(precedes(acc_old[pos as int].1, acc_old[j].1));
                                    lemma_precedes_transitive(
                                        mono@,
                                        acc_old[pos as int].1,
                                        acc_old[j].1,
                                    );
                                }
                            }
                        }
                    }
                    acc.insert(pos, (c, mono));
                    proof {
                        let acc_new = term_views(acc@);
                        assert(acc_new =~= acc_old.insert(pos as int, (c as int, mono@)));
                        assert forall|m: Seq<(usize, usize)>|
                            congruent(
                                #[trigger] coeff_of(acc_new, m) + coeff_of(term_views(rest@), m),
                                coeff_of(orig, m),
                                p,
                            ) by {
                            lemma_coeff_of_insert(acc_old, pos as int, (c as int, mono@), m);
                            let before = coeff_of(acc_old, m) + coeff_of(rest_old, m);
                            let after = coeff_of(acc_new, m) + coeff_of(term_views(rest@), m);
                            assert(congruent(before, coeff_of(orig, m), p));
                            if mono@ == m {
                                lemma_mod_twice(raw as int, p);
                                lemma_mod_equivalence(c as int, raw as int, p);
                                lemma_congruent_by_difference(after, before, p);
                            }
                        }
                    }
                }
            } else {
                proof {
                    assert forall|m: Seq<(usize, usize)>|
                        congruent(
                            #[trigger] coeff_of(term_views(acc@), m) + coeff_of(
                                term_views(rest@),
                                m,
                            ),
                            coeff_of(orig, m),
                            p,
                        ) by {
                        let before = coeff_of(acc_old, m) + coeff_of(rest_old, m);
                        let after = coeff_of(acc_old, m) + coeff_of(term_views(rest@), m);
                        assert(congruent(before, coeff_of(orig, m), p));
                        if mono@ == m {
                            lemma_congruent_by_difference(before, after, p);
                        }
                    }
                }
            }
        }
        let r = MultiPoly { modulus, num_vars, terms: acc };
        proof {
            assert(term_views(rest@) =~= Seq::empty());
            assert forall|m: Seq<(usize, usize)>| #[trigger]
                coeff_of(r@, m) == coeff_of(orig, m) % p by {
                assert(congruent(coeff_of(r@, m) + coeff_of(term_views(rest@), m), coeff_of(orig, m), p));
                lemma_coeff_of_range(r@, m, p);
                lemma_small_mod(coeff_of(r@, m) as nat, p as nat);
            }
        }
        r
    }
}

impl MultiPoly {
    /// The total degree: the highest total degree of a term, and zero
    /// for the zero polynomial.
    pub fn degree(&self) -> (d: usize)
        requires
            self.wf(),
        ensures
            d == max_total_degree(self@),
    {
        let mut d: usize = 0;
        let mut i: usize = 0;
        proof {
            assert(self@.take(0) =~= Seq::empty());
        }
        while i < self.terms.len()
            invariant
                self.wf(),
                i <= self.terms.len(),
                d == max_total_degree(self@.take(i as int)),
            decreases self.terms.len() - i,
        {
            proof {
                assert(self@.take(i + 1).drop_last() =~= self@.take(i as int));
                assert(self@.take(i + 1).last() == self@[i as int]);
                assert(self@[i as int].1 == self.terms@[i as int].1@);
            }
            let here = monomial_degree(&self.terms[i].1);
            if here > d {
                d = here;
            }
            i = i + 1;
        }
        proof {
            assert(self@.take(i as int) =~= self@);
        }
        d
    }

    /// The value at `point` in `Z/modulus`.
    pub fn evaluate(&self, point: &Vec<u64>) -> (r: u64)
        requires
            self.wf(),
            point.len() >= self.num_vars,
        ensures
            r == poly_eval(self@, as_ints(point@)) % (self.modulus as int),
    {
        let ghost p = self.modulus as int;
        let ghost x = as_ints(point@);
        let mut acc: u64 = 0;
        let mut i: usize = 0;
        proof {
            assert(self@.take(0) =~= Seq::empty());
            lemma_small_mod(0, self.modulus as nat);
        }
        while i < self.terms.len()
            invariant
                self.wf(),
                point.len() >= self.num_vars,
                p == self.modulus as int,
                x == as_ints(point@),
                i <= self.terms.len(),
                acc == poly_eval(self@.take(i as int), x) % p,
            decreases self.terms.len() - i,
        {
            let mono = &self.terms[i].1;
            let ghost c = self@[i as int].0;
            let ghost m = self@[i as int].1;
            proof {
                assert(m == mono@);
                assert(m.take(0) =~= Seq::empty());
                assert(c * 1 == c) by (nonlinear_arith);
                lemma_small_mod(c as nat, p as nat);
            }
            let mut value: u64 = self.terms[i].0;
            let mut k: usize = 0;
            while k < mono.len()
                invariant
                    self.wf(),
                    point.len() >= self.num_vars,
                    p == self.modulus as int,
                    x == as_ints(point@),
                    i < self.terms.len(),
                    m == self@[i as int].1,
                    m == mono@,
                    k <= mono.len(),
                    value == (c * mono_eval(m.take(k as int), x)) % p,
                decreases mono.len() - k,
            {
                let v = mono[k].0;
                let e = mono[k].1;
                proof {
                    assert(m[k as int].0 < self.num_vars);
                    assert(m.take(k + 1).drop_last() =~= m.take(k as int));
                    assert(m.take(k + 1).last() == m[k as int]);
                    let before = mono_eval(m.take(k as int), x);
                    let factor = pow(x[v as int], e as nat);
                    lemma_mul_mod_noop_general(c * before, factor, p);
                    assert(c * before * factor == c * (before * factor)) by (nonlinear_arith);
                }
                let factor = pow_mod(point[v], e, self.modulus);
                value = mul_mod(value, factor, self.modulus);
                k = k + 1;
            }
            proof {
                assert(m.take(k as int) =~= m);
                assert(self@.take(i + 1).drop_last() =~= self@.take(i as int));
                assert(self@.take(i + 1).last() == self@[i as int]);
                lemma_add_mod_noop(poly_eval(self@.take(i as int), x), c * mono_eval(m, x), p);
            }
            acc = add_mod(acc, value, self.modulus);
            i = i + 1;
        }
        proof {
            assert(self@.take(i as int) =~= self@);
        }
        acc
    }
}

impl MultiPoly {
    /// A copy of the polynomial.
    pub fn copy(&self) -> (r: MultiPoly)
        ensures
            r@ == self@,
            r.modulus == self.modulus,
            r.num_vars == self.num_vars,
    {
        let mut terms: Vec<(u64, Vec<(usize, usize)>)> = Vec::new();
        let mut i: usize = 0;
        while i < self.terms.len()
            invariant
                i <= self.terms.len(),
                terms.len() == i,
                forall|j: int|
                    0 <= j < i ==> (#[trigger] terms@[j]).0 == self.terms@[j].0 && terms@[j].1@
                        == self.terms@[j].1@,
            decreases self.terms.len() - i,
        {
            let mono = &self.terms[i].1;
            let mut powers: Vec<(usize, usize)> = Vec::new();
            let mut k: usize = 0;
            while k < mono.len()
                invariant
                    k <= mono.len(),
                    powers.len() == k,
                    forall|t: int| 0 <= t < k ==> #[trigger] powers@[t] == mono@[t],
                decreases mono.len() - k,
            {
                powers.push((mono[k].0, mono[k].1));
                k = k + 1;
            }
            proof {
                assert(powers@ =~= mono@);
            }
            terms.push((self.terms[i].0, powers));
            i = i + 1;
        }
        let r = MultiPoly { modulus: self.modulus, num_vars: self.num_vars, terms };
        proof {
            assert(r@ =~= self@);
        }
        r
    }
}

/// For each variable the highest exponent that it has in a term of
/// `poly`.
pub fn variable_degrees(poly: &MultiPoly) -> (degs: Vec<usize>)
    requires
        poly.wf(),
    ensures
        degs.len() == poly.num_vars,
        forall|v: int|
            0 <= v < poly.num_vars ==> #[trigger] degs[v] == max_exponent(
                poly@,
                v,
                poly.modulus as int,
            ),
{
    let ghost p = poly.modulus as int;
    let n = poly.num_vars;
    let mut degs: Vec<usize> = Vec::new();
    let mut v: usize = 0;
    while v < n
        invariant
            v <= n,
            degs.len() == v,
            forall|t: int| 0 <= t < v ==> #[trigger] degs[t] == 0,
        decreases n - v,
    {
        degs.push(0);
        v = v + 1;
    }
    let mut i: usize = 0;
    proof {
        assert(poly@.take(0) =~= Seq::empty());
    }
    while i < poly.terms.len()
        invariant
            poly.wf(),
            p == poly.modulus as int,
            n == poly.num_vars,
            i <= poly.terms.len(),
            degs.len() == n,
            forall|t: int| 0 <= t < n ==> #[trigger] degs[t] == max_exponent(poly@.take(i as int), t, p),
        decreases poly.terms.len() - i,
    {
        let mono = &poly.terms[i].1;
        let ghost m = poly@[i as int].1;
        let ghost before = degs@;
        proof {
            assert(m == mono@);
            assert(m.take(0) =~= Seq::empty());
            assert(poly@[i as int].0 % p != 0) by {
                lemma_small_mod(poly@[i as int].0 as nat, p as nat);
            }
        }
        let mut k: usize = 0;
        while k < mono.len()
            invariant
                poly.wf(),
                n == poly.num_vars,
                i < poly.terms.len(),
                m == poly@[i as int].1,
                m == mono@,
                k <= mono.len(),
                degs.len() == n,
                before.len() == n,
                forall|t: int|
                    0 <= t < n ==> #[trigger] degs[t] == if exponent(m.take(k as int), t)
                        > before[t] {
                        exponent(m.take(k as int), t)
                    } else {
                        before[t] as int
                    },
            decreases mono.len() - k,
        {
            let var = mono[k].0;
            let power = mono[k].1;
            proof {
                assert(m[k as int].0 < n);
                assert(m.take(k + 1).drop_last() =~= m.take(k as int));
                assert(m.take(k + 1).last() == m[k as int]);
                assert forall|j: int| 0 <= j < k implies (#[trigger] m.take(k as int)[j]).0
                    != var by {
                    assert(m[j].0 < m[k as int].0);
                }
                lemma_exponent_absent(m.take(k as int), var as int);
            }
            if power > degs[var] {
                degs.set(var, power);
            }
            k = k + 1;
        }
        proof {
            assert(m.take(k as int) =~= m);
            assert(poly@.take(i + 1).drop_last() =~= poly@.take(i as int));
            assert(poly@.take(i + 1).last() == poly@[i as int]);
        }
        i = i + 1;
    }
    proof {
        assert(poly@.take(i as int) =~= poly@);
    }
    degs
}

/// A univariate polynomial by its coefficients, the constant term first.
/// Trailing zeros are allowed.
#[derive(Clone, Debug, PartialEq, Eq)]
pub struct UniPoly {
    pub coeffs: Vec<u64>,
}

impl View for UniPoly {
    type V = Seq<int>;

    /// The coefficients as integers.
    open spec fn view(&self) -> Seq<int> {
        as_ints(self.coeffs@)
    }
}

impl UniPoly {
    /// The value at `point` in `Z/modulus`.
    pub fn evaluate(&self, point: u64, modulus: u64) -> (r: u64)
        requires
            modulus > 0,
        ensures
            r == uni_eval(self@, point as int) % (modulus as int),
    {
        let ghost p = modulus as int;
        let ghost x = point as int;
        let mut acc: u64 = 0;
        let mut power: u64 = 1 % modulus;
        let mut i: usize = 0;
        proof {
            lemma_pow0(x);
            assert(self@.take(0) =~= Seq::<int>::empty());
            lemma_small_mod(0, modulus as nat);
        }
        while i < self.coeffs.len()
            invariant
                modulus > 0,
                p == modulus as int,
                x == point as int,
                i <= self.coeffs.len(),
                acc == uni_eval(self@.take(i as int), x) % p,
                power == pow(x, i as nat) % p,
            decreases self.coeffs.len() - i,
        {
            let term = mul_mod(self.coeffs[i], power, modulus);
            proof {
                let c = self@[i as int];
                assert(self@.take(i + 1).drop_last() =~= self@.take(i as int));
                assert(self@.take(i + 1).last() == c);
                lemma_mul_mod_noop_right(c, pow(x, i as nat), p);
                lemma_add_mod_noop(uni_eval(self@.take(i as int), x), c * pow(x, i as nat), p);
                lemma_pow_step(x, i as nat);
                lemma_mul_mod_noop_left(pow(x, i as nat), x, p);
            }
            acc = add_mod(acc, term, modulus);
            power = mul_mod(power, point, modulus);
            i = i + 1;
        }
        proof {
            assert(self@.take(i as int) =~= self@);
        }
        acc
    }

    /// The degree over `Z/modulus`; zero for the zero polynomial.
    pub fn degree(&self, modulus: u64) -> (d: usize)
        requires
            modulus > 0,
        ensures
            d == uni_degree(self@, modulus as int),
    {
        let mut i: usize = self.coeffs.len();
        proof {
            assert(self@.take(i as int) =~= self@);
        }
        while i > 0
            invariant
                modulus > 0,
                i <= self.coeffs.len(),
                uni_degree(self@, modulus as int) == uni_degree(self@.take(i as int), modulus as int),
            decreases i,
        {
            proof {
                assert(self@.take(i as int).drop_last() =~= self@.take(i - 1));
                assert(self@.take(i as int).last() == self.coeffs@[i - 1] as int);
            }
            if self.coeffs[i - 1] % modulus != 0 {
                return i - 1;
            }
            i = i - 1;
        }
        0
    }
}

/// The sums of the `k`-th powers of `summands` in `Z/modulus`, for `k`
/// from zero to `max_exponent`.
pub fn power_sums(max_exponent: usize, summands: &Vec<u64>, modulus: u64) -> (sums: Vec<u64>)
    requires
        modulus > 0,
        max_exponent < usize::MAX,
    ensures
        sums.len() == max_exponent + 1,
        forall|k: int|
            0 <= k <= max_exponent ==> #[trigger] sums[k] == power_sum(
                as_ints(summands@),
                k as nat,
            ) % (modulus as int),
{
    let ghost p = modulus as int;
    let ghost s = as_ints(summands@);
    let n = summands.len();
    let mut powers: Vec<u64> = Vec::new();
    let mut i: usize = 0;
    while i < n
        invariant
            modulus > 0,
            i <= n,
            n == summands.len(),
            s == as_ints(summands@),
            powers.len() == i,
            forall|t: int| 0 <= t < i ==> #[trigger] powers[t] == pow(s[t], 0) % (modulus as int),
        decreases n - i,
    {
        proof {
            lemma_pow0(s[i as int]);
        }
        powers.push(1 % modulus);
        i = i + 1;
    }
    let mut sums: Vec<u64> = Vec::new();
    let mut k: usize = 0;
    while k <= max_exponent
        invariant
            modulus > 0,
            p == modulus as int,
            max_exponent < usize::MAX,
            k <= max_exponent + 1,
            n == summands.len(),
            s == as_ints(summands@),
            powers.len() == n,
            sums.len() == k,
            forall|t: int| 0 <= t < n ==> #[trigger] powers[t] == pow(s[t], k as nat) % p,
            forall|j: int| 0 <= j < k ==> #[trigger] sums[j] == power_sum(s, j as nat) % p,
        decreases max_exponent + 1 - k,
    {
        let mut total: u64 = 0;
        let mut i: usize = 0;
        proof {
            assert(s.take(0) =~= Seq::<int>::empty());
            lemma_small_mod(0, modulus as nat);
        }
        while i < n
            invariant
                modulus > 0,
                p == modulus as int,
                i <= n,
                n == summands.len(),
                s == as_ints(summands@),
                powers.len() == n,
                forall|t: int| 0 <= t < n ==> #[trigger] powers[t] == pow(s[t], k as nat) % p,
                total == power_sum(s.take(i as int), k as nat) % p,
            decreases n - i,
        {
            proof {
                assert(s.take(i + 1).drop_last() =~= s.take(i as int));
                assert(s.take(i + 1).last() == s[i as int]);
                lemma_add_mod_noop(
                    power_sum(s.take(i as int), k as nat),
                    pow(s[i as int], k as nat),
                    p,
                );
            }
            total = add_mod(total, powers[i], modulus);
            i = i + 1;
        }
        proof {
            assert(s.take(n as int) =~= s);
        }
        sums.push(total);
        let mut i: usize = 0;
        while i < n
            invariant
                modulus > 0,
                p == modulus as int,
                i <= n,
                n == summands.len(),
                s == as_ints(summands@),
                powers.len() == n,
                forall|t: int| 0 <= t < i ==> #[trigger] powers[t] == pow(s[t], (k + 1) as nat) % p,
                forall|t: int| i <= t < n ==> #[trigger] powers[t] == pow(s[t], k as nat) % p,
            decreases n - i,
        {
            proof {
                lemma_pow_step(s[i as int], k as nat);
                lemma_mul_mod_noop_left(pow(s[i as int], k as nat), s[i as int], p);
            }
            let next = mul_mod(powers[i], summands[i], modulus);
            powers.set(i, next);
            i = i + 1;
        }
        k = k + 1;
    }
    sums
}

/// `tables` holds, for each summed variable, the power sums of its
/// values up to the exponent `d`, and nothing for a free variable.
pub open spec fn tables_match(
    tables: Seq<Option<Vec<u64>>>,
    sel: Seq<Option<Seq<int>>>,
    d: int,
    p: int,
) -> bool {
    &&& tables.len() == sel.len()
    &&& forall|v: int|
        0 <= v < sel.len() ==> match (#[trigger] sel[v]) {
            Some(s) => {
                &&& tables[v] is Some
                &&& tables[v]->0.len() == d + 1
                &&& forall|k: int|
                    0 <= k <= d ==> #[trigger] tables[v]->0[k] == power_sum(s, k as nat) % p
            },
            None => tables[v] is None,
        }
}

/// The power sums of each selection, up to the exponent `d`.
fn power_tables(vals: &Vec<Option<Vec<u64>>>, d: usize, modulus: u64) -> (tables: Vec<
    Option<Vec<u64>>,
>)
    requires
        modulus > 0,
        d < usize::MAX,
    ensures
        tables_match(tables@, selections(vals@), d as int, modulus as int),
{
    let ghost sel = selections(vals@);
    let mut tables: Vec<Option<Vec<u64>>> = Vec::new();
    let mut v: usize = 0;
    while v < vals.len()
        invariant
            modulus > 0,
            d < usize::MAX,
            sel == selections(vals@),
            v <= vals.len(),
            tables_match(tables@, sel.take(v as int), d as int, modulus as int),
        decreases vals.len() - v,
    {
        let ghost before = tables@;
        match &vals[v] {
            Some(s) => {
                let sums = power_sums(d, s, modulus);
                tables.push(Some(sums));
            },
            None => {
                tables.push(None);
            },
        }
        proof {
            let now = sel.take(v + 1);
            assert forall|t: int| 0 <= t < now.len() implies match (#[trigger] now[t]) {
                Some(s) => {
                    &&& tables@[t] is Some
                    &&& tables@[t]->0.len() == d + 1
                    &&& forall|k: int|
                        0 <= k <= d ==> #[trigger] tables@[t]->0[k] == power_sum(s, k as nat) % (
                        modulus as int)
                },
                None => tables@[t] is None,
            } by {
                if t < v {
                    assert(now[t] == sel.take(v as int)[t]);
                    assert(tables@[t] == before[t]);
                }
            }
        }
        v = v + 1;
    }
    proof {
        assert(sel.take(v as int) =~= sel);
    }
    tables
}

/// The exponent of each of the first `n` variables in `mono`.
fn dense_exponents(mono: &Vec<(usize, usize)>, n: usize) -> (dense: Vec<usize>)
    requires
        is_canonical(mono@),
        within(mono@, n as int),
    ensures
        dense.len() == n,
        forall|t: int| 0 <= t < n ==> #[trigger] dense[t] == exponent(mono@, t),
{
    let ghost m = mono@;
    let mut dense: Vec<usize> = Vec::new();
    let mut t: usize = 0;
    while t < n
        invariant
            t <= n,
            dense.len() == t,
            forall|j: int| 0 <= j < t ==> #[trigger] dense[j] == 0,
        decreases n - t,
    {
        dense.push(0);
        t = t + 1;
    }
    let mut k: usize = 0;
    proof {
        assert(m.take(0) =~= Seq::empty());
    }
    while k < mono.len()
        invariant
            m == mono@,
            is_canonical(m),
            within(m, n as int),
            k <= mono.len(),
            dense.len() == n,
            forall|j: int| 0 <= j < n ==> #[trigger] dense[j] == exponent(m.take(k as int), j),
        decreases mono.len() - k,
    {
        let var = mono[k].0;
        let power = mono[k].1;
        proof {
            assert(m[k as int].0 < n);
            assert(m.take(k + 1).drop_last() =~= m.take(k as int));
            assert(m.take(k + 1).last() == m[k as int]);
            assert forall|j: int| 0 <= j < k implies (#[trigger] m.take(k as int)[j]).0 != var by {
                assert(m[j].0 < m[k as int].0);
            }
            lemma_exponent_absent(m.take(k as int), var as int);
        }
        dense.set(var, power);
        k = k + 1;
    }
    proof {
        assert(m.take(k as int) =~= m);
    }
    dense
}

/// The coefficient of a term of the sum.
fn summed_coefficient(
    coeff: u64,
    mono: &Vec<(usize, usize)>,
    vals: &Vec<Option<Vec<u64>>>,
    tables: &Vec<Option<Vec<u64>>>,
    d: usize,
    modulus: u64,
) -> (c: u64)
    requires
        modulus > 0,
        coeff < modulus,
        is_canonical(mono@),
        within(mono@, vals.len() as int),
        total_degree(mono@) <= d,
        tables_match(tables@, selections(vals@), d as int, modulus as int),
    ensures
        c < modulus,
        congruent(
            c as int,
            coeff * weight(mono@, selections(vals@), vals.len() as nat),
            modulus as int,
        ),
{
    let ghost p = modulus as int;
    let ghost sel = selections(vals@);
    let ghost m = mono@;
    let n = vals.len();
    let dense = dense_exponents(mono, n);
    let mut c: u64 = coeff;
    let mut v: usize = 0;
    proof {
        assert(coeff * 1 == coeff) by (nonlinear_arith);
    }
    while v < n
        invariant
            modulus > 0,
            p == modulus as int,
            sel == selections(vals@),
            m == mono@,
            n == vals.len(),
            v <= n,
            c < modulus,
            total_degree(m) <= d,
            dense.len() == n,
            forall|t: int| 0 <= t < n ==> #[trigger] dense[t] == exponent(m, t),
            tables_match(tables@, sel, d as int, p),
            congruent(c as int, coeff * weight(m, sel, v as nat), p),
        decreases n - v,
    {
        proof {
            lemma_exponent_bounds(m, v as int);
            assert(dense[v as int] == exponent(m, v as int));
        }
        let ghost choice = sel[v as int];
        match &tables[v] {
            Some(sums) => {
                let e = dense[v];
                let factor = sums[e];
                let ghost before = c as int;
                c = mul_mod(c, factor, modulus);
                proof {
                    let s = choice->0;
                    let exact = power_sum(s, e as nat);
                    let w = weight(m, sel, v as nat);
                    assert(tables@[v as int]->0[e as int] == exact % p);
                    lemma_mod_twice(exact, p);
                    lemma_mod_twice(before * factor, p);
                    lemma_congruent_mul(before, coeff * w, factor as int, exact, p);
                    assert(coeff * w * exact == coeff * (w * exact)) by (nonlinear_arith);
                }
            },
            None => {
                proof {
                    let w = weight(m, sel, v as nat);
                    assert(coeff * (w * 1) == coeff * w) by (nonlinear_arith);
                }
            },
        }
        v = v + 1;
    }
    c
}

/// The free part of a monomial.
fn free_monomial(mono: &Vec<(usize, usize)>, vals: &Vec<Option<Vec<u64>>>) -> (kept: Vec<
    (usize, usize),
>)
    requires
        within(mono@, vals.len() as int),
    ensures
        kept@ == free_part(mono@, selections(vals@)),
{
    let ghost sel = selections(vals@);
    let ghost m = mono@;
    let mut kept: Vec<(usize, usize)> = Vec::new();
    let mut k: usize = 0;
    proof {
        assert(m.take(0) =~= Seq::empty());
    }
    while k < mono.len()
        invariant
            m == mono@,
            sel == selections(vals@),
            within(m, vals.len() as int),
            k <= mono.len(),
            kept@ == free_part(m.take(k as int), sel),
        decreases mono.len() - k,
    {
        let var = mono[k].0;
        let power = mono[k].1;
        proof {
            assert(m[k as int].0 < vals.len());
            assert(m.take(k + 1).drop_last() =~= m.take(k as int));
            assert(m.take(k + 1).last() == m[k as int]);
            assert(m[k as int] == (var, power));
        }
        match &vals[var] {
            Some(_) => {},
            None => {
                kept.push((var, power));
            },
        }
        k = k + 1;
    }
    proof {
        assert(m.take(k as int) =~= m);
    }
    kept
}

/// The polynomial that `f` becomes when each variable with a selection
/// is summed over the values selected for it, and the others stay free.
/// Summing over a single value evaluates the variable at that value.
///
/// The coefficient of a monomial in the result is the sum, over the
/// terms of `f` whose monomial has that free part, of the coefficient
/// times the power sums of the summed variables. The value of the
/// result at a point is the sum of the values of `f` over the selected
/// values.
pub fn partial_summation(f: &MultiPoly, vals: &Vec<Option<Vec<u64>>>) -> (r: MultiPoly)
    requires
        f.wf(),
        vals.len() == f.num_vars,
    ensures
        r.wf(),
        r.modulus == f.modulus,
        r.num_vars == f.num_vars,
        forall|m: Seq<(usize, usize)>| #[trigger]
            coeff_of(r@, m) == coeff_of(summed_terms(f@, selections(vals@)), m) % (
            f.modulus as int),
        forall|x: Seq<int>|
            x.len() == f.num_vars ==> congruent(
                #[trigger] poly_eval(r@, x),
                summation(f@, selections(vals@), x),
                f.modulus as int,
            ),
        (forall|v: int| 0 <= v < vals.len() ==> vals[v] is None) ==> r@ == f@,
{
    let ghost p = f.modulus as int;
    let ghost sel = selections(vals@);
    let ghost target = summed_terms(f@, sel);
    let n = f.num_vars;
    let d = f.degree();
    proof {
        lemma_max_total_degree_below(f@, usize::MAX as int);
    }
    let tables = power_tables(vals, d, f.modulus);
    let mut raw: Vec<(u64, Vec<(usize, usize)>)> = Vec::new();
    let mut i: usize = 0;
    while i < f.terms.len()
        invariant
            f.wf(),
            p == f.modulus as int,
            sel == selections(vals@),
            target == summed_terms(f@, sel),
            n == f.num_vars,
            n == vals.len(),
            d == max_total_degree(f@),
            tables_match(tables@, sel, d as int, p),
            i <= f.terms.len(),
            raw.len() == i,
            monomials_wf(term_views(raw@), n as int),
            forall|j: int|
                0 <= j < i ==> (#[trigger] term_views(raw@)[j]).1 == target[j].1 && congruent(
                    term_views(raw@)[j].0,
                    target[j].0,
                    p,
                ),
        decreases f.terms.len() - i,
    {
        let mono = &f.terms[i].1;
        let ghost raw_old = term_views(raw@);
        proof {
            assert(f@[i as int].1 == mono@);
            lemma_max_total_degree(f@, i as int);
            lemma_free_part(mono@, sel, n as int);
        }
        let c = summed_coefficient(f.terms[i].0, mono, vals, &tables, d, f.modulus);
        let kept = free_monomial(mono, vals);
        let listed = sorted_powers(kept);
        proof {
            lemma_canonical_unique(listed@, kept@);
        }
        raw.push((c, listed));
        proof {
            let raw_new = term_views(raw@);
            assert forall|j: int| 0 <= j < raw_new.len() implies {
                &&& is_canonical((#[trigger] raw_new[j]).1)
                &&& within(raw_new[j].1, n as int)
                &&& total_degree(raw_new[j].1) < usize::MAX
            } by {
                if j < i {
                    assert(raw_new[j] == raw_old[j]);
                }
            }
            assert forall|j: int| 0 <= j < i + 1 implies (#[trigger] raw_new[j]).1 == target[j].1
                && congruent(raw_new[j].0, target[j].0, p) by {
                if j < i {
                    assert(raw_new[j] == raw_old[j]);
                }
            }
        }
        i = i + 1;
    }
    let r = MultiPoly::from_coefficients_vec(f.modulus, n, raw);
    proof {
        assert forall|m: Seq<(usize, usize)>| #[trigger]
            coeff_of(r@, m) == coeff_of(target, m) % p by {
            lemma_coeff_of_congruent(term_views(raw@), target, m, p);
        }
        assert forall|x: Seq<int>| x.len() == f.num_vars implies congruent(
            #[trigger] poly_eval(r@, x),
            summation(f@, sel, x),
            p,
        ) by {
            lemma_summation_value(f@, sel, r@, x, p);
        }
        if forall|v: int| 0 <= v < vals.len() ==> vals[v] is None {
            lemma_summed_terms_free(f@, sel);
            assert forall|m: Seq<(usize, usize)>| #[trigger] coeff_of(r@, m) == coeff_of(f@, m) by {
                lemma_coeff_of_range(f@, m, p);
                lemma_small_mod(coeff_of(f@, m) as nat, p as nat);
            }
            lemma_canonical_terms_unique(r@, f@, p, n as int);
        }
    }
    r
}

/// The polynomial that `poly` becomes when `variable` takes the value
/// `value`.
pub fn partial_eval(poly: &MultiPoly, value: u64, variable: usize) -> (r: MultiPoly)
    requires
        poly.wf(),
    ensures
        r.wf(),
        r.modulus == poly.modulus,
        r.num_vars == poly.num_vars,
        forall|m: Seq<(usize, usize)>| #[trigger]
            coeff_of(r@, m) == coeff_of(
                summed_terms(
                    poly@,
                    point_selection(poly.num_vars as int, variable as int, value as int),
                ),
                m,
            ) % (poly.modulus as int),
        variable < poly.num_vars ==> forall|x: Seq<int>|
            x.len() == poly.num_vars ==> congruent(
                #[trigger] poly_eval(r@, x),
                poly_eval(poly@, x.update(variable as int, value as int)),
                poly.modulus as int,
            ),
        variable >= poly.num_vars ==> r@ == poly@,
{
    let n = poly.num_vars;
    let mut vals: Vec<Option<Vec<u64>>> = Vec::new();
    let mut v: usize = 0;
    while v < n
        invariant
            v <= n,
            vals.len() == v,
            selections(vals@) =~= point_selection(v as int, variable as int, value as int),
        decreases n - v,
    {
        let ghost before = selections(vals@);
        if v == variable {
            let mut single: Vec<u64> = Vec::new();
            single.push(value);
            proof {
                assert(as_ints(single@) =~= seq![value as int]);
            }
            vals.push(Some(single));
        } else {
            vals.push(None);
        }
        proof {
            let now = selections(vals@);
            let want = point_selection(v + 1, variable as int, value as int);
            assert(now.len() == want.len());
            assert forall|t: int| 0 <= t < now.len() implies now[t] == want[t] by {
                if t < v {
                    assert(now[t] == before[t]);
                }
            }
        }
        v = v + 1;
    }
    let r = partial_summation(poly, &vals);
    proof {
        if variable >= n {
            assert forall|v: int| 0 <= v < vals.len() implies vals[v] is None by {
                assert(selections(vals@)[v] is None);
            }
        }
        if variable < n {
            assert forall|x: Seq<int>| x.len() == n implies congruent(
                #[trigger] poly_eval(r@, x),
                poly_eval(poly@, x.update(variable as int, value as int)),
                poly.modulus as int,
            ) by {
                lemma_summation_single(poly@, n as int, variable as int, value as int, x);
            }
        }
    }
    r
}

/// The univariate polynomial in `variable` that `poly` becomes when every
/// other variable is zero: its coefficient of each power is the
/// coefficient that `poly` gives that power of `variable` alone.
pub fn into_univariate(poly: &MultiPoly, variable: usize) -> (r: UniPoly)
    requires
        poly.wf(),
    ensures
        r.coeffs.len() == max_total_degree(poly@) + 1,
        forall|e: int|
            0 <= e < r.coeffs.len() ==> #[trigger] r.coeffs[e] == coeff_of(
                poly@,
                pure_power(variable, e as usize),
            ),
        variable < poly.num_vars ==> forall|x: Seq<int>|
            x.len() == poly.num_vars && (zero_elsewhere(x, variable as int) || forall|i: int|
                0 <= i < poly@.len() ==> only_variable((#[trigger] poly@[i]).1, variable as int))
                ==> uni_eval(r@, x[variable as int]) == #[trigger] poly_eval(poly@, x),
{
    let ghost p = poly.modulus as int;
    let d = poly.degree();
    proof {
        lemma_max_total_degree_below(poly@, usize::MAX as int);
    }
    let mut coeffs: Vec<u64> = Vec::new();
    let mut e: usize = 0;
    while e <= d
        invariant
            d < usize::MAX,
            e <= d + 1,
            coeffs.len() == e,
            forall|t: int| 0 <= t < e ==> #[trigger] coeffs[t] == 0,
        decreases d + 1 - e,
    {
        coeffs.push(0);
        e = e + 1;
    }
    let mut i: usize = 0;
    proof {
        assert(poly@.take(0) =~= Seq::empty());
        lemma_small_mod(0, p as nat);
    }
    while i < poly.terms.len()
        invariant
            poly.wf(),
            p == poly.modulus as int,
            d == max_total_degree(poly@),
            d < usize::MAX,
            i <= poly.terms.len(),
            coeffs.len() == d + 1,
            forall|t: int|
                0 <= t <= d ==> #[trigger] coeffs[t] == coeff_of(
                    poly@.take(i as int),
                    pure_power(variable, t as usize),
                ) % p,
        decreases poly.terms.len() - i,
    {
        let mono = &poly.terms[i].1;
        let c = poly.terms[i].0;
        let ghost m = poly@[i as int].1;
        let ghost before = coeffs@;
        proof {
            assert(m == mono@);
            assert(poly@[i as int].0 == c);
            assert(poly@.take(i + 1).drop_last() =~= poly@.take(i as int));
            assert(poly@.take(i + 1).last() == poly@[i as int]);
            lemma_max_total_degree(poly@, i as int);
        }
        if mono.len() == 0 {
            let sum = add_mod(coeffs[0], c, poly.modulus);
            coeffs.set(0, sum);
            proof {
                assert(m =~= pure_power(variable, 0));
                assert forall|t: int| 0 <= t <= d implies #[trigger] coeffs[t] == coeff_of(
                    poly@.take(i + 1),
                    pure_power(variable, t as usize),
                ) % p by {
                    if t == 0 {
                        lemma_add_mod_noop_right(
                            c as int,
                            coeff_of(poly@.take(i as int), pure_power(variable, 0)),
                            p,
                        );
                    } else {
                        assert(pure_power(variable, t as usize).len() == 1);
                        assert(coeffs[t] == before[t]);
                    }
                }
            }
        } else if mono.len() == 1 && mono[0].0 == variable {
            let exp = mono[0].1;
            proof {
                lemma_entry_bounds(m, 0);
                assert(m[0] == (variable, exp));
                assert(m =~= pure_power(variable, exp));
            }
            let sum = add_mod(coeffs[exp], c, poly.modulus);
            coeffs.set(exp, sum);
            proof {
                assert forall|t: int| 0 <= t <= d implies #[trigger] coeffs[t] == coeff_of(
                    poly@.take(i + 1),
                    pure_power(variable, t as usize),
                ) % p by {
                    if t == exp {
                        lemma_add_mod_noop_right(
                            c as int,
                            coeff_of(poly@.take(i as int), pure_power(variable, exp)),
                            p,
                        );
                    } else {
                        assert(coeffs[t] == before[t]);
                        if t > 0 {
                            assert(pure_power(variable, t as usize)[0] == (variable, t as usize));
                        }
                    }
                }
            }
        } else {
            proof {
                assert forall|t: int| 0 <= t <= d implies #[trigger] coeffs[t] == coeff_of(
                    poly@.take(i + 1),
                    pure_power(variable, t as usize),
                ) % p by {
                    if t > 0 {
                        assert(pure_power(variable, t as usize)[0] == (variable, t as usize));
                    }
                }
            }
        }
        i = i + 1;
    }
    proof {
        assert(poly@.take(i as int) =~= poly@);
        assert forall|t: int| 0 <= t <= d implies #[trigger] coeffs[t] == coeff_of(
            poly@,
            pure_power(variable, t as usize),
        ) by {
            lemma_coeff_of_range(poly@, pure_power(variable, t as usize), p);
            lemma_small_mod(coeff_of(poly@, pure_power(variable, t as usize)) as nat, p as nat);
        }
    }
    let r = UniPoly { coeffs };
    proof {
        assert(r@ =~= coefficients_of(poly@, variable, (d + 1) as nat));
        if variable < poly.num_vars {
            assert forall|x: Seq<int>|
                x.len() == poly.num_vars && (zero_elsewhere(x, variable as int) || forall|i: int|
                    0 <= i < poly@.len() ==> only_variable(
                        (#[trigger] poly@[i]).1,
                        variable as int,
                    )) implies uni_eval(r@, x[variable as int]) == #[trigger] poly_eval(
                poly@,
                x,
            ) by {
                assert forall|i: int| 0 <= i < poly@.len() implies total_degree(
                    (#[trigger] poly@[i]).1,
                ) < d + 1 by {
                    lemma_max_total_degree(poly@, i);
                }
                lemma_coefficients_of(poly@, variable, (d + 1) as nat, x);
            }
        }
    }
    r
}

/// The list `m` names, with a power other than zero, only variables
/// among the first `num_vars`, and its powers add up to less than
/// `usize::MAX`.
pub open spec fn monomial_fits(m: Seq<(usize, usize)>, num_vars: int) -> bool {
    &&& total_degree(m) < usize::MAX
    &&& forall|k: int| 0 <= k < m.len() && (#[trigger] m[k]).1 != 0 ==> m[k].0 < num_vars
}

/// A polynomial in `num_vars` variables can be made of the list: each of
/// its monomials fits.
pub open spec fn listable(spec: Seq<(u64, Vec<(usize, usize)>)>, num_vars: int) -> bool {
    forall|i: int| 0 <= i < spec.len() ==> monomial_fits((#[trigger] spec[i]).1@, num_vars)
}

/// Whether the monomial fits.
fn fits_monomial(num_vars: usize, m: &Vec<(usize, usize)>) -> (ok: bool)
    ensures
        ok == monomial_fits(m@, num_vars as int),
{
    let mut total: usize = 0;
    let mut k: usize = 0;
    proof {
        assert(m@.take(0) =~= Seq::empty());
    }
    while k < m.len()
        invariant
            k <= m.len(),
            total == total_degree(m@.take(k as int)),
            total < usize::MAX,
            forall|t: int| 0 <= t < k && (#[trigger] m@[t]).1 != 0 ==> m@[t].0 < num_vars,
        decreases m.len() - k,
    {
        let var = m[k].0;
        let power = m[k].1;
        proof {
            assert(m@.take(k + 1).drop_last() =~= m@.take(k as int));
            assert(m@.take(k + 1).last() == m@[k as int]);
            lemma_total_degree_prefix(m@, k + 1);
        }
        if power != 0 && var >= num_vars {
            return false;
        }
        if power >= usize::MAX - total {
            return false;
        }
        total = total + power;
        k = k + 1;
    }
    proof {
        assert(m@.take(k as int) =~= m@);
    }
    true
}

/// Whether a polynomial in `num_vars` variables can be made of the list.
pub fn fits(num_vars: usize, spec: &Vec<(u64, Vec<(usize, usize)>)>) -> (ok: bool)
    ensures
        ok == listable(spec@, num_vars as int),
{
    let mut i: usize = 0;
    while i < spec.len()
        invariant
            i <= spec.len(),
            forall|t: int| 0 <= t < i ==> monomial_fits((#[trigger] spec@[t]).1@, num_vars as int),
        decreases spec.len() - i,
    {
        if !fits_monomial(num_vars, &spec[i].1) {
            return false;
        }
        i = i + 1;
    }
    true
}

/// The polynomial over the field `T` with the listed terms. A monomial
/// may be listed in any form and more than once: the coefficient of a
/// monomial is the sum of the coefficients listed for it.
pub fn construct_poly<T: FieldConfig>(num_vars: usize, spec: Vec<(u64, Vec<(usize, usize)>)>) -> (r:
    MultiPoly)
    requires
        listable(spec@, num_vars as int),
    ensures
        r.wf(),
        r.modulus == T::spec_modulus(),
        r.num_vars == num_vars,
        forall|m: Seq<(usize, usize)>|
            is_canonical(m) ==> #[trigger] coeff_of(r@, m) == coeff_of_monomial(
                term_views(spec@),
                m,
            ) % (T::spec_modulus() as int),
{
    let modulus = T::modulus();
    let ghost p = modulus as int;
    let ghost listed = term_views(spec@);
    let mut rest = spec;
    let mut done: Vec<(u64, Vec<(usize, usize)>)> = Vec::new();
    // The terms are taken from the end of the list, so `done` holds them
    // in reverse.
    while rest.len() > 0
        invariant
            modulus >= 2,
            p == modulus as int,
            listed == term_views(spec@),
            rest.len() + done.len() == spec.len(),
            rest@ == spec@.take(rest.len() as int),
            monomials_wf(term_views(done@), num_vars as int),
            forall|j: int|
                0 <= j < done.len() ==> {
                    &&& same_monomial(
                        (#[trigger] term_views(done@)[j]).1,
                        listed[spec.len() - 1 - j].1,
                    )
                    &&& term_views(done@)[j].0 % p == listed[spec.len() - 1 - j].0 % p
                },
            listable(spec@, num_vars as int),
        decreases rest.len(),
    {
        let ghost at = rest.len() - 1;
        let ghost done_old = term_views(done@);
        let (coeff, monom) = rest.pop().unwrap();
        proof {
            assert(spec@[at] == (coeff, monom));
            assert(listed[at] == (coeff as int, monom@));
        }
        let ghost given = monom@;
        let canonical = sorted_powers(monom);
        proof {
            let c = canonical@;
            assert forall|k: int| 0 <= k < c.len() implies (#[trigger] c[k]).0 < num_vars by {
                lemma_exponent_present(c, k);
                assert(exponent(c, c[k].0 as int) == exponent(given, c[k].0 as int));
                let w = lemma_exponent_witness(given, c[k].0 as int);
                assert(spec[at].1[w] == given[w]);
            }
        }
        done.push((coeff % modulus, canonical));
        proof {
            let done_new = term_views(done@);
            lemma_mod_twice(coeff as int, p);
            assert forall|j: int| 0 <= j < done_new.len() implies {
                &&& is_canonical((#[trigger] done_new[j]).1)
                &&& within(done_new[j].1, num_vars as int)
                &&& total_degree(done_new[j].1) < usize::MAX
                &&& same_monomial(done_new[j].1, listed[spec.len() - 1 - j].1)
                &&& done_new[j].0 % p == listed[spec.len() - 1 - j].0 % p
            } by {
                if j < done_old.len() {
                    assert(done_new[j] == done_old[j]);
                }
            }
            assert(rest@ =~= spec@.take(rest.len() as int));
        }
    }
    let r = MultiPoly::from_coefficients_vec(modulus, num_vars, done);
    proof {
        let c = term_views(done@);
        let back = listed.reverse();
        assert forall|m: Seq<(usize, usize)>| is_canonical(m) implies #[trigger] coeff_of(r@, m)
            == coeff_of_monomial(listed, m) % p by {
            assert forall|i: int| 0 <= i < c.len() implies {
                &&& is_canonical((#[trigger] c[i]).1)
                &&& same_monomial(c[i].1, back[i].1)
                &&& c[i].0 % p == back[i].0 % p
            } by {
                assert(back[i] == listed[spec.len() - 1 - i]);
            }
            lemma_coeff_of_canonical(c, back, m, p);
            lemma_coeff_of_monomial_reverse(listed, m);
            lemma_mod_twice(coeff_of(c, m), p);
        }
    }
    r
}

/// The constant polynomial over the field `T` with the given value.
pub fn construct_const_poly<T: FieldConfig>(num_vars: usize, value: u64) -> (r: MultiPoly)
    ensures
        r.wf(),
        r.modulus == T::spec_modulus(),
        r.num_vars == num_vars,
        r@ == if value % T::spec_modulus() == 0 {
            Seq::<(int, Seq<(usize, usize)>)>::empty()
        } else {
            seq![((value % T::spec_modulus()) as int, Seq::<(usize, usize)>::empty())]
        },
{
    let modulus = T::modulus();
    let ghost p = modulus as int;
    let c = value % modulus;
    let mut terms: Vec<(u64, Vec<(usize, usize)>)> = Vec::new();
    terms.push((c, Vec::new()));
    let ghost raw = term_views(terms@);
    let ghost unit = Seq::<(usize, usize)>::empty();
    proof {
        assert(raw[0] == (c as int, unit));
        assert(raw.drop_last() =~= Seq::empty());
        assert(raw.last() == raw[0]);
        assert(total_degree(unit) == 0);
    }
    let r = MultiPoly::from_coefficients_vec(modulus, num_vars, terms);
    proof {
        lemma_small_mod(c as nat, p as nat);
        assert forall|i: int| 0 <= i < r@.len() implies (#[trigger] r@[i]).1 == unit by {
            lemma_coeff_of_sorted(r@, i);
            assert(coeff_of(r@, r@[i].1) == coeff_of(raw, r@[i].1) % p);
            if r@[i].1 != unit {
                assert(coeff_of(raw.drop_last(), r@[i].1) == 0);
                assert(coeff_of(raw, r@[i].1) == 0);
                lemma_small_mod(0, p as nat);
            }
        }
        if r@.len() > 1 {
            assert(precedes(r@[0].1, r@[1].1));
            lemma_precedes_irreflexive(unit);
        }
        assert(coeff_of(r@, unit) == coeff_of(raw, unit) % p);
        assert(coeff_of(raw.drop_last(), unit) == 0);
        assert(coeff_of(raw, unit) == c);
        if c == 0 {
            if r@.len() > 0 {
                lemma_coeff_of_sorted(r@, 0);
            }
            assert(r@ =~= Seq::empty());
        } else {
            let i = lemma_coeff_of_witness(r@, unit);
            lemma_coeff_of_sorted(r@, 0);
            assert(r@ =~= seq![(c as int, unit)]);
        }
    }
    r
}

/// Every coefficient is zero.
pub open spec fn all_zero(c: Seq<u64>) -> bool {
    forall|i: int| 0 <= i < c.len() ==> c[i] == 0
}

/// The text of the term with the coefficient `coeff` and the power `exp`
/// of the variable named `var`. A coefficient one is not written but in
/// the constant term, nor is a power one.
pub open spec fn term_text(exp: nat, coeff: nat, var: Seq<char>) -> Seq<char> {
    if exp == 0 {
        decimal(coeff)
    } else if exp == 1 {
        if coeff == 1 {
            var
        } else {
            decimal(coeff) + seq!['*'] + var
        }
    } else if coeff == 1 {
        var + seq!['^'] + decimal(exp)
    } else {
        decimal(coeff) + seq!['*'] + var + seq!['^'] + decimal(exp)
    }
}

/// The texts of the terms whose coefficient is not zero, from the
/// highest power down, with ` + ` between them.
pub open spec fn terms_text(c: Seq<u64>, var: Seq<char>) -> Seq<char>
    decreases c.len(),
{
    if c.len() == 0 {
        Seq::empty()
    } else if c.last() == 0 {
        terms_text(c.drop_last(), var)
    } else if all_zero(c.drop_last()) {
        term_text((c.len() - 1) as nat, c.last() as nat, var)
    } else {
        term_text((c.len() - 1) as nat, c.last() as nat, var) + seq![' ', '+', ' '] + terms_text(
            c.drop_last(),
            var,
        )
    }
}

/// The text of the polynomial with the coefficients `c`: its terms, or
/// `0` for the polynomial without any.
pub open spec fn univ_poly_text(c: Seq<u64>, var: Seq<char>) -> Seq<char> {
    if all_zero(c) {
        seq!['0']
    } else {
        terms_text(c, var)
    }
}

/// The term as text.
fn format_term(exp: usize, coeff: u64, varname: &str) -> (s: String)
    ensures
        s@ == term_text(exp as nat, coeff as nat, varname@),
{
    proof {
        reveal_strlit("*");
        reveal_strlit("^");
        assert("*"@ =~= seq!['*']);
        assert("^"@ =~= seq!['^']);
    }
    if exp == 0 {
        decimal_text(coeff)
    } else if exp == 1 {
        if coeff == 1 {
            String::from_str(varname)
        } else {
            let mut s = decimal_text(coeff);
            s.append("*");
            s.append(varname);
            s
        }
    } else if coeff == 1 {
        let mut s = String::from_str(varname);
        s.append("^");
        s.append(decimal_text(exp as u64).as_str());
        s
    } else {
        let mut s = decimal_text(coeff);
        s.append("*");
        s.append(varname);
        s.append("^");
        s.append(decimal_text(exp as u64).as_str());
        s
    }
}

/// The polynomial as text, in the variable named `varname`: the terms
/// from the highest power down.
pub fn format_univ_poly(poly: &UniPoly, varname: &str) -> (s: String)
    ensures
        s@ == univ_poly_text(poly.coeffs@, varname@),
{
    let ghost c = poly.coeffs@;
    let ghost var = varname@;
    let mut out = String::new();
    let mut started = false;
    let mut i: usize = poly.coeffs.len();
    proof {
        reveal_strlit(" + ");
        reveal_strlit("0");
        assert(" + "@ =~= seq![' ', '+', ' ']);
        assert("0"@ =~= seq!['0']);
        assert(c.take(i as int) =~= c);
    }
    while i > 0
        invariant
            c == poly.coeffs@,
            var == varname@,
            i <= c.len(),
            " + "@ == seq![' ', '+', ' '],
            !started ==> out@ == Seq::<char>::empty() && terms_text(c, var) == terms_text(
                c.take(i as int),
                var,
            ) && forall|k: int| i <= k < c.len() ==> c[k] == 0,
            started ==> !all_zero(c) && terms_text(c, var) == out@ + if all_zero(c.take(i as int)) {
                Seq::<char>::empty()
            } else {
                seq![' ', '+', ' '] + terms_text(c.take(i as int), var)
            },
        decreases i,
    {
        let ghost upper = c.take(i as int);
        let ghost lower = c.take(i - 1);
        let ghost out_old = out@;
        proof {
            assert(upper.drop_last() =~= lower);
            assert(upper.last() == c[i - 1]);
            assert(all_zero(upper) <==> (all_zero(lower) && c[i - 1] == 0)) by {
                if all_zero(lower) && c[i - 1] == 0 {
                    assert forall|k: int| 0 <= k < upper.len() implies upper[k] == 0 by {
                        if k < i - 1 {
                            assert(lower[k] == 0);
                        }
                    }
                }
                if all_zero(upper) {
                    assert(upper[i - 1] == 0);
                    assert forall|k: int| 0 <= k < lower.len() implies lower[k] == 0 by {
                        assert(upper[k] == 0);
                    }
                }
            }
        }
        i = i - 1;
        let coeff = poly.coeffs[i];
        if coeff != 0 {
            let term = format_term(i, coeff, varname);
            if started {
                out.append(" + ");
            }
            out.append(term.as_str());
            proof {
                let t = term_text(i as nat, coeff as nat, var);
                let sep = seq![' ', '+', ' '];
                if started {
                    assert(out@ =~= out_old + sep + t);
                    if all_zero(lower) {
                        assert(out_old + (sep + t) =~= out@ + Seq::<char>::empty());
                    } else {
                        assert(out_old + (sep + (t + sep + terms_text(lower, var))) =~= out@ + (sep
                            + terms_text(lower, var)));
                    }
                } else {
                    assert(out@ =~= t);
                    if all_zero(lower) {
                        assert(t =~= out@ + Seq::<char>::empty());
                    } else {
                        assert(t + sep + terms_text(lower, var) =~= out@ + (sep + terms_text(
                            lower,
                            var,
                        )));
                    }
                    assert(c[i as int] != 0);
                }
            }
            started = true;
        }
    }
    if !started {
        proof {
            assert(all_zero(c));
        }
        return String::from_str("0");
    }
    proof {
        assert(c.take(0) =~= Seq::<u64>::empty());
        assert(out@ + Seq::<char>::empty() =~= out@);
    }
    out
}

} // verus!
