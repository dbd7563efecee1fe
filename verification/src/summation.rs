//! Summing variables of a polynomial over finite sets, term by term.
//!
//! A selection names, for each variable, either nothing (the variable
//! stays free) or the list of values over which the variable is summed.

use crate::evaluation::{as_ints, lemma_eval_congruent, mono_eval, poly_eval, power_sum};
use crate::monomials::{exponent, is_canonical, lemma_exponent_bounds, total_degree, within};
use crate::small_fields::{congruent, lemma_congruent_add};
use crate::terms::{
    coeff_of, lemma_coeff_of_sorted, lemma_coeff_of_witness, lemma_weighted_sum_congruent, sorted,
    weighted_sum,
};
use vstd::arithmetic::div_mod::{lemma_mod_twice, lemma_small_mod};
use vstd::arithmetic::power::{lemma_pow0, lemma_pow_adds, pow};
use vstd::prelude::*;

verus! {

/// The selection that an executable list of choices stands for.
pub open spec fn selections(vals: Seq<Option<Vec<u64>>>) -> Seq<Option<Seq<int>>> {
    Seq::new(
        vals.len(),
        |i: int|
            match vals[i] {
                Some(s) => Some(as_ints(s@)),
                None => None,
            },
    )
}

/// The selection that gives the variable `variable` the single value
/// `value` and leaves the other variables free.
pub open spec fn point_selection(num_vars: int, variable: int, value: int) -> Seq<
    Option<Seq<int>>,
> {
    Seq::new(
        num_vars as nat,
        |v: int|
            if v == variable {
                Some(seq![value])
            } else {
                None
            },
    )
}

/// The factor that summing the first `k` variables contributes to the
/// monomial `m`: for each summed variable the sum, over its values, of
/// the value raised to the exponent that `m` gives the variable.
pub open spec fn weight(m: Seq<(usize, usize)>, sel: Seq<Option<Seq<int>>>, k: nat) -> int
    decreases k,
{
    if k == 0 {
        1
    } else {
        weight(m, sel, (k - 1) as nat) * match sel[k - 1] {
            Some(s) => power_sum(s, exponent(m, k - 1) as nat),
            None => 1,
        }
    }
}

/// The list `m` without the variables that are summed.
pub open spec fn free_part(m: Seq<(usize, usize)>, sel: Seq<Option<Seq<int>>>) -> Seq<
    (usize, usize),
>
    decreases m.len(),
{
    if m.len() == 0 {
        Seq::empty()
    } else if sel[m.last().0 as int] is None {
        free_part(m.drop_last(), sel).push(m.last())
    } else {
        free_part(m.drop_last(), sel)
    }
}

/// The terms of the sum: each term of `ts` with its coefficient times
/// the factor of its monomial, and with the free part of its monomial.
pub open spec fn summed_terms(
    ts: Seq<(int, Seq<(usize, usize)>)>,
    sel: Seq<Option<Seq<int>>>,
) -> Seq<(int, Seq<(usize, usize)>)> {
    Seq::new(
        ts.len(),
        |i: int| (ts[i].0 * weight(ts[i].1, sel, sel.len()), free_part(ts[i].1, sel)),
    )
}

/// The free part of a canonical list is canonical, names no variable
/// above the last of the list and has at most its total degree.
pub proof fn lemma_free_part(m: Seq<(usize, usize)>, sel: Seq<Option<Seq<int>>>, num_vars: int)
    requires
        is_canonical(m),
        within(m, num_vars),
    ensures
        is_canonical(free_part(m, sel)),
        within(free_part(m, sel), num_vars),
        0 <= total_degree(free_part(m, sel)) <= total_degree(m),
        free_part(m, sel).len() <= m.len(),
        m.len() > 0 ==> forall|j: int|
            0 <= j < free_part(m, sel).len() ==> (#[trigger] free_part(m, sel)[j]).0 <= m.last().0,
    decreases m.len(),
{
    if m.len() > 0 {
        let front = m.drop_last();
        let r = free_part(front, sel);
        assert forall|i: int| 0 <= i < front.len() implies (#[trigger] front[i]).1 > 0 by {
            assert(front[i] == m[i]);
        }
        assert forall|i: int, j: int| 0 <= i < j < front.len() implies (#[trigger] front[i]).0 < (
        #[trigger] front[j]).0 by {
            assert(front[i] == m[i] && front[j] == m[j]);
        }
        assert forall|i: int| 0 <= i < front.len() implies (#[trigger] front[i]).0 < num_vars by {
            assert(front[i] == m[i]);
        }
        lemma_free_part(front, sel, num_vars);
        if front.len() > 0 {
            assert(front.last() == m[m.len() - 2]);
            assert(front.last().0 < m.last().0);
        }
        if sel[m.last().0 as int] is None {
            let out = r.push(m.last());
            assert(out.drop_last() =~= r);
            assert forall|i: int, j: int| 0 <= i < j < out.len() implies (#[trigger] out[i]).0 < (
            #[trigger] out[j]).0 by {
                if j == out.len() - 1 {
                    assert(out[i] == r[i]);
                } else {
                    assert(out[i] == r[i] && out[j] == r[j]);
                }
            }
            assert forall|i: int| 0 <= i < out.len() implies (#[trigger] out[i]).1 > 0 by {
                if i < out.len() - 1 {
                    assert(out[i] == r[i]);
                }
            }
            assert forall|i: int| 0 <= i < out.len() implies (#[trigger] out[i]).0 < num_vars by {
                if i < out.len() - 1 {
                    assert(out[i] == r[i]);
                }
            }
        }
    }
}

/// Lists of terms with the same monomials and congruent coefficients
/// give each monomial congruent coefficients.
pub proof fn lemma_coeff_of_congruent(
    a: Seq<(int, Seq<(usize, usize)>)>,
    b: Seq<(int, Seq<(usize, usize)>)>,
    m: Seq<(usize, usize)>,
    p: int,
)
    requires
        p > 0,
        a.len() == b.len(),
        forall|i: int|
            0 <= i < a.len() ==> (#[trigger] a[i]).1 == b[i].1 && congruent(a[i].0, b[i].0, p),
    ensures
        congruent(coeff_of(a, m), coeff_of(b, m), p),
    decreases a.len(),
{
    if a.len() > 0 {
        let a0 = a.drop_last();
        let b0 = b.drop_last();
        assert forall|i: int| 0 <= i < a0.len() implies (#[trigger] a0[i]).1 == b0[i].1
            && congruent(a0[i].0, b0[i].0, p) by {
            assert(a0[i] == a[i] && b0[i] == b[i]);
        }
        lemma_coeff_of_congruent(a0, b0, m, p);
        assert(a.last() == a[a.len() - 1]);
        if a.last().1 == m {
            lemma_congruent_add(coeff_of(a0, m), coeff_of(b0, m), a.last().0, b.last().0, p);
        }
    }
}

/// The number of values selected for the variable `k - 1`.
pub open spec fn count(sel: Seq<Option<Seq<int>>>, k: nat) -> nat {
    if 0 < k <= sel.len() && sel[k - 1] is Some {
        sel[k - 1]->0.len()
    } else {
        0
    }
}

/// The sum of the values of `ts` at the points that agree with `x` but
/// for the summed variables among the first `k`: each of these takes
/// every value selected for it, the variable `k - 1` only the first `j`
/// of its values.
pub open spec fn sum_over(
    ts: Seq<(int, Seq<(usize, usize)>)>,
    sel: Seq<Option<Seq<int>>>,
    x: Seq<int>,
    k: nat,
    j: nat,
) -> int
    decreases k, j,
{
    if k == 0 {
        poly_eval(ts, x)
    } else {
        let below = (k - 1) as nat;
        match sel[k - 1] {
            None => sum_over(ts, sel, x, below, count(sel, below)),
            Some(s) => if j == 0 {
                0
            } else {
                sum_over(ts, sel, x, k, (j - 1) as nat) + sum_over(
                    ts,
                    sel,
                    x.update(k - 1, s[j - 1]),
                    below,
                    count(sel, below),
                )
            },
        }
    }
}

/// The sum of the values of `ts` at the points that agree with `x` in
/// the free variables and take, in each summed variable, every value
/// selected for it.
pub open spec fn summation(
    ts: Seq<(int, Seq<(usize, usize)>)>,
    sel: Seq<Option<Seq<int>>>,
    x: Seq<int>,
) -> int {
    sum_over(ts, sel, x, sel.len(), count(sel, sel.len()))
}

/// The list `m` without the summed variables among the first `k`.
pub open spec fn free_below(m: Seq<(usize, usize)>, sel: Seq<Option<Seq<int>>>, k: int) -> Seq<
    (usize, usize),
>
    decreases m.len(),
{
    if m.len() == 0 {
        Seq::empty()
    } else if m.last().0 < k && sel[m.last().0 as int] is Some {
        free_below(m.drop_last(), sel, k)
    } else {
        free_below(m.drop_last(), sel, k).push(m.last())
    }
}

/// The list `m` without the variable `v`.
pub open spec fn without_var(m: Seq<(usize, usize)>, v: int) -> Seq<(usize, usize)>
    decreases m.len(),
{
    if m.len() == 0 {
        Seq::empty()
    } else if m.last().0 == v {
        without_var(m.drop_last(), v)
    } else {
        without_var(m.drop_last(), v).push(m.last())
    }
}

/// The factor of `m` for the first `k` variables, with only the first
/// `j` values of the variable `k - 1`.
pub open spec fn partial_weight(
    m: Seq<(usize, usize)>,
    sel: Seq<Option<Seq<int>>>,
    k: nat,
    j: nat,
) -> int {
    if k == 0 {
        1
    } else {
        weight(m, sel, (k - 1) as nat) * match sel[k - 1] {
            Some(s) => power_sum(s.take(j as int), exponent(m, k - 1) as nat),
            None => 1,
        }
    }
}

/// With every value of the last variable the partial factor is the
/// factor.
pub proof fn lemma_partial_weight_full(m: Seq<(usize, usize)>, sel: Seq<Option<Seq<int>>>, k: nat)
    requires
        k <= sel.len(),
    ensures
        partial_weight(m, sel, k, count(sel, k)) == weight(m, sel, k),
{
    if k > 0 && sel[k - 1] is Some {
        let s = sel[k - 1]->0;
        assert(s.take(s.len() as int) =~= s);
    }
}

/// Without the summed variables among the first none, a list is itself.
pub proof fn lemma_free_below_none(m: Seq<(usize, usize)>, sel: Seq<Option<Seq<int>>>)
    ensures
        free_below(m, sel, 0) == m,
    decreases m.len(),
{
    if m.len() > 0 {
        lemma_free_below_none(m.drop_last(), sel);
        assert(m.drop_last().push(m.last()) =~= m);
    } else {
        assert(m =~= Seq::empty());
    }
}

/// Without the summed variables among all, a list is its free part.
pub proof fn lemma_free_below_all(m: Seq<(usize, usize)>, sel: Seq<Option<Seq<int>>>)
    requires
        within(m, sel.len() as int),
    ensures
        free_below(m, sel, sel.len() as int) == free_part(m, sel),
    decreases m.len(),
{
    if m.len() > 0 {
        let front = m.drop_last();
        assert forall|i: int| 0 <= i < front.len() implies (#[trigger] front[i]).0
            < sel.len() by {
            assert(front[i] == m[i]);
        }
        lemma_free_below_all(front, sel);
        assert(m.last() == m[m.len() - 1]);
    }
}

/// Going from the first `k` variables to the first `k + 1` takes the
/// variable `k` out where it is summed and changes nothing where it is
/// free. Before that the list gives the variable `k` the exponent that
/// `m` gives it.
pub proof fn lemma_free_below_step(m: Seq<(usize, usize)>, sel: Seq<Option<Seq<int>>>, k: int)
    requires
        0 <= k < sel.len(),
    ensures
        exponent(free_below(m, sel, k), k) == exponent(m, k),
        sel[k] is None ==> free_below(m, sel, k + 1) == free_below(m, sel, k),
        sel[k] is Some ==> free_below(m, sel, k + 1) == without_var(free_below(m, sel, k), k),
    decreases m.len(),
{
    if m.len() > 0 {
        let front = m.drop_last();
        lemma_free_below_step(front, sel, k);
        let last = m.last();
        if !(last.0 < k && sel[last.0 as int] is Some) {
            let kept = free_below(front, sel, k).push(last);
            assert(kept.drop_last() =~= free_below(front, sel, k));
            assert(kept.last() == last);
        }
    }
}

/// The value of a monomial at a point with a new value `a` for the
/// variable `v`: the power of `a`, times the value of the monomial
/// without `v` at the old point.
pub proof fn lemma_mono_eval_update(m: Seq<(usize, usize)>, x: Seq<int>, v: int, a: int)
    requires
        0 <= v < x.len(),
        within(m, x.len() as int),
    ensures
        0 <= exponent(m, v),
        mono_eval(m, x.update(v, a)) == pow(a, exponent(m, v) as nat) * mono_eval(
            without_var(m, v),
            x,
        ),
    decreases m.len(),
{
    lemma_exponent_bounds(m, v);
    if m.len() == 0 {
        lemma_pow0(a);
    } else {
        let front = m.drop_last();
        let last = m.last();
        assert forall|i: int| 0 <= i < front.len() implies (#[trigger] front[i]).0 < x.len() by {
            assert(front[i] == m[i]);
        }
        assert(last == m[m.len() - 1]);
        lemma_mono_eval_update(front, x, v, a);
        lemma_exponent_bounds(front, v);
        let e0 = exponent(front, v) as nat;
        let rest = mono_eval(without_var(front, v), x);
        if last.0 == v {
            lemma_pow_adds(a, e0, last.1 as nat);
            assert((pow(a, e0) * rest) * pow(a, last.1 as nat) == (pow(a, e0) * pow(
                a,
                last.1 as nat,
            )) * rest) by (nonlinear_arith);
        } else {
            let kept = without_var(front, v).push(last);
            assert(kept.drop_last() =~= without_var(front, v));
            assert(kept.last() == last);
            let factor = pow(x[last.0 as int], last.1 as nat);
            assert((pow(a, e0) * rest) * factor == pow(a, e0) * (rest * factor))
                by (nonlinear_arith);
        }
    }
}

/// The sum for a list of terms is the sum for the list without its last
/// term plus the sum for that term alone.
pub proof fn lemma_sum_over_split(
    ts: Seq<(int, Seq<(usize, usize)>)>,
    sel: Seq<Option<Seq<int>>>,
    x: Seq<int>,
    k: nat,
    j: nat,
)
    requires
        ts.len() > 0,
    ensures
        sum_over(ts, sel, x, k, j) == sum_over(ts.drop_last(), sel, x, k, j) + sum_over(
            seq![ts.last()],
            sel,
            x,
            k,
            j,
        ),
    decreases k, j,
{
    let one = seq![ts.last()];
    if k == 0 {
        assert(one.drop_last() =~= Seq::empty());
        assert(one.last() == ts.last());
        assert(poly_eval(one.drop_last(), x) == 0);
    } else {
        let below = (k - 1) as nat;
        match sel[k - 1] {
            None => {
                lemma_sum_over_split(ts, sel, x, below, count(sel, below));
            },
            Some(s) => {
                if j > 0 {
                    lemma_sum_over_split(ts, sel, x, k, (j - 1) as nat);
                    lemma_sum_over_split(
                        ts,
                        sel,
                        x.update(k - 1, s[j - 1]),
                        below,
                        count(sel, below),
                    );
                }
            },
        }
    }
}

/// The sum for the empty list is zero.
pub proof fn lemma_sum_over_empty(sel: Seq<Option<Seq<int>>>, x: Seq<int>, k: nat, j: nat)
    ensures
        sum_over(Seq::empty(), sel, x, k, j) == 0,
    decreases k, j,
{
    if k > 0 {
        let below = (k - 1) as nat;
        match sel[k - 1] {
            None => {
                lemma_sum_over_empty(sel, x, below, count(sel, below));
            },
            Some(s) => {
                if j > 0 {
                    lemma_sum_over_empty(sel, x, k, (j - 1) as nat);
                    lemma_sum_over_empty(sel, x.update(k - 1, s[j - 1]), below, count(sel, below));
                }
            },
        }
    }
}

/// The sum for a single term: its coefficient, times the factor of its
/// monomial, times the value of what is left of the monomial.
pub proof fn lemma_sum_over_term(
    c: int,
    m: Seq<(usize, usize)>,
    sel: Seq<Option<Seq<int>>>,
    x: Seq<int>,
    k: nat,
    j: nat,
)
    requires
        k <= sel.len(),
        x.len() == sel.len(),
        within(m, sel.len() as int),
        k > 0 && sel[k - 1] is Some ==> j <= sel[k - 1]->0.len(),
    ensures
        sum_over(seq![(c, m)], sel, x, k, j) == c * partial_weight(m, sel, k, j) * mono_eval(
            free_below(m, sel, k as int),
            x,
        ),
    decreases k, j,
{
    let one = seq![(c, m)];
    if k == 0 {
        assert(one.drop_last() =~= Seq::empty());
        assert(one.last() == (c, m));
        assert(poly_eval(one.drop_last(), x) == 0);
        lemma_free_below_none(m, sel);
        assert(c * 1 * mono_eval(m, x) == c * mono_eval(m, x)) by (nonlinear_arith);
    } else {
        let below = (k - 1) as nat;
        let w = weight(m, sel, below);
        lemma_free_below_step(m, sel, k - 1);
        lemma_partial_weight_full(m, sel, below);
        match sel[k - 1] {
            None => {
                lemma_sum_over_term(c, m, sel, x, below, count(sel, below));
                assert(w * 1 == w) by (nonlinear_arith);
            },
            Some(s) => {
                lemma_exponent_bounds(m, k - 1);
                let e = exponent(m, k - 1) as nat;
                let rest = mono_eval(free_below(m, sel, k as int), x);
                if j == 0 {
                    assert(s.take(0) =~= Seq::empty());
                    assert(c * (w * 0) * rest == 0) by (nonlinear_arith);
                } else {
                    let a = s[j - 1];
                    let sums = power_sum(s.take(j - 1), e);
                    lemma_sum_over_term(c, m, sel, x, k, (j - 1) as nat);
                    lemma_sum_over_term(c, m, sel, x.update(k - 1, a), below, count(sel, below));
                    let kept = free_below(m, sel, k - 1);
                    assert forall|i: int| 0 <= i < kept.len() implies (#[trigger] kept[i]).0
                        < x.len() by {
                        lemma_free_below_within(m, sel, k - 1);
                    }
                    lemma_mono_eval_update(kept, x, k - 1, a);
                    assert(s.take(j as int).drop_last() =~= s.take(j - 1));
                    assert(s.take(j as int).last() == a);
                    assert(c * (w * sums) * rest + c * w * (pow(a, e) * rest) == c * (w * (sums
                        + pow(a, e))) * rest) by (nonlinear_arith);
                }
            },
        }
    }
}

/// Taking variables out of a list keeps it within its variables.
pub proof fn lemma_free_below_within(m: Seq<(usize, usize)>, sel: Seq<Option<Seq<int>>>, k: int)
    requires
        within(m, sel.len() as int),
    ensures
        within(free_below(m, sel, k), sel.len() as int),
    decreases m.len(),
{
    if m.len() > 0 {
        let front = m.drop_last();
        assert forall|i: int| 0 <= i < front.len() implies (#[trigger] front[i]).0
            < sel.len() by {
            assert(front[i] == m[i]);
        }
        lemma_free_below_within(front, sel, k);
        assert(m.last() == m[m.len() - 1]);
    }
}

/// Summing term by term gives the sum of the values.
pub proof fn lemma_summed_terms(
    ts: Seq<(int, Seq<(usize, usize)>)>,
    sel: Seq<Option<Seq<int>>>,
    x: Seq<int>,
)
    requires
        x.len() == sel.len(),
        forall|i: int| 0 <= i < ts.len() ==> within((#[trigger] ts[i]).1, sel.len() as int),
    ensures
        poly_eval(summed_terms(ts, sel), x) == summation(ts, sel, x),
    decreases ts.len(),
{
    let n = sel.len();
    if ts.len() == 0 {
        lemma_sum_over_empty(sel, x, n, count(sel, n));
        assert(ts =~= Seq::empty());
        assert(summed_terms(ts, sel) =~= Seq::empty());
    } else {
        let front = ts.drop_last();
        let (c, m) = ts.last();
        assert(ts.last() == ts[ts.len() - 1]);
        assert forall|i: int| 0 <= i < front.len() implies within(
            (#[trigger] front[i]).1,
            n as int,
        ) by {
            assert(front[i] == ts[i]);
        }
        lemma_summed_terms(front, sel, x);
        lemma_sum_over_split(ts, sel, x, n, count(sel, n));
        lemma_sum_over_term(c, m, sel, x, n, count(sel, n));
        lemma_partial_weight_full(m, sel, n);
        lemma_free_below_all(m, sel);
        assert(summed_terms(ts, sel).drop_last() =~= summed_terms(front, sel));
        assert(summed_terms(ts, sel).last() == (c * weight(m, sel, n), free_part(m, sel)));
    }
}

/// The polynomial whose coefficients are those of the term-by-term sum
/// has, at every point, the value of the sum.
pub proof fn lemma_summation_value(
    ts: Seq<(int, Seq<(usize, usize)>)>,
    sel: Seq<Option<Seq<int>>>,
    r: Seq<(int, Seq<(usize, usize)>)>,
    x: Seq<int>,
    p: int,
)
    requires
        p > 0,
        x.len() == sel.len(),
        forall|i: int| 0 <= i < ts.len() ==> within((#[trigger] ts[i]).1, sel.len() as int),
        forall|m: Seq<(usize, usize)>| #[trigger]
            coeff_of(r, m) == coeff_of(summed_terms(ts, sel), m) % p,
    ensures
        congruent(poly_eval(r, x), summation(ts, sel, x), p),
{
    let target = summed_terms(ts, sel);
    assert forall|m: Seq<(usize, usize)>| congruent(#[trigger] coeff_of(r, m), coeff_of(target, m), p) by {
        lemma_mod_twice(coeff_of(target, m), p);
    }
    lemma_eval_congruent(r, target, x, p);
    lemma_summed_terms(ts, sel, x);
}

/// Where no variable among the first `k` is summed, the sum is the
/// value at the point.
pub proof fn lemma_sum_over_free(
    ts: Seq<(int, Seq<(usize, usize)>)>,
    sel: Seq<Option<Seq<int>>>,
    x: Seq<int>,
    k: nat,
    j: nat,
)
    requires
        k <= sel.len(),
        forall|u: int| 0 <= u < k ==> sel[u] is None,
    ensures
        sum_over(ts, sel, x, k, j) == poly_eval(ts, x),
    decreases k,
{
    if k > 0 {
        lemma_sum_over_free(ts, sel, x, (k - 1) as nat, count(sel, (k - 1) as nat));
    }
}

/// Summing one variable over a single value substitutes the value.
pub proof fn lemma_summation_single(
    ts: Seq<(int, Seq<(usize, usize)>)>,
    num_vars: int,
    variable: int,
    value: int,
    x: Seq<int>,
)
    requires
        0 <= variable < num_vars,
    ensures
        summation(ts, point_selection(num_vars, variable, value), x) == poly_eval(
            ts,
            x.update(variable, value),
        ),
{
    let sel = point_selection(num_vars, variable, value);
    lemma_sum_over_single(ts, num_vars, variable, value, x, sel.len());
}

/// From the level above the variable on, the sum is the value at the
/// point with the variable at the value.
proof fn lemma_sum_over_single(
    ts: Seq<(int, Seq<(usize, usize)>)>,
    num_vars: int,
    variable: int,
    value: int,
    x: Seq<int>,
    k: nat,
)
    requires
        0 <= variable < k <= num_vars,
    ensures
        sum_over(
            ts,
            point_selection(num_vars, variable, value),
            x,
            k,
            count(point_selection(num_vars, variable, value), k),
        ) == poly_eval(ts, x.update(variable, value)),
    decreases k,
{
    let sel = point_selection(num_vars, variable, value);
    let below = (k - 1) as nat;
    if k - 1 == variable {
        let s = sel[k - 1]->0;
        assert(s[0] == value);
        assert(sum_over(ts, sel, x, k, 0) == 0);
        lemma_sum_over_free(ts, sel, x.update(variable, value), below, count(sel, below));
    } else {
        lemma_sum_over_single(ts, num_vars, variable, value, x, below);
    }
}

/// The free part of a list names only free variables, and gives each of
/// them the exponent that the list gives it.
pub proof fn lemma_free_part_exponent(m: Seq<(usize, usize)>, sel: Seq<Option<Seq<int>>>, v: int)
    ensures
        exponent(free_part(m, sel), v) == if sel[v] is None {
            exponent(m, v)
        } else {
            0
        },
        forall|k: int|
            0 <= k < free_part(m, sel).len() ==> sel[(#[trigger] free_part(m, sel)[k]).0 as int]
                is None,
    decreases m.len(),
{
    if m.len() > 0 {
        let front = m.drop_last();
        lemma_free_part_exponent(front, sel, v);
        if sel[m.last().0 as int] is None {
            let out = free_part(front, sel).push(m.last());
            assert(out.drop_last() =~= free_part(front, sel));
            assert forall|k: int| 0 <= k < out.len() implies sel[(#[trigger] out[k]).0 as int]
                is None by {
                if k < out.len() - 1 {
                    assert(out[k] == free_part(front, sel)[k]);
                }
            }
        }
    }
}

/// Every monomial of a polynomial whose coefficients are those of the
/// term-by-term sum is the free part of a monomial that was summed.
pub proof fn lemma_summed_monomial(
    ts: Seq<(int, Seq<(usize, usize)>)>,
    sel: Seq<Option<Seq<int>>>,
    r: Seq<(int, Seq<(usize, usize)>)>,
    p: int,
    i: int,
) -> (from: int)
    requires
        p > 0,
        sorted(r),
        forall|k: int| 0 <= k < r.len() ==> 0 < (#[trigger] r[k]).0 < p,
        forall|m: Seq<(usize, usize)>| #[trigger]
            coeff_of(r, m) == coeff_of(summed_terms(ts, sel), m) % p,
        0 <= i < r.len(),
    ensures
        0 <= from < ts.len(),
        r[i].1 == free_part(ts[from].1, sel),
{
    let m = r[i].1;
    lemma_coeff_of_sorted(r, i);
    assert(coeff_of(r, m) == coeff_of(summed_terms(ts, sel), m) % p);
    if coeff_of(summed_terms(ts, sel), m) == 0 {
        lemma_small_mod(0, p as nat);
    }
    lemma_coeff_of_witness(summed_terms(ts, sel), m)
}

/// What a term with the monomial `m` adds, for each unit of its
/// coefficient, to the coefficient that the term-by-term sum gives the
/// monomial `to`.
pub open spec fn share(sel: Seq<Option<Seq<int>>>, to: Seq<(usize, usize)>) -> spec_fn(
    Seq<(usize, usize)>,
) -> int {
    |m: Seq<(usize, usize)>|
        if free_part(m, sel) == to {
            weight(m, sel, sel.len())
        } else {
            0
        }
}

/// The coefficient that the term-by-term sum gives a monomial is the sum
/// of the coefficients weighted by the shares.
pub proof fn lemma_summed_coefficient(
    ts: Seq<(int, Seq<(usize, usize)>)>,
    sel: Seq<Option<Seq<int>>>,
    to: Seq<(usize, usize)>,
)
    ensures
        coeff_of(summed_terms(ts, sel), to) == weighted_sum(ts, share(sel, to)),
    decreases ts.len(),
{
    if ts.len() > 0 {
        lemma_summed_coefficient(ts.drop_last(), sel, to);
        assert(summed_terms(ts, sel).drop_last() =~= summed_terms(ts.drop_last(), sel));
        assert(ts.last().0 * 0 == 0) by (nonlinear_arith);
    } else {
        assert(summed_terms(ts, sel) =~= Seq::empty());
    }
}

/// The coefficients of the term-by-term sum depend, in `Z/p`, only on
/// the coefficients that the list gives the monomials.
pub proof fn lemma_summed_terms_congruent(
    a: Seq<(int, Seq<(usize, usize)>)>,
    b: Seq<(int, Seq<(usize, usize)>)>,
    sel: Seq<Option<Seq<int>>>,
    p: int,
)
    requires
        p > 0,
        forall|m: Seq<(usize, usize)>| congruent(#[trigger] coeff_of(a, m), coeff_of(b, m), p),
    ensures
        forall|to: Seq<(usize, usize)>|
            congruent(
                #[trigger] coeff_of(summed_terms(a, sel), to),
                coeff_of(summed_terms(b, sel), to),
                p,
            ),
{
    assert forall|to: Seq<(usize, usize)>|
        congruent(
            #[trigger] coeff_of(summed_terms(a, sel), to),
            coeff_of(summed_terms(b, sel), to),
            p,
        ) by {
        lemma_summed_coefficient(a, sel, to);
        lemma_summed_coefficient(b, sel, to);
        lemma_weighted_sum_congruent(a, b, share(sel, to), p);
    }
}

/// Where no variable is summed, the term-by-term sum is the list
/// itself.
pub proof fn lemma_summed_terms_free(
    ts: Seq<(int, Seq<(usize, usize)>)>,
    sel: Seq<Option<Seq<int>>>,
)
    requires
        forall|v: int| 0 <= v < sel.len() ==> sel[v] is None,
        forall|i: int| 0 <= i < ts.len() ==> within((#[trigger] ts[i]).1, sel.len() as int),
    ensures
        summed_terms(ts, sel) == ts,
{
    assert forall|i: int| 0 <= i < ts.len() implies summed_terms(ts, sel)[i] == ts[i] by {
        let (c, m) = ts[i];
        lemma_weight_free(m, sel, sel.len());
        lemma_free_part_free(m, sel);
        assert(c * 1 == c) by (nonlinear_arith);
    }
    assert(summed_terms(ts, sel) =~= ts);
}

/// Where no variable is summed every factor is one.
proof fn lemma_weight_free(m: Seq<(usize, usize)>, sel: Seq<Option<Seq<int>>>, k: nat)
    requires
        k <= sel.len(),
        forall|v: int| 0 <= v < sel.len() ==> sel[v] is None,
    ensures
        weight(m, sel, k) == 1,
    decreases k,
{
    if k > 0 {
        lemma_weight_free(m, sel, (k - 1) as nat);
    }
}

/// Where no variable is summed the free part of a list is the list.
proof fn lemma_free_part_free(m: Seq<(usize, usize)>, sel: Seq<Option<Seq<int>>>)
    requires
        within(m, sel.len() as int),
        forall|v: int| 0 <= v < sel.len() ==> sel[v] is None,
    ensures
        free_part(m, sel) == m,
    decreases m.len(),
{
    if m.len() > 0 {
        let front = m.drop_last();
        assert forall|i: int| 0 <= i < front.len() implies (#[trigger] front[i]).0
            < sel.len() by {
            assert(front[i] == m[i]);
        }
        lemma_free_part_free(front, sel);
        assert(m.last() == m[m.len() - 1]);
        assert(front.push(m.last()) =~= m);
    } else {
        assert(m =~= Seq::empty());
    }
}

} // verus!
