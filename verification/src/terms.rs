//! Lists of terms, each a coefficient with a monomial, and the
//! coefficient that such a list gives a monomial.

use crate::monomials::{
    exponent, is_canonical, lemma_canonical_unique, lemma_precedes_irreflexive,
    lemma_precedes_transitive, precedes, same_monomial, total_degree, within,
};
use crate::small_fields::{congruent, lemma_congruent_add, lemma_congruent_mul};
use vstd::arithmetic::div_mod::lemma_small_mod;
use vstd::prelude::*;

verus! {

/// The terms of an executable list with the coefficients as integers and
/// the monomials as sequences.
pub open spec fn term_views(terms: Seq<(u64, Vec<(usize, usize)>)>) -> Seq<
    (int, Seq<(usize, usize)>),
> {
    Seq::new(terms.len(), |i: int| (terms[i].0 as int, terms[i].1@))
}

/// The sum of the coefficients that `ts` lists with the monomial `m`.
pub open spec fn coeff_of(ts: Seq<(int, Seq<(usize, usize)>)>, m: Seq<(usize, usize)>) -> int
    decreases ts.len(),
{
    if ts.len() == 0 {
        0
    } else {
        coeff_of(ts.drop_last(), m) + if ts.last().1 == m {
            ts.last().0
        } else {
            0
        }
    }
}

/// The sum of the coefficients that `ts` lists with a monomial that
/// denotes the same monomial as `m`.
pub open spec fn coeff_of_monomial(
    ts: Seq<(int, Seq<(usize, usize)>)>,
    m: Seq<(usize, usize)>,
) -> int
    decreases ts.len(),
{
    if ts.len() == 0 {
        0
    } else {
        coeff_of_monomial(ts.drop_last(), m) + if same_monomial(ts.last().1, m) {
            ts.last().0
        } else {
            0
        }
    }
}

/// The canonical list of the power `e` of the variable `v`.
pub open spec fn pure_power(v: usize, e: usize) -> Seq<(usize, usize)> {
    if e == 0 {
        Seq::empty()
    } else {
        seq![(v, e)]
    }
}

/// Each monomial canonical, within the first `num_vars` variables and of
/// a total degree below `usize::MAX`.
pub open spec fn monomials_wf(ts: Seq<(int, Seq<(usize, usize)>)>, num_vars: int) -> bool {
    forall|i: int|
        0 <= i < ts.len() ==> {
            &&& is_canonical((#[trigger] ts[i]).1)
            &&& within(ts[i].1, num_vars)
            &&& total_degree(ts[i].1) < usize::MAX
        }
}

/// The monomials in strictly increasing order.
pub open spec fn sorted(ts: Seq<(int, Seq<(usize, usize)>)>) -> bool {
    forall|i: int, j: int|
        0 <= i < j < ts.len() ==> precedes((#[trigger] ts[i]).1, (#[trigger] ts[j]).1)
}

/// The canonical list of terms of a polynomial over `Z/p`.
pub open spec fn terms_wf(ts: Seq<(int, Seq<(usize, usize)>)>, p: int, num_vars: int) -> bool {
    &&& monomials_wf(ts, num_vars)
    &&& sorted(ts)
    &&& forall|i: int| 0 <= i < ts.len() ==> 0 < (#[trigger] ts[i]).0 < p
}

/// The highest total degree of a listed monomial; zero for the empty
/// list.
pub open spec fn max_total_degree(ts: Seq<(int, Seq<(usize, usize)>)>) -> int
    decreases ts.len(),
{
    if ts.len() == 0 {
        0
    } else {
        let before = max_total_degree(ts.drop_last());
        let here = total_degree(ts.last().1);
        if here > before {
            here
        } else {
            before
        }
    }
}

/// The highest exponent that the variable `v` has in a term whose
/// coefficient is not zero in `Z/p`; zero where it has none.
pub open spec fn max_exponent(ts: Seq<(int, Seq<(usize, usize)>)>, v: int, p: int) -> int
    decreases ts.len(),
{
    if ts.len() == 0 {
        0
    } else {
        let before = max_exponent(ts.drop_last(), v, p);
        let here = if ts.last().0 % p != 0 {
            exponent(ts.last().1, v)
        } else {
            0
        };
        if here > before {
            here
        } else {
            before
        }
    }
}

/// No listed monomial has a total degree above the highest.
pub proof fn lemma_max_total_degree(ts: Seq<(int, Seq<(usize, usize)>)>, i: int)
    requires
        0 <= i < ts.len(),
    ensures
        total_degree(ts[i].1) <= max_total_degree(ts),
    decreases ts.len(),
{
    if i < ts.len() - 1 {
        lemma_max_total_degree(ts.drop_last(), i);
    }
}

/// The highest total degree is not negative.
pub proof fn lemma_max_total_degree_positive(ts: Seq<(int, Seq<(usize, usize)>)>)
    ensures
        0 <= max_total_degree(ts),
    decreases ts.len(),
{
    if ts.len() > 0 {
        lemma_max_total_degree_positive(ts.drop_last());
    }
}

/// A bound on every total degree bounds the highest.
pub proof fn lemma_max_total_degree_below(ts: Seq<(int, Seq<(usize, usize)>)>, bound: int)
    requires
        0 < bound,
        forall|i: int| 0 <= i < ts.len() ==> total_degree((#[trigger] ts[i]).1) < bound,
    ensures
        max_total_degree(ts) < bound,
    decreases ts.len(),
{
    if ts.len() > 0 {
        let front = ts.drop_last();
        assert forall|i: int| 0 <= i < front.len() implies total_degree((#[trigger] front[i]).1)
            < bound by {
            assert(front[i] == ts[i]);
        }
        lemma_max_total_degree_below(front, bound);
        assert(ts.last() == ts[ts.len() - 1]);
    }
}

/// No term with a coefficient other than zero gives the variable an
/// exponent above the highest.
pub proof fn lemma_max_exponent(ts: Seq<(int, Seq<(usize, usize)>)>, v: int, p: int, i: int)
    requires
        0 <= i < ts.len(),
        ts[i].0 % p != 0,
    ensures
        exponent(ts[i].1, v) <= max_exponent(ts, v, p),
    decreases ts.len(),
{
    if i < ts.len() - 1 {
        lemma_max_exponent(ts.drop_last(), v, p, i);
    }
}

/// The highest exponent is not negative.
pub proof fn lemma_max_exponent_positive(ts: Seq<(int, Seq<(usize, usize)>)>, v: int, p: int)
    ensures
        0 <= max_exponent(ts, v, p),
    decreases ts.len(),
{
    if ts.len() > 0 {
        lemma_max_exponent_positive(ts.drop_last(), v, p);
    }
}

/// Inserting a term adds its coefficient to that of its monomial.
pub proof fn lemma_coeff_of_insert(
    ts: Seq<(int, Seq<(usize, usize)>)>,
    pos: int,
    t: (int, Seq<(usize, usize)>),
    m: Seq<(usize, usize)>,
)
    requires
        0 <= pos <= ts.len(),
    ensures
        coeff_of(ts.insert(pos, t), m) == coeff_of(ts, m) + if t.1 == m {
            t.0
        } else {
            0
        },
    decreases ts.len(),
{
    let r = ts.insert(pos, t);
    if pos == ts.len() {
        assert(r.drop_last() =~= ts);
    } else {
        assert(r.drop_last() =~= ts.drop_last().insert(pos, t));
        lemma_coeff_of_insert(ts.drop_last(), pos, t, m);
    }
}

/// Replacing the coefficient of a term changes the coefficient of its
/// monomial by the difference.
pub proof fn lemma_coeff_of_update(
    ts: Seq<(int, Seq<(usize, usize)>)>,
    pos: int,
    t: (int, Seq<(usize, usize)>),
    m: Seq<(usize, usize)>,
)
    requires
        0 <= pos < ts.len(),
        ts[pos].1 == t.1,
    ensures
        coeff_of(ts.update(pos, t), m) == coeff_of(ts, m) + if t.1 == m {
            t.0 - ts[pos].0
        } else {
            0
        },
    decreases ts.len(),
{
    let r = ts.update(pos, t);
    if pos == ts.len() - 1 {
        assert(r.drop_last() =~= ts.drop_last());
    } else {
        assert(r.drop_last() =~= ts.drop_last().update(pos, t));
        lemma_coeff_of_update(ts.drop_last(), pos, t, m);
    }
}

/// Removing a term takes its coefficient from that of its monomial.
pub proof fn lemma_coeff_of_remove(
    ts: Seq<(int, Seq<(usize, usize)>)>,
    pos: int,
    m: Seq<(usize, usize)>,
)
    requires
        0 <= pos < ts.len(),
    ensures
        coeff_of(ts.remove(pos), m) == coeff_of(ts, m) - if ts[pos].1 == m {
            ts[pos].0
        } else {
            0
        },
    decreases ts.len(),
{
    let r = ts.remove(pos);
    if pos == ts.len() - 1 {
        assert(r =~= ts.drop_last());
    } else {
        assert(r.drop_last() =~= ts.drop_last().remove(pos));
        lemma_coeff_of_remove(ts.drop_last(), pos, m);
    }
}

/// A monomial with a coefficient other than zero is listed.
pub proof fn lemma_coeff_of_witness(ts: Seq<(int, Seq<(usize, usize)>)>, m: Seq<(usize, usize)>) -> (i:
    int)
    requires
        coeff_of(ts, m) != 0,
    ensures
        0 <= i < ts.len(),
        ts[i].1 == m,
    decreases ts.len(),
{
    if ts.last().1 == m {
        ts.len() - 1
    } else {
        lemma_coeff_of_witness(ts.drop_last(), m)
    }
}

/// A monomial that is not listed has coefficient zero.
pub proof fn lemma_coeff_of_absent(ts: Seq<(int, Seq<(usize, usize)>)>, m: Seq<(usize, usize)>)
    requires
        forall|i: int| 0 <= i < ts.len() ==> (#[trigger] ts[i]).1 != m,
    ensures
        coeff_of(ts, m) == 0,
    decreases ts.len(),
{
    if ts.len() > 0 {
        lemma_coeff_of_absent(ts.drop_last(), m);
    }
}

/// In a sorted list the coefficient of a listed monomial is the one
/// listed with it.
pub proof fn lemma_coeff_of_sorted(ts: Seq<(int, Seq<(usize, usize)>)>, i: int)
    requires
        sorted(ts),
        0 <= i < ts.len(),
    ensures
        coeff_of(ts, ts[i].1) == ts[i].0,
    decreases ts.len(),
{
    let m = ts[i].1;
    let front = ts.drop_last();
    if i == ts.len() - 1 {
        assert forall|j: int| 0 <= j < front.len() implies (#[trigger] front[j]).1 != m by {
            assert(precedes(ts[j].1, ts[i].1));
            lemma_precedes_irreflexive(m);
        }
        lemma_coeff_of_absent(front, m);
    } else {
        assert(precedes(ts[i].1, ts.last().1));
        lemma_precedes_irreflexive(m);
        assert forall|a: int, b: int| 0 <= a < b < front.len() implies precedes(
            (#[trigger] front[a]).1,
            (#[trigger] front[b]).1,
        ) by {
            assert(precedes(ts[a].1, ts[b].1));
        }
        lemma_coeff_of_sorted(front, i);
    }
}

/// In a canonical list of terms every coefficient is a canonical
/// representative.
pub proof fn lemma_coeff_of_range(ts: Seq<(int, Seq<(usize, usize)>)>, m: Seq<(usize, usize)>, p: int)
    requires
        sorted(ts),
        forall|i: int| 0 <= i < ts.len() ==> 0 < (#[trigger] ts[i]).0 < p,
        p > 0,
    ensures
        0 <= coeff_of(ts, m) < p,
{
    if coeff_of(ts, m) != 0 {
        let i = lemma_coeff_of_witness(ts, m);
        lemma_coeff_of_sorted(ts, i);
    }
}

/// Where each monomial of `c` is the canonical list of the monomial at
/// the same place in `raw`, and the coefficients there are congruent,
/// `c` gives a canonical list the coefficient that `raw` gives its
/// monomial.
pub proof fn lemma_coeff_of_canonical(
    c: Seq<(int, Seq<(usize, usize)>)>,
    raw: Seq<(int, Seq<(usize, usize)>)>,
    m: Seq<(usize, usize)>,
    p: int,
)
    requires
        p > 0,
        is_canonical(m),
        c.len() == raw.len(),
        forall|i: int|
            0 <= i < c.len() ==> {
                &&& is_canonical((#[trigger] c[i]).1)
                &&& same_monomial(c[i].1, raw[i].1)
                &&& c[i].0 % p == raw[i].0 % p
            },
    ensures
        coeff_of(c, m) % p == coeff_of_monomial(raw, m) % p,
    decreases c.len(),
{
    if c.len() > 0 {
        let c0 = c.drop_last();
        let raw0 = raw.drop_last();
        assert forall|i: int| 0 <= i < c0.len() implies {
            &&& is_canonical((#[trigger] c0[i]).1)
            &&& same_monomial(c0[i].1, raw0[i].1)
            &&& c0[i].0 % p == raw0[i].0 % p
        } by {
            assert(c0[i] == c[i] && raw0[i] == raw[i]);
        }
        lemma_coeff_of_canonical(c0, raw0, m, p);
        let last = c[c.len() - 1];
        assert(c.last() == last);
        if same_monomial(raw.last().1, m) {
            assert forall|v: int| exponent(last.1, v) == exponent(m, v) by {
                assert(exponent(last.1, v) == exponent(raw.last().1, v));
                assert(exponent(raw.last().1, v) == exponent(m, v));
            }
            lemma_canonical_unique(last.1, m);
            lemma_congruent_add(
                coeff_of(c0, m),
                coeff_of_monomial(raw0, m),
                last.0,
                raw.last().0,
                p,
            );
        } else {
            if last.1 == m {
                assert forall|v: int| exponent(raw.last().1, v) == exponent(m, v) by {
                    assert(exponent(last.1, v) == exponent(raw.last().1, v));
                }
            }
        }
    }
}

/// A term put in front adds its coefficient to that of the monomial it
/// denotes.
pub proof fn lemma_coeff_of_monomial_push_front(
    t: (int, Seq<(usize, usize)>),
    ts: Seq<(int, Seq<(usize, usize)>)>,
    m: Seq<(usize, usize)>,
)
    ensures
        coeff_of_monomial(seq![t] + ts, m) == coeff_of_monomial(ts, m) + if same_monomial(t.1, m) {
            t.0
        } else {
            0
        },
    decreases ts.len(),
{
    let all = seq![t] + ts;
    if ts.len() == 0 {
        assert(all.drop_last() =~= ts);
        assert(all.last() == t);
    } else {
        assert(all.drop_last() =~= seq![t] + ts.drop_last());
        assert(all.last() == ts.last());
        lemma_coeff_of_monomial_push_front(t, ts.drop_last(), m);
    }
}

/// The order of the list does not matter to the coefficient.
pub proof fn lemma_coeff_of_monomial_reverse(
    ts: Seq<(int, Seq<(usize, usize)>)>,
    m: Seq<(usize, usize)>,
)
    ensures
        coeff_of_monomial(ts.reverse(), m) == coeff_of_monomial(ts, m),
    decreases ts.len(),
{
    if ts.len() > 0 {
        let front = ts.drop_last();
        assert(ts.reverse() =~= seq![ts.last()] + front.reverse());
        lemma_coeff_of_monomial_push_front(ts.last(), front.reverse(), m);
        lemma_coeff_of_monomial_reverse(front, m);
    } else {
        assert(ts.reverse() =~= ts);
    }
}

/// The highest total degree of a monomial among the first terms of
/// `all`, as many as `ts` has, to which `all` gives a coefficient that is
/// not zero in `Z/p`; zero where there is none.
pub open spec fn degree_among(
    all: Seq<(int, Seq<(usize, usize)>)>,
    ts: Seq<(int, Seq<(usize, usize)>)>,
    p: int,
) -> int
    decreases ts.len(),
{
    if ts.len() == 0 {
        0
    } else {
        let before = degree_among(all, ts.drop_last(), p);
        let here = if coeff_of(all, ts.last().1) % p != 0 {
            total_degree(ts.last().1)
        } else {
            0
        };
        if here > before {
            here
        } else {
            before
        }
    }
}

/// The total degree over `Z/p` of the polynomial with the terms `ts`,
/// which may list a monomial more than once: the highest total degree
/// of a monomial whose coefficients add up to something other than zero
/// in `Z/p`; zero where there is none.
pub open spec fn residue_degree(ts: Seq<(int, Seq<(usize, usize)>)>, p: int) -> int {
    degree_among(ts, ts, p)
}

/// The degree is not negative, is at least the total degree of every
/// term that counts, and is the total degree of one of them unless it is
/// zero.
proof fn lemma_degree_among(
    all: Seq<(int, Seq<(usize, usize)>)>,
    ts: Seq<(int, Seq<(usize, usize)>)>,
    p: int,
)
    ensures
        0 <= degree_among(all, ts, p),
        forall|i: int|
            0 <= i < ts.len() && coeff_of(all, (#[trigger] ts[i]).1) % p != 0 ==> total_degree(
                ts[i].1,
            ) <= degree_among(all, ts, p),
        degree_among(all, ts, p) == 0 || exists|i: int|
            0 <= i < ts.len() && coeff_of(all, (#[trigger] ts[i]).1) % p != 0 && total_degree(
                ts[i].1,
            ) == degree_among(all, ts, p),
    decreases ts.len(),
{
    if ts.len() > 0 {
        let front = ts.drop_last();
        lemma_degree_among(all, front, p);
        assert forall|i: int|
            0 <= i < ts.len() && coeff_of(all, (#[trigger] ts[i]).1) % p != 0 implies total_degree(
            ts[i].1,
        ) <= degree_among(all, ts, p) by {
            if i < front.len() {
                assert(front[i] == ts[i]);
            }
        }
        if degree_among(all, ts, p) != 0 {
            if degree_among(all, ts, p) == degree_among(all, front, p) {
                let i = choose|i: int|
                    0 <= i < front.len() && coeff_of(all, (#[trigger] front[i]).1) % p != 0
                        && total_degree(front[i].1) == degree_among(all, front, p);
                assert(ts[i] == front[i]);
            } else {
                assert(ts[ts.len() - 1] == ts.last());
            }
        }
    }
}

/// The highest total degree is that of a listed monomial, unless it is
/// zero.
proof fn lemma_max_total_degree_attained(ts: Seq<(int, Seq<(usize, usize)>)>)
    ensures
        max_total_degree(ts) == 0 || exists|i: int|
            0 <= i < ts.len() && total_degree((#[trigger] ts[i]).1) == max_total_degree(ts),
    decreases ts.len(),
{
    if ts.len() > 0 {
        let front = ts.drop_last();
        lemma_max_total_degree_attained(front);
        if max_total_degree(ts) != 0 {
            if max_total_degree(ts) == max_total_degree(front) {
                let i = choose|i: int|
                    0 <= i < front.len() && total_degree((#[trigger] front[i]).1)
                        == max_total_degree(front);
                assert(ts[i] == front[i]);
            } else {
                assert(ts[ts.len() - 1] == ts.last());
            }
        }
    }
}

/// The canonical list whose coefficients are the residues of those of
/// `ts` has the total degree of `ts` over `Z/p`.
pub proof fn lemma_residue_degree(
    r: Seq<(int, Seq<(usize, usize)>)>,
    ts: Seq<(int, Seq<(usize, usize)>)>,
    p: int,
)
    requires
        p > 0,
        sorted(r),
        forall|i: int| 0 <= i < r.len() ==> 0 < (#[trigger] r[i]).0 < p,
        forall|m: Seq<(usize, usize)>| #[trigger] coeff_of(r, m) == coeff_of(ts, m) % p,
    ensures
        max_total_degree(r) == residue_degree(ts, p),
{
    lemma_degree_among(ts, ts, p);
    lemma_max_total_degree_attained(r);
    lemma_max_total_degree_positive(r);
    if max_total_degree(r) != 0 {
        let i = choose|i: int|
            0 <= i < r.len() && total_degree((#[trigger] r[i]).1) == max_total_degree(r);
        let m = r[i].1;
        lemma_coeff_of_sorted(r, i);
        assert(coeff_of(r, m) == coeff_of(ts, m) % p);
        if coeff_of(ts, m) == 0 {
            lemma_small_mod(0, p as nat);
        }
        let k = lemma_coeff_of_witness(ts, m);
        assert(coeff_of(ts, ts[k].1) % p != 0);
    }
    if residue_degree(ts, p) != 0 {
        let k = choose|k: int|
            0 <= k < ts.len() && coeff_of(ts, (#[trigger] ts[k]).1) % p != 0 && total_degree(
                ts[k].1,
            ) == degree_among(ts, ts, p);
        let m = ts[k].1;
        assert(coeff_of(r, m) == coeff_of(ts, m) % p);
        let i = lemma_coeff_of_witness(r, m);
        lemma_max_total_degree(r, i);
    }
}

/// The sum, over the terms of `ts`, of the coefficient times the value
/// that `value` gives the monomial.
pub open spec fn weighted_sum(
    ts: Seq<(int, Seq<(usize, usize)>)>,
    value: spec_fn(Seq<(usize, usize)>) -> int,
) -> int
    decreases ts.len(),
{
    if ts.len() == 0 {
        0
    } else {
        weighted_sum(ts.drop_last(), value) + ts.last().0 * value(ts.last().1)
    }
}

/// The list `ts` without the terms that list the monomial `m`.
pub open spec fn without_monomial(
    ts: Seq<(int, Seq<(usize, usize)>)>,
    m: Seq<(usize, usize)>,
) -> Seq<(int, Seq<(usize, usize)>)>
    decreases ts.len(),
{
    if ts.len() == 0 {
        Seq::empty()
    } else if ts.last().1 == m {
        without_monomial(ts.drop_last(), m)
    } else {
        without_monomial(ts.drop_last(), m).push(ts.last())
    }
}

/// Taking the terms with the monomial `m` out of a list takes the
/// coefficient of `m`, times the value of `m`, out of its weighted sum,
/// and leaves the coefficients of the other monomials as they are.
pub proof fn lemma_without_monomial(
    ts: Seq<(int, Seq<(usize, usize)>)>,
    m: Seq<(usize, usize)>,
    value: spec_fn(Seq<(usize, usize)>) -> int,
)
    ensures
        without_monomial(ts, m).len() <= ts.len(),
        ts.len() > 0 && ts.last().1 == m ==> without_monomial(ts, m).len() < ts.len(),
        weighted_sum(ts, value) == weighted_sum(without_monomial(ts, m), value) + coeff_of(ts, m)
            * value(m),
        coeff_of(without_monomial(ts, m), m) == 0,
        forall|other: Seq<(usize, usize)>|
            other != m ==> #[trigger] coeff_of(without_monomial(ts, m), other) == coeff_of(
                ts,
                other,
            ),
    decreases ts.len(),
{
    if ts.len() > 0 {
        let front = ts.drop_last();
        let last = ts.last();
        let rest = without_monomial(front, m);
        lemma_without_monomial(front, m, value);
        let here = value(m);
        if last.1 == m {
            assert((coeff_of(front, m) + last.0) * here == coeff_of(front, m) * here + last.0
                * here) by (nonlinear_arith);
        } else {
            let out = rest.push(last);
            assert(out.drop_last() =~= rest);
            assert(out.last() == last);
        }
        assert forall|other: Seq<(usize, usize)>| other != m implies #[trigger] coeff_of(
            without_monomial(ts, m),
            other,
        ) == coeff_of(ts, other) by {
            assert(coeff_of(rest, other) == coeff_of(front, other));
            if last.1 != m {
                assert(rest.push(last).drop_last() =~= rest);
            }
        }
    }
}

/// Two lists of terms that give every monomial congruent coefficients
/// have congruent weighted sums.
pub proof fn lemma_weighted_sum_congruent(
    a: Seq<(int, Seq<(usize, usize)>)>,
    b: Seq<(int, Seq<(usize, usize)>)>,
    value: spec_fn(Seq<(usize, usize)>) -> int,
    p: int,
)
    requires
        p > 0,
        forall|m: Seq<(usize, usize)>| congruent(#[trigger] coeff_of(a, m), coeff_of(b, m), p),
    ensures
        congruent(weighted_sum(a, value), weighted_sum(b, value), p),
    decreases a.len() + b.len(),
{
    if a.len() + b.len() > 0 {
        let m = if a.len() > 0 {
            a.last().1
        } else {
            b.last().1
        };
        let a0 = without_monomial(a, m);
        let b0 = without_monomial(b, m);
        lemma_without_monomial(a, m, value);
        lemma_without_monomial(b, m, value);
        assert forall|other: Seq<(usize, usize)>|
            congruent(#[trigger] coeff_of(a0, other), coeff_of(b0, other), p) by {
            assert(congruent(coeff_of(a, other), coeff_of(b, other), p));
        }
        lemma_weighted_sum_congruent(a0, b0, value, p);
        let here = value(m);
        assert(congruent(coeff_of(a, m), coeff_of(b, m), p));
        lemma_congruent_mul(coeff_of(a, m), coeff_of(b, m), here, here, p);
        lemma_congruent_add(
            weighted_sum(a0, value),
            weighted_sum(b0, value),
            coeff_of(a, m) * here,
            coeff_of(b, m) * here,
            p,
        );
    }
}

/// Two lists of terms that give every monomial congruent coefficients
/// have the same total degree over `Z/p`.
pub proof fn lemma_residue_degree_congruent(
    a: Seq<(int, Seq<(usize, usize)>)>,
    b: Seq<(int, Seq<(usize, usize)>)>,
    p: int,
)
    requires
        p > 0,
        forall|m: Seq<(usize, usize)>| congruent(#[trigger] coeff_of(a, m), coeff_of(b, m), p),
    ensures
        residue_degree(a, p) == residue_degree(b, p),
{
    lemma_degree_among(a, a, p);
    lemma_degree_among(b, b, p);
    if residue_degree(a, p) != 0 {
        let i = choose|i: int|
            0 <= i < a.len() && coeff_of(a, (#[trigger] a[i]).1) % p != 0 && total_degree(a[i].1)
                == degree_among(a, a, p);
        let m = a[i].1;
        assert(congruent(coeff_of(a, m), coeff_of(b, m), p));
        if coeff_of(b, m) == 0 {
            lemma_small_mod(0, p as nat);
        }
        let k = lemma_coeff_of_witness(b, m);
        assert(coeff_of(b, b[k].1) % p != 0);
    }
    if residue_degree(b, p) != 0 {
        let i = choose|i: int|
            0 <= i < b.len() && coeff_of(b, (#[trigger] b[i]).1) % p != 0 && total_degree(b[i].1)
                == degree_among(b, b, p);
        let m = b[i].1;
        assert(congruent(coeff_of(a, m), coeff_of(b, m), p));
        if coeff_of(a, m) == 0 {
            lemma_small_mod(0, p as nat);
        }
        let k = lemma_coeff_of_witness(a, m);
        assert(coeff_of(a, a[k].1) % p != 0);
    }
}

/// A polynomial has one canonical list of terms: two canonical lists
/// that give every monomial the same coefficient are the same list.
pub proof fn lemma_canonical_terms_unique(
    a: Seq<(int, Seq<(usize, usize)>)>,
    b: Seq<(int, Seq<(usize, usize)>)>,
    p: int,
    num_vars: int,
)
    requires
        terms_wf(a, p, num_vars),
        terms_wf(b, p, num_vars),
        forall|m: Seq<(usize, usize)>| #[trigger] coeff_of(a, m) == coeff_of(b, m),
    ensures
        a == b,
    decreases a.len(),
{
    if a.len() == 0 {
        if b.len() > 0 {
            lemma_coeff_of_sorted(b, 0);
            assert(coeff_of(a, b[0].1) == coeff_of(b, b[0].1));
        }
        assert(a =~= b);
    } else {
        let la = a.len() - 1;
        let ma = a[la].1;
        lemma_coeff_of_sorted(a, la);
        assert(coeff_of(a, ma) == coeff_of(b, ma));
        let kb = lemma_coeff_of_witness(b, ma);
        let lb = b.len() - 1;
        let mb = b[lb].1;
        lemma_coeff_of_sorted(b, lb);
        assert(coeff_of(a, mb) == coeff_of(b, mb));
        let ka = lemma_coeff_of_witness(a, mb);
        if kb < lb && ka < la {
            assert(precedes(b[kb].1, b[lb].1));
            assert(precedes(a[ka].1, a[la].1));
            lemma_precedes_transitive(ma, mb, ma);
            lemma_precedes_irreflexive(ma);
        }
        assert(ma == mb);
        assert(a.last() == b.last());
        let a0 = a.drop_last();
        let b0 = b.drop_last();
        assert forall|m: Seq<(usize, usize)>| #[trigger] coeff_of(a0, m) == coeff_of(b0, m) by {
            assert(coeff_of(a, m) == coeff_of(b, m));
        }
        assert(terms_wf(a0, p, num_vars)) by {
            assert forall|i: int| 0 <= i < a0.len() implies {
                &&& is_canonical((#[trigger] a0[i]).1)
                &&& within(a0[i].1, num_vars)
                &&& total_degree(a0[i].1) < usize::MAX
                &&& 0 < a0[i].0 < p
            } by {
                assert(a0[i] == a[i]);
            }
            assert forall|i: int, j: int| 0 <= i < j < a0.len() implies precedes(
                (#[trigger] a0[i]).1,
                (#[trigger] a0[j]).1,
            ) by {
                assert(a0[i] == a[i] && a0[j] == a[j]);
            }
        }
        assert(terms_wf(b0, p, num_vars)) by {
            assert forall|i: int| 0 <= i < b0.len() implies {
                &&& is_canonical((#[trigger] b0[i]).1)
                &&& within(b0[i].1, num_vars)
                &&& total_degree(b0[i].1) < usize::MAX
                &&& 0 < b0[i].0 < p
            } by {
                assert(b0[i] == b[i]);
            }
            assert forall|i: int, j: int| 0 <= i < j < b0.len() implies precedes(
                (#[trigger] b0[i]).1,
                (#[trigger] b0[j]).1,
            ) by {
                assert(b0[i] == b[i] && b0[j] == b[j]);
            }
        }
        lemma_canonical_terms_unique(a0, b0, p, num_vars);
        assert(a =~= a0.push(a.last()));
        assert(b =~= b0.push(b.last()));
    }
}

/// The total degree over `Z/p` is not negative nor above the highest
/// total degree, and no monomial with a coefficient other than zero in
/// `Z/p` has a total degree above it.
pub proof fn lemma_residue_degree_bounds(ts: Seq<(int, Seq<(usize, usize)>)>, p: int)
    requires
        p > 0,
    ensures
        0 <= residue_degree(ts, p) <= max_total_degree(ts),
        forall|m: Seq<(usize, usize)>|
            #[trigger] coeff_of(ts, m) % p != 0 ==> total_degree(m) <= residue_degree(ts, p),
{
    lemma_degree_among(ts, ts, p);
    lemma_max_total_degree_positive(ts);
    if residue_degree(ts, p) != 0 {
        let i = choose|i: int|
            0 <= i < ts.len() && coeff_of(ts, (#[trigger] ts[i]).1) % p != 0 && total_degree(
                ts[i].1,
            ) == degree_among(ts, ts, p);
        lemma_max_total_degree(ts, i);
    }
    assert forall|m: Seq<(usize, usize)>| #[trigger] coeff_of(ts, m) % p != 0 implies total_degree(
        m,
    ) <= residue_degree(ts, p) by {
        if coeff_of(ts, m) == 0 {
            lemma_small_mod(0, p as nat);
        }
        let k = lemma_coeff_of_witness(ts, m);
        assert(coeff_of(ts, ts[k].1) % p != 0);
    }
}

} // verus!
