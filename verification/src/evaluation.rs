//! What a polynomial evaluates to, over the integers. A value in `Z/p`
//! is the residue of the integer value.

use crate::monomials::{is_canonical, total_degree, within};
use crate::small_fields::{congruent, lemma_congruent_add, lemma_congruent_mul};
use crate::terms::{coeff_of, lemma_weighted_sum_congruent, pure_power, weighted_sum};
use vstd::arithmetic::power::{lemma0_pow, lemma_pow0, pow};
use vstd::prelude::*;

verus! {

/// The elements of a vector as integers.
pub open spec fn as_ints(v: Seq<u64>) -> Seq<int> {
    v.map_values(|x: u64| x as int)
}

/// The value of the monomial `m` at the point `x`: the product of the
/// listed powers of the coordinates.
pub open spec fn mono_eval(m: Seq<(usize, usize)>, x: Seq<int>) -> int
    decreases m.len(),
{
    if m.len() == 0 {
        1
    } else {
        mono_eval(m.drop_last(), x) * pow(x[m.last().0 as int], m.last().1 as nat)
    }
}

/// The value of a list of terms at the point `x`.
pub open spec fn poly_eval(ts: Seq<(int, Seq<(usize, usize)>)>, x: Seq<int>) -> int
    decreases ts.len(),
{
    if ts.len() == 0 {
        0
    } else {
        poly_eval(ts.drop_last(), x) + ts.last().0 * mono_eval(ts.last().1, x)
    }
}

/// The value at `x` of the univariate polynomial with the coefficients
/// `c`, the constant term first.
pub open spec fn uni_eval(c: Seq<int>, x: int) -> int
    decreases c.len(),
{
    if c.len() == 0 {
        0
    } else {
        uni_eval(c.drop_last(), x) + c.last() * pow(x, (c.len() - 1) as nat)
    }
}

/// The degree over `Z/p` of the univariate polynomial with the
/// coefficients `c`: the highest index of a coefficient that is not
/// zero in `Z/p`, and zero where there is none.
pub open spec fn uni_degree(c: Seq<int>, p: int) -> int
    decreases c.len(),
{
    if c.len() == 0 {
        0
    } else if c.last() % p != 0 {
        c.len() - 1
    } else {
        uni_degree(c.drop_last(), p)
    }
}

/// The sum of the `k`-th powers of the elements of `s`.
pub open spec fn power_sum(s: Seq<int>, k: nat) -> int
    decreases s.len(),
{
    if s.len() == 0 {
        0
    } else {
        power_sum(s.drop_last(), k) + pow(s.last(), k)
    }
}

/// The value of a monomial at the point `x`, as a function of the
/// monomial.
pub open spec fn value_at(x: Seq<int>) -> spec_fn(Seq<(usize, usize)>) -> int {
    |m: Seq<(usize, usize)>| mono_eval(m, x)
}

/// The value of a list of terms is the sum of its coefficients weighted
/// by the values of its monomials.
pub proof fn lemma_poly_eval_weighted(ts: Seq<(int, Seq<(usize, usize)>)>, x: Seq<int>)
    ensures
        poly_eval(ts, x) == weighted_sum(ts, value_at(x)),
    decreases ts.len(),
{
    if ts.len() > 0 {
        lemma_poly_eval_weighted(ts.drop_last(), x);
    }
}

/// Two lists of terms that give every monomial congruent coefficients
/// have congruent values at every point.
pub proof fn lemma_eval_congruent(
    a: Seq<(int, Seq<(usize, usize)>)>,
    b: Seq<(int, Seq<(usize, usize)>)>,
    x: Seq<int>,
    p: int,
)
    requires
        p > 0,
        forall|m: Seq<(usize, usize)>| congruent(#[trigger] coeff_of(a, m), coeff_of(b, m), p),
    ensures
        congruent(poly_eval(a, x), poly_eval(b, x), p),
{
    lemma_poly_eval_weighted(a, x);
    lemma_poly_eval_weighted(b, x);
    lemma_weighted_sum_congruent(a, b, value_at(x), p);
}

/// The list `m` names no variable but `v`.
pub open spec fn only_variable(m: Seq<(usize, usize)>, v: int) -> bool {
    forall|k: int| 0 <= k < m.len() ==> (#[trigger] m[k]).0 == v
}

/// Every coordinate of `x` but that of `v` is zero.
pub open spec fn zero_elsewhere(x: Seq<int>, v: int) -> bool {
    forall|u: int| 0 <= u < x.len() && u != v ==> #[trigger] x[u] == 0
}

/// The coefficients that `ts` gives the powers of the variable `v`
/// alone, from the power zero to the power `len - 1`.
pub open spec fn coefficients_of(ts: Seq<(int, Seq<(usize, usize)>)>, v: usize, len: nat) -> Seq<
    int,
> {
    Seq::new(len, |e: int| coeff_of(ts, pure_power(v, e as usize)))
}

/// Adding `d` to the coefficient of the power `e` adds `d` times that
/// power of `x` to the value.
pub proof fn lemma_uni_eval_update(c: Seq<int>, e: int, d: int, x: int)
    requires
        0 <= e < c.len(),
    ensures
        uni_eval(c.update(e, c[e] + d), x) == uni_eval(c, x) + d * pow(x, e as nat),
    decreases c.len(),
{
    let r = c.update(e, c[e] + d);
    if e == c.len() - 1 {
        assert(r.drop_last() =~= c.drop_last());
        assert((c[e] + d) * pow(x, e as nat) == c[e] * pow(x, e as nat) + d * pow(x, e as nat))
            by (nonlinear_arith);
    } else {
        assert(r.drop_last() =~= c.drop_last().update(e, c[e] + d));
        lemma_uni_eval_update(c.drop_last(), e, d, x);
    }
}

/// A monomial that names, with a power other than zero, a variable whose
/// coordinate is zero has the value zero.
pub proof fn lemma_mono_eval_zero(m: Seq<(usize, usize)>, x: Seq<int>, k: int)
    requires
        0 <= k < m.len(),
        m[k].1 > 0,
        x[m[k].0 as int] == 0,
    ensures
        mono_eval(m, x) == 0,
    decreases m.len(),
{
    if k == m.len() - 1 {
        lemma0_pow(m[k].1 as nat);
        assert(mono_eval(m.drop_last(), x) * 0 == 0) by (nonlinear_arith);
    } else {
        lemma_mono_eval_zero(m.drop_last(), x, k);
        assert(0 * pow(x[m.last().0 as int], m.last().1 as nat) == 0) by (nonlinear_arith);
    }
}

/// The univariate polynomial with the coefficients that `ts` gives the
/// powers of `v` alone has, at the coordinate of `v`, the value of `ts`
/// at `x`: where `ts` names no other variable, and where every other
/// coordinate of `x` is zero.
pub proof fn lemma_coefficients_of(
    ts: Seq<(int, Seq<(usize, usize)>)>,
    v: usize,
    len: nat,
    x: Seq<int>,
)
    requires
        v < x.len(),
        len <= usize::MAX,
        forall|i: int|
            0 <= i < ts.len() ==> {
                &&& is_canonical((#[trigger] ts[i]).1)
                &&& within(ts[i].1, x.len() as int)
                &&& total_degree(ts[i].1) < len
            },
        zero_elsewhere(x, v as int) || forall|i: int|
            0 <= i < ts.len() ==> only_variable((#[trigger] ts[i]).1, v as int),
    ensures
        uni_eval(coefficients_of(ts, v, len), x[v as int]) == poly_eval(ts, x),
    decreases ts.len(),
{
    let here = coefficients_of(ts, v, len);
    if ts.len() == 0 {
        lemma_uni_eval_zeros(here, x[v as int]);
    } else {
        let front = ts.drop_last();
        let (c, m) = ts.last();
        assert(ts.last() == ts[ts.len() - 1]);
        assert forall|i: int| 0 <= i < front.len() implies {
            &&& is_canonical((#[trigger] front[i]).1)
            &&& within(front[i].1, x.len() as int)
            &&& total_degree(front[i].1) < len
        } by {
            assert(front[i] == ts[i]);
        }
        if !zero_elsewhere(x, v as int) {
            assert forall|i: int| 0 <= i < front.len() implies only_variable(
                (#[trigger] front[i]).1,
                v as int,
            ) by {
                assert(front[i] == ts[i]);
            }
        }
        lemma_coefficients_of(front, v, len, x);
        let before = coefficients_of(front, v, len);
        if only_variable(m, v as int) {
            if m.len() > 1 {
                assert(m[0].0 < m[1].0);
            }
            let e = if m.len() == 0 {
                0
            } else {
                m[0].1
            };
            assert(m =~= pure_power(v, e));
            lemma_pow0(x[v as int]);
            assert(mono_eval(m, x) == pow(x[v as int], e as nat)) by {
                if m.len() > 0 {
                    assert(m.drop_last() =~= Seq::empty());
                    assert(mono_eval(m.drop_last(), x) == 1);
                    assert(1 * pow(x[v as int], e as nat) == pow(x[v as int], e as nat))
                        by (nonlinear_arith);
                }
            }
            assert(e < len) by {
                if m.len() > 0 {
                    assert(m.drop_last() =~= Seq::empty());
                    assert(total_degree(m.drop_last()) == 0);
                }
            }
            assert(here =~= before.update(e as int, before[e as int] + c)) by {
                assert forall|t: int| 0 <= t < len implies here[t] == before.update(
                    e as int,
                    before[e as int] + c,
                )[t] by {
                    if t != e && t > 0 {
                        assert(pure_power(v, t as usize)[0] == (v, t as usize));
                    }
                }
            }
            lemma_uni_eval_update(before, e as int, c, x[v as int]);
        } else {
            let k = choose|k: int| 0 <= k < m.len() && (#[trigger] m[k]).0 != v;
            lemma_mono_eval_zero(m, x, k);
            assert(here =~= before) by {
                assert forall|t: int| 0 <= t < len implies here[t] == before[t] by {
                    if t > 0 {
                        assert(pure_power(v, t as usize)[0] == (v, t as usize));
                    }
                }
            }
            assert(c * 0 == 0) by (nonlinear_arith);
        }
    }
}

/// The polynomial with every coefficient zero has the value zero.
pub proof fn lemma_uni_eval_zeros(c: Seq<int>, x: int)
    requires
        forall|e: int| 0 <= e < c.len() ==> c[e] == 0,
    ensures
        uni_eval(c, x) == 0,
    decreases c.len(),
{
    if c.len() > 0 {
        lemma_uni_eval_zeros(c.drop_last(), x);
        assert(0 * pow(x, (c.len() - 1) as nat) == 0) by (nonlinear_arith);
    }
}

/// Two univariate polynomials with congruent coefficients, of which the
/// longer goes on with coefficients congruent to zero, have congruent
/// values.
pub proof fn lemma_uni_eval_congruent(a: Seq<int>, b: Seq<int>, x: int, p: int)
    requires
        p > 0,
        a.len() <= b.len(),
        forall|e: int| 0 <= e < a.len() ==> congruent(#[trigger] a[e], b[e], p),
        forall|e: int| a.len() <= e < b.len() ==> congruent(#[trigger] b[e], 0, p),
    ensures
        congruent(uni_eval(a, x), uni_eval(b, x), p),
    decreases b.len(),
{
    if b.len() > 0 {
        let power = pow(x, (b.len() - 1) as nat);
        let b0 = b.drop_last();
        if a.len() < b.len() {
            lemma_uni_eval_congruent(a, b0, x, p);
            assert(congruent(b.last(), 0, p));
            lemma_congruent_mul(b.last(), 0, power, power, p);
            assert(0 * power == 0) by (nonlinear_arith);
            lemma_congruent_add(uni_eval(a, x), uni_eval(b0, x), 0, b.last() * power, p);
        } else {
            let a0 = a.drop_last();
            lemma_uni_eval_congruent(a0, b0, x, p);
            assert(congruent(a[a.len() - 1], b[a.len() - 1], p));
            lemma_congruent_mul(a.last(), b.last(), power, power, p);
            lemma_congruent_add(
                uni_eval(a0, x),
                uni_eval(b0, x),
                a.last() * power,
                b.last() * power,
                p,
            );
        }
    }
}

} // verus!
