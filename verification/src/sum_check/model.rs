//! The run of the sum-check protocol between the honest prover and the
//! verifier as a function of the polynomial, the claimed sum and the
//! challenges, and what holds of it: the order of its messages,
//! completeness, and what soundness rests on.

use crate::evaluation::{
    as_ints, coefficients_of, lemma_coefficients_of, lemma_uni_eval_congruent, only_variable,
    poly_eval, uni_degree, uni_eval,
};
use crate::ip::channel::{lemma_record, lemma_sent_by_after, sent_by, Message};
use crate::monomials::{exponent, is_canonical, lemma_exponent_bounds, total_degree, within};
use crate::small_fields::{congruent, lemma_congruent_add};
use crate::sum_check::{Role, Sent};
use crate::summation::{
    count, free_part, lemma_free_part, lemma_free_part_exponent, lemma_summation_single,
    lemma_summed_terms, point_selection, sum_over, summation, summed_terms,
};
use crate::terms::{
    coeff_of, lemma_coeff_of_witness, lemma_max_exponent, lemma_max_exponent_positive,
    lemma_max_total_degree, lemma_max_total_degree_below, lemma_residue_degree_bounds, max_exponent,
    max_total_degree, monomials_wf, pure_power, residue_degree, terms_wf,
};
use vstd::arithmetic::div_mod::*;
use vstd::prelude::*;

verus! {

/// The selection that sums each of the first `j` variables over zero
/// and one and leaves the others free.
pub open spec fn boolean_selection(num_vars: int, j: int) -> Seq<Option<Seq<int>>> {
    Seq::new(
        num_vars as nat,
        |v: int|
            if v < j {
                Some(seq![0int, 1int])
            } else {
                None
            },
    )
}

/// The sum of the values of `ts` at the points that agree with `x` but
/// for the first `k` coordinates, which take the values zero and one.
pub open spec fn boolean_sum(ts: Seq<(int, Seq<(usize, usize)>)>, x: Seq<int>, k: nat) -> int
    decreases k,
{
    if k == 0 {
        poly_eval(ts, x)
    } else {
        boolean_sum(ts, x.update(k - 1, 0), (k - 1) as nat) + boolean_sum(
            ts,
            x.update(k - 1, 1),
            (k - 1) as nat,
        )
    }
}

/// The sum of the values of `ts` at all points of `num_vars` coordinates
/// zero or one.
pub open spec fn hypercube_sum(ts: Seq<(int, Seq<(usize, usize)>)>, num_vars: nat) -> int {
    boolean_sum(ts, Seq::new(num_vars, |v: int| 0int), num_vars)
}

/// The point `x` with the coordinates from `j` on taken from `y`.
pub open spec fn fixed_from(x: Seq<int>, y: Seq<int>, j: int) -> Seq<int> {
    Seq::new(
        x.len(),
        |v: int|
            if v >= j {
                y[v]
            } else {
                x[v]
            },
    )
}

/// Up to the variable `j` every level of the sum adds the sums for the
/// values zero and one.
proof fn lemma_boolean_levels(
    ts: Seq<(int, Seq<(usize, usize)>)>,
    num_vars: int,
    j: int,
    x: Seq<int>,
    k: nat,
)
    requires
        0 <= j <= num_vars,
        k <= j,
    ensures
        sum_over(
            ts,
            boolean_selection(num_vars, j),
            x,
            k,
            count(boolean_selection(num_vars, j), k),
        ) == boolean_sum(ts, x, k),
    decreases k,
{
    let sel = boolean_selection(num_vars, j);
    if k > 0 {
        let below = (k - 1) as nat;
        let s = sel[k - 1]->0;
        assert(s[0] == 0 && s[1] == 1);
        assert(count(sel, k) == 2);
        lemma_boolean_levels(ts, num_vars, j, x.update(k - 1, 0), below);
        lemma_boolean_levels(ts, num_vars, j, x.update(k - 1, 1), below);
        assert(sum_over(ts, sel, x, k, 0) == 0);
        assert(sum_over(ts, sel, x, k, 1) == sum_over(ts, sel, x, k, 0) + sum_over(
            ts,
            sel,
            x.update(k - 1, s[0]),
            below,
            count(sel, below),
        ));
        assert(sum_over(ts, sel, x, k, 2) == sum_over(ts, sel, x, k, 1) + sum_over(
            ts,
            sel,
            x.update(k - 1, s[1]),
            below,
            count(sel, below),
        ));
    }
}

/// From the variable `j` on the levels of the sum change nothing.
proof fn lemma_free_levels(
    ts: Seq<(int, Seq<(usize, usize)>)>,
    num_vars: int,
    j: int,
    x: Seq<int>,
    k: nat,
)
    requires
        0 <= j <= k <= num_vars,
    ensures
        sum_over(
            ts,
            boolean_selection(num_vars, j),
            x,
            k,
            count(boolean_selection(num_vars, j), k),
        ) == boolean_sum(ts, x, j as nat),
    decreases k,
{
    if k == j {
        lemma_boolean_levels(ts, num_vars, j, x, k);
    } else {
        lemma_free_levels(ts, num_vars, j, x, (k - 1) as nat);
    }
}

/// Summing the first `j` variables over zero and one gives the sum over
/// the points with those coordinates zero and one.
pub proof fn lemma_boolean_summation(
    ts: Seq<(int, Seq<(usize, usize)>)>,
    num_vars: int,
    j: int,
    x: Seq<int>,
)
    requires
        0 <= j <= num_vars,
    ensures
        summation(ts, boolean_selection(num_vars, j), x) == boolean_sum(ts, x, j as nat),
{
    lemma_free_levels(ts, num_vars, j, x, num_vars as nat);
}

/// Where the value of `a` at every point is congruent to the value of
/// `b` at the point with the coordinates from `j` on taken from `y`, the
/// same holds of the sums over the first `k` coordinates, for `k` up to
/// `j`.
pub proof fn lemma_boolean_sum_fixed(
    a: Seq<(int, Seq<(usize, usize)>)>,
    b: Seq<(int, Seq<(usize, usize)>)>,
    x: Seq<int>,
    y: Seq<int>,
    j: int,
    k: nat,
    p: int,
)
    requires
        p > 0,
        k <= j <= x.len(),
        forall|z: Seq<int>|
            z.len() == x.len() ==> congruent(
                #[trigger] poly_eval(a, z),
                poly_eval(b, fixed_from(z, y, j)),
                p,
            ),
    ensures
        congruent(boolean_sum(a, x, k), boolean_sum(b, fixed_from(x, y, j), k), p),
    decreases k,
{
    if k > 0 {
        let below = (k - 1) as nat;
        let x0 = x.update(k - 1, 0);
        let x1 = x.update(k - 1, 1);
        lemma_boolean_sum_fixed(a, b, x0, y, j, below, p);
        lemma_boolean_sum_fixed(a, b, x1, y, j, below, p);
        assert(fixed_from(x0, y, j) =~= fixed_from(x, y, j).update(k - 1, 0));
        assert(fixed_from(x1, y, j) =~= fixed_from(x, y, j).update(k - 1, 1));
        lemma_congruent_add(
            boolean_sum(a, x0, below),
            boolean_sum(b, fixed_from(x0, y, j), below),
            boolean_sum(a, x1, below),
            boolean_sum(b, fixed_from(x1, y, j), below),
            p,
        );
    } else {
        assert(congruent(poly_eval(a, x), poly_eval(b, fixed_from(x, y, j)), p));
    }
}

/// The degree of a univariate polynomial is at most `bound` where every
/// coefficient that is not zero in `Z/p` has an index of at most `bound`.
pub proof fn lemma_uni_degree_bound(c: Seq<int>, p: int, bound: int)
    requires
        0 <= bound,
        forall|e: int| 0 <= e < c.len() && c[e] % p != 0 ==> e <= bound,
    ensures
        0 <= uni_degree(c, p) <= bound,
    decreases c.len(),
{
    if c.len() > 0 && c.last() % p == 0 {
        lemma_uni_degree_bound(c.drop_last(), p, bound);
    }
}

/// The coefficients of the polynomial that the honest prover sends in
/// the round of the variable `round`, where `cur` lists the terms of
/// the polynomial with the later variables at the challenges.
pub open spec fn honest_message(
    cur: Seq<(int, Seq<(usize, usize)>)>,
    num_vars: nat,
    round: usize,
    p: int,
) -> Seq<u64> {
    let sums = summed_terms(cur, boolean_selection(num_vars as int, round as int));
    Seq::new(
        (residue_degree(sums, p) + 1) as nat,
        |e: int| (coeff_of(sums, pure_power(round, e as usize)) % p) as u64,
    )
}

/// The verifier's decision as an entry of the transcript.
pub open spec fn verdict(accepted: bool) -> Message<Sent, Role> {
    Message { data: Sent::Decision(accepted), producer: Role::Verifier, consumer: Role::Prover }
}

/// The messages of the last `j` rounds of a run between the honest
/// prover and the verifier, with the decision at the end: `cur` lists
/// the terms of the prover's polynomial before these rounds, `poly`
/// those of the polynomial of the claim, and `check` is the verifier's
/// check value. In each round the prover sends its polynomial; the
/// verifier rejects it, and the run ends, where its degree is above the
/// highest exponent of the round's variable in `poly` or its values at
/// zero and one do not add up to the check value; else the verifier
/// sends its challenge, but in the last round, and goes on with the
/// value of the polynomial at the challenge as the check value. After
/// the last round the verifier accepts where the value of `poly` at the
/// challenges is the check value.
pub open spec fn honest_rounds(
    cur: Seq<(int, Seq<(usize, usize)>)>,
    poly: Seq<(int, Seq<(usize, usize)>)>,
    num_vars: nat,
    p: int,
    check: int,
    challenges: Seq<u64>,
    j: nat,
) -> Seq<Message<Sent, Role>>
    decreases j,
{
    if j == 0 {
        seq![verdict(congruent(poly_eval(poly, as_ints(challenges)), check, p))]
    } else {
        let round = (j - 1) as usize;
        let g = honest_message(cur, num_vars, round, p);
        let sent = Message {
            data: Sent::Polynomial(g),
            producer: Role::Prover,
            consumer: Role::Verifier,
        };
        if !(uni_degree(as_ints(g), p) <= max_exponent(poly, round as int, p) && congruent(
            uni_eval(as_ints(g), 0) + uni_eval(as_ints(g), 1),
            check,
            p,
        )) {
            seq![sent, verdict(false)]
        } else {
            let challenge = challenges[round as int];
            let next_check = uni_eval(as_ints(g), challenge as int) % p;
            if round == 0 {
                seq![
                    sent,
                    verdict(congruent(poly_eval(poly, as_ints(challenges)), next_check, p)),
                ]
            } else {
                seq![
                    sent,
                    Message {
                        data: Sent::Scalar(challenge),
                        producer: Role::Verifier,
                        consumer: Role::Prover,
                    },
                ] + honest_rounds(
                    summed_terms(
                        cur,
                        point_selection(num_vars as int, round as int, challenge as int),
                    ),
                    poly,
                    num_vars,
                    p,
                    next_check,
                    challenges,
                    (j - 1) as nat,
                )
            }
        }
    }
}

/// The transcript of the run between the honest prover for the
/// polynomial with the terms `poly` and the verifier for the claim that
/// its values at the points of coordinates zero and one add up to
/// `claimed_sum`, with the given challenges.
pub open spec fn honest_run(
    poly: Seq<(int, Seq<(usize, usize)>)>,
    num_vars: nat,
    p: int,
    claimed_sum: u64,
    challenges: Seq<u64>,
) -> Seq<Message<Sent, Role>> {
    honest_rounds(poly, poly, num_vars, p, claimed_sum as int % p, challenges, num_vars)
}

/// The prover and the verifier take turns, the prover first.
pub open spec fn alternating(t: Seq<Message<Sent, Role>>) -> bool {
    forall|i: int|
        0 <= i < t.len() ==> if i % 2 == 0 {
            (#[trigger] t[i]).producer == Role::Prover && t[i].consumer == Role::Verifier
        } else {
            t[i].producer == Role::Verifier && t[i].consumer == Role::Prover
        }
}

/// What the verifier sends in the last `j` rounds of a run in which the
/// prover sends `sent` polynomials: its challenge for each of them but
/// the last, from the challenge for the variable `j - 1` down, and then
/// its decision.
pub open spec fn replies(challenges: Seq<u64>, j: nat, sent: nat, accepted: bool) -> Seq<Sent> {
    if sent == 0 {
        seq![Sent::Decision(accepted)]
    } else {
        Seq::new(
            sent,
            |i: int|
                if i < sent - 1 {
                    Sent::Scalar(challenges[j - 1 - i])
                } else {
                    Sent::Decision(accepted)
                },
        )
    }
}

/// The order of the last `j` rounds of a run with the transcript `t`
/// that ends with the decision `accepted`. Every message is recorded
/// for the party that sent it: the prover sends polynomials and nothing
/// else, one for each round that is played, and the verifier answers
/// each of them, with its challenge for the round or with its decision,
/// which is its last message and ends the run. Read by itself, the
/// verifier's part of the transcript is its challenges in the order of
/// the rounds and then its decision. A run that is accepted has played
/// every round.
pub open spec fn in_order(
    t: Seq<Message<Sent, Role>>,
    challenges: Seq<u64>,
    j: nat,
    accepted: bool,
) -> bool {
    let by_prover = sent_by(t, Role::Prover);
    &&& t.last() == verdict(accepted)
    &&& j > 0 ==> alternating(t) && 0 < by_prover.len() <= j
    &&& j == 0 ==> by_prover.len() == 0
    &&& accepted ==> by_prover.len() == j
    &&& forall|i: int| 0 <= i < by_prover.len() ==> (#[trigger] by_prover[i]) is Polynomial
    &&& sent_by(t, Role::Verifier) == replies(challenges, j, by_prover.len(), accepted)
}

/// The last `j` rounds of a run between the honest prover and the
/// verifier are in order, whatever the polynomials, the check value and
/// the challenges.
pub proof fn lemma_run_order(
    cur: Seq<(int, Seq<(usize, usize)>)>,
    poly: Seq<(int, Seq<(usize, usize)>)>,
    num_vars: nat,
    p: int,
    check: int,
    challenges: Seq<u64>,
    j: nat,
) -> (accepted: bool)
    requires
        j <= challenges.len() <= usize::MAX,
    ensures
        in_order(
            honest_rounds(cur, poly, num_vars, p, check, challenges, j),
            challenges,
            j,
            accepted,
        ),
    decreases j,
{
    let t = honest_rounds(cur, poly, num_vars, p, check, challenges, j);
    let none = Seq::<Message<Sent, Role>>::empty();
    if j == 0 {
        let accepted = congruent(poly_eval(poly, as_ints(challenges)), check, p);
        assert(t.drop_last() =~= none);
        lemma_record(none, verdict(accepted), Role::Prover);
        lemma_record(none, verdict(accepted), Role::Verifier);
        assert(none.push(verdict(accepted)) =~= t);
        assert(sent_by(t, Role::Verifier) =~= replies(challenges, j, 0, accepted));
        accepted
    } else {
        let round = (j - 1) as usize;
        let g = honest_message(cur, num_vars, round, p);
        let sent = Message {
            data: Sent::Polynomial(g),
            producer: Role::Prover,
            consumer: Role::Verifier,
        };
        let one = none.push(sent);
        lemma_record(none, sent, Role::Prover);
        lemma_record(none, sent, Role::Verifier);
        let passes = uni_degree(as_ints(g), p) <= max_exponent(poly, round as int, p) && congruent(
            uni_eval(as_ints(g), 0) + uni_eval(as_ints(g), 1),
            check,
            p,
        );
        let challenge = challenges[round as int];
        let next_check = uni_eval(as_ints(g), challenge as int) % p;
        if !passes || round == 0 {
            let accepted = passes && congruent(
                poly_eval(poly, as_ints(challenges)),
                next_check,
                p,
            );
            lemma_record(one, verdict(accepted), Role::Prover);
            lemma_record(one, verdict(accepted), Role::Verifier);
            assert(one.push(verdict(accepted)) =~= t);
            assert(sent_by(t, Role::Prover) =~= seq![Sent::Polynomial(g)]);
            assert(sent_by(t, Role::Verifier) =~= replies(challenges, j, 1, accepted));
            accepted
        } else {
            let reply = Message {
                data: Sent::Scalar(challenge),
                producer: Role::Verifier,
                consumer: Role::Prover,
            };
            let later = honest_rounds(
                summed_terms(cur, point_selection(num_vars as int, round as int, challenge as int)),
                poly,
                num_vars,
                p,
                next_check,
                challenges,
                (j - 1) as nat,
            );
            let accepted = lemma_run_order(
                summed_terms(cur, point_selection(num_vars as int, round as int, challenge as int)),
                poly,
                num_vars,
                p,
                next_check,
                challenges,
                (j - 1) as nat,
            );
            let head = seq![sent, reply];
            assert(t == head + later);
            assert(t.last() == later.last());
            assert forall|i: int| 0 <= i < t.len() implies if i % 2 == 0 {
                (#[trigger] t[i]).producer == Role::Prover && t[i].consumer == Role::Verifier
            } else {
                t[i].producer == Role::Verifier && t[i].consumer == Role::Prover
            } by {
                if i >= 2 {
                    assert(t[i] == later[i - 2]);
                }
            }
            lemma_sent_by_after(head, later, Role::Prover);
            lemma_sent_by_after(head, later, Role::Verifier);
            lemma_record(one, reply, Role::Prover);
            lemma_record(one, reply, Role::Verifier);
            assert(one.push(reply) =~= head);
            let earlier = sent_by(later, Role::Prover).len();
            assert(sent_by(t, Role::Verifier) =~= replies(
                challenges,
                j,
                (earlier + 1) as nat,
                accepted,
            )) by {
                let mine = sent_by(t, Role::Verifier);
                let theirs = sent_by(later, Role::Verifier);
                assert(mine =~= seq![Sent::Scalar(challenge)] + theirs);
                assert forall|i: int| 0 <= i < mine.len() implies mine[i] == replies(
                    challenges,
                    j,
                    (earlier + 1) as nat,
                    accepted,
                )[i] by {
                    if i > 0 {
                        assert(mine[i] == theirs[i - 1]);
                    }
                }
            }
            assert(sent_by(t, Role::Prover) =~= seq![Sent::Polynomial(g)] + sent_by(
                later,
                Role::Prover,
            ));
            assert forall|i: int| 0 <= i < sent_by(t, Role::Prover).len() implies (
            #[trigger] sent_by(t, Role::Prover)[i]) is Polynomial by {
                if i > 0 {
                    assert(sent_by(t, Role::Prover)[i] == sent_by(later, Role::Prover)[i - 1]);
                }
            }
            accepted
        }
    }
}

/// The honest prover's polynomial passes the degree check.
proof fn lemma_message_degree(
    current: Seq<(int, Seq<(usize, usize)>)>,
    claim_poly: Seq<(int, Seq<(usize, usize)>)>,
    g: Seq<int>,
    num_vars: int,
    round: usize,
    p: int,
)
    requires
        p > 0,
        0 <= round < num_vars,
        g.len() <= usize::MAX,
        forall|e: int|
            0 <= e < g.len() ==> #[trigger] g[e] == coeff_of(
                summed_terms(current, boolean_selection(num_vars, round as int)),
                pure_power(round, e as usize),
            ) % p,
        forall|i: int| 0 <= i < current.len() ==> within((#[trigger] current[i]).1, num_vars),
        forall|i: int|
            0 <= i < current.len() ==> #[trigger] exponent(current[i].1, round as int)
                <= max_exponent(claim_poly, round as int, p),
        0 <= max_exponent(claim_poly, round as int, p),
    ensures
        0 <= uni_degree(g, p) <= max_exponent(claim_poly, round as int, p),
{
    let sel = boolean_selection(num_vars, round as int);
    let target = summed_terms(current, sel);
    let bound = max_exponent(claim_poly, round as int, p);
    assert forall|e: int| 0 <= e < g.len() && g[e] % p != 0 implies e <= bound by {
        if e > 0 {
            let m = pure_power(round, e as usize);
            lemma_mod_twice(coeff_of(target, m), p);
            if coeff_of(target, m) == 0 {
                lemma_small_mod(0, p as nat);
            }
            let i = lemma_coeff_of_witness(target, m);
            let from = current[i].1;
            assert(target[i].1 == free_part(from, sel));
            lemma_free_part_exponent(from, sel, round as int);
            assert(m.drop_last() =~= Seq::empty());
            assert(exponent(m.drop_last(), round as int) == 0);
            assert(exponent(m, round as int) == e);
        }
    }
    lemma_uni_degree_bound(g, p, bound);
}

/// The polynomial that the honest prover sends has, at every value of
/// the round's variable, the sum of the values of the prover's
/// polynomial over the values zero and one of the earlier variables.
pub proof fn lemma_honest_message_value(
    cur: Seq<(int, Seq<(usize, usize)>)>,
    num_vars: nat,
    round: usize,
    p: int,
    x: Seq<int>,
)
    requires
        0 < p <= u64::MAX,
        round < num_vars,
        x.len() == num_vars,
        monomials_wf(cur, round + 1),
    ensures
        congruent(
            uni_eval(as_ints(honest_message(cur, num_vars, round, p)), x[round as int]),
            boolean_sum(cur, x, round as nat),
            p,
        ),
{
    let sel = boolean_selection(num_vars as int, round as int);
    let sums = summed_terms(cur, sel);
    let g = as_ints(honest_message(cur, num_vars, round, p));
    assert forall|i: int| 0 <= i < sums.len() implies {
        &&& is_canonical((#[trigger] sums[i]).1)
        &&& within(sums[i].1, num_vars as int)
        &&& total_degree(sums[i].1) < usize::MAX
        &&& only_variable(sums[i].1, round as int)
    } by {
        let m = cur[i].1;
        lemma_free_part(m, sel, round + 1);
        lemma_free_part_exponent(m, sel, 0);
    }
    lemma_residue_degree_bounds(sums, p);
    lemma_max_total_degree_below(sums, usize::MAX as int);
    let len = (max_total_degree(sums) + 1) as nat;
    let exact = coefficients_of(sums, round, len);
    assert forall|i: int| 0 <= i < sums.len() implies total_degree((#[trigger] sums[i]).1)
        < len by {
        lemma_max_total_degree(sums, i);
    }
    lemma_coefficients_of(sums, round, len, x);
    assert forall|i: int| 0 <= i < cur.len() implies within(
        (#[trigger] cur[i]).1,
        num_vars as int,
    ) by {}
    lemma_summed_terms(cur, sel, x);
    lemma_boolean_summation(cur, num_vars as int, round as int, x);
    assert forall|e: int| 0 <= e < g.len() implies congruent(#[trigger] g[e], exact[e], p) by {
        lemma_mod_bound(exact[e], p);
        lemma_mod_twice(exact[e], p);
    }
    assert forall|e: int| g.len() <= e < exact.len() implies congruent(#[trigger] exact[e], 0, p) by {
        let m = pure_power(round, e as usize);
        assert(m.drop_last() =~= Seq::empty());
        assert(total_degree(m.drop_last()) == 0);
        assert(total_degree(m) == e);
        lemma_small_mod(0, p as nat);
    }
    lemma_uni_eval_congruent(g, exact, x[round as int], p);
}

/// The last `j` rounds of a run end with acceptance where the prover's
/// polynomial `cur` is the polynomial `poly` of the claim with the
/// variables from `j` on at the challenges, which `y` holds, and the
/// check value is the sum of `poly` over the values zero and one of the
/// first `j` variables, at those challenges.
pub proof fn lemma_rounds_complete(
    cur: Seq<(int, Seq<(usize, usize)>)>,
    poly: Seq<(int, Seq<(usize, usize)>)>,
    num_vars: nat,
    p: int,
    check: int,
    challenges: Seq<u64>,
    y: Seq<int>,
    j: nat,
)
    requires
        0 < p <= u64::MAX,
        j <= num_vars <= usize::MAX,
        challenges.len() == num_vars,
        y.len() == num_vars,
        forall|v: int| j <= v < num_vars ==> y[v] == challenges[v],
        j > 0 ==> monomials_wf(cur, j as int),
        forall|i: int, v: int|
            0 <= i < cur.len() && 0 <= v < num_vars ==> #[trigger] exponent(cur[i].1, v)
                <= max_exponent(poly, v, p),
        forall|x: Seq<int>|
            x.len() == num_vars ==> congruent(
                #[trigger] poly_eval(cur, x),
                poly_eval(poly, fixed_from(x, y, j as int)),
                p,
            ),
        congruent(check, boolean_sum(poly, y, j), p),
    ensures
        honest_rounds(cur, poly, num_vars, p, check, challenges, j).last() == verdict(true),
    decreases j,
{
    if j == 0 {
        assert(y =~= as_ints(challenges));
    } else {
        let round = (j - 1) as usize;
        let given = honest_message(cur, num_vars, round, p);
        let g = as_ints(given);
        let sel = boolean_selection(num_vars as int, round as int);
        let sums = summed_terms(cur, sel);
        // the degree check passes
        lemma_residue_degree_bounds(sums, p);
        assert forall|i: int| 0 <= i < sums.len() implies total_degree((#[trigger] sums[i]).1)
            < usize::MAX by {
            lemma_free_part(cur[i].1, sel, j as int);
        }
        lemma_max_total_degree_below(sums, usize::MAX as int);
        assert forall|e: int| 0 <= e < g.len() implies #[trigger] g[e] == coeff_of(
            sums,
            pure_power(round, e as usize),
        ) % p by {
            lemma_mod_bound(coeff_of(sums, pure_power(round, e as usize)), p);
        }
        lemma_max_exponent_positive(poly, round as int, p);
        lemma_message_degree(cur, poly, g, num_vars as int, round, p);
        // the polynomial sent has the values of the sums
        let at = |a: int| y.update(round as int, a);
        assert forall|a: int|
            congruent(uni_eval(g, a), #[trigger] boolean_sum(poly, at(a), round as nat), p) by {
            let x = at(a);
            lemma_honest_message_value(cur, num_vars, round, p, x);
            lemma_boolean_sum_fixed(cur, poly, x, y, j as int, round as nat, p);
            assert(fixed_from(x, y, j as int) =~= x);
        }
        // the consistency check passes
        assert(congruent(uni_eval(g, 0), boolean_sum(poly, at(0), round as nat), p));
        assert(congruent(uni_eval(g, 1), boolean_sum(poly, at(1), round as nat), p));
        lemma_congruent_add(
            uni_eval(g, 0),
            boolean_sum(poly, at(0), round as nat),
            uni_eval(g, 1),
            boolean_sum(poly, at(1), round as nat),
            p,
        );
        let challenge = challenges[round as int];
        let next_check = uni_eval(g, challenge as int) % p;
        let next_y = at(challenge as int);
        assert(congruent(
            uni_eval(g, challenge as int),
            boolean_sum(poly, at(challenge as int), round as nat),
            p,
        ));
        lemma_mod_twice(uni_eval(g, challenge as int), p);
        if round == 0 {
            assert(next_y =~= as_ints(challenges));
        } else {
            let point = point_selection(num_vars as int, round as int, challenge as int);
            let next = summed_terms(cur, point);
            assert forall|i: int| 0 <= i < next.len() implies {
                &&& is_canonical((#[trigger] next[i]).1)
                &&& within(next[i].1, round as int)
                &&& total_degree(next[i].1) < usize::MAX
            } by {
                let m = cur[i].1;
                lemma_free_part(m, point, j as int);
                lemma_free_part_exponent(m, point, 0);
            }
            assert forall|i: int, v: int|
                0 <= i < next.len() && 0 <= v < num_vars implies #[trigger] exponent(next[i].1, v)
                <= max_exponent(poly, v, p) by {
                let m = cur[i].1;
                assert(exponent(cur[i].1, v) <= max_exponent(poly, v, p));
                lemma_free_part_exponent(m, point, v);
                lemma_exponent_bounds(m, v);
                lemma_max_exponent_positive(poly, v, p);
            }
            assert forall|i: int| 0 <= i < cur.len() implies within(
                (#[trigger] cur[i]).1,
                num_vars as int,
            ) by {}
            assert forall|x: Seq<int>| x.len() == num_vars implies congruent(
                #[trigger] poly_eval(next, x),
                poly_eval(poly, fixed_from(x, next_y, round as int)),
                p,
            ) by {
                let moved = x.update(round as int, challenge as int);
                lemma_summed_terms(cur, point, x);
                lemma_summation_single(cur, num_vars as int, round as int, challenge as int, x);
                assert(congruent(
                    poly_eval(cur, moved),
                    poly_eval(poly, fixed_from(moved, y, j as int)),
                    p,
                ));
                assert(fixed_from(moved, y, j as int) =~= fixed_from(x, next_y, round as int));
            }
            lemma_rounds_complete(
                next,
                poly,
                num_vars,
                p,
                next_check,
                challenges,
                next_y,
                (j - 1) as nat,
            );
            let later = honest_rounds(
                next,
                poly,
                num_vars,
                p,
                next_check,
                challenges,
                (j - 1) as nat,
            );
            let all = honest_rounds(cur, poly, num_vars, p, check, challenges, j);
            assert(later.len() > 0);
            assert(all.last() == later.last());
        }
    }
}

/// Completeness: where the values of the polynomial at the points of
/// coordinates zero and one add up to the claimed sum, the run between
/// the honest prover and the verifier ends with acceptance, whatever
/// the challenges.
pub proof fn lemma_completeness(
    poly: Seq<(int, Seq<(usize, usize)>)>,
    num_vars: nat,
    p: int,
    claimed_sum: u64,
    challenges: Seq<u64>,
)
    requires
        2 <= p <= u64::MAX,
        num_vars <= usize::MAX,
        terms_wf(poly, p, num_vars as int),
        challenges.len() == num_vars,
        congruent(claimed_sum as int, hypercube_sum(poly, num_vars), p),
    ensures
        honest_run(poly, num_vars, p, claimed_sum, challenges).last() == verdict(true),
{
    let y = Seq::new(num_vars, |v: int| 0int);
    lemma_mod_twice(claimed_sum as int, p);
    assert forall|i: int, v: int|
        0 <= i < poly.len() && 0 <= v < num_vars implies #[trigger] exponent(poly[i].1, v)
        <= max_exponent(poly, v, p) by {
        lemma_small_mod(poly[i].0 as nat, p as nat);
        lemma_max_exponent(poly, v, p, i);
    }
    assert forall|x: Seq<int>| x.len() == num_vars implies congruent(
        #[trigger] poly_eval(poly, x),
        poly_eval(poly, fixed_from(x, y, num_vars as int)),
        p,
    ) by {
        assert(fixed_from(x, y, num_vars as int) =~= x);
    }
    lemma_rounds_complete(poly, poly, num_vars, p, claimed_sum as int % p, challenges, y, num_vars);
}

/// What the verifier finds of the polynomial with the coefficients `g`
/// in a round with the degree bound `bound`, the check value `check`
/// and the challenge `challenge`: nothing where the degree is above the
/// bound or the values at zero and one do not add up to the check
/// value, and else the next check value, the value at the challenge.
pub open spec fn round_outcome(g: Seq<int>, bound: int, check: int, challenge: int, p: int) -> Option<
    u64,
> {
    if uni_degree(g, p) <= bound && congruent(uni_eval(g, 0) + uni_eval(g, 1), check, p) {
        Some((uni_eval(g, challenge) % p) as u64)
    } else {
        None
    }
}

/// Whether the verifier, with the check value `check` and the degree
/// bounds `degrees`, accepts after the last `j` rounds in which the
/// prover, honest or not, sends the polynomial with the coefficients
/// `messages[v]` in the round of the variable `v`: every polynomial
/// passes the degree check and the consistency check, and the value of
/// `poly` at the challenges is the last check value.
pub open spec fn verifier_accepts(
    poly: Seq<(int, Seq<(usize, usize)>)>,
    degrees: Seq<usize>,
    p: int,
    check: int,
    messages: Seq<Seq<int>>,
    challenges: Seq<u64>,
    j: nat,
) -> bool
    decreases j,
{
    if j == 0 {
        congruent(poly_eval(poly, as_ints(challenges)), check, p)
    } else {
        let g = messages[j - 1];
        &&& uni_degree(g, p) <= degrees[j - 1]
        &&& congruent(uni_eval(g, 0) + uni_eval(g, 1), check, p)
        &&& verifier_accepts(
            poly,
            degrees,
            p,
            uni_eval(g, challenges[j - 1] as int) % p,
            messages,
            challenges,
            (j - 1) as nat,
        )
    }
}

/// The value at `x` of the polynomial that the honest prover sends in
/// the round of the variable `round`: the sum of the values of `poly`
/// over the values zero and one of the earlier variables, with `x` for
/// the variable of the round and the challenges for the later ones.
pub open spec fn true_value(
    poly: Seq<(int, Seq<(usize, usize)>)>,
    challenges: Seq<u64>,
    round: int,
    x: int,
) -> int {
    boolean_sum(poly, as_ints(challenges).update(round, x), round as nat)
}

/// What soundness rests on. Where the verifier accepts after the last
/// `j` rounds although its check value is not the sum of `poly` over the
/// values zero and one of the first `j` variables, at the challenges of
/// the later rounds, there is a round in which the prover's polynomial
/// is not the true one, for the values of the two at zero and one add up
/// to different sums, and yet has the true value at the verifier's
/// challenge. Such a polynomial has passed the degree check, so the
/// challenge is one of the few elements at which two different
/// polynomials of that degree agree.
pub proof fn lemma_soundness(
    poly: Seq<(int, Seq<(usize, usize)>)>,
    degrees: Seq<usize>,
    p: int,
    check: int,
    messages: Seq<Seq<int>>,
    challenges: Seq<u64>,
    j: nat,
) -> (round: int)
    requires
        p > 0,
        j <= challenges.len(),
        verifier_accepts(poly, degrees, p, check, messages, challenges, j),
        !congruent(check, boolean_sum(poly, as_ints(challenges), j), p),
    ensures
        0 <= round < j,
        uni_degree(messages[round], p) <= degrees[round],
        !congruent(
            uni_eval(messages[round], 0) + uni_eval(messages[round], 1),
            true_value(poly, challenges, round, 0) + true_value(poly, challenges, round, 1),
            p,
        ),
        congruent(
            uni_eval(messages[round], challenges[round] as int),
            true_value(poly, challenges, round, challenges[round] as int),
            p,
        ),
    decreases j,
{
    let y = as_ints(challenges);
    if j == 0 {
        // the verifier has accepted because the check value is the
        // value of the polynomial
        0
    } else {
        let at = j - 1;
        let g = messages[at];
        let next = uni_eval(g, challenges[at] as int) % p;
        lemma_mod_twice(uni_eval(g, challenges[at] as int), p);
        if congruent(next, boolean_sum(poly, y, at as nat), p) {
            assert(y.update(at, challenges[at] as int) =~= y);
            at
        } else {
            lemma_soundness(poly, degrees, p, next, messages, challenges, at as nat)
        }
    }
}

/// The terms of the honest prover's polynomial in the round of the
/// variable `round`, as the run's definition has them: the polynomial
/// of the claim with the later variables at the challenges.
pub open spec fn prover_terms(
    poly: Seq<(int, Seq<(usize, usize)>)>,
    num_vars: nat,
    challenges: Seq<u64>,
    round: int,
) -> Seq<(int, Seq<(usize, usize)>)>
    decreases num_vars - round,
{
    if round + 1 >= num_vars {
        poly
    } else {
        summed_terms(
            prover_terms(poly, num_vars, challenges, round + 1),
            point_selection(num_vars as int, round + 1, challenges[round + 1] as int),
        )
    }
}

/// The coefficients of the polynomials that the honest prover sends
/// where it receives the challenges `challenges`, that of the round of
/// the variable `v` at the place `v`. They depend on the polynomial and
/// on the challenges of the later rounds, and on nothing else.
pub open spec fn honest_messages(
    poly: Seq<(int, Seq<(usize, usize)>)>,
    num_vars: nat,
    p: int,
    challenges: Seq<u64>,
) -> Seq<Seq<int>> {
    Seq::new(
        num_vars,
        |v: int|
            as_ints(
                honest_message(prover_terms(poly, num_vars, challenges, v), num_vars, v as usize, p),
            ),
    )
}

/// The verifier accepts the honest prover's polynomials where the run
/// between the two ends with acceptance.
pub proof fn lemma_accepts_honest(
    poly: Seq<(int, Seq<(usize, usize)>)>,
    degrees: Seq<usize>,
    num_vars: nat,
    p: int,
    check: int,
    challenges: Seq<u64>,
    j: nat,
)
    requires
        j <= num_vars <= usize::MAX,
        challenges.len() == num_vars,
        degrees.len() == num_vars,
        forall|v: int| 0 <= v < num_vars ==> #[trigger] degrees[v] == max_exponent(poly, v, p),
    ensures
        verifier_accepts(
            poly,
            degrees,
            p,
            check,
            honest_messages(poly, num_vars, p, challenges),
            challenges,
            j,
        ) == (honest_rounds(
            prover_terms(poly, num_vars, challenges, j - 1),
            poly,
            num_vars,
            p,
            check,
            challenges,
            j,
        ).last() == verdict(true)),
    decreases j,
{
    if j > 0 {
        let round = (j - 1) as usize;
        let cur = prover_terms(poly, num_vars, challenges, j - 1);
        let given = honest_message(cur, num_vars, round, p);
        let g = as_ints(given);
        assert(honest_messages(poly, num_vars, p, challenges)[j - 1] == g);
        assert(degrees[j - 1] == max_exponent(poly, j - 1, p));
        let challenge = challenges[round as int];
        let next_check = uni_eval(g, challenge as int) % p;
        let passes = uni_degree(g, p) <= max_exponent(poly, round as int, p) && congruent(
            uni_eval(g, 0) + uni_eval(g, 1),
            check,
            p,
        );
        lemma_accepts_honest(poly, degrees, num_vars, p, next_check, challenges, (j - 1) as nat);
        if passes && round > 0 {
            let next = summed_terms(
                cur,
                point_selection(num_vars as int, round as int, challenge as int),
            );
            assert(next == prover_terms(poly, num_vars, challenges, j - 2));
            let later = honest_rounds(
                next,
                poly,
                num_vars,
                p,
                next_check,
                challenges,
                (j - 1) as nat,
            );
            let all = honest_rounds(cur, poly, num_vars, p, check, challenges, j);
            assert(later.len() > 0);
            assert(all.last() == later.last());
        }
    }
}

/// Bounds that are not below the degree bounds that the verifier
/// accepts with are bounds that it accepts with.
pub proof fn lemma_accepts_with_higher_bounds(
    poly: Seq<(int, Seq<(usize, usize)>)>,
    lower: Seq<usize>,
    higher: Seq<usize>,
    p: int,
    check: int,
    messages: Seq<Seq<int>>,
    challenges: Seq<u64>,
    j: nat,
)
    requires
        j <= lower.len() == higher.len(),
        forall|v: int| 0 <= v < lower.len() ==> lower[v] <= higher[v],
        verifier_accepts(poly, lower, p, check, messages, challenges, j),
    ensures
        verifier_accepts(poly, higher, p, check, messages, challenges, j),
    decreases j,
{
    if j > 0 {
        let g = messages[j - 1];
        lemma_accepts_with_higher_bounds(
            poly,
            lower,
            higher,
            p,
            uni_eval(g, challenges[j - 1] as int) % p,
            messages,
            challenges,
            (j - 1) as nat,
        );
    }
}

/// Completeness of the verifier: where the values of the polynomial at
/// the points of coordinates zero and one add up to the claimed sum and
/// no degree bound is below the highest exponent of its variable, the
/// verifier accepts the honest prover's polynomials, whatever the
/// challenges.
pub proof fn lemma_verifier_completeness(
    poly: Seq<(int, Seq<(usize, usize)>)>,
    degrees: Seq<usize>,
    num_vars: nat,
    p: int,
    claimed_sum: u64,
    challenges: Seq<u64>,
)
    requires
        2 <= p <= u64::MAX,
        num_vars <= usize::MAX,
        terms_wf(poly, p, num_vars as int),
        challenges.len() == num_vars,
        degrees.len() == num_vars,
        forall|v: int| 0 <= v < num_vars ==> max_exponent(poly, v, p) <= #[trigger] degrees[v],
        congruent(claimed_sum as int, hypercube_sum(poly, num_vars), p),
    ensures
        verifier_accepts(
            poly,
            degrees,
            p,
            claimed_sum as int % p,
            honest_messages(poly, num_vars, p, challenges),
            challenges,
            num_vars,
        ),
{
    assert forall|v: int| 0 <= v < num_vars implies 0 <= #[trigger] max_exponent(poly, v, p)
        <= usize::MAX by {
        lemma_max_exponent_positive(poly, v, p);
        assert(max_exponent(poly, v, p) <= degrees[v]);
    }
    let exact = Seq::new(num_vars, |v: int| max_exponent(poly, v, p) as usize);
    lemma_completeness(poly, num_vars, p, claimed_sum, challenges);
    lemma_accepts_honest(poly, exact, num_vars, p, claimed_sum as int % p, challenges, num_vars);
    lemma_accepts_with_higher_bounds(
        poly,
        exact,
        degrees,
        p,
        claimed_sum as int % p,
        honest_messages(poly, num_vars, p, challenges),
        challenges,
        num_vars,
    );
}

} // verus!
