//! The sum-check protocol: a prover convinces a verifier that the values
//! of a polynomial at the points with coordinates zero and one add up to
//! a claimed sum, in one round for each variable and with one evaluation
//! of the polynomial by the verifier.
//!
//! The rounds go from the last variable to the first. In the round of
//! the variable `j` the prover sends the univariate polynomial `g_j` in
//! that variable: the sum, over the values zero and one of the variables
//! before `j`, of the polynomial with the variables after `j` at the
//! verifier's earlier challenges.

pub mod model;

use crate::evaluation::{as_ints, only_variable, poly_eval, uni_degree, uni_eval};
use crate::ip::{Channel, IP, Log};
use crate::ip::channel::Message;
use crate::monomials::within;
use crate::polynomials::{
    format_univ_poly, into_univariate, partial_eval, partial_summation, univ_poly_text,
    variable_degrees, MultiPoly, UniPoly,
};
use crate::small_fields::{add_mod, congruent, random_element};
use crate::sum_check::model::{
    boolean_selection, boolean_sum, honest_message, honest_messages, honest_rounds, honest_run,
    hypercube_sum, in_order, lemma_boolean_summation, lemma_completeness, lemma_run_order,
    prover_terms, round_outcome, verdict, verifier_accepts,
};
use crate::summation::{
    lemma_free_part, lemma_free_part_exponent, lemma_summed_monomial, lemma_summed_terms_congruent,
    point_selection, selections, summation, summed_terms,
};
use crate::terms::{
    coeff_of, lemma_residue_degree, lemma_residue_degree_congruent, max_exponent, pure_power,
    residue_degree,
};
use crate::text::{decimal, decimal_text, join3, join5};
use vstd::arithmetic::div_mod::*;
use vstd::prelude::*;
use vstd::string::*;

verus! {

/// The two parties.
#[derive(Clone, Copy, Debug, PartialEq, Eq, Structural)]
pub enum Role {
    Prover,
    Verifier,
}

/// What the parties send each other: the prover its polynomials, the
/// verifier its challenges and, last, its decision.
#[derive(Clone, Debug, PartialEq, Eq)]
pub enum Data {
    Scalar(u64),
    Polynomial(UniPoly),
    Decision(bool),
}

/// What a message holds.
pub enum Sent {
    Scalar(u64),
    Polynomial(Seq<u64>),
    Decision(bool),
}

impl View for Data {
    type V = Sent;

    /// What the message holds.
    open spec fn view(&self) -> Sent {
        match *self {
            Data::Scalar(x) => Sent::Scalar(x),
            Data::Polynomial(g) => Sent::Polynomial(g.coeffs@),
            Data::Decision(d) => Sent::Decision(d),
        }
    }
}

impl Data {
    /// The scalar, where the message is one.
    pub fn to_scalar(self) -> (r: Option<u64>)
        ensures
            r == match self {
                Data::Scalar(x) => Some(x),
                _ => None,
            },
    {
        match self {
            Data::Scalar(x) => Some(x),
            _ => None,
        }
    }

    /// The polynomial, where the message is one.
    pub fn to_polynomial(self) -> (r: Option<UniPoly>)
        ensures
            r == match self {
                Data::Polynomial(g) => Some(g),
                _ => None,
            },
    {
        match self {
            Data::Polynomial(g) => Some(g),
            _ => None,
        }
    }

    /// The decision, where the message is one.
    pub fn to_decision(self) -> (r: Option<bool>)
        ensures
            r == match self {
                Data::Decision(d) => Some(d),
                _ => None,
            },
    {
        match self {
            Data::Decision(d) => Some(d),
            _ => None,
        }
    }

    /// The text of the message.
    pub open spec fn text(self) -> Seq<char> {
        match self {
            Data::Scalar(x) => decimal(x as nat),
            Data::Polynomial(g) => univ_poly_text(g.coeffs@, "x"@),
            Data::Decision(d) => if d {
                "Accept"@
            } else {
                "Reject"@
            },
        }
    }

    /// The message as text: a scalar in decimal digits, a polynomial in
    /// the variable `x`, a decision as `Accept` or `Reject`.
    pub fn to_text(&self) -> (s: String)
        ensures
            s@ == self.text(),
    {
        match self {
            Data::Scalar(x) => decimal_text(*x),
            Data::Polynomial(g) => format_univ_poly(g, "x"),
            Data::Decision(d) => if *d {
                String::from_str("Accept")
            } else {
                String::from_str("Reject")
            },
        }
    }
}

/// A run of the protocol: the messages in the order in which they were
/// sent, and the verifier's decision.
pub struct Run {
    pub transcript: Vec<Message<Data, Role>>,
    pub accepted: bool,
}

/// The entries of a transcript with what their messages hold.
pub open spec fn entries(t: Seq<Message<Data, Role>>) -> Seq<Message<Sent, Role>> {
    Seq::new(
        t.len(),
        |i: int| Message { data: t[i].data@, producer: t[i].producer, consumer: t[i].consumer },
    )
}

/// What the verifier does in a round.
#[derive(Clone, Debug, PartialEq, Eq)]
pub enum Turn {
    /// What it received was no polynomial, or it received nothing: a
    /// defect of the run, which ends here. The verifier sends nothing.
    Defect,
    /// The verifier sends `data`. It goes on to the next round with the
    /// check value `next`; where there is none, the run ends here.
    Reply { data: Data, next: Option<u64> },
}

/// The coefficients of each of the polynomials, as integers.
pub open spec fn coefficient_lists(messages: Seq<UniPoly>) -> Seq<Seq<int>> {
    Seq::new(messages.len(), |v: int| messages[v]@)
}

/// What the verifier sends after the round of the variable `round`,
/// where `passed` is what it found of the prover's polynomial and
/// `challenges` holds the challenges of this round and of the rounds
/// before it. After a polynomial that failed a check it sends its
/// rejection. After one that passed it sends the round's challenge and
/// goes on, but in the last round, that of the variable zero: there it
/// keeps the challenge and sends its decision, acceptance where the
/// value of `poly` at the challenges is the check value.
pub open spec fn reply_of(
    poly: Seq<(int, Seq<(usize, usize)>)>,
    p: int,
    round: int,
    passed: Option<u64>,
    challenges: Seq<u64>,
) -> Turn {
    match passed {
        None => Turn::Reply { data: Data::Decision(false), next: None },
        Some(value) => if round > 0 {
            Turn::Reply { data: Data::Scalar(challenges[round]), next: Some(value) }
        } else {
            Turn::Reply {
                data: Data::Decision(
                    congruent(poly_eval(poly, as_ints(challenges)), value as int, p),
                ),
                next: None,
            }
        },
    }
}

/// What the verifier does in the round of the variable `round` on what
/// it has received: on a polynomial, what `reply_of` says of what it
/// finds of the polynomial; on anything else, and on nothing, the run
/// ends as a defect.
pub open spec fn verifier_turn(
    poly: Seq<(int, Seq<(usize, usize)>)>,
    degrees: Seq<usize>,
    p: int,
    round: int,
    received: Option<Data>,
    check: int,
    challenges: Seq<u64>,
) -> Turn {
    match received {
        Some(Data::Polynomial(g)) => reply_of(
            poly,
            p,
            round,
            round_outcome(g@, degrees[round] as int, check, challenges[round] as int, p),
            challenges,
        ),
        _ => Turn::Defect,
    }
}

/// The polynomial that the prover sends in the round of the variable
/// `j`, where `poly` is the polynomial with the variables after `j` at
/// the challenges: for each power of the variable the sum, over the
/// terms of `poly` whose monomial is that power times variables before
/// `j`, of the coefficient times two for each of those variables that
/// the monomial does not name.
pub fn round_message(poly: &MultiPoly, j: usize) -> (g: UniPoly)
    requires
        poly.wf(),
        j < poly.num_vars,
    ensures
        g.coeffs.len() == residue_degree(
            summed_terms(poly@, boolean_selection(poly.num_vars as int, j as int)),
            poly.modulus as int,
        ) + 1,
        forall|e: int|
            0 <= e < g.coeffs.len() ==> #[trigger] g.coeffs[e] == coeff_of(
                summed_terms(poly@, boolean_selection(poly.num_vars as int, j as int)),
                pure_power(j, e as usize),
            ) % (poly.modulus as int),
        (forall|i: int| 0 <= i < poly@.len() ==> within((#[trigger] poly@[i]).1, j + 1))
            ==> forall|x: Seq<int>|
            x.len() == poly.num_vars ==> congruent(
                uni_eval(g@, x[j as int]),
                #[trigger] boolean_sum(poly@, x, j as nat),
                poly.modulus as int,
            ),
{
    let n = poly.num_vars;
    let ghost p = poly.modulus as int;
    let ghost sel = boolean_selection(n as int, j as int);
    let mut vals: Vec<Option<Vec<u64>>> = Vec::new();
    let mut v: usize = 0;
    while v < n
        invariant
            v <= n,
            vals.len() == v,
            selections(vals@) =~= boolean_selection(v as int, j as int),
        decreases n - v,
    {
        let ghost before = selections(vals@);
        if v < j {
            let mut both: Vec<u64> = Vec::new();
            both.push(0);
            both.push(1);
            proof {
                assert(as_ints(both@) =~= seq![0int, 1int]);
            }
            vals.push(Some(both));
        } else {
            vals.push(None);
        }
        proof {
            let now = selections(vals@);
            let want = boolean_selection(v + 1, j as int);
            assert(now.len() == want.len());
            assert forall|t: int| 0 <= t < now.len() implies now[t] == want[t] by {
                if t < v {
                    assert(now[t] == before[t]);
                }
            }
        }
        v = v + 1;
    }
    let partial = partial_summation(poly, &vals);
    let g = into_univariate(&partial, j);
    proof {
        let target = summed_terms(poly@, sel);
        lemma_residue_degree(partial@, target, p);
        if forall|i: int| 0 <= i < poly@.len() ==> within((#[trigger] poly@[i]).1, j + 1) {
            assert forall|i: int| 0 <= i < partial@.len() implies only_variable(
                (#[trigger] partial@[i]).1,
                j as int,
            ) by {
                let from = lemma_summed_monomial(poly@, sel, partial@, p, i);
                let m = poly@[from].1;
                lemma_free_part_exponent(m, sel, 0);
                lemma_free_part(m, sel, j + 1);
            }
            assert forall|x: Seq<int>| x.len() == n implies congruent(
                uni_eval(g@, x[j as int]),
                #[trigger] boolean_sum(poly@, x, j as nat),
                p,
            ) by {
                assert(uni_eval(g@, x[j as int]) == poly_eval(partial@, x));
                assert(congruent(poly_eval(partial@, x), summation(poly@, sel, x), p));
                lemma_boolean_summation(poly@, n as int, j as int, x);
            }
        }
    }
    g
}

/// Whether `g` passes the verifier's degree check: its degree is at most
/// `bound`.
pub fn degree_within(g: &UniPoly, bound: usize, modulus: u64) -> (ok: bool)
    requires
        modulus > 0,
    ensures
        ok == (uni_degree(g@, modulus as int) <= bound),
{
    g.degree(modulus) <= bound
}

/// Whether `g` passes the verifier's consistency check: its values at
/// zero and at one add up to the check value.
pub fn sums_to(g: &UniPoly, check_value: u64, modulus: u64) -> (ok: bool)
    requires
        modulus > 0,
    ensures
        ok == congruent(uni_eval(g@, 0) + uni_eval(g@, 1), check_value as int, modulus as int),
{
    let at_zero = g.evaluate(0, modulus);
    let at_one = g.evaluate(1, modulus);
    proof {
        lemma_add_mod_noop(uni_eval(g@, 0), uni_eval(g@, 1), modulus as int);
    }
    add_mod(at_zero, at_one, modulus) == check_value % modulus
}

/// Whether the verifier accepts at the end: the value of the polynomial
/// at the challenges is the last check value.
pub fn oracle_agrees(poly: &MultiPoly, challenges: &Vec<u64>, check_value: u64) -> (ok: bool)
    requires
        poly.wf(),
        challenges.len() >= poly.num_vars,
    ensures
        ok == congruent(
            poly_eval(poly@, as_ints(challenges@)),
            check_value as int,
            poly.modulus as int,
        ),
{
    poly.evaluate(challenges) == check_value % poly.modulus
}

/// Plays the honest prover for `poly` against the verifier with the
/// claimed sum `claimed_sum`, with `challenges[j]` as the verifier's
/// challenge in the round of the variable `j`, and returns the
/// transcript of the run with the verifier's decision.
///
/// Where the claim is true, that is where the values of `poly` at the
/// points of coordinates zero and one add up to `claimed_sum`, the
/// verifier accepts, whatever the challenges.
pub fn interact(poly: &MultiPoly, claimed_sum: u64, challenges: &Vec<u64>) -> (run: Run)
    requires
        poly.wf(),
        challenges.len() == poly.num_vars,
    ensures
        entries(run.transcript@) == honest_run(
            poly@,
            poly.num_vars as nat,
            poly.modulus as int,
            claimed_sum,
            challenges@,
        ),
        in_order(entries(run.transcript@), challenges@, poly.num_vars as nat, run.accepted),
        congruent(
            claimed_sum as int,
            hypercube_sum(poly@, poly.num_vars as nat),
            poly.modulus as int,
        ) ==> run.accepted,
{
    let n = poly.num_vars;
    let modulus = poly.modulus;
    let ghost p = modulus as int;
    let ghost full = honest_run(poly@, n as nat, p, claimed_sum, challenges@);
    let ghost decided = lemma_run_order(
        poly@,
        poly@,
        n as nat,
        p,
        claimed_sum as int % p,
        challenges@,
        n as nat,
    );
    proof {
        if congruent(claimed_sum as int, hypercube_sum(poly@, n as nat), p) {
            lemma_completeness(poly@, n as nat, p, claimed_sum, challenges@);
        }
    }
    let degrees = variable_degrees(poly);
    let ghost bounds = degrees@;
    let verifier = SumCheckVerifier::new(poly.copy(), degrees, claimed_sum);
    let mut transcript: Vec<Message<Data, Role>> = Vec::new();
    let mut check_value: u64 = claimed_sum % modulus;
    let mut current: MultiPoly = poly.copy();
    // The terms of the prover's polynomial as the run's definition has
    // them: not in canonical form, but with the same coefficients.
    let ghost mut model = poly@;
    let mut j: usize = n;
    proof {
        assert(entries(transcript@) =~= Seq::empty());
        assert(entries(transcript@) + full =~= full);
    }
    while j > 0
        invariant
            poly.wf(),
            n == poly.num_vars,
            modulus == poly.modulus,
            p == modulus as int,
            challenges.len() == n,
            verifier.polynomial()@ == poly@,
            verifier.polynomial().modulus == modulus,
            verifier.polynomial().num_vars == n,
            verifier.degrees() == bounds,
            bounds.len() == n,
            forall|v: int| 0 <= v < n ==> #[trigger] bounds[v] == max_exponent(poly@, v, p),
            j <= n,
            j == 0 ==> n == 0,
            current.wf(),
            current.modulus == modulus,
            current.num_vars == n,
            full == honest_run(poly@, n as nat, p, claimed_sum, challenges@),
            in_order(full, challenges@, n as nat, decided),
            congruent(claimed_sum as int, hypercube_sum(poly@, n as nat), p) ==> decided,
            forall|m: Seq<(usize, usize)>|
                congruent(#[trigger] coeff_of(current@, m), coeff_of(model, m), p),
            entries(transcript@) + honest_rounds(
                model,
                poly@,
                n as nat,
                p,
                check_value as int,
                challenges@,
                j as nat,
            ) == full,
        decreases j,
    {
        let round: usize = j - 1;
        // the prover's turn
        let g = round_message(&current, round);
        // the verifier's turn
        let challenge = challenges[round];
        let passed = verifier.round(round, &g, check_value, challenge);
        let turn = verifier.reply(round, passed, challenges);
        let ghost before = entries(transcript@);
        let ghost rest = honest_rounds(
            model,
            poly@,
            n as nat,
            p,
            check_value as int,
            challenges@,
            j as nat,
        );
        let ghost sent = Message {
            data: Sent::Polynomial(g.coeffs@),
            producer: Role::Prover,
            consumer: Role::Verifier,
        };
        proof {
            // the polynomial sent is the one of the run's definition
            let sel = boolean_selection(n as int, round as int);
            let here = summed_terms(current@, sel);
            let there = summed_terms(model, sel);
            lemma_summed_terms_congruent(current@, model, sel, p);
            lemma_residue_degree_congruent(here, there, p);
            assert(g.coeffs@ =~= honest_message(model, n as nat, round, p)) by {
                assert forall|e: int| 0 <= e < g.coeffs@.len() implies g.coeffs@[e]
                    == honest_message(model, n as nat, round, p)[e] by {
                    assert(congruent(
                        coeff_of(here, pure_power(round, e as usize)),
                        coeff_of(there, pure_power(round, e as usize)),
                        p,
                    ));
                }
            }
            assert(g@ == as_ints(g.coeffs@));
            assert(bounds[round as int] == max_exponent(poly@, round as int, p));
            lemma_mod_bound(uni_eval(g@, challenge as int), p);
        }
        transcript.push(
            Message { data: Data::Polynomial(g), producer: Role::Prover, consumer: Role::Verifier },
        );
        proof {
            assert(entries(transcript@) =~= before.push(sent));
        }
        match turn {
            Turn::Defect => {
                proof {
                    assert(false);
                }
                return Run { transcript, accepted: false };
            },
            Turn::Reply { data, next } => {
                match next {
                    None => {
                        // The verifier has rejected the polynomial, or
                        // it has seen the last one and decided.
                        let accepted = match &data {
                            Data::Decision(decision) => *decision,
                            _ => false,
                        };
                        transcript.push(
                            Message { data, producer: Role::Verifier, consumer: Role::Prover },
                        );
                        proof {
                            assert(rest == seq![sent, verdict(accepted)]);
                            assert(entries(transcript@) =~= before.push(sent).push(
                                verdict(accepted),
                            ));
                            assert(entries(transcript@) =~= before + rest);
                            assert(entries(transcript@).last() == verdict(accepted));
                        }
                        return Run { transcript, accepted };
                    },
                    Some(next_check) => {
                        // The verifier has sent its challenge, and the
                        // prover takes it.
                        transcript.push(
                            Message { data, producer: Role::Verifier, consumer: Role::Prover },
                        );
                        let reply = Some(Data::Scalar(challenge));
                        match SumCheckProver::absorb(&current, round, &reply) {
                            None => {
                                proof {
                                    assert(false);
                                }
                                return Run { transcript, accepted: false };
                            },
                            Some(next) => {
                                proof {
                                    let sel = point_selection(
                                        n as int,
                                        round as int,
                                        challenge as int,
                                    );
                                    let next_model = summed_terms(model, sel);
                                    let answer = Message {
                                        data: Sent::Scalar(challenge),
                                        producer: Role::Verifier,
                                        consumer: Role::Prover,
                                    };
                                    let later = honest_rounds(
                                        next_model,
                                        poly@,
                                        n as nat,
                                        p,
                                        next_check as int,
                                        challenges@,
                                        round as nat,
                                    );
                                    assert(rest == seq![sent, answer] + later);
                                    assert(entries(transcript@) =~= before.push(sent).push(answer));
                                    assert(entries(transcript@) + later =~= before + rest);
                                    lemma_summed_terms_congruent(current@, model, sel, p);
                                    assert forall|m: Seq<(usize, usize)>|
                                        congruent(
                                            #[trigger] coeff_of(next@, m),
                                            coeff_of(next_model, m),
                                            p,
                                        ) by {
                                        lemma_mod_twice(
                                            coeff_of(summed_terms(current@, sel), m),
                                            p,
                                        );
                                        assert(congruent(
                                            coeff_of(summed_terms(current@, sel), m),
                                            coeff_of(next_model, m),
                                            p,
                                        ));
                                    }
                                    model = next_model;
                                }
                                check_value = next_check;
                                current = next;
                            },
                        }
                    },
                }
            },
        }
        j = round;
    }
    // A polynomial without variables: the verifier decides without a
    // message from the prover.
    let none: Vec<UniPoly> = Vec::new();
    let accepted = verifier.decide(&none, challenges);
    proof {
        assert(transcript@ =~= Seq::empty());
        assert(entries(
            transcript@.push(
                Message {
                    data: Data::Decision(accepted),
                    producer: Role::Verifier,
                    consumer: Role::Prover,
                },
            ),
        ) =~= seq![verdict(accepted)]);
    }
    transcript.push(
        Message {
            data: Data::Decision(accepted),
            producer: Role::Verifier,
            consumer: Role::Prover,
        },
    );
    Run { transcript, accepted }
}

/// The party that knows the polynomial and claims its sum.
pub struct SumCheckProver {
    polynomial: MultiPoly,
}

impl SumCheckProver {
    /// The polynomial is canonical.
    #[verifier::type_invariant]
    spec fn inv(self) -> bool {
        self.polynomial.wf()
    }

    /// The prover's polynomial.
    pub closed spec fn polynomial(&self) -> MultiPoly {
        self.polynomial
    }

    /// The prover for `polynomial`.
    pub fn new(polynomial: MultiPoly) -> (r: SumCheckProver)
        requires
            polynomial.wf(),
        ensures
            r.polynomial() == polynomial,
    {
        SumCheckProver { polynomial }
    }
}

/// `next` is `poly` with the variable `variable` at the value `value`.
pub open spec fn restricted(next: MultiPoly, poly: MultiPoly, value: u64, variable: usize) -> bool {
    &&& next.wf()
    &&& next.modulus == poly.modulus
    &&& next.num_vars == poly.num_vars
    &&& forall|m: Seq<(usize, usize)>| #[trigger]
        coeff_of(next@, m) == coeff_of(
            summed_terms(
                poly@,
                point_selection(poly.num_vars as int, variable as int, value as int),
            ),
            m,
        ) % (poly.modulus as int)
}

impl SumCheckProver {
    /// What the prover makes of the verifier's reply to its polynomial
    /// of the round `round`, where `poly` is its polynomial of that
    /// round: on a challenge, its polynomial of the next round, which is
    /// `poly` with the round's variable at the challenge; on anything
    /// else, and on no reply, nothing, and the prover stops.
    pub fn absorb(poly: &MultiPoly, round: usize, reply: &Option<Data>) -> (next: Option<MultiPoly>)
        requires
            poly.wf(),
        ensures
            match *reply {
                Some(Data::Scalar(challenge)) => next is Some && restricted(
                    next->0,
                    *poly,
                    challenge,
                    round,
                ),
                _ => next is None,
            },
    {
        match reply {
            Some(Data::Scalar(challenge)) => Some(partial_eval(poly, *challenge, round)),
            _ => None,
        }
    }
}

impl SumCheckProver {
    /// The polynomials that the prover sends in a run in which it
    /// receives the challenges `challenges`, that of the round of the
    /// variable `v` at the place `v`: the prover's messages are a
    /// function of its polynomial and of the challenges.
    pub fn messages(&self, challenges: &Vec<u64>) -> (sent: Vec<UniPoly>)
        requires
            challenges.len() == self.polynomial().num_vars,
        ensures
            coefficient_lists(sent@) == honest_messages(
                self.polynomial()@,
                self.polynomial().num_vars as nat,
                self.polynomial().modulus as int,
                challenges@,
            ),
    {
        proof {
            use_type_invariant(self);
        }
        let n = self.polynomial.num_vars;
        let ghost p = self.polynomial.modulus as int;
        let ghost poly = self.polynomial@;
        let ghost want = honest_messages(poly, n as nat, p, challenges@);
        let mut sent: Vec<UniPoly> = Vec::new();
        let mut v: usize = 0;
        while v < n
            invariant
                v <= n,
                sent.len() == v,
            decreases n - v,
        {
            sent.push(UniPoly { coeffs: Vec::new() });
            v = v + 1;
        }
        let mut current: MultiPoly = self.polynomial.copy();
        let mut j: usize = n;
        while j > 0
            invariant
                self.polynomial.wf(),
                n == self.polynomial.num_vars,
                p == self.polynomial.modulus as int,
                poly == self.polynomial@,
                want == honest_messages(poly, n as nat, p, challenges@),
                challenges.len() == n,
                sent.len() == n,
                j <= n,
                current.wf(),
                current.modulus == self.polynomial.modulus,
                current.num_vars == n,
                j > 0 ==> forall|m: Seq<(usize, usize)>|
                    congruent(
                        #[trigger] coeff_of(current@, m),
                        coeff_of(prover_terms(poly, n as nat, challenges@, j - 1), m),
                        p,
                    ),
                forall|v: int| j <= v < n ==> (#[trigger] sent@[v])@ == want[v],
            decreases j,
        {
            let round: usize = j - 1;
            let g = round_message(&current, round);
            let ghost model = prover_terms(poly, n as nat, challenges@, round as int);
            proof {
                let sel = boolean_selection(n as int, round as int);
                let here = summed_terms(current@, sel);
                let there = summed_terms(model, sel);
                lemma_summed_terms_congruent(current@, model, sel, p);
                lemma_residue_degree_congruent(here, there, p);
                assert(g.coeffs@ =~= honest_message(model, n as nat, round, p)) by {
                    assert forall|e: int| 0 <= e < g.coeffs@.len() implies g.coeffs@[e]
                        == honest_message(model, n as nat, round, p)[e] by {
                        assert(congruent(
                            coeff_of(here, pure_power(round, e as usize)),
                            coeff_of(there, pure_power(round, e as usize)),
                            p,
                        ));
                    }
                }
                assert(g@ == want[round as int]);
            }
            let ghost before = sent@;
            sent.set(round, g);
            proof {
                assert forall|v: int| round <= v < n implies (#[trigger] sent@[v])@ == want[v] by {
                    if v > round {
                        assert(sent@[v] == before[v]);
                    }
                }
            }
            if round > 0 {
                let reply = Some(Data::Scalar(challenges[round]));
                match Self::absorb(&current, round, &reply) {
                    Some(next) => {
                        proof {
                            let sel = point_selection(
                                n as int,
                                round as int,
                                challenges@[round as int] as int,
                            );
                            let next_model = summed_terms(model, sel);
                            assert(next_model == prover_terms(
                                poly,
                                n as nat,
                                challenges@,
                                round - 1,
                            ));
                            lemma_summed_terms_congruent(current@, model, sel, p);
                            assert forall|m: Seq<(usize, usize)>|
                                congruent(
                                    #[trigger] coeff_of(next@, m),
                                    coeff_of(next_model, m),
                                    p,
                                ) by {
                                lemma_mod_twice(coeff_of(summed_terms(current@, sel), m), p);
                                assert(congruent(
                                    coeff_of(summed_terms(current@, sel), m),
                                    coeff_of(next_model, m),
                                    p,
                                ));
                            }
                        }
                        current = next;
                    },
                    None => {
                        proof {
                            assert(false);
                        }
                    },
                }
            }
            j = round;
        }
        proof {
            assert(coefficient_lists(sent@) =~= want);
        }
        sent
    }
}

impl IP<Data> for SumCheckProver {
    /// The prover's side of a run: in each round it sends the round's
    /// polynomial and, but in the last round, waits for the verifier's
    /// challenge. It stops when the verifier answers with anything but
    /// a challenge, or not at all.
    fn execute(&self, ch: Channel<Data>, log: Log) {
        proof {
            use_type_invariant(self);
        }
        let n = self.polynomial.num_vars;
        let mut poly = self.polynomial.copy();
        let mut j: usize = n;
        while j > 0
            invariant
                poly.wf(),
                poly.num_vars == n,
                j <= n,
            decreases j,
        {
            let round: usize = j - 1;
            let index = decimal_text(round as u64);
            log.write(join3("P computes univariate polynomial g_", index.as_str(), ""));
            let data = Data::Polynomial(round_message(&poly, round));
            log.write(join5("P --> (g_", index.as_str(), " = ", data.to_text().as_str(), ")"));
            ch.send(data);
            if round > 0 {
                match Self::absorb(&poly, round, &ch.receive()) {
                    Some(next) => {
                        log.write(
                            join5(
                                "P computes partial evaluation at x_",
                                index.as_str(),
                                " = r_",
                                index.as_str(),
                                "",
                            ),
                        );
                        poly = next;
                    },
                    None => {
                        return ;
                    },
                }
            }
            j = round;
        }
    }
}

/// The party that checks the claim: it holds the polynomial, for each
/// variable the highest degree that it accepts of the prover's
/// polynomial in that variable, and the claimed sum.
pub struct SumCheckVerifier {
    polynomial: MultiPoly,
    degrees: Vec<usize>,
    claimed_sum: u64,
}

impl SumCheckVerifier {
    /// The polynomial is canonical and has a degree bound for each of
    /// its variables.
    #[verifier::type_invariant]
    spec fn inv(self) -> bool {
        self.polynomial.wf() && self.degrees.len() == self.polynomial.num_vars
    }

    /// The verifier's polynomial.
    pub closed spec fn polynomial(&self) -> MultiPoly {
        self.polynomial
    }

    /// The verifier's degree bounds.
    pub closed spec fn degrees(&self) -> Seq<usize> {
        self.degrees@
    }

    /// The sum that the verifier checks.
    pub closed spec fn claimed_sum(&self) -> u64 {
        self.claimed_sum
    }

    /// The verifier for `polynomial` and `claimed_sum`, with one degree
    /// bound for each variable.
    pub fn new(polynomial: MultiPoly, degrees: Vec<usize>, claimed_sum: u64) -> (r:
        SumCheckVerifier)
        requires
            polynomial.wf(),
            degrees.len() == polynomial.num_vars,
        ensures
            r.polynomial() == polynomial,
            r.degrees() == degrees@,
            r.claimed_sum() == claimed_sum,
    {
        SumCheckVerifier { polynomial, degrees, claimed_sum }
    }

    /// What the verifier finds of the polynomial `g` that it received in
    /// the round of the variable `round`, with the check value
    /// `check_value` and the challenge `challenge`: nothing where `g`
    /// fails the degree check or the consistency check, and else the
    /// next check value, the value of `g` at the challenge.
    pub fn round(&self, round: usize, g: &UniPoly, check_value: u64, challenge: u64) -> (next:
        Option<u64>)
        requires
            round < self.polynomial().num_vars,
        ensures
            next == round_outcome(
                g@,
                self.degrees()[round as int] as int,
                check_value as int,
                challenge as int,
                self.polynomial().modulus as int,
            ),
    {
        proof {
            use_type_invariant(self);
        }
        let modulus = self.polynomial.modulus;
        if degree_within(g, self.degrees[round], modulus) && sums_to(g, check_value, modulus) {
            proof {
                lemma_mod_bound(uni_eval(g@, challenge as int), modulus as int);
            }
            Some(g.evaluate(challenge, modulus))
        } else {
            None
        }
    }

    /// What the verifier sends after the round of the variable `round`,
    /// and whether it goes on, where `passed` is what it found in the
    /// round and `challenges` holds the challenges drawn so far, that
    /// of this round among them.
    pub fn reply(&self, round: usize, passed: Option<u64>, challenges: &Vec<u64>) -> (t: Turn)
        requires
            round < self.polynomial().num_vars,
            challenges.len() == self.polynomial().num_vars,
        ensures
            t == reply_of(
                self.polynomial()@,
                self.polynomial().modulus as int,
                round as int,
                passed,
                challenges@,
            ),
    {
        proof {
            use_type_invariant(self);
        }
        match passed {
            None => Turn::Reply { data: Data::Decision(false), next: None },
            Some(value) => if round > 0 {
                Turn::Reply { data: Data::Scalar(challenges[round]), next: Some(value) }
            } else {
                Turn::Reply {
                    data: Data::Decision(oracle_agrees(&self.polynomial, challenges, value)),
                    next: None,
                }
            },
        }
    }

    /// What the verifier does in the round of the variable `round` on
    /// what it has received, with the check value `check_value`, where
    /// `challenges` holds the challenges drawn so far, that of this
    /// round among them.
    pub fn turn(
        &self,
        round: usize,
        received: &Option<Data>,
        check_value: u64,
        challenges: &Vec<u64>,
    ) -> (t: Turn)
        requires
            round < self.polynomial().num_vars,
            challenges.len() == self.polynomial().num_vars,
        ensures
            t == verifier_turn(
                self.polynomial()@,
                self.degrees(),
                self.polynomial().modulus as int,
                round as int,
                *received,
                check_value as int,
                challenges@,
            ),
    {
        match received {
            Some(Data::Polynomial(g)) => {
                let passed = self.round(round, g, check_value, challenges[round]);
                self.reply(round, passed, challenges)
            },
            _ => Turn::Defect,
        }
    }

    /// Whether the verifier accepts where the prover sends `messages[v]`
    /// in the round of the variable `v` and the verifier draws
    /// `challenges[v]` in it: every polynomial passes the degree check
    /// and the consistency check of its round, and the value of the
    /// verifier's polynomial at the challenges is the last check value.
    pub fn decide(&self, messages: &Vec<UniPoly>, challenges: &Vec<u64>) -> (accepted: bool)
        requires
            messages.len() == self.polynomial().num_vars,
            challenges.len() == self.polynomial().num_vars,
        ensures
            accepted == verifier_accepts(
                self.polynomial()@,
                self.degrees(),
                self.polynomial().modulus as int,
                self.claimed_sum() as int % (self.polynomial().modulus as int),
                coefficient_lists(messages@),
                challenges@,
                self.polynomial().num_vars as nat,
            ),
    {
        proof {
            use_type_invariant(self);
        }
        let n = self.polynomial.num_vars;
        let modulus = self.polynomial.modulus;
        let ghost p = modulus as int;
        let ghost lists = coefficient_lists(messages@);
        let mut check_value: u64 = self.claimed_sum % modulus;
        let mut j: usize = n;
        while j > 0
            invariant
                self.polynomial.wf(),
                self.degrees.len() == n,
                n == self.polynomial.num_vars,
                modulus == self.polynomial.modulus,
                p == modulus as int,
                lists == coefficient_lists(messages@),
                messages.len() == n,
                challenges.len() == n,
                j <= n,
                verifier_accepts(
                    self.polynomial@,
                    self.degrees@,
                    p,
                    self.claimed_sum as int % p,
                    lists,
                    challenges@,
                    n as nat,
                ) == verifier_accepts(
                    self.polynomial@,
                    self.degrees@,
                    p,
                    check_value as int,
                    lists,
                    challenges@,
                    j as nat,
                ),
            decreases j,
        {
            let round: usize = j - 1;
            proof {
                assert(lists[round as int] == messages@[round as int]@);
                lemma_mod_bound(
                    uni_eval(lists[round as int], challenges@[round as int] as int),
                    p,
                );
            }
            match self.round(round, &messages[round], check_value, challenges[round]) {
                Some(value) => {
                    check_value = value;
                },
                None => {
                    return false;
                },
            }
            j = round;
        }
        oracle_agrees(&self.polynomial, challenges, check_value)
    }

    /// Writes to the log what the verifier does after the last round.
    fn narrate_decision(log: &Log, decision: &Data) {
        log.write(String::from_str("V evaluates g(r) with a single oracle query"));
        log.write(String::from_str("V checks that oracle evaluation equals final check value"));
        log.write(join3("V --> (", decision.to_text().as_str(), ")"));
    }

    /// Writes to the log what the verifier does in a round. The lines
    /// follow the turn: they say nothing of a defect.
    fn narrate(
        &self,
        log: &Log,
        round: usize,
        received: &Option<Data>,
        check_value: u64,
        challenge: u64,
        turn: &Turn,
    )
        requires
            round < self.polynomial().num_vars,
    {
        proof {
            use_type_invariant(self);
        }
        let modulus = self.polynomial.modulus;
        let index = decimal_text(round as u64);
        match (received, turn) {
            (Some(Data::Polynomial(g)), Turn::Reply { data, next }) => {
                log.write(join3("V checks g_", index.as_str(), " has small enough degree"));
                if degree_within(g, self.degrees[round], modulus) {
                    log.write(join3("V checks g_", index.as_str(), " sums to check value"));
                    if sums_to(g, check_value, modulus) {
                        log.write(join3("V picks r_", index.as_str(), " uniformly at random"));
                        log.write(
                            join5(
                                "V updates check value to g_",
                                index.as_str(),
                                "(r_",
                                index.as_str(),
                                ")",
                            ),
                        );
                        let drawn = decimal_text(challenge);
                        if round > 0 {
                            log.write(
                                join5("V --> (r_", index.as_str(), " = ", drawn.as_str(), ")"),
                            );
                        } else {
                            log.write(
                                join3("V has (r_0 = ", drawn.as_str(), ") but does not send to P"),
                            );
                            Self::narrate_decision(log, data);
                        }
                        return ;
                    }
                }
                log.write(join3("V --> (", data.to_text().as_str(), ")"));
            },
            _ => {},
        }
    }
}

impl IP<Data> for SumCheckVerifier {
    /// The verifier's side of a run. In each round it waits for the
    /// prover's message, draws a challenge and does what `turn` says:
    /// it sends the reply, if there is one, and goes on to the next
    /// round with the new check value, if there is one. For a
    /// polynomial without variables it sends its decision at once.
    fn execute(&self, ch: Channel<Data>, log: Log) {
        proof {
            use_type_invariant(self);
        }
        let n = self.polynomial.num_vars;
        let modulus = self.polynomial.modulus;
        let mut check_value: u64 = self.claimed_sum % modulus;
        let mut challenges: Vec<u64> = Vec::new();
        let mut v: usize = 0;
        while v < n
            invariant
                v <= n,
                challenges.len() == v,
            decreases n - v,
        {
            challenges.push(0);
            v = v + 1;
        }
        if n == 0 {
            let none: Vec<UniPoly> = Vec::new();
            let decision = Data::Decision(self.decide(&none, &challenges));
            Self::narrate_decision(&log, &decision);
            ch.send(decision);
            return ;
        }
        let mut j: usize = n;
        while j > 0
            invariant
                self.polynomial.wf(),
                n == self.polynomial.num_vars,
                modulus == self.polynomial.modulus,
                self.degrees.len() == n,
                challenges.len() == n,
                j <= n,
            decreases j,
        {
            let round: usize = j - 1;
            let received = ch.receive();
            let challenge = random_element(modulus);
            challenges.set(round, challenge);
            let turn = self.turn(round, &received, check_value, &challenges);
            self.narrate(&log, round, &received, check_value, challenge, &turn);
            match turn {
                Turn::Defect => {
                    return ;
                },
                Turn::Reply { data, next } => {
                    ch.send(data);
                    match next {
                        Some(value) => {
                            check_value = value;
                        },
                        None => {
                            return ;
                        },
                    }
                },
            }
            j = round;
        }
    }
}

} // verus!
