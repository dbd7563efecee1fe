use pazk::ip::channel::Message;
use pazk::ip::{Channel, Log, IP};
use pazk::polynomials::{construct_poly, partial_eval, variable_degrees, MultiPoly, UniPoly};
use pazk::small_fields::{F13Config, F5Config};
use pazk::sum_check::{
    degree_within, interact, oracle_agrees, round_message, sums_to, Data, Role, SumCheckProver,
    SumCheckVerifier, Turn,
};

// f(x, y) = x^2 + 2xy + 3y^2 over the field with 13 elements
fn f() -> MultiPoly {
    construct_poly::<F13Config>(
        2,
        vec![(1, vec![(0, 2)]), (2, vec![(0, 1), (1, 1)]), (3, vec![(1, 2)])],
    )
}

fn from_prover(g: Vec<u64>) -> Message<Data, Role> {
    Message {
        data: Data::Polynomial(UniPoly { coeffs: g }),
        producer: Role::Prover,
        consumer: Role::Verifier,
    }
}

fn from_verifier(data: Data) -> Message<Data, Role> {
    Message { data, producer: Role::Verifier, consumer: Role::Prover }
}

fn lines(log: &Log) -> Vec<String> {
    log.get_log().lock().unwrap().clone()
}

#[test]
fn end_to_end_scenario() {
    let f = f();
    for r0 in 0..13u64 {
        for r1 in 0..13u64 {
            let run = interact(&f, 10, &vec![r0, r1]);
            assert!(run.accepted);
            // g_1(y) = f(0, y) + f(1, y) = 6y^2 + 2y + 1, and g_1(0) + g_1(1) = 10
            let g1 = UniPoly { coeffs: vec![1, 2, 6] };
            assert_eq!((g1.evaluate(0, 13) + g1.evaluate(1, 13)) % 13, 10);
            // g_0(x) = f(x, r_1) = x^2 + 2 r_1 x + 3 r_1^2, and g_0(0) + g_0(1) = g_1(r_1)
            let g0 = UniPoly { coeffs: vec![3 * r1 * r1 % 13, 2 * r1 % 13, 1] };
            assert_eq!((g0.evaluate(0, 13) + g0.evaluate(1, 13)) % 13, g1.evaluate(r1, 13));
            // the verifier accepts because f(r_0, r_1) = g_0(r_0)
            assert_eq!(f.evaluate(&vec![r0, r1]), g0.evaluate(r0, 13));
            assert_eq!(
                run.transcript,
                vec![
                    from_prover(g1.coeffs),
                    from_verifier(Data::Scalar(r1)),
                    from_prover(g0.coeffs),
                    from_verifier(Data::Decision(true)),
                ]
            );
        }
    }
}

#[test]
fn a_false_claim_is_rejected_in_the_first_round() {
    let f = f();
    for claimed in 0..13u64 {
        if claimed == 10 {
            continue;
        }
        let run = interact(&f, claimed, &vec![3, 7]);
        assert!(!run.accepted);
        assert_eq!(
            run.transcript,
            vec![from_prover(vec![1, 2, 6]), from_verifier(Data::Decision(false))]
        );
    }
}

#[test]
fn a_claim_need_not_be_reduced() {
    assert!(interact(&f(), 23, &vec![0, 0]).accepted);
}

#[test]
fn completeness_for_three_variables() {
    // h(x, y, z) = 2xyz + x^3 + 5z + 7 over the field with 13 elements
    let h = construct_poly::<F13Config>(
        3,
        vec![(2, vec![(0, 1), (1, 1), (2, 1)]), (1, vec![(0, 3)]), (5, vec![(2, 1)]), (7, vec![])],
    );
    let mut sum = 0;
    for x in 0..2u64 {
        for y in 0..2u64 {
            for z in 0..2u64 {
                sum = (sum + h.evaluate(&vec![x, y, z])) % 13;
            }
        }
    }
    assert_eq!(sum, (2 + 4 + 20 + 56) % 13);
    for r in 0..13u64 {
        let run = interact(&h, sum, &vec![r, (r * r + 1) % 13, (5 * r + 2) % 13]);
        assert!(run.accepted);
        assert_eq!(run.transcript.len(), 6);
    }
}

#[test]
fn a_polynomial_without_variables_is_decided_at_once() {
    let c = construct_poly::<F13Config>(0, vec![(9, vec![])]);
    let run = interact(&c, 9, &vec![]);
    assert!(run.accepted);
    assert_eq!(run.transcript, vec![from_verifier(Data::Decision(true))]);
    assert!(!interact(&c, 8, &vec![]).accepted);
}

#[test]
fn round_messages_of_the_honest_prover() {
    let f = f();
    assert_eq!(round_message(&f, 1), UniPoly { coeffs: vec![1, 2, 6] });
    // for the first variable nothing is summed
    assert_eq!(round_message(&f, 0), UniPoly { coeffs: vec![0, 0, 1] });
}

#[test]
fn verifier_checks() {
    let g = UniPoly { coeffs: vec![1, 2, 6] };
    assert!(degree_within(&g, 2, 13));
    assert!(!degree_within(&g, 1, 13));
    // a leading coefficient that is zero in the field does not count
    assert!(degree_within(&UniPoly { coeffs: vec![1, 2, 13] }, 1, 13));
    assert!(sums_to(&g, 10, 13));
    assert!(sums_to(&g, 23, 13));
    assert!(!sums_to(&g, 9, 13));
    let f = f();
    assert!(oracle_agrees(&f, &vec![2, 1], 11));
    assert!(!oracle_agrees(&f, &vec![2, 1], 10));
}

fn verifier_for(claimed_sum: u64) -> SumCheckVerifier {
    let f = f();
    let degrees = variable_degrees(&f);
    SumCheckVerifier::new(f, degrees, claimed_sum)
}

fn polynomial(coeffs: Vec<u64>) -> Option<Data> {
    Some(Data::Polynomial(UniPoly { coeffs }))
}

#[test]
fn verifier_rounds() {
    let v = verifier_for(10);
    let g1 = UniPoly { coeffs: vec![1, 2, 6] };
    // g_1(5) = 6 * 25 + 10 + 1 = 161 = 5
    assert_eq!(v.round(1, &g1, 10, 5), Some(5));
    assert_eq!(v.round(1, &g1, 23, 5), Some(5));
    // the consistency check fails
    assert_eq!(v.round(1, &g1, 9, 5), None);
    // the degree check fails: x^3 - x vanishes at zero and at one
    assert_eq!(v.round(1, &UniPoly { coeffs: vec![1, 1, 6, 1] }, 10, 5), None);
    // a leading coefficient that is zero in the field does not count
    assert_eq!(v.round(1, &UniPoly { coeffs: vec![1, 2, 6, 13] }, 10, 5), Some(5));
}

#[test]
fn verifier_replies() {
    let v = verifier_for(10);
    let reject = Turn::Reply { data: Data::Decision(false), next: None };
    // after a polynomial that failed a check
    assert_eq!(v.reply(1, None, &vec![0, 5]), reject);
    assert_eq!(v.reply(0, None, &vec![3, 5]), reject);
    // after one that passed: the challenge, but in the last round
    assert_eq!(
        v.reply(1, Some(5), &vec![0, 5]),
        Turn::Reply { data: Data::Scalar(5), next: Some(5) }
    );
    // f(3, 5) = 9 + 30 + 75 = 114 = 10
    assert_eq!(
        v.reply(0, Some(10), &vec![3, 5]),
        Turn::Reply { data: Data::Decision(true), next: None }
    );
    assert_eq!(v.reply(0, Some(9), &vec![3, 5]), reject);
}

#[test]
fn verifier_turns() {
    let v = verifier_for(10);
    assert_eq!(
        v.turn(1, &polynomial(vec![1, 2, 6]), 10, &vec![0, 5]),
        Turn::Reply { data: Data::Scalar(5), next: Some(5) }
    );
    assert_eq!(
        v.turn(1, &polynomial(vec![1, 2, 7]), 10, &vec![0, 5]),
        Turn::Reply { data: Data::Decision(false), next: None }
    );
    // g_0(x) = f(x, 5) = x^2 + 10 x + 10 sums to 10 + 21 = 5, and g_0(3) = 10
    assert_eq!(
        v.turn(0, &polynomial(vec![10, 10, 1]), 5, &vec![3, 5]),
        Turn::Reply { data: Data::Decision(true), next: None }
    );
    // anything but a polynomial is a defect
    assert_eq!(v.turn(1, &Some(Data::Scalar(3)), 10, &vec![0, 5]), Turn::Defect);
    assert_eq!(v.turn(1, &Some(Data::Decision(true)), 10, &vec![0, 5]), Turn::Defect);
    assert_eq!(v.turn(1, &None, 10, &vec![0, 5]), Turn::Defect);
}

#[test]
fn prover_messages_are_a_function_of_the_challenges() {
    let prover = SumCheckProver::new(f());
    for r0 in 0..13u64 {
        for r1 in 0..13u64 {
            let messages = prover.messages(&vec![r0, r1]);
            assert_eq!(
                messages,
                vec![
                    UniPoly { coeffs: vec![3 * r1 * r1 % 13, 2 * r1 % 13, 1] },
                    UniPoly { coeffs: vec![1, 2, 6] },
                ]
            );
            // they are the polynomials of the run with these challenges
            let run = interact(&f(), 10, &vec![r0, r1]);
            assert_eq!(run.transcript[0].data, Data::Polynomial(messages[1].clone()));
            assert_eq!(run.transcript[2].data, Data::Polynomial(messages[0].clone()));
        }
    }
    let constant = SumCheckProver::new(construct_poly::<F13Config>(0, vec![(9, vec![])]));
    assert_eq!(constant.messages(&vec![]), vec![]);
}

#[test]
fn verifier_accepts_the_honest_prover_whatever_the_challenges() {
    let prover = SumCheckProver::new(f());
    for r0 in 0..13u64 {
        for r1 in 0..13u64 {
            let challenges = vec![r0, r1];
            let messages = prover.messages(&challenges);
            assert!(verifier_for(10).decide(&messages, &challenges));
            assert!(verifier_for(23).decide(&messages, &challenges));
            for claimed in [0u64, 9, 11, 12] {
                assert!(!verifier_for(claimed).decide(&messages, &challenges));
            }
        }
    }
}

#[test]
fn verifier_decides_as_the_run_does() {
    let f = f();
    let prover = SumCheckProver::new(f.clone());
    for claimed in [10u64, 11] {
        for r0 in 0..13u64 {
            for r1 in 0..13u64 {
                let challenges = vec![r0, r1];
                let run = interact(&f, claimed, &challenges);
                let decided = verifier_for(claimed).decide(&prover.messages(&challenges), &challenges);
                assert_eq!(decided, run.accepted);
                assert_eq!(run.accepted, claimed == 10);
            }
        }
    }
}

#[test]
fn verifier_decides_on_the_check_that_fails() {
    let g1 = UniPoly { coeffs: vec![1, 2, 6] };
    let g0 = UniPoly { coeffs: vec![10, 10, 1] };
    // with the challenge 5 for the second variable these are the honest ones
    assert!(verifier_for(10).decide(&vec![g0.clone(), g1.clone()], &vec![3, 5]));
    // the degree check of the first round
    let high = UniPoly { coeffs: vec![1, 1, 6, 1] };
    assert!(!verifier_for(10).decide(&vec![g0.clone(), high], &vec![3, 5]));
    // the consistency check of the first round
    assert!(!verifier_for(9).decide(&vec![g0.clone(), g1.clone()], &vec![3, 5]));
    // the consistency check of the second round
    assert!(!verifier_for(10).decide(&vec![g0.clone(), g1.clone()], &vec![3, 6]));
    // the degree check of the second round: x^3 - x added
    let high = UniPoly { coeffs: vec![10, 9, 1, 1] };
    assert!(!verifier_for(10).decide(&vec![high, g1.clone()], &vec![3, 5]));
    // the oracle check: (x - 1) x added, which vanishes at zero and at one
    let off = UniPoly { coeffs: vec![10, 9, 2] };
    assert!(!verifier_for(10).decide(&vec![off.clone(), g1.clone()], &vec![3, 5]));
    assert!(verifier_for(10).decide(&vec![off, g1], &vec![1, 5]));
}

#[test]
fn prover_absorbs_challenges_only() {
    let f = f();
    assert_eq!(SumCheckProver::absorb(&f, 1, &Some(Data::Scalar(5))), Some(partial_eval(&f, 5, 1)));
    assert_eq!(SumCheckProver::absorb(&f, 1, &Some(Data::Decision(false))), None);
    assert_eq!(SumCheckProver::absorb(&f, 1, &Some(Data::Decision(true))), None);
    assert_eq!(SumCheckProver::absorb(&f, 1, &polynomial(vec![1])), None);
    assert_eq!(SumCheckProver::absorb(&f, 1, &None), None);
}

// A prover that claims the sum 11 and sends, in the first round, the honest
// polynomial plus a constant that makes the first check pass, and is honest
// from then on.
fn cheating_run_accepts(r0: u64, r1: u64) -> bool {
    // g_1 + 7 sums to 10 + 14 = 24 = 11
    let g1 = UniPoly { coeffs: vec![8, 2, 6] };
    let g0 = UniPoly { coeffs: vec![3 * r1 * r1 % 13, 2 * r1 % 13, 1] };
    verifier_for(11).decide(&vec![g0, g1], &vec![r0, r1])
}

#[test]
fn a_cheating_prover_is_caught_within_the_soundness_bound() {
    let mut accepted = 0;
    for r0 in 0..13u64 {
        for r1 in 0..13u64 {
            if cheating_run_accepts(r0, r1) {
                accepted += 1;
            }
        }
    }
    // at most (2 + 2) / 13 of the 169 challenge pairs
    assert!(accepted * 13 <= 4 * 169);
    // this prover is in fact always caught: the constant 7 has no root
    assert_eq!(accepted, 0);
}

// A prover that claims the sum 11 and sends a polynomial of the first round
// that agrees with the honest one at 4 and at 9 only, and is honest from then
// on: g_1 + (y - 4)(y - 9), which sums to 10 + 36 + 24 = 70 = 5.
#[test]
fn a_cheating_prover_gets_through_at_the_roots_only() {
    // (y - 4)(y - 9) = y^2 - 13 y + 36 = y^2 + 10
    let g1 = UniPoly { coeffs: vec![11, 2, 7] };
    let mut accepted = 0;
    for r0 in 0..13u64 {
        for r1 in 0..13u64 {
            let g0 = UniPoly { coeffs: vec![3 * r1 * r1 % 13, 2 * r1 % 13, 1] };
            let got_through = verifier_for(5).decide(&vec![g0, g1.clone()], &vec![r0, r1]);
            assert_eq!(got_through, r1 == 4 || r1 == 9);
            if got_through {
                accepted += 1;
            }
        }
    }
    assert!(accepted * 13 <= 4 * 169);
}

#[test]
fn data_as_text() {
    assert_eq!(Data::Scalar(12).to_text(), "12");
    assert_eq!(Data::Decision(true).to_text(), "Accept");
    assert_eq!(Data::Decision(false).to_text(), "Reject");
    assert_eq!(Data::Polynomial(UniPoly { coeffs: vec![4, 4, 3] }).to_text(), "3*x^2 + 4*x + 4");
}

#[test]
fn data_kinds() {
    assert_eq!(Data::Scalar(3).to_scalar(), Some(3));
    assert_eq!(Data::Decision(true).to_scalar(), None);
    assert_eq!(Data::Decision(true).to_decision(), Some(true));
    assert_eq!(Data::Scalar(3).to_decision(), None);
    let g = UniPoly { coeffs: vec![1] };
    assert_eq!(Data::Polynomial(g.clone()).to_polynomial(), Some(g));
    assert_eq!(Data::Scalar(3).to_polynomial(), None);
}

#[test]
fn prover_runs_over_a_channel() {
    let (p_end, v_end) = Channel::<Data>::gen();
    let log = Log::new();
    // the verifier's challenge for the second variable is waiting
    v_end.send(Data::Scalar(5));
    SumCheckProver::new(f()).execute(p_end, log.clone());
    let expected = interact(&f(), 10, &vec![0, 5]).transcript;
    assert_eq!(v_end.receive(), Some(expected[0].data.clone()));
    assert_eq!(v_end.receive(), Some(expected[2].data.clone()));
    assert_eq!(v_end.receive(), None);
    assert_eq!(
        lines(&log),
        vec![
            "P computes univariate polynomial g_1",
            "P --> (g_1 = 6*x^2 + 2*x + 1)",
            "P computes partial evaluation at x_1 = r_1",
            "P computes univariate polynomial g_0",
            "P --> (g_0 = x^2 + 10*x + 10)",
        ]
    );
}

#[test]
fn prover_stops_when_the_verifier_rejects() {
    let (p_end, v_end) = Channel::<Data>::gen();
    v_end.send(Data::Decision(false));
    SumCheckProver::new(f()).execute(p_end, Log::new());
    assert!(matches!(v_end.receive(), Some(Data::Polynomial(_))));
    assert_eq!(v_end.receive(), None);
}

#[test]
fn verifier_runs_over_a_channel() {
    // g(x) = 3x^2 + x + 2 in one variable sums to 2 + 6 = 8
    let g = construct_poly::<F5Config>(1, vec![(3, vec![(0, 2)]), (1, vec![(0, 1)]), (2, vec![])]);
    let (p_end, v_end) = Channel::<Data>::gen();
    let log = Log::new();
    p_end.send(Data::Polynomial(UniPoly { coeffs: vec![2, 1, 3] }));
    let degrees = variable_degrees(&g);
    SumCheckVerifier::new(g, degrees, 8).execute(v_end, log.clone());
    assert_eq!(p_end.receive(), Some(Data::Decision(true)));
    let lines = lines(&log);
    assert_eq!(lines.len(), 8);
    assert_eq!(lines[0], "V checks g_0 has small enough degree");
    assert_eq!(lines[1], "V checks g_0 sums to check value");
    assert_eq!(lines[2], "V picks r_0 uniformly at random");
    assert_eq!(lines[3], "V updates check value to g_0(r_0)");
    assert!(lines[4].starts_with("V has (r_0 = "));
    assert!(lines[4].ends_with(") but does not send to P"));
    assert_eq!(lines[5], "V evaluates g(r) with a single oracle query");
    assert_eq!(lines[6], "V checks that oracle evaluation equals final check value");
    assert_eq!(lines[7], "V --> (Accept)");
}

#[test]
fn verifier_draws_challenges_from_the_field() {
    for _ in 0..50 {
        let (p_end, v_end) = Channel::<Data>::gen();
        p_end.send(Data::Polynomial(UniPoly { coeffs: vec![1, 2, 6] }));
        // what follows is not a polynomial: the run ends without a decision
        p_end.send(Data::Decision(true));
        verifier_for(10).execute(v_end, Log::new());
        match p_end.receive() {
            Some(Data::Scalar(r)) => assert!(r < 13),
            other => panic!("expected a challenge, got {:?}", other),
        }
        assert_eq!(p_end.receive(), None);
    }
}

#[test]
fn verifier_sends_each_challenge_but_the_last_and_then_its_decision() {
    for _ in 0..50 {
        let (p_end, v_end) = Channel::<Data>::gen();
        let log = Log::new();
        // the first polynomial is the honest one; the second one fits the
        // challenge only by chance
        p_end.send(Data::Polynomial(UniPoly { coeffs: vec![1, 2, 6] }));
        p_end.send(Data::Polynomial(UniPoly { coeffs: vec![10, 10, 1] }));
        verifier_for(10).execute(v_end, log.clone());
        let r1 = p_end.receive().unwrap().to_scalar().unwrap();
        let decision = p_end.receive().unwrap().to_decision().unwrap();
        assert_eq!(p_end.receive(), None);
        if r1 != 5 && r1 != 12 {
            // 5 and 12 are the only challenges at which g_1 has the value 5
            assert!(!decision);
            assert_eq!(lines(&log).last().unwrap(), "V --> (Reject)");
        }
        if decision {
            assert_eq!(lines(&log).last().unwrap(), "V --> (Accept)");
        }
    }
}

#[test]
fn verifier_rejects_a_polynomial_of_high_degree() {
    let (p_end, v_end) = Channel::<Data>::gen();
    // x^3 - x vanishes at zero and at one, so the sum is still 10
    p_end.send(Data::Polynomial(UniPoly { coeffs: vec![1, 1, 6, 1] }));
    let f = f();
    let degrees = variable_degrees(&f);
    let log = Log::new();
    SumCheckVerifier::new(f, degrees, 10).execute(v_end, log.clone());
    assert_eq!(p_end.receive(), Some(Data::Decision(false)));
    assert_eq!(lines(&log), vec!["V checks g_1 has small enough degree", "V --> (Reject)"]);
}

#[test]
fn verifier_sends_no_decision_when_the_prover_is_gone() {
    let (p_end, v_end) = Channel::<Data>::gen();
    let log = Log::new();
    drop(p_end);
    verifier_for(10).execute(v_end, log.clone());
    assert_eq!(lines(&log), Vec::<String>::new());
}

#[test]
fn verifier_decides_at_once_without_variables() {
    let c = construct_poly::<F13Config>(0, vec![(9, vec![])]);
    for (claimed, decision, line) in [(9, true, "V --> (Accept)"), (8, false, "V --> (Reject)")] {
        let (p_end, v_end) = Channel::<Data>::gen();
        let log = Log::new();
        SumCheckVerifier::new(c.clone(), vec![], claimed).execute(v_end, log.clone());
        assert_eq!(p_end.receive(), Some(Data::Decision(decision)));
        assert_eq!(p_end.receive(), None);
        assert_eq!(
            lines(&log),
            vec![
                "V evaluates g(r) with a single oracle query",
                "V checks that oracle evaluation equals final check value",
                line,
            ]
        );
    }
}
