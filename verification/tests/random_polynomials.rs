use pazk::polynomials::{
    construct_poly, into_univariate, partial_eval, partial_summation, variable_degrees, MultiPoly,
};
use pazk::small_fields::F13Config;
use pazk::sum_check::{interact, round_message};
use rand::Rng;

const P: u64 = 13;

fn random_poly(rng: &mut impl Rng, num_vars: usize) -> MultiPoly {
    let terms = rng.gen_range(0..7);
    let spec = (0..terms)
        .map(|_| {
            let entries = rng.gen_range(0..4);
            let monomial =
                (0..entries).map(|_| (rng.gen_range(0..num_vars), rng.gen_range(0..4))).collect();
            (rng.gen_range(0..40), monomial)
        })
        .collect();
    construct_poly::<F13Config>(num_vars, spec)
}

// The sum of the values of `f` over the selected values, by going through
// every choice.
fn sum_by_hand(f: &MultiPoly, vals: &[Option<Vec<u64>>], point: &mut Vec<u64>, from: usize) -> u64 {
    match vals[from..].iter().position(|v| v.is_some()) {
        None => f.evaluate(point),
        Some(offset) => {
            let v = from + offset;
            let kept = point[v];
            let mut sum = 0;
            for a in vals[v].as_ref().unwrap() {
                point[v] = *a;
                sum = (sum + sum_by_hand(f, vals, point, v + 1)) % P;
            }
            point[v] = kept;
            sum
        }
    }
}

#[test]
fn partial_summation_sums_the_values() {
    let mut rng = rand::thread_rng();
    for _ in 0..200 {
        let n = rng.gen_range(1..4);
        let f = random_poly(&mut rng, n);
        let vals: Vec<Option<Vec<u64>>> = (0..n)
            .map(|_| {
                if rng.gen_bool(0.5) {
                    let size = rng.gen_range(0..4);
                    Some((0..size).map(|_| rng.gen_range(0..30)).collect())
                } else {
                    None
                }
            })
            .collect();
        let summed = partial_summation(&f, &vals);
        assert_eq!(summed.num_vars, n);
        assert_eq!(summed.modulus, P);
        for (v, choice) in vals.iter().enumerate() {
            if choice.is_some() {
                assert!(summed.terms.iter().all(|(_, m)| m.iter().all(|(w, _)| *w != v)));
            }
        }
        for _ in 0..5 {
            let mut point: Vec<u64> = (0..n).map(|_| rng.gen_range(0..P)).collect();
            assert_eq!(summed.evaluate(&point), sum_by_hand(&f, &vals, &mut point, 0));
        }
    }
}

#[test]
fn partial_eval_substitutes() {
    let mut rng = rand::thread_rng();
    for _ in 0..200 {
        let n = rng.gen_range(1..4);
        let f = random_poly(&mut rng, n);
        let variable = rng.gen_range(0..n);
        let value = rng.gen_range(0..P);
        let g = partial_eval(&f, value, variable);
        let mut point: Vec<u64> = (0..n).map(|_| rng.gen_range(0..P)).collect();
        let left = g.evaluate(&point);
        point[variable] = value;
        assert_eq!(left, f.evaluate(&point));
    }
}

#[test]
fn into_univariate_sets_the_other_variables_to_zero() {
    let mut rng = rand::thread_rng();
    for _ in 0..200 {
        let n = rng.gen_range(1..4);
        let f = random_poly(&mut rng, n);
        let variable = rng.gen_range(0..n);
        let g = into_univariate(&f, variable);
        assert_eq!(g.coeffs.len(), f.degree() + 1);
        let x = rng.gen_range(0..P);
        let mut point = vec![0; n];
        point[variable] = x;
        assert_eq!(g.evaluate(x, P), f.evaluate(&point));
    }
}

#[test]
fn variable_degrees_are_the_highest_exponents() {
    let mut rng = rand::thread_rng();
    for _ in 0..200 {
        let n = rng.gen_range(1..4);
        let f = random_poly(&mut rng, n);
        let by_hand: Vec<usize> = (0..n)
            .map(|v| {
                f.terms
                    .iter()
                    .flat_map(|(_, m)| m.iter().filter(|(w, _)| *w == v).map(|(_, e)| *e))
                    .max()
                    .unwrap_or(0)
            })
            .collect();
        assert_eq!(variable_degrees(&f), by_hand);
    }
}

#[test]
fn true_claims_are_accepted_and_false_ones_rejected_at_once() {
    let mut rng = rand::thread_rng();
    for _ in 0..200 {
        let n = rng.gen_range(1..4);
        let f = random_poly(&mut rng, n);
        let cube: Vec<Option<Vec<u64>>> = vec![Some(vec![0, 1]); n];
        let sum = sum_by_hand(&f, &cube, &mut vec![0; n], 0);
        let challenges: Vec<u64> = (0..n).map(|_| rng.gen_range(0..P)).collect();
        let run = interact(&f, sum, &challenges);
        assert!(run.accepted);
        assert_eq!(run.transcript.len(), 2 * n);
        let wrong = (sum + rng.gen_range(1..P)) % P;
        let run = interact(&f, wrong, &challenges);
        assert!(!run.accepted);
        assert_eq!(run.transcript.len(), 2);
    }
}

#[test]
fn round_messages_have_the_values_of_the_sums() {
    let mut rng = rand::thread_rng();
    for _ in 0..200 {
        let n = rng.gen_range(1..4);
        let j = rng.gen_range(0..n);
        // a polynomial in the variables up to `j` only
        let f = random_poly(&mut rng, j + 1);
        let f = MultiPoly { modulus: P, num_vars: n, terms: f.terms };
        let g = round_message(&f, j);
        let x = rng.gen_range(0..P);
        let mut vals: Vec<Option<Vec<u64>>> = vec![None; n];
        for choice in vals.iter_mut().take(j) {
            *choice = Some(vec![0, 1]);
        }
        let mut point = vec![0; n];
        point[j] = x;
        assert_eq!(g.evaluate(x, P), sum_by_hand(&f, &vals, &mut point, 0));
        assert!(g.degree(P) <= variable_degrees(&f)[j]);
    }
}
