use pazk::polynomials::{
    construct_const_poly, construct_poly, fits, into_univariate, partial_eval, partial_summation,
    power_sums, variable_degrees, MultiPoly, UniPoly,
};
use pazk::small_fields::{F13Config, F251Config, F5Config};
use rand::Rng;

type Spec = Vec<(u64, Vec<(usize, usize)>)>;

// f(x, y) = x^2 + 2xy + 3y^2
fn f_spec() -> Spec {
    vec![(1, vec![(0, 2)]), (2, vec![(0, 1), (1, 1)]), (3, vec![(1, 2)])]
}

#[test]
fn test_power_sums() {
    let mut rng = rand::thread_rng();
    let a: u64 = rng.gen_range(0..5);
    let b: u64 = rng.gen_range(0..5);

    let ps: Vec<u64> = power_sums(3, &vec![a, b], 5);

    let ps_by_hand: Vec<u64> = (0..=3u32).map(|e| (a.pow(e) + b.pow(e)) % 5).collect();

    assert_eq!(ps, ps_by_hand);
}

#[test]
fn test_partial_summation() {
    let test_vectors: Vec<(&str, usize, Spec, Vec<Option<Vec<u64>>>, Spec)> = vec![
        (
            "With f(x, y) = x^2 + 2xy + 3y^2, f(2, 1) = 11",
            2usize,
            f_spec(),
            vec![Some(vec![2]), Some(vec![1])],
            vec![(11, vec![])],
        ),
        (
            "With f(x, y) = x^2 + 2xy + 3y^2, f(2, y) = 3y^2 + 4y + 4",
            2usize,
            f_spec(),
            vec![Some(vec![2]), None],
            vec![(3, vec![(1, 2)]), (4, vec![(1, 1)]), (4, vec![])],
        ),
        (
            "With f(x, y) = x^2 + 2xy + 3y^2, sum for x, y in {0, 1} f(x, y) = 10",
            2usize,
            f_spec(),
            vec![Some(vec![0, 1]), Some(vec![0, 1])],
            vec![(10, vec![])],
        ),
        (
            "With f(x, y) = x^2 + 2xy + 3y^2, sum for y in {1, 3} f(x, y) = 2x^2 + 8x + 30",
            2usize,
            f_spec(),
            vec![None, Some(vec![1, 3])],
            vec![(2, vec![(0, 2)]), (8, vec![(0, 1)]), (30, vec![])],
        ),
    ];

    for (desc, num_vars, poly, vals, result) in test_vectors {
        let result = construct_poly::<F5Config>(num_vars, result);
        let poly = construct_poly::<F5Config>(num_vars, poly);
        let computed_result = partial_summation(&poly, &vals);
        assert_eq!(computed_result, result, "{}", desc);
    }
}

#[test]
fn test_into_univariate() {
    let poly = construct_poly::<F5Config>(2usize, f_spec());

    let uni = into_univariate(&poly, 0);
    let result = UniPoly { coeffs: vec![0, 0, 1] };
    assert_eq!(uni, result, "f(x, y) = x^2 + 2xy + 3y^2 restricted to x is g(x) = x^2");

    let partial = partial_summation(&poly, &vec![Some(vec![2]), None]);
    let uni = into_univariate(&partial, 1);
    let result = UniPoly { coeffs: vec![4, 4, 3] };
    assert_eq!(
        uni, result,
        "f(x, y) = 3y^2 + 4y + 4 restricted to y is itself as a univariate polynomial"
    );
}

#[test]
fn power_sums_exact_values() {
    // 2^k + 3^k + 5^k for k = 0..=4 is 3, 10, 38, 160, 722
    assert_eq!(power_sums(4, &vec![2, 3, 5], 251), vec![3, 10, 38, 160, 722 % 251]);
    // the empty sum is zero for every exponent
    assert_eq!(power_sums(2, &vec![], 13), vec![0, 0, 0]);
    // the power zero of zero is one
    assert_eq!(power_sums(1, &vec![0], 13), vec![1, 0]);
    // summands need not be reduced
    assert_eq!(power_sums(2, &vec![14], 13), vec![1, 1, 1]);
}

#[test]
fn summation_over_single_value_is_evaluation_in_f13() {
    let f = construct_poly::<F13Config>(2, f_spec());
    let r = partial_summation(&f, &vec![Some(vec![2]), Some(vec![1])]);
    assert_eq!(r, construct_const_poly::<F13Config>(2, 11));
    assert_eq!(r.terms, vec![(11, vec![])]);
    assert_eq!(f.evaluate(&vec![2, 1]), 11);
}

#[test]
fn summation_over_hypercube_in_f13() {
    let f = construct_poly::<F13Config>(2, f_spec());
    let r = partial_summation(&f, &vec![Some(vec![0, 1]), Some(vec![0, 1])]);
    assert_eq!(r.terms, vec![(10, vec![])]);
    let by_hand = (f.evaluate(&vec![0, 0])
        + f.evaluate(&vec![0, 1])
        + f.evaluate(&vec![1, 0])
        + f.evaluate(&vec![1, 1]))
        % 13;
    assert_eq!(by_hand, 10);
}

#[test]
fn restriction_to_y_in_f13() {
    let f = construct_poly::<F13Config>(2, f_spec());
    let fixed = partial_eval(&f, 2, 0);
    assert_eq!(fixed.terms, vec![(4, vec![]), (4, vec![(1, 1)]), (3, vec![(1, 2)])]);
    let g = into_univariate(&fixed, 1);
    assert_eq!(g, UniPoly { coeffs: vec![4, 4, 3] });
    for y in 0..13u64 {
        assert_eq!(g.evaluate(y, 13), (3 * y * y + 4 * y + 4) % 13);
        assert_eq!(g.evaluate(y, 13), f.evaluate(&vec![2, y]));
    }
}

#[test]
fn summation_counts_the_values_of_an_absent_variable() {
    // summing the constant 3 over x in {0, 1, 2} gives 9
    let c = construct_const_poly::<F13Config>(1, 3);
    let r = partial_summation(&c, &vec![Some(vec![0, 1, 2])]);
    assert_eq!(r.terms, vec![(9, vec![])]);
    // and over no value at all gives zero
    let r = partial_summation(&c, &vec![Some(vec![])]);
    assert_eq!(r.terms, vec![]);
}

#[test]
fn construction_lists_each_monomial_once_and_in_order() {
    // x*y listed in two forms, with a power zero and out of order
    let p = construct_poly::<F13Config>(
        3,
        vec![
            (5, vec![(1, 1), (0, 1)]),
            (7, vec![(0, 1), (2, 0), (1, 1)]),
            (1, vec![(2, 3)]),
            (4, vec![(0, 1), (0, 1)]),
            (20, vec![]),
            (13, vec![(1, 1)]),
        ],
    );
    assert_eq!(p.modulus, 13);
    assert_eq!(p.num_vars, 3);
    assert_eq!(
        p.terms,
        vec![
            (7, vec![]),
            (12, vec![(0, 1), (1, 1)]),
            (4, vec![(0, 2)]),
            (1, vec![(2, 3)]),
        ]
    );
    assert_eq!(p.degree(), 3);
}

#[test]
fn terms_that_cancel_are_left_out() {
    let p = construct_poly::<F5Config>(1, vec![(2, vec![(0, 1)]), (3, vec![(0, 1)])]);
    assert_eq!(p.terms, vec![]);
    assert_eq!(p.degree(), 0);
    assert_eq!(p.evaluate(&vec![4]), 0);
}

#[test]
fn constant_polynomials() {
    let c = construct_const_poly::<F251Config>(2, 300);
    assert_eq!(c, MultiPoly { modulus: 251, num_vars: 2, terms: vec![(49, vec![])] });
    let z = construct_const_poly::<F251Config>(2, 251);
    assert_eq!(z.terms, vec![]);
}

#[test]
fn variable_degrees_of_f() {
    let f = construct_poly::<F13Config>(3, f_spec());
    assert_eq!(variable_degrees(&f), vec![2, 2, 0]);
    let g = construct_poly::<F13Config>(2, vec![(1, vec![(0, 5), (1, 1)]), (13, vec![(1, 9)])]);
    assert_eq!(variable_degrees(&g), vec![5, 1]);
}

#[test]
fn evaluation_of_multivariate_polynomials() {
    let f = construct_poly::<F13Config>(2, f_spec());
    for x in 0..13u64 {
        for y in 0..13u64 {
            assert_eq!(f.evaluate(&vec![x, y]), (x * x + 2 * x * y + 3 * y * y) % 13);
        }
    }
    // points need not be reduced, and may have more coordinates than variables
    assert_eq!(f.evaluate(&vec![15, 14, 99]), 11);
}

#[test]
fn univariate_degree_and_evaluation() {
    let g = UniPoly { coeffs: vec![4, 4, 3, 0, 13] };
    assert_eq!(g.degree(13), 2);
    assert_eq!(g.degree(251), 4);
    assert_eq!(g.evaluate(2, 13), (4 + 8 + 12) % 13);
    let zero = UniPoly { coeffs: vec![] };
    assert_eq!(zero.degree(13), 0);
    assert_eq!(zero.evaluate(7, 13), 0);
    let zeros = UniPoly { coeffs: vec![0, 26] };
    assert_eq!(zeros.degree(13), 0);
}

#[test]
fn into_univariate_has_one_slot_per_degree() {
    let f = construct_poly::<F13Config>(2, vec![(1, vec![(0, 2), (1, 2)]), (6, vec![(1, 1)])]);
    // total degree 4; only 6y is a power of y alone
    assert_eq!(into_univariate(&f, 1), UniPoly { coeffs: vec![0, 6, 0, 0, 0] });
    assert_eq!(into_univariate(&f, 0), UniPoly { coeffs: vec![0, 0, 0, 0, 0] });
}

#[test]
fn partial_eval_of_a_variable_out_of_range_changes_nothing() {
    let f = construct_poly::<F13Config>(2, f_spec());
    assert_eq!(partial_eval(&f, 5, 7), f);
}

#[test]
fn lists_that_fit() {
    assert!(fits(2, &f_spec()));
    assert!(fits(0, &vec![(5, vec![])]));
    // a variable out of range does not count with a power zero
    assert!(fits(1, &vec![(1, vec![(0, 3), (4, 0)])]));
    assert!(!fits(1, &vec![(1, vec![(0, 3), (1, 1)])]));
    // the powers of a monomial must add up to less than the largest number
    assert!(fits(1, &vec![(1, vec![(0, usize::MAX - 1)])]));
    assert!(!fits(1, &vec![(1, vec![(0, usize::MAX)])]));
    assert!(!fits(2, &vec![(1, vec![(0, usize::MAX - 1), (1, 1)])]));
    assert!(!fits(1, &vec![(1, vec![]), (1, vec![(0, usize::MAX - 1), (0, 2)])]));
}
