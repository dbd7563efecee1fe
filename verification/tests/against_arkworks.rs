use ark_ff::fields::{Fp64, MontBackend, MontConfig};
use ark_ff::{BigInt, Field, PrimeField};
use ark_poly::polynomial::multivariate::{SparsePolynomial, SparseTerm, Term};
use ark_poly::polynomial::univariate::DensePolynomial;
use ark_poly::{DenseMVPolynomial, Polynomial};
use pazk::polynomials::{construct_poly, UniPoly};
use pazk::small_fields::{add_mod, mul_mod, pow_mod, F13Config};

// The field with 13 elements in ark-ff. Its elements are kept times
// 2^64, which is 3 modulo 13.
pub struct Thirteen;

impl MontConfig<1> for Thirteen {
    const MODULUS: BigInt<1> = BigInt::new([13]);
    const GENERATOR: Fp64<MontBackend<Self, 1>> = Fp64::new_unchecked(BigInt::new([6]));
    const TWO_ADIC_ROOT_OF_UNITY: Fp64<MontBackend<Self, 1>> =
        Fp64::new_unchecked(BigInt::new([11]));
}

type F = Fp64<MontBackend<Thirteen, 1>>;

fn value(x: F) -> u64 {
    x.into_bigint().0[0]
}

#[test]
fn field_arithmetic_agrees_with_ark_ff() {
    for a in 0..13u64 {
        for b in 0..13u64 {
            assert_eq!(add_mod(a, b, 13), value(F::from(a) + F::from(b)));
            assert_eq!(mul_mod(a, b, 13), value(F::from(a) * F::from(b)));
            assert_eq!(pow_mod(a, b as usize, 13), value(F::from(a).pow([b])));
        }
    }
}

#[test]
fn construction_agrees_with_ark_poly() {
    let spec: Vec<(u64, Vec<(usize, usize)>)> = vec![
        (5, vec![(1, 1), (0, 1)]),
        (7, vec![(0, 1), (2, 0), (1, 1)]),
        (1, vec![(2, 3)]),
        (4, vec![(0, 1), (0, 1)]),
        (20, vec![]),
        (13, vec![(1, 1)]),
        (3, vec![(1, 2)]),
        (2, vec![(0, 1), (2, 1)]),
        (6, vec![(2, 1)]),
        (9, vec![(0, 1)]),
    ];
    let theirs: SparsePolynomial<F, SparseTerm> = SparsePolynomial::from_coefficients_vec(
        3,
        spec.iter().map(|(c, m)| (F::from(*c), SparseTerm::new(m.clone()))).collect(),
    );
    let ours = construct_poly::<F13Config>(3, spec);
    let their_terms: Vec<(u64, Vec<(usize, usize)>)> =
        theirs.terms.iter().map(|(c, m)| (value(*c), m.to_vec())).collect();
    assert_eq!(ours.terms, their_terms);
    assert_eq!(ours.degree(), theirs.degree());
    for x in 0..13u64 {
        for y in 0..13u64 {
            let z = (x * y + 5) % 13;
            assert_eq!(
                ours.evaluate(&vec![x, y, z]),
                value(theirs.evaluate(&vec![F::from(x), F::from(y), F::from(z)]))
            );
        }
    }
}

#[test]
fn univariate_evaluation_agrees_with_ark_poly() {
    let coeffs = vec![4u64, 4, 3, 0, 12];
    let theirs = DensePolynomial { coeffs: coeffs.iter().map(|c| F::from(*c)).collect() };
    let ours = UniPoly { coeffs };
    assert_eq!(ours.degree(13), theirs.degree());
    for x in 0..13u64 {
        assert_eq!(ours.evaluate(x, 13), value(theirs.evaluate(&F::from(x))));
    }
}
