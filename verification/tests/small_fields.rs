use pazk::small_fields::{
    add_mod, mul_mod, pow_mod, reduce, to_u64, F13Config, F251Config, F5Config, FieldConfig,
};

#[test]
fn moduli_and_generators() {
    assert_eq!(F5Config::modulus(), 5);
    assert_eq!(F5Config::generator(), 2);
    assert_eq!(F13Config::modulus(), 13);
    assert_eq!(F13Config::generator(), 2);
    assert_eq!(F251Config::modulus(), 251);
    assert_eq!(F251Config::generator(), 6);
}

#[test]
fn field_operations_exact_values() {
    assert_eq!(reduce(30, 13), 4);
    assert_eq!(to_u64::<F13Config>(30), 4);
    assert_eq!(to_u64::<F5Config>(30), 0);
    assert_eq!(to_u64::<F251Config>(250), 250);
    assert_eq!(add_mod(7, 9, 13), 3);
    assert_eq!(mul_mod(7, 9, 13), 11);
    assert_eq!(pow_mod(2, 10, 13), 1024 % 13);
    assert_eq!(pow_mod(0, 0, 13), 1);
    assert_eq!(pow_mod(5, 0, 1), 0);
}

#[test]
fn field_operations_do_not_overflow() {
    let p = u64::MAX - 58; // the largest prime below 2^64
    assert_eq!(add_mod(u64::MAX, u64::MAX, p), 116);
    assert_eq!(mul_mod(p - 1, p - 1, p), 1);
    assert_eq!(mul_mod(u64::MAX, u64::MAX, u64::MAX), 0);
}

#[test]
fn generators_generate() {
    // the powers of the generator run through every element but zero
    let p = F13Config::modulus();
    let g = F13Config::generator();
    let mut seen = vec![false; p as usize];
    for e in 0..(p - 1) {
        seen[pow_mod(g, e as usize, p) as usize] = true;
    }
    assert!(!seen[0]);
    assert!(seen[1..].iter().all(|s| *s));
}
