//! Arithmetic in the prime fields `Z/p` whose modulus fits in 64 bits.
//!
//! An element is the `u64` that represents its residue class. Every
//! operation accepts any `u64` and returns the canonical representative,
//! the one below the modulus.

use rand::Rng;
use vstd::arithmetic::div_mod::*;
use vstd::arithmetic::power::*;
use vstd::prelude::*;

verus! {

/// No number between one and `p` divides `p`.
pub open spec fn is_prime(p: int) -> bool {
    p >= 2 && forall|d: int| 2 <= d < p ==> #[trigger] (p % d) != 0
}

/// The parameters that fix a field: its modulus, a prime, and a generator
/// of its multiplicative group.
pub trait FieldConfig {
    /// The number of elements of the field.
    spec fn spec_modulus() -> u64;

    /// The generator.
    spec fn spec_generator() -> u64;

    /// The modulus is a prime.
    proof fn modulus_is_prime()
        ensures
            is_prime(Self::spec_modulus() as int),
    ;

    /// The number of elements of the field.
    fn modulus() -> (p: u64)
        ensures
            p == Self::spec_modulus(),
            p >= 2,
    ;

    /// The generator, as its canonical representative.
    fn generator() -> (g: u64)
        ensures
            g == Self::spec_generator(),
            0 < g < Self::spec_modulus(),
    ;
}

/// The field with 5 elements.
pub struct F5Config {}

/// The field with 13 elements.
pub struct F13Config {}

/// The field with 251 elements.
pub struct F251Config {}

impl FieldConfig for F5Config {
    open spec fn spec_modulus() -> u64 {
        5
    }

    proof fn modulus_is_prime() {
        assert(forall|d: u8| 2 <= d < 5u8 ==> #[trigger] (5u8 % d) != 0) by (bit_vector);
        assert forall|d: int| 2 <= d < 5 implies #[trigger] (5int % d) != 0 by {
            let e = d as u8;
            assert(5u8 % e != 0);
        }
    }

    open spec fn spec_generator() -> u64 {
        2
    }

    fn modulus() -> (p: u64) {
        5
    }

    fn generator() -> (g: u64) {
        2
    }
}

impl FieldConfig for F13Config {
    open spec fn spec_modulus() -> u64 {
        13
    }

    proof fn modulus_is_prime() {
        assert(forall|d: u8| 2 <= d < 13u8 ==> #[trigger] (13u8 % d) != 0) by (bit_vector);
        assert forall|d: int| 2 <= d < 13 implies #[trigger] (13int % d) != 0 by {
            let e = d as u8;
            assert(13u8 % e != 0);
        }
    }

    open spec fn spec_generator() -> u64 {
        2
    }

    fn modulus() -> (p: u64) {
        13
    }

    fn generator() -> (g: u64) {
        2
    }
}

impl FieldConfig for F251Config {
    open spec fn spec_modulus() -> u64 {
        251
    }

    proof fn modulus_is_prime() {
        assert(forall|d: u8| 2 <= d < 251u8 ==> #[trigger] (251u8 % d) != 0) by (bit_vector);
        assert forall|d: int| 2 <= d < 251 implies #[trigger] (251int % d) != 0 by {
            let e = d as u8;
            assert(251u8 % e != 0);
        }
    }

    open spec fn spec_generator() -> u64 {
        6
    }

    fn modulus() -> (p: u64) {
        251
    }

    fn generator() -> (g: u64) {
        6
    }
}

/// The canonical representative of `n` in the field `T`.
pub fn to_u64<T: FieldConfig>(n: u64) -> (r: u64)
    ensures
        r == n % T::spec_modulus(),
        r < T::spec_modulus(),
{
    n % T::modulus()
}

/// The canonical representative of `x`.
pub fn reduce(x: u64, p: u64) -> (r: u64)
    requires
        p > 0,
    ensures
        r == x % p,
        r < p,
{
    x % p
}

/// An element drawn uniformly at random, by `Rng::gen_range` of the rand
/// crate on the generator of the current thread. Of the element drawn
/// nothing is known but that it is a canonical representative.
#[verifier::external_body]
pub(crate) fn random_element(p: u64) -> (r: u64)
    requires
        p > 0,
    ensures
        r < p,
{
    rand::thread_rng().gen_range(0..p)
}

/// The sum of two elements.
pub fn add_mod(a: u64, b: u64, p: u64) -> (r: u64)
    requires
        p > 0,
    ensures
        r == (a + b) % (p as int),
        r < p,
{
    let wide: u128 = a as u128 + b as u128;
    let r: u128 = wide % (p as u128);
    r as u64
}

/// The product of two elements.
pub fn mul_mod(a: u64, b: u64, p: u64) -> (r: u64)
    requires
        p > 0,
    ensures
        r == (a * b) % (p as int),
        r < p,
{
    assert(a * b <= u64::MAX * u64::MAX) by (nonlinear_arith)
        requires
            a <= u64::MAX,
            b <= u64::MAX,
    ;
    let wide: u128 = a as u128 * b as u128;
    let r: u128 = wide % (p as u128);
    r as u64
}

/// `a` and `b` represent the same element of `Z/p`.
pub open spec fn congruent(a: int, b: int, p: int) -> bool {
    a % p == b % p
}

/// Sums of congruent numbers are congruent.
pub proof fn lemma_congruent_add(a: int, a2: int, b: int, b2: int, p: int)
    requires
        p > 0,
        congruent(a, a2, p),
        congruent(b, b2, p),
    ensures
        congruent(a + b, a2 + b2, p),
{
    lemma_add_mod_noop(a, b, p);
    lemma_add_mod_noop(a2, b2, p);
}

/// Products of congruent numbers are congruent.
pub proof fn lemma_congruent_mul(a: int, a2: int, b: int, b2: int, p: int)
    requires
        p > 0,
        congruent(a, a2, p),
        congruent(b, b2, p),
    ensures
        congruent(a * b, a2 * b2, p),
{
    lemma_mul_mod_noop_general(a, b, p);
    lemma_mul_mod_noop_general(a2, b2, p);
}

/// Two integers whose difference is a multiple of `p` are congruent.
pub proof fn lemma_congruent_by_difference(a: int, b: int, p: int)
    requires
        p > 0,
        (a - b) % p == 0,
    ensures
        congruent(a, b, p),
{
    lemma_mod_equivalence(a, b, p);
}

/// The next power is the power times the base.
pub proof fn lemma_pow_step(b: int, e: nat)
    ensures
        pow(b, e + 1) == pow(b, e) * b,
{
    lemma_pow_adds(b, e, 1);
    lemma_pow1(b);
}

/// The `exp`-th power of an element.
pub fn pow_mod(base: u64, exp: usize, p: u64) -> (r: u64)
    requires
        p > 0,
    ensures
        r == pow(base as int, exp as nat) % (p as int),
        r < p,
{
    let mut result: u64 = 1 % p;
    let mut b: u64 = base % p;
    let mut e: usize = exp;
    proof {
        lemma_pow_mod_noop(base as int, exp as nat, p as int);
        lemma_mul_mod_noop_general(1, pow(b as int, e as nat), p as int);
    }
    while e > 0
        invariant
            p > 0,
            result < p,
            b < p,
            congruent(result * pow(b as int, e as nat), pow(base as int, exp as nat), p as int),
        decreases e,
    {
        let ghost b0 = b as int;
        let ghost e0 = e as nat;
        let ghost r0 = result as int;
        let ghost half = (e / 2) as nat;
        proof {
            // pow(b0, e0) == pow(b0 * b0, half) * pow(b0, e0 % 2)
            lemma_pow_adds(b0, 2 * half, (e0 % 2) as nat);
            lemma_pow_multiplies(b0, 2, half);
            lemma_pow_adds(b0, 1, 1);
            lemma_pow1(b0);
            lemma_pow0(b0);
            lemma_pow_mod_noop(b0 * b0, half, p as int);
        }
        if e % 2 == 1 {
            result = mul_mod(result, b, p);
        }
        b = mul_mod(b, b, p);
        e = e / 2;
        proof {
            let sq = pow(b0 * b0, half);
            let tail = pow(b0, (e0 % 2) as nat);
            assert(pow(b0, e0) == sq * tail);
            // result is congruent to r0 * tail
            assert(congruent(result as int, r0 * tail, p as int)) by {
                if e0 % 2 == 1 {
                    assert(tail == b0);
                    assert(result == (r0 * b0) % (p as int));
                    lemma_mod_twice(r0 * b0, p as int);
                } else {
                    assert(tail == 1);
                    assert(r0 * tail == r0) by (nonlinear_arith)
                        requires
                            tail == 1,
                    ;
                }
            }
            assert(congruent(pow(b as int, e as nat), sq, p as int));
            lemma_congruent_mul(result as int, r0 * tail, pow(b as int, e as nat), sq, p as int);
            assert(r0 * tail * sq == r0 * (sq * tail)) by (nonlinear_arith);
        }
    }
    proof {
        lemma_pow0(b as int);
        lemma_small_mod(result as nat, p as nat);
    }
    result
}

} // verus!
