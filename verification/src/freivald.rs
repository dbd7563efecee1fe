//! Freivalds' check of a matrix product over `Z/p`: instead of
//! multiplying the matrices `a` and `b` to compare the product with `c`,
//! it multiplies all three with one vector, the powers of an element
//! `r`, and compares the results.

use crate::small_fields::{add_mod, lemma_pow_step, mul_mod};
use vstd::arithmetic::div_mod::*;
use vstd::arithmetic::power::{lemma_pow0, pow};
use vstd::prelude::*;
use vstd::string::*;

verus! {

/// The matrix as rows of integers.
pub open spec fn rows(m: Seq<Vec<u64>>) -> Seq<Seq<int>> {
    Seq::new(m.len(), |i: int| Seq::new(m[i]@.len(), |k: int| m[i]@[k] as int))
}

/// `m` has `n` rows of `n` entries.
pub open spec fn is_square(m: Seq<Seq<int>>, n: int) -> bool {
    m.len() == n && forall|i: int| 0 <= i < n ==> (#[trigger] m[i]).len() == n
}

/// The sum of the products of the first `k` entries of `row` with those
/// of `v`.
pub open spec fn dot(row: Seq<int>, v: Seq<int>, k: nat) -> int
    decreases k,
{
    if k == 0 {
        0
    } else {
        dot(row, v, (k - 1) as nat) + row[k - 1] * v[k - 1]
    }
}

/// The product of the matrix `m` with the vector `v` in `Z/p`.
pub open spec fn mat_vec(m: Seq<Seq<int>>, v: Seq<int>, p: int) -> Seq<int> {
    Seq::new(m.len(), |i: int| dot(m[i], v, v.len()) % p)
}

/// The powers of `r` in `Z/p`, from the power zero to the power `n - 1`.
pub open spec fn powers(r: int, n: nat, p: int) -> Seq<int> {
    Seq::new(n, |k: int| pow(r, k as nat) % p)
}

/// What the check decides: whether `c` times the powers of `r` is `a`
/// times `b` times the powers of `r`.
pub open spec fn freivald_holds(
    a: Seq<Seq<int>>,
    b: Seq<Seq<int>>,
    c: Seq<Seq<int>>,
    r: int,
    p: int,
) -> bool {
    mat_vec(c, powers(r, c.len(), p), p) == mat_vec(a, mat_vec(b, powers(r, c.len(), p), p), p)
}

/// The outcome of a check.
#[derive(Clone, Copy, Debug, PartialEq, Eq)]
pub struct Decision(pub bool);

impl Decision {
    /// The outcome as text: `Accept` or `Reject`.
    pub fn to_text(&self) -> (s: String)
        ensures
            s@ == if self.0 {
                "Accept"@
            } else {
                "Reject"@
            },
    {
        if self.0 {
            String::from_str("Accept")
        } else {
            String::from_str("Reject")
        }
    }
}

/// The powers of `r` in `Z/modulus`, from the power zero to the power
/// `n - 1`.
fn test_vector(r: u64, n: usize, modulus: u64) -> (v: Vec<u64>)
    requires
        modulus > 0,
    ensures
        v@.len() == n,
        Seq::new(v@.len(), |k: int| v@[k] as int) == powers(r as int, n as nat, modulus as int),
{
    let ghost p = modulus as int;
    let mut v: Vec<u64> = Vec::new();
    let mut power: u64 = 1 % modulus;
    let mut k: usize = 0;
    proof {
        lemma_pow0(r as int);
    }
    while k < n
        invariant
            modulus > 0,
            p == modulus as int,
            k <= n,
            v@.len() == k,
            power == pow(r as int, k as nat) % p,
            forall|t: int| 0 <= t < k ==> #[trigger] v@[t] == pow(r as int, t as nat) % p,
        decreases n - k,
    {
        v.push(power);
        proof {
            lemma_pow_step(r as int, k as nat);
            lemma_mul_mod_noop_left(pow(r as int, k as nat), r as int, p);
        }
        power = mul_mod(power, r, modulus);
        k = k + 1;
    }
    proof {
        assert(Seq::new(v@.len(), |k: int| v@[k] as int) =~= powers(r as int, n as nat, p));
    }
    v
}

/// The product of the matrix `m` with the vector `v` in `Z/modulus`.
fn multiply(m: &Vec<Vec<u64>>, v: &Vec<u64>, modulus: u64) -> (w: Vec<u64>)
    requires
        modulus > 0,
        is_square(rows(m@), v@.len() as int),
    ensures
        w@.len() == v@.len(),
        Seq::new(w@.len(), |k: int| w@[k] as int) == mat_vec(
            rows(m@),
            Seq::new(v@.len(), |k: int| v@[k] as int),
            modulus as int,
        ),
{
    let ghost p = modulus as int;
    let ghost mat = rows(m@);
    let ghost vec = Seq::new(v@.len(), |k: int| v@[k] as int);
    let n = v.len();
    let mut w: Vec<u64> = Vec::new();
    let mut i: usize = 0;
    while i < n
        invariant
            modulus > 0,
            p == modulus as int,
            mat == rows(m@),
            vec == Seq::new(v@.len(), |k: int| v@[k] as int),
            n == v@.len(),
            is_square(mat, n as int),
            i <= n,
            w@.len() == i,
            forall|t: int| 0 <= t < i ==> #[trigger] w@[t] == dot(mat[t], vec, n as nat) % p,
        decreases n - i,
    {
        let row = &m[i];
        let mut acc: u64 = 0;
        let mut k: usize = 0;
        proof {
            assert(mat[i as int].len() == n);
            assert(row@.len() == n);
            lemma_small_mod(0, modulus as nat);
        }
        while k < n
            invariant
                modulus > 0,
                p == modulus as int,
                mat == rows(m@),
                vec == Seq::new(v@.len(), |k: int| v@[k] as int),
                n == v@.len(),
                i < n,
                m@.len() == n,
                row == m@[i as int],
                row@.len() == n,
                k <= n,
                acc == dot(mat[i as int], vec, k as nat) % p,
            decreases n - k,
        {
            proof {
                let before = dot(mat[i as int], vec, k as nat);
                let here = mat[i as int][k as int] * vec[k as int];
                assert(mat[i as int][k as int] == row@[k as int]);
                lemma_add_mod_noop(before, here, p);
            }
            acc = add_mod(acc, mul_mod(row[k], v[k], modulus), modulus);
            k = k + 1;
        }
        w.push(acc);
        i = i + 1;
    }
    proof {
        assert(Seq::new(w@.len(), |k: int| w@[k] as int) =~= mat_vec(mat, vec, p));
    }
    w
}

/// Whether the two vectors are equal.
fn same(x: &Vec<u64>, y: &Vec<u64>) -> (r: bool)
    ensures
        r == (x@ == y@),
{
    if x.len() != y.len() {
        return false;
    }
    let mut i: usize = 0;
    while i < x.len()
        invariant
            i <= x.len(),
            x.len() == y.len(),
            forall|t: int| 0 <= t < i ==> x@[t] == y@[t],
        decreases x.len() - i,
    {
        if x[i] != y[i] {
            return false;
        }
        i = i + 1;
    }
    proof {
        assert(x@ =~= y@);
    }
    true
}

/// Freivalds' check of the claim that the square matrix `c` is the
/// product of `a` and `b` in `Z/modulus`, with the element `r`.
pub fn freivald_check(
    a: &Vec<Vec<u64>>,
    b: &Vec<Vec<u64>>,
    c: &Vec<Vec<u64>>,
    r: u64,
    modulus: u64,
) -> (d: Decision)
    requires
        modulus > 0,
        is_square(rows(a@), c@.len() as int),
        is_square(rows(b@), c@.len() as int),
        is_square(rows(c@), c@.len() as int),
    ensures
        d.0 == freivald_holds(rows(a@), rows(b@), rows(c@), r as int, modulus as int),
{
    let n = c.len();
    let v = test_vector(r, n, modulus);
    let test_product = multiply(c, &v, modulus);
    let inner = multiply(b, &v, modulus);
    let actual_product = multiply(a, &inner, modulus);
    let equal = same(&test_product, &actual_product);
    proof {
        let tv = Seq::new(test_product@.len(), |k: int| test_product@[k] as int);
        let av = Seq::new(actual_product@.len(), |k: int| actual_product@[k] as int);
        if test_product@ == actual_product@ {
            assert(tv =~= av);
        }
        if tv == av {
            assert(test_product@ =~= actual_product@) by {
                assert forall|k: int| 0 <= k < test_product@.len() implies test_product@[k]
                    == actual_product@[k] by {
                    assert(tv[k] == av[k]);
                }
            }
        }
    }
    Decision(equal)
}

} // verus!
