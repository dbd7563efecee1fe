//! Monomials in several variables.
//!
//! A monomial is a list of `(variable, power)` pairs. Any list denotes a
//! monomial: the exponent of a variable is the sum of the powers listed
//! for it. The canonical list of a monomial names each of its variables
//! once, in increasing order, and names no variable with power zero.

use ark_poly::polynomial::multivariate::{SparseTerm, Term};
use vstd::prelude::*;

verus! {

/// The exponent that the list `m` gives the variable `v`.
pub open spec fn exponent(m: Seq<(usize, usize)>, v: int) -> int
    decreases m.len(),
{
    if m.len() == 0 {
        0
    } else {
        exponent(m.drop_last(), v) + if m.last().0 == v {
            m.last().1 as int
        } else {
            0
        }
    }
}

/// The sum of all powers in `m`.
pub open spec fn total_degree(m: Seq<(usize, usize)>) -> int
    decreases m.len(),
{
    if m.len() == 0 {
        0
    } else {
        total_degree(m.drop_last()) + m.last().1
    }
}

/// Variables strictly increasing, no power zero.
pub open spec fn is_canonical(m: Seq<(usize, usize)>) -> bool {
    &&& forall|i: int| 0 <= i < m.len() ==> (#[trigger] m[i]).1 > 0
    &&& forall|i: int, j: int| 0 <= i < j < m.len() ==> (#[trigger] m[i]).0 < (#[trigger] m[j]).0
}

/// Every variable that `m` names is one of the first `num_vars`.
pub open spec fn within(m: Seq<(usize, usize)>, num_vars: int) -> bool {
    forall|i: int| 0 <= i < m.len() ==> (#[trigger] m[i]).0 < num_vars
}

/// Two lists denote the same monomial.
pub open spec fn same_monomial(a: Seq<(usize, usize)>, b: Seq<(usize, usize)>) -> bool {
    forall|v: int| exponent(a, v) == exponent(b, v)
}

/// Comparison of two lists from position `i` on: at the first position
/// where they differ, the list with the higher variable is the smaller,
/// and with the same variable the one with the lower power; a list that
/// ends first is the smaller.
pub open spec fn lex_less(a: Seq<(usize, usize)>, b: Seq<(usize, usize)>, i: int) -> bool
    decreases a.len() - i,
{
    if i < 0 || i >= a.len() {
        i < b.len()
    } else if i >= b.len() {
        false
    } else if a[i] == b[i] {
        lex_less(a, b, i + 1)
    } else if a[i].0 == b[i].0 {
        a[i].1 < b[i].1
    } else {
        b[i].0 < a[i].0
    }
}

/// The order in which a polynomial lists its monomials: by total degree,
/// and among monomials of one degree by `lex_less`.
pub open spec fn precedes(a: Seq<(usize, usize)>, b: Seq<(usize, usize)>) -> bool {
    total_degree(a) < total_degree(b) || (total_degree(a) == total_degree(b) && lex_less(a, b, 0))
}

/// An exponent is neither negative nor above the total degree.
pub proof fn lemma_exponent_bounds(m: Seq<(usize, usize)>, v: int)
    ensures
        0 <= exponent(m, v) <= total_degree(m),
    decreases m.len(),
{
    if m.len() > 0 {
        lemma_exponent_bounds(m.drop_last(), v);
    }
}

/// A listed power is at most the total degree.
pub proof fn lemma_entry_bounds(m: Seq<(usize, usize)>, i: int)
    requires
        0 <= i < m.len(),
    ensures
        m[i].1 <= total_degree(m),
    decreases m.len(),
{
    lemma_exponent_bounds(m.drop_last(), 0);
    if i < m.len() - 1 {
        lemma_entry_bounds(m.drop_last(), i);
    }
}

/// A variable that `m` does not name has exponent zero.
pub proof fn lemma_exponent_absent(m: Seq<(usize, usize)>, v: int)
    requires
        forall|i: int| 0 <= i < m.len() ==> (#[trigger] m[i]).0 != v,
    ensures
        exponent(m, v) == 0,
    decreases m.len(),
{
    if m.len() > 0 {
        lemma_exponent_absent(m.drop_last(), v);
    }
}

/// In a canonical list the exponent of a named variable is its power.
pub proof fn lemma_exponent_present(m: Seq<(usize, usize)>, i: int)
    requires
        is_canonical(m),
        0 <= i < m.len(),
    ensures
        exponent(m, m[i].0 as int) == m[i].1,
    decreases m.len(),
{
    let v = m[i].0 as int;
    if i == m.len() - 1 {
        lemma_exponent_absent(m.drop_last(), v);
    } else {
        lemma_exponent_present(m.drop_last(), i);
    }
}

/// A variable with a positive exponent is named with a positive power.
pub proof fn lemma_exponent_witness(m: Seq<(usize, usize)>, v: int) -> (i: int)
    requires
        exponent(m, v) != 0,
    ensures
        0 <= i < m.len(),
        m[i].0 == v,
        m[i].1 > 0,
    decreases m.len(),
{
    if m.last().0 == v && m.last().1 > 0 {
        m.len() - 1
    } else {
        lemma_exponent_witness(m.drop_last(), v)
    }
}

/// The comparison from a position on is transitive.
pub proof fn lemma_lex_less_transitive(
    a: Seq<(usize, usize)>,
    b: Seq<(usize, usize)>,
    c: Seq<(usize, usize)>,
    i: int,
)
    requires
        0 <= i,
        lex_less(a, b, i),
        lex_less(b, c, i),
    ensures
        lex_less(a, c, i),
    decreases a.len() - i,
{
    if i < a.len() && i < b.len() && i < c.len() && a[i] == b[i] && b[i] == c[i] {
        lemma_lex_less_transitive(a, b, c, i + 1);
    }
}

/// The order of monomials is transitive.
pub proof fn lemma_precedes_transitive(
    a: Seq<(usize, usize)>,
    b: Seq<(usize, usize)>,
    c: Seq<(usize, usize)>,
)
    requires
        precedes(a, b),
        precedes(b, c),
    ensures
        precedes(a, c),
{
    if total_degree(a) == total_degree(b) && total_degree(b) == total_degree(c) {
        lemma_lex_less_transitive(a, b, c, 0);
    }
}

/// Two lists of which neither is the smaller agree from `i` on.
pub proof fn lemma_lex_less_total(a: Seq<(usize, usize)>, b: Seq<(usize, usize)>, i: int)
    requires
        0 <= i <= a.len(),
        i <= b.len(),
        !lex_less(a, b, i),
        !lex_less(b, a, i),
    ensures
        a.len() == b.len(),
        forall|j: int| i <= j < a.len() ==> a[j] == b[j],
    decreases a.len() - i,
{
    if i < a.len() && i < b.len() {
        lemma_lex_less_total(a, b, i + 1);
    }
}

/// No list is smaller than itself.
pub proof fn lemma_lex_less_irreflexive(a: Seq<(usize, usize)>, i: int)
    requires
        0 <= i,
    ensures
        !lex_less(a, a, i),
    decreases a.len() - i,
{
    if i < a.len() {
        lemma_lex_less_irreflexive(a, i + 1);
    }
}

/// No monomial precedes itself.
pub proof fn lemma_precedes_irreflexive(a: Seq<(usize, usize)>)
    ensures
        !precedes(a, a),
{
    lemma_lex_less_irreflexive(a, 0);
}

/// Of two different monomial lists one precedes the other.
pub proof fn lemma_precedes_total(a: Seq<(usize, usize)>, b: Seq<(usize, usize)>)
    requires
        !precedes(a, b),
        !precedes(b, a),
    ensures
        a == b,
{
    lemma_lex_less_total(a, b, 0);
    assert(a =~= b);
}

/// A monomial has one canonical list.
pub proof fn lemma_canonical_unique(a: Seq<(usize, usize)>, b: Seq<(usize, usize)>)
    requires
        is_canonical(a),
        is_canonical(b),
        same_monomial(a, b),
    ensures
        a == b,
    decreases a.len(),
{
    if a.len() == 0 {
        if b.len() > 0 {
            lemma_exponent_present(b, 0);
            assert(exponent(a, b[0].0 as int) == exponent(b, b[0].0 as int));
        }
        assert(a =~= b);
    } else {
        let va = a.last().0 as int;
        lemma_exponent_present(a, a.len() - 1);
        assert(exponent(a, va) == exponent(b, va));
        let j = lemma_exponent_witness(b, va);
        let vb = b.last().0 as int;
        lemma_exponent_present(b, b.len() - 1);
        assert(exponent(a, vb) == exponent(b, vb));
        let i = lemma_exponent_witness(a, vb);
        assert(a[i].0 <= a.last().0);
        assert(b[j].0 <= b.last().0);
        assert(va == vb);
        assert(a.last() == b.last());
        let a0 = a.drop_last();
        let b0 = b.drop_last();
        assert forall|v: int| exponent(a0, v) == exponent(b0, v) by {
            assert(exponent(a, v) == exponent(b, v));
        }
        assert forall|i: int| 0 <= i < a0.len() implies (#[trigger] a0[i]).1 > 0 by {
            assert(a0[i] == a[i]);
        }
        assert forall|i: int, j: int| 0 <= i < j < a0.len() implies (#[trigger] a0[i]).0 < (
        #[trigger] a0[j]).0 by {
            assert(a0[i] == a[i] && a0[j] == a[j]);
        }
        assert forall|i: int| 0 <= i < b0.len() implies (#[trigger] b0[i]).1 > 0 by {
            assert(b0[i] == b[i]);
        }
        assert forall|i: int, j: int| 0 <= i < j < b0.len() implies (#[trigger] b0[i]).0 < (
        #[trigger] b0[j]).0 by {
            assert(b0[i] == b[i] && b0[j] == b[j]);
        }
        lemma_canonical_unique(a0, b0);
        assert(a =~= a0.push(a.last()));
        assert(b =~= b0.push(b.last()));
    }
}

/// The canonical list of the monomial that `term` denotes, computed by
/// `SparseTerm::new` of ark-poly: it drops the pairs with power zero,
/// sorts the rest by variable and adds up the powers of a variable that
/// is named more than once. The powers must add up without overflow.
#[verifier::external_body]
pub(crate) fn sorted_powers(term: Vec<(usize, usize)>) -> (r: Vec<(usize, usize)>)
    requires
        total_degree(term@) <= usize::MAX,
    ensures
        is_canonical(r@),
        same_monomial(r@, term@),
        total_degree(r@) == total_degree(term@),
{
    SparseTerm::new(term).to_vec()
}

/// The total degree of a monomial.
pub fn monomial_degree(m: &Vec<(usize, usize)>) -> (d: usize)
    requires
        total_degree(m@) <= usize::MAX,
    ensures
        d == total_degree(m@),
{
    let mut d: usize = 0;
    let mut i: usize = 0;
    while i < m.len()
        invariant
            i <= m.len(),
            d == total_degree(m@.take(i as int)),
            total_degree(m@) <= usize::MAX,
        decreases m.len() - i,
    {
        proof {
            assert(m@.take(i + 1).drop_last() =~= m@.take(i as int));
            lemma_total_degree_prefix(m@, i + 1);
        }
        d = d + m[i].1;
        i = i + 1;
    }
    proof {
        assert(m@.take(i as int) =~= m@);
    }
    d
}

/// The powers of the first entries add up to at most the total degree.
pub proof fn lemma_total_degree_prefix(m: Seq<(usize, usize)>, k: int)
    requires
        0 <= k <= m.len(),
    ensures
        0 <= total_degree(m.take(k)) <= total_degree(m),
    decreases m.len() - k,
{
    if k == m.len() {
        assert(m.take(k) =~= m);
        lemma_exponent_bounds(m, 0);
    } else {
        lemma_total_degree_prefix(m, k + 1);
        assert(m.take(k + 1).drop_last() =~= m.take(k));
        lemma_exponent_bounds(m.take(k), 0);
    }
}

/// Whether two monomials are the same list.
pub fn monomial_equal(a: &Vec<(usize, usize)>, b: &Vec<(usize, usize)>) -> (r: bool)
    ensures
        r == (a@ == b@),
{
    if a.len() != b.len() {
        return false;
    }
    let mut i: usize = 0;
    while i < a.len()
        invariant
            i <= a.len(),
            a.len() == b.len(),
            forall|j: int| 0 <= j < i ==> a@[j] == b@[j],
        decreases a.len() - i,
    {
        if a[i].0 != b[i].0 || a[i].1 != b[i].1 {
            return false;
        }
        i = i + 1;
    }
    proof {
        assert(a@ =~= b@);
    }
    true
}

/// Whether `a` comes before `b` in the order of a polynomial's terms.
pub fn monomial_precedes(a: &Vec<(usize, usize)>, b: &Vec<(usize, usize)>) -> (r: bool)
    requires
        total_degree(a@) <= usize::MAX,
        total_degree(b@) <= usize::MAX,
    ensures
        r == precedes(a@, b@),
{
    let da = monomial_degree(a);
    let db = monomial_degree(b);
    if da != db {
        return da < db;
    }
    let mut i: usize = 0;
    while i < a.len() && i < b.len()
        invariant
            i <= a.len(),
            i <= b.len(),
            total_degree(a@) == total_degree(b@),
            lex_less(a@, b@, 0) == lex_less(a@, b@, i as int),
        decreases a.len() - i,
    {
        proof {
            assert(a@[i as int] == b@[i as int] <==> (a@[i as int].0 == b@[i as int].0 && a@[i as int].1
                == b@[i as int].1));
        }
        if a[i].0 != b[i].0 {
            return b[i].0 < a[i].0;
        }
        if a[i].1 != b[i].1 {
            return a[i].1 < b[i].1;
        }
        i = i + 1;
    }
    i < b.len()
}

} // verus!
