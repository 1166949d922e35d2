//! Integer lattices: the numbering of the points and cells of a block.

use vstd::arithmetic::div_mod::{
    lemma_fundamental_div_mod, lemma_fundamental_div_mod_converse, lemma_mod_bound,
};
use vstd::prelude::*;

verus! {

/// Number of point `(i, j, k)` in a lattice of `a` points along the first axis
/// and `b` along the second, the first axis running fastest.
pub open spec fn flat(a: int, b: int, i: int, j: int, k: int) -> int {
    i + a * (j + b * k)
}

/// The coordinates of a number in such a lattice.
pub open spec fn unflat(a: int, b: int, e: int) -> (int, int, int) {
    (e % a, (e / a) % b, e / a / b)
}

/// A number within a lattice has coordinates within it, and they number it.
pub proof fn lemma_unflat(a: int, b: int, c: int, e: int)
    requires
        a > 0,
        b > 0,
        0 <= e < a * b * c,
    ensures
        ({
            let (i, j, k) = unflat(a, b, e);
            0 <= i < a && 0 <= j < b && 0 <= k < c && flat(a, b, i, j, k) == e
        }),
{
    let q = e / a;
    lemma_fundamental_div_mod(e, a);
    lemma_mod_bound(e, a);
    lemma_fundamental_div_mod(q, b);
    lemma_mod_bound(q, b);
    let k = q / b;
    assert(q >= 0) by (nonlinear_arith)
        requires
            e >= 0,
            a > 0,
            q == e / a,
    ;
    assert(k >= 0) by (nonlinear_arith)
        requires
            q >= 0,
            b > 0,
            k == q / b,
    ;
    assert(k < c) by (nonlinear_arith)
        requires
            a > 0,
            b > 0,
            e < a * b * c,
            a * q <= e,
            b * k <= q,
    ;
}

/// The number of a point within a lattice is within it, and gives back the
/// point.
pub proof fn lemma_flat(a: int, b: int, c: int, i: int, j: int, k: int)
    requires
        0 <= i < a,
        0 <= j < b,
        0 <= k < c,
    ensures
        0 <= flat(a, b, i, j, k) < a * b * c,
        unflat(a, b, flat(a, b, i, j, k)) == (i, j, k),
{
    let q = j + b * k;
    let e = flat(a, b, i, j, k);
    assert(0 <= q < b * c) by (nonlinear_arith)
        requires
            0 <= j < b,
            0 <= k < c,
            q == j + b * k,
    ;
    assert(0 <= e < a * b * c) by (nonlinear_arith)
        requires
            0 <= i < a,
            0 <= q < b * c,
            e == i + a * q,
    ;
    assert(e == q * a + i) by (nonlinear_arith)
        requires
            e == i + a * q,
    ;
    lemma_fundamental_div_mod_converse(e, a, q, i);
    assert(q == k * b + j) by (nonlinear_arith)
        requires
            q == j + b * k,
    ;
    lemma_fundamental_div_mod_converse(q, b, k, j);
}

/// Numbering a point and reading its coordinates back gives the point, and two
/// points with one number are the same point.
pub proof fn law_numbering_is_one_to_one(
    a: int,
    b: int,
    c: int,
    p: (int, int, int),
    q: (int, int, int),
)
    requires
        0 <= p.0 < a,
        0 <= p.1 < b,
        0 <= p.2 < c,
        0 <= q.0 < a,
        0 <= q.1 < b,
        0 <= q.2 < c,
        flat(a, b, p.0, p.1, p.2) == flat(a, b, q.0, q.1, q.2),
    ensures
        p == q,
        unflat(a, b, flat(a, b, p.0, p.1, p.2)) == p,
{
    lemma_flat(a, b, c, p.0, p.1, p.2);
    lemma_flat(a, b, c, q.0, q.1, q.2);
}

/// Points are numbered from zero with the first axis running fastest, then the
/// second: the next point along an axis whose earlier axes start over has the
/// next number.
pub proof fn law_first_axis_runs_fastest(a: int, b: int, i: int, j: int, k: int)
    requires
        a > 0,
        b > 0,
    ensures
        flat(a, b, 0, 0, 0) == 0,
        flat(a, b, i + 1, j, k) == flat(a, b, i, j, k) + 1,
        flat(a, b, 0, j + 1, k) == flat(a, b, a - 1, j, k) + 1,
        flat(a, b, 0, 0, k + 1) == flat(a, b, a - 1, b - 1, k) + 1,
{
    assert(0 + a * (0 + b * 0) == 0) by (nonlinear_arith);
    assert(0 + a * ((j + 1) + b * k) == (a - 1) + a * (j + b * k) + 1) by (nonlinear_arith);
    assert(0 + a * (0 + b * (k + 1)) == (a - 1) + a * ((b - 1) + b * k) + 1) by (nonlinear_arith);
}

} // verus!
