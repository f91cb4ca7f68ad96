//! The diagonal numbering of pairs of naturals.
//!
//! Pairs are visited diagonal by diagonal: all pairs with sum 0, then all with
//! sum 1, and so on; inside a diagonal, by increasing first component.

use vstd::prelude::*;

verus! {

/// How many pairs lie on the diagonals before diagonal `d`.
pub open spec fn triangle(d: nat) -> nat {
    d * (d + 1) / 2
}

/// The position of the pair `(x, y)` in the diagonal numbering.
pub open spec fn pair(x: nat, y: nat) -> nat {
    triangle(x + y) + x
}

/// The pair at position `n` of the diagonal numbering.
pub open spec fn unpair(n: nat) -> (nat, nat) {
    choose|x: nat, y: nat| pair(x, y) == n
}

/// Diagonal `d + 1` starts `d + 1` positions after diagonal `d`.
pub proof fn lemma_triangle_step(d: nat)
    ensures
        triangle(d + 1) == triangle(d) + d + 1,
{
    assert((d + 1) * (d + 2) == d * (d + 1) + 2 * (d + 1)) by (nonlinear_arith);
}

/// Later diagonals start later.
pub proof fn lemma_triangle_monotonic(a: nat, b: nat)
    requires
        a <= b,
    ensures
        triangle(a) <= triangle(b),
    decreases b - a,
{
    if a < b {
        lemma_triangle_monotonic(a, (b - 1) as nat);
        lemma_triangle_step((b - 1) as nat);
    }
}

/// No position is shared by two pairs.
pub proof fn lemma_pair_injective(x1: nat, y1: nat, x2: nat, y2: nat)
    requires
        pair(x1, y1) == pair(x2, y2),
    ensures
        x1 == x2,
        y1 == y2,
{
    let d1 = x1 + y1;
    let d2 = x2 + y2;
    if d1 < d2 {
        lemma_triangle_step(d1);
        lemma_triangle_monotonic(d1 + 1, d2);
    } else if d2 < d1 {
        lemma_triangle_step(d2);
        lemma_triangle_monotonic(d2 + 1, d1);
    }
}

/// The pair that follows `(x, y)` in the diagonal numbering: one step along the
/// diagonal, or, from its end, the start of the next diagonal.
pub open spec fn successor(x: nat, y: nat) -> (nat, nat) {
    if y == 0 {
        (0, x + 1)
    } else {
        (x + 1, (y - 1) as nat)
    }
}

/// The successor of a pair stands at the next position.
pub proof fn lemma_pair_successor(x: nat, y: nat)
    ensures
        pair(successor(x, y).0, successor(x, y).1) == pair(x, y) + 1,
{
    if y == 0 {
        lemma_triangle_step(x);
    }
}

/// The numbering starts with the pair `(0, 0)`.
pub proof fn lemma_pair_origin()
    ensures
        pair(0, 0) == 0,
{
    assert(triangle(0) == 0) by (nonlinear_arith);
}

/// Every position holds a pair: the numbering leaves no gap.
pub proof fn lemma_pair_of_unpair(n: nat)
    ensures
        pair(unpair(n).0, unpair(n).1) == n,
    decreases n,
{
    if n == 0 {
        lemma_pair_origin();
    } else {
        lemma_pair_of_unpair((n - 1) as nat);
        let (x, y) = unpair((n - 1) as nat);
        lemma_pair_successor(x, y);
        let (a, b) = successor(x, y);
        assert(pair(a, b) == n);
    }
}

/// Taking the pair at the position of `(x, y)` gives `(x, y)` back.
pub proof fn lemma_unpair_of_pair(x: nat, y: nat)
    ensures
        unpair(pair(x, y)) == (x, y),
{
    let (a, b) = unpair(pair(x, y));
    lemma_pair_of_unpair(pair(x, y));
    lemma_pair_injective(a, b, x, y);
}

/// Two positions that hold the same pair are one position.
pub proof fn lemma_unpair_injective(n1: nat, n2: nat)
    requires
        unpair(n1) == unpair(n2),
    ensures
        n1 == n2,
{
    lemma_pair_of_unpair(n1);
    lemma_pair_of_unpair(n2);
}

/// The positions follow the diagonals: position 0 holds `(0, 0)`, and each
/// next position holds the successor of the pair before it.
pub proof fn lemma_unpair_enumerates(n: nat)
    ensures
        unpair(0) == (0nat, 0nat),
        unpair(n + 1) == successor(unpair(n).0, unpair(n).1),
{
    lemma_pair_origin();
    lemma_unpair_of_pair(0, 0);
    let (x, y) = unpair(n);
    lemma_pair_of_unpair(n);
    lemma_pair_successor(x, y);
    let (a, b) = successor(x, y);
    lemma_unpair_of_pair(a, b);
}

/// Both components of the pair at position `n` are at most `n`.
pub proof fn lemma_unpair_bounded(n: nat)
    ensures
        unpair(n).0 <= n,
        unpair(n).1 <= n,
{
    let (x, y) = unpair(n);
    lemma_pair_of_unpair(n);
    lemma_triangle_at_least(x + y);
}

/// A diagonal starts no earlier than its own number.
pub proof fn lemma_triangle_at_least(d: nat)
    ensures
        triangle(d) >= d,
    decreases d,
{
    if d > 0 {
        lemma_triangle_at_least((d - 1) as nat);
        lemma_triangle_step((d - 1) as nat);
    }
}

/// Finds the pair at position `n`.
pub fn intpair(n: usize) -> (r: (usize, usize))
    ensures
        pair(r.0 as nat, r.1 as nat) == n,
        (r.0 as nat, r.1 as nat) == unpair(n as nat),
{
    let mut i: usize = 0;
    let mut rest: usize = n;
    while rest > i
        invariant
            triangle(i as nat) + rest == n,
        decreases rest,
    {
        proof {
            lemma_triangle_step(i as nat);
        }
        i += 1;
        rest -= i;
    }
    proof {
        lemma_unpair_of_pair(rest as nat, (i - rest) as nat);
    }
    (rest, i - rest)
}

} // verus!
