//! Square seeds: the side of a square of a given number of cells.

use vstd::prelude::*;
use crate::simulation::{is_side_of, is_square, side_of};

verus! {

/// A longer side makes a larger square.
pub proof fn lemma_square_grows(a: nat, b: nat)
    requires
        a < b,
    ensures
        a * a < b * b,
{
    assert(a * a < b * b) by (nonlinear_arith)
        requires
            0 <= a < b,
    ;
}

/// A square has one side length only.
pub proof fn lemma_side_unique(a: nat, b: nat, len: nat)
    requires
        is_side_of(a, len),
        is_side_of(b, len),
    ensures
        a == b,
{
    if a < b {
        lemma_square_grows(a, b);
    } else if b < a {
        lemma_square_grows(b, a);
    }
}

/// The side of a square is the side that `side_of` names.
pub proof fn lemma_side_of(side: nat, len: nat)
    requires
        is_side_of(side, len),
    ensures
        is_square(len),
        side_of(len) == side,
{
    lemma_side_unique(side, side_of(len), len);
}

/// The side of the square that `len` cells make, if they make one.
pub fn square_side(len: usize) -> (r: Option<usize>)
    ensures
        r matches Some(side) ==> is_side_of(side as nat, len as nat) && is_square(len as nat)
            && side_of(len as nat) == side,
        r is None ==> !is_square(len as nat),
{
    // the largest `low` with low * low <= len, found by bisection
    let target: u128 = len as u128;
    let mut low: u128 = 0;
    let mut high: u128 = target + 1;
    assert(high * high > target) by (nonlinear_arith)
        requires
            high == target + 1,
            0 <= target,
    ;
    while high - low > 1
        invariant
            target == len,
            low < high <= target + 1,
            low * low <= target,
            high * high > target,
        decreases high - low,
    {
        let middle: u128 = low + (high - low) / 2;
        assert(middle * middle <= usize::MAX * usize::MAX) by (nonlinear_arith)
            requires
                0 <= middle <= usize::MAX,
        ;
        assert(usize::MAX * usize::MAX <= 0xffff_ffff_ffff_ffff * 0xffff_ffff_ffff_ffff)
            by (nonlinear_arith)
            requires
                usize::MAX <= 0xffff_ffff_ffff_ffff,
        ;
        if middle * middle <= target {
            low = middle;
        } else {
            high = middle;
        }
    }
    assert(low * low <= usize::MAX * usize::MAX) by (nonlinear_arith)
        requires
            0 <= low <= usize::MAX,
    ;
    assert(usize::MAX * usize::MAX <= 0xffff_ffff_ffff_ffff * 0xffff_ffff_ffff_ffff)
        by (nonlinear_arith)
        requires
            usize::MAX <= 0xffff_ffff_ffff_ffff,
    ;
    if low * low == target {
        proof {
            lemma_side_of(low as nat, len as nat);
        }
        Some(low as usize)
    } else {
        proof {
            if is_square(len as nat) {
                let side = side_of(len as nat);
                if side <= low {
                    if side < low {
                        lemma_square_grows(side, low as nat);
                    }
                } else {
                    if high < side {
                        lemma_square_grows(high as nat, side);
                    }
                }
            }
        }
        None
    }
}

} // verus!
