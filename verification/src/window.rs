//! Sums over neighbourhoods on a ring and on a torus.

use vstd::prelude::*;
use vstd::arithmetic::div_mod::{
    lemma_fundamental_div_mod,
    lemma_fundamental_div_mod_converse,
    lemma_mod_multiples_vanish,
};
use vstd::arithmetic::mul::lemma_mul_inequality;
use crate::simulation::{block_sum, cells_below, row_below, window_sum, window_width, wrapped};

verus! {

/// A wrapped position is a position.
pub proof fn lemma_wrapped_in_range(i: int, n: nat)
    requires
        0 < n,
    ensures
        0 <= wrapped(i, n) < n,
{
}

/// Going one further on the ring is a step to the right, or from the last
/// position back to the first.
pub proof fn lemma_wrapped_next(i: int, n: nat)
    requires
        0 < n,
    ensures
        wrapped(i + 1, n) == if wrapped(i, n) + 1 == n {
            0
        } else {
            wrapped(i, n) + 1
        },
{
    let d = n as int;
    lemma_fundamental_div_mod(i, d);
    if i % d + 1 == d {
        assert(i + 1 == d * (i / d + 1)) by (nonlinear_arith)
            requires
                i == d * (i / d) + i % d,
                i % d + 1 == d,
        ;
        assert(i + 1 == (i / d + 1) * d + 0) by (nonlinear_arith)
            requires
                i + 1 == d * (i / d + 1),
        ;
        lemma_fundamental_div_mod_converse(i + 1, d, i / d + 1, 0);
    } else {
        assert(i + 1 == (i / d) * d + (i % d + 1)) by (nonlinear_arith)
            requires
                i == d * (i / d) + i % d,
        ;
        lemma_fundamental_div_mod_converse(i + 1, d, i / d, i % d + 1);
    }
}

/// Going `back` positions to the left of position `j` on the ring, however
/// many times that leads around it.
pub proof fn lemma_wrapped_back(j: int, back: int, n: nat)
    requires
        0 <= j < n,
        0 <= back,
    ensures
        wrapped(j - back, n) == if j >= back % (n as int) {
            j - back % (n as int)
        } else {
            j + n - back % (n as int)
        },
{
    let d = n as int;
    let rest = back % d;
    lemma_fundamental_div_mod(back, d);
    // j - back and j - rest differ by a multiple of d
    assert(j - back == d * (-(back / d)) + (j - rest)) by (nonlinear_arith)
        requires
            back == d * (back / d) + rest,
    ;
    lemma_mod_multiples_vanish(-(back / d), j - rest, d);
    if j >= rest {
        lemma_fundamental_div_mod_converse(j - rest, d, 0, j - rest);
    } else {
        lemma_fundamental_div_mod_converse(j - rest, d, -1, j - rest + d);
    }
}

/// The position `back` places to the left of `centre` on a ring of `n`.
pub(crate) fn ring_back(centre: usize, back: usize, n: usize) -> (p: usize)
    requires
        centre < n,
    ensures
        p == wrapped(centre - back, n as nat),
        p < n,
{
    proof {
        lemma_wrapped_back(centre as int, back as int, n as nat);
    }
    let rest = back % n;
    if centre >= rest {
        centre - rest
    } else {
        centre + (n - rest)
    }
}

/// The position to the right of `p` on a ring of `n`.
pub(crate) fn ring_next(p: usize, n: usize, Ghost(i): Ghost<int>) -> (q: usize)
    requires
        p < n,
        p == wrapped(i, n as nat),
    ensures
        q == wrapped(i + 1, n as nat),
        q < n,
{
    proof {
        lemma_wrapped_next(i, n as nat);
    }
    if p + 1 == n {
        0
    } else {
        p + 1
    }
}

/// A window of `count` states holds at most `count` times the largest
/// state.
pub proof fn lemma_window_sum_bound(row: Seq<usize>, start: int, count: nat, states: nat)
    requires
        0 < row.len(),
        row_below(row, states),
    ensures
        window_sum(row, start, count) <= count * (states - 1),
    decreases count,
{
    if count > 0 {
        lemma_window_sum_bound(row, start, (count - 1) as nat, states);
        lemma_wrapped_in_range(start + count - 1, row.len());
        assert(count * (states - 1) == (count - 1) * (states - 1) + (states - 1))
            by (nonlinear_arith);
    } else {
        assert(0 * (states - 1) == 0);
    }
}

/// A block of `rows` by `columns` states holds at most that many times
/// the largest state.
pub proof fn lemma_block_sum_bound(
    cells: Seq<Seq<usize>>,
    top: int,
    left: int,
    rows: nat,
    columns: nat,
    states: nat,
)
    requires
        0 < cells.len(),
        forall|i: int| 0 <= i < cells.len() ==> 0 < (#[trigger] cells[i]).len(),
        cells_below(cells, states),
    ensures
        block_sum(cells, top, left, rows, columns) <= rows * (columns * (states - 1)),
    decreases rows,
{
    if rows > 0 {
        lemma_block_sum_bound(cells, top, left, (rows - 1) as nat, columns, states);
        lemma_wrapped_in_range(top + rows - 1, cells.len());
        let row = cells[wrapped(top + rows - 1, cells.len())];
        assert(row_below(row, states));
        lemma_window_sum_bound(row, left, columns, states);
        let per_row = columns * (states - 1);
        assert(rows * per_row == (rows - 1) * per_row + per_row) by (nonlinear_arith);
    } else {
        assert(0 * (columns * (states - 1)) == 0);
    }
}

/// The sum of the states in the window of the given radius around
/// `centre`, the row closed to a ring.
pub(crate) fn window_total(row: &Vec<usize>, centre: usize, radius: u8, Ghost(states): Ghost<nat>) -> (total:
    usize)
    requires
        centre < row.len(),
        row_below(row@, states),
        window_width(radius as nat) * (states - 1) <= usize::MAX,
    ensures
        total == window_sum(row@, centre - radius, window_width(radius as nat)),
{
    let n = row.len();
    let count: usize = 2 * (radius as usize) + 1;
    let ghost start = centre - radius;
    let mut position = ring_back(centre, radius as usize, n);
    let mut total: usize = 0;
    let mut t: usize = 0;
    while t < count
        invariant
            n == row.len(),
            0 < n,
            count == window_width(radius as nat),
            row_below(row@, states),
            count * (states - 1) <= usize::MAX,
            t <= count,
            position < n,
            position == wrapped(start + t, n as nat),
            total == window_sum(row@, start, t as nat),
        decreases count - t,
    {
        proof {
            lemma_window_sum_bound(row@, start, (t + 1) as nat, states);
            lemma_mul_inequality((t + 1) as int, count as int, (states - 1) as int);
        }
        total = total + row[position];
        position = ring_next(position, n, Ghost(start + t));
        t += 1;
    }
    total
}

/// The sum of the states in the square of the given radius around cell
/// `(row, column)`, the grid closed to a torus.
pub(crate) fn block_total(
    cells: &Vec<Vec<usize>>,
    row: usize,
    column: usize,
    radius: u8,
    Ghost(grid): Ghost<Seq<Seq<usize>>>,
    Ghost(states): Ghost<nat>,
) -> (total: usize)
    requires
        grid.len() == cells.len(),
        forall|i: int| 0 <= i < cells.len() ==> (#[trigger] cells[i])@ == grid[i],
        row < grid.len(),
        forall|i: int| 0 <= i < grid.len() ==> column < (#[trigger] grid[i]).len(),
        cells_below(grid, states),
        window_width(radius as nat) * (window_width(radius as nat) * (states - 1)) <= usize::MAX,
    ensures
        total == block_sum(
            grid,
            row - radius,
            column - radius,
            window_width(radius as nat),
            window_width(radius as nat),
        ),
{
    let n = cells.len();
    let count: usize = 2 * (radius as usize) + 1;
    let ghost top = row - radius;
    let ghost left = column - radius;
    let ghost per_row = count * (states - 1);
    let mut position = ring_back(row, radius as usize, n);
    let mut total: usize = 0;
    let mut t: usize = 0;
    while t < count
        invariant
            n == cells.len(),
            n == grid.len(),
            0 < n,
            forall|i: int| 0 <= i < cells.len() ==> (#[trigger] cells[i])@ == grid[i],
            forall|i: int| 0 <= i < grid.len() ==> column < (#[trigger] grid[i]).len(),
            cells_below(grid, states),
            count == window_width(radius as nat),
            left == column - radius,
            per_row == count * (states - 1),
            count * per_row <= usize::MAX,
            t <= count,
            position < n,
            position == wrapped(top + t, n as nat),
            total == block_sum(grid, top, left, t as nat, count as nat),
        decreases count - t,
    {
        proof {
            lemma_block_sum_bound(grid, top, left, (t + 1) as nat, count as nat, states);
            lemma_mul_inequality((t + 1) as int, count as int, per_row as int);
            assert(row_below(grid[position as int], states));
            assert(per_row <= count * per_row) by (nonlinear_arith)
                requires
                    1 <= count,
                    0 <= per_row,
            ;
        }
        assert(cells[position as int]@ == grid[position as int]);
        let in_row = window_total(&cells[position], column, radius, Ghost(states));
        total = total + in_row;
        position = ring_next(position, n, Ghost(top + t));
        t += 1;
    }
    total
}

} // verus!
