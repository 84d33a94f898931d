//! Work on rows and grids of cell states: counting, looking at the
//! border, computing the next generation and writing a seed.

use vstd::prelude::*;
use crate::automata::Automata;
use crate::simulation::{
    border_live,
    cells_below,
    ends_live,
    live_cells,
    live_on_border,
    next_grid,
    next_row,
    overlaid,
    row_below,
    row_dead,
    window_width,
};
use crate::window::{block_total, lemma_block_sum_bound, lemma_window_sum_bound, window_total};

verus! {

/// The rows as sequences of states.
pub open spec fn grid_of(rows: Seq<Vec<usize>>) -> Seq<Seq<usize>> {
    Seq::new(rows.len(), |i: int| rows[i]@)
}

/// A row has at most as many live cells as it has cells.
pub proof fn lemma_live_cells_bound(row: Seq<usize>)
    ensures
        live_cells(row) <= row.len(),
    decreases row.len(),
{
    if row.len() > 0 {
        lemma_live_cells_bound(row.drop_last());
    }
}

/// The number of live cells.
pub(crate) fn count_live(row: &[usize]) -> (live: usize)
    ensures
        live == live_cells(row@),
        live <= row@.len(),
{
    let mut live: usize = 0;
    let mut j: usize = 0;
    while j < row.len()
        invariant
            j <= row.len(),
            live == live_cells(row@.take(j as int)),
            live <= j,
        decreases row.len() - j,
    {
        assert(row@.take(j + 1).drop_last() =~= row@.take(j as int));
        if row[j] != 0 {
            live += 1;
        }
        j += 1;
    }
    assert(row@.take(row.len() as int) =~= row@);
    live
}

/// Whether either end of the row is live.
pub(crate) fn row_ends_live(row: &Vec<usize>) -> (live: bool)
    ensures
        live == ends_live(row@),
{
    row.len() > 0 && (row[0] != 0 || row[row.len() - 1] != 0)
}

/// Whether no cell of the row is live.
pub(crate) fn row_is_dead(row: &Vec<usize>) -> (dead: bool)
    ensures
        dead == row_dead(row@),
{
    let mut j: usize = 0;
    while j < row.len()
        invariant
            j <= row.len(),
            forall|c: int| 0 <= c < j ==> row@[c] == 0,
        decreases row.len() - j,
    {
        if row[j] != 0 {
            return false;
        }
        j += 1;
    }
    true
}

/// The row that follows `row` under the rules of a one-dimensional
/// automaton.
pub(crate) fn next_generation(row: &Vec<usize>, automata: &Automata) -> (next: Vec<usize>)
    requires
        automata.wf(),
        !automata.is_2d,
        row_below(row@, automata@.states),
    ensures
        next@ == next_row(row@, automata@),
        row_below(next@, automata@.states),
{
    let width = row.len();
    let mut next: Vec<usize> = Vec::new();
    let mut k: usize = 0;
    while k < width
        invariant
            automata.wf(),
            !automata.is_2d,
            row_below(row@, automata@.states),
            width == row.len(),
            k <= width,
            next.len() == k,
            forall|c: int| 0 <= c < k ==> next[c] == next_row(row@, automata@)[c],
            row_below(next@, automata@.states),
        decreases width - k,
    {
        proof {
            lemma_window_sum_bound(
                row@,
                k - automata.neighbourhood_size,
                window_width(automata@.radius),
                automata@.states,
            );
            assert(automata.rule_string.len() == (automata@.states - 1) * window_width(
                automata@.radius,
            ) + 1);
            assert((automata@.states - 1) * window_width(automata@.radius) == window_width(
                automata@.radius,
            ) * (automata@.states - 1)) by (nonlinear_arith);
        }
        let sum = window_total(row, k, automata.neighbourhood_size, Ghost(automata@.states));
        let state = automata.rule_string[sum];
        next.push(state);
        k += 1;
    }
    assert(next@ =~= next_row(row@, automata@));
    next
}

/// The row of the next generation of a two-dimensional automaton that
/// takes the place of row `j`.
pub(crate) fn next_generation_of_row(cells: &Vec<Vec<usize>>, j: usize, width: usize, automata: &Automata) -> (next:
    Vec<usize>)
    requires
        automata.wf(),
        automata.is_2d,
        j < cells.len(),
        forall|i: int| 0 <= i < cells.len() ==> (#[trigger] cells[i]).len() == width,
        cells_below(grid_of(cells@), automata@.states),
    ensures
        next@ == next_grid(grid_of(cells@), automata@)[j as int],
        row_below(next@, automata@.states),
{
    let ghost grid = grid_of(cells@);
    let ghost rules = automata@;
    let ghost side = window_width(rules.radius);
    let mut next: Vec<usize> = Vec::new();
    let mut k: usize = 0;
    proof {
        assert(automata.rule_string.len() == (rules.states - 1) * (side * side) + 1);
        assert(side * (side * (rules.states - 1)) == (rules.states - 1) * (side * side))
            by (nonlinear_arith);
    }
    while k < width
        invariant
            automata.wf(),
            automata.is_2d,
            rules == automata@,
            grid == grid_of(cells@),
            side == window_width(rules.radius),
            side * (side * (rules.states - 1)) + 1 == automata.rule_string.len(),
            j < cells.len(),
            forall|i: int| 0 <= i < cells.len() ==> (#[trigger] cells[i]).len() == width,
            cells_below(grid, rules.states),
            k <= width,
            next.len() == k,
            forall|c: int| 0 <= c < k ==> next[c] == next_grid(grid, rules)[j as int][c],
            row_below(next@, rules.states),
        decreases width - k,
    {
        proof {
            assert forall|i: int| 0 <= i < grid.len() implies k < (#[trigger] grid[i]).len() by {
                assert(cells[i].len() == width);
            }
            lemma_block_sum_bound(grid, j - rules.radius, k - rules.radius, side, side, rules.states);
        }
        let sum = block_total(
            cells,
            j,
            k,
            automata.neighbourhood_size,
            Ghost(grid),
            Ghost(rules.states),
        );
        let state = automata.rule_string[sum];
        next.push(state);
        k += 1;
    }
    assert(next@ =~= next_grid(grid, rules)[j as int]);
    next
}

/// Whether a live cell lies in the first or last row or column.
pub(crate) fn grid_border_live(cells: &Vec<Vec<usize>>, width: usize) -> (live: bool)
    requires
        forall|i: int| 0 <= i < cells.len() ==> (#[trigger] cells[i]).len() == width,
    ensures
        live == border_live(grid_of(cells@)),
{
    let ghost grid = grid_of(cells@);
    let height = cells.len();
    if height == 0 || width == 0 {
        assert forall|i: int, j: int| !live_on_border(grid, i, j) by {
            if 0 <= i < grid.len() {
                assert(cells[i].len() == width);
            }
        }
        return false;
    }
    let mut j: usize = 0;
    while j < width
        invariant
            grid == grid_of(cells@),
            height == cells.len(),
            0 < height,
            forall|i: int| 0 <= i < cells.len() ==> (#[trigger] cells[i]).len() == width,
            j <= width,
            forall|c: int| 0 <= c < j ==> #[trigger] grid[0][c] == 0,
            forall|c: int| 0 <= c < j ==> #[trigger] grid[height - 1][c] == 0,
        decreases width - j,
    {
        assert(grid[0] == cells[0]@);
        assert(grid[height - 1] == cells[height - 1]@);
        if cells[0][j] != 0 {
            assert(live_on_border(grid, 0, j as int));
            return true;
        }
        if cells[height - 1][j] != 0 {
            assert(live_on_border(grid, height - 1, j as int));
            return true;
        }
        j += 1;
    }
    let mut i: usize = 0;
    while i < height
        invariant
            grid == grid_of(cells@),
            height == cells.len(),
            0 < width,
            forall|r: int| 0 <= r < cells.len() ==> (#[trigger] cells[r]).len() == width,
            i <= height,
            forall|c: int| 0 <= c < width ==> #[trigger] grid[0][c] == 0,
            forall|c: int| 0 <= c < width ==> #[trigger] grid[height - 1][c] == 0,
            forall|r: int| 0 <= r < i ==> (#[trigger] grid[r])[0] == 0,
            forall|r: int| 0 <= r < i ==> (#[trigger] grid[r])[width - 1] == 0,
        decreases height - i,
    {
        assert(grid[i as int] == cells[i as int]@);
        if cells[i][0] != 0 {
            assert(live_on_border(grid, i as int, 0));
            return true;
        }
        if cells[i][width - 1] != 0 {
            assert(live_on_border(grid, i as int, width - 1));
            return true;
        }
        i += 1;
    }
    assert forall|i: int, j: int| !live_on_border(grid, i, j) by {
        if 0 <= i < grid.len() && 0 <= j < grid[i].len() {
            assert(cells[i].len() == width);
            assert(grid[i][0] == 0 && grid[i][width - 1] == 0);
            assert(grid[0][j] == 0 && grid[height - 1][j] == 0);
        }
    }
    false
}

/// The cell in row `i` and column `j` of a block of `rows` by `columns`
/// cells has a place in the block read row by row.
pub proof fn lemma_block_index(i: int, j: int, rows: int, columns: int)
    requires
        0 <= i < rows,
        0 <= j < columns,
    ensures
        0 <= i * columns + j < rows * columns,
        i * columns + columns <= rows * columns,
        0 <= i * columns,
{
    assert(i * columns + columns <= rows * columns) by (nonlinear_arith)
        requires
            0 <= i < rows,
            0 <= columns,
    ;
    assert(0 <= i * columns) by (nonlinear_arith)
        requires
            0 <= i,
            0 <= columns,
    ;
}

/// Writes the seed, read row by row, over the block of `rows` by `columns`
/// cells whose top left cell is `(top, left)`.
pub(crate) fn place_seed(
    cells: &mut Vec<Vec<usize>>,
    seed: &[usize],
    top: usize,
    left: usize,
    rows: usize,
    columns: usize,
    Ghost(width): Ghost<nat>,
)
    requires
        forall|i: int| 0 <= i < old(cells).len() ==> (#[trigger] old(cells)[i]).len() == width,
        top + rows <= old(cells).len(),
        left + columns <= width,
        seed@.len() == rows * columns,
    ensures
        final(cells).len() == old(cells).len(),
        forall|i: int| 0 <= i < final(cells).len() ==> (#[trigger] final(cells)[i]).len() == width,
        grid_of(final(cells)@) == overlaid(
            grid_of(old(cells)@),
            seed@,
            top as int,
            left as int,
            rows as int,
            columns as int,
        ),
{
    let ghost before = grid_of(cells@);
    let mut i: usize = 0;
    while i < rows
        invariant
            i <= rows,
            before.len() == cells.len(),
            forall|r: int| 0 <= r < cells.len() ==> (#[trigger] cells[r]).len() == width,
            forall|r: int| 0 <= r < before.len() ==> (#[trigger] before[r]).len() == width,
            top + rows <= cells.len(),
            left + columns <= width,
            seed@.len() == rows * columns,
            grid_of(cells@) =~~= overlaid(before, seed@, top as int, left as int, i as int, columns as int),
        decreases rows - i,
    {
        let ghost rows_done = grid_of(cells@);
        let mut j: usize = 0;
        while j < columns
            invariant
                i < rows,
                j <= columns,
                before.len() == cells.len(),
                rows_done.len() == cells.len(),
                forall|r: int| 0 <= r < cells.len() ==> (#[trigger] cells[r]).len() == width,
                top + rows <= cells.len(),
                left + columns <= width,
                seed@.len() == rows * columns,
                forall|r: int| 0 <= r < cells.len() && r != top + i ==> (#[trigger] cells[r])@ == rows_done[r],
                forall|c: int|
                    0 <= c < width ==> (#[trigger] cells[top + i]@[c]) == if left <= c < left + j {
                        seed@[i * columns + (c - left)]
                    } else {
                        rows_done[top + i][c]
                    },
            decreases columns - j,
        {
            proof {
                lemma_block_index(i as int, j as int, rows as int, columns as int);
                assert(seed.len() == rows * columns);
            }
            let state = seed[i * columns + j];
            cells[top + i][left + j] = state;
            j += 1;
        }
        proof {
            let target = overlaid(before, seed@, top as int, left as int, i + 1, columns as int);
            let done = overlaid(before, seed@, top as int, left as int, i as int, columns as int);
            assert forall|r: int| 0 <= r < cells.len() implies grid_of(cells@)[r] =~= target[r] by {
                if r != top + i {
                    assert(cells[r]@ == rows_done[r]);
                    assert(rows_done[r] == done[r]);
                } else {
                    assert(rows_done[r] == done[r]);
                    assert(before[r].len() == width);
                    assert forall|c: int| 0 <= c < width implies cells[r]@[c] == target[r][c] by {
                        assert(cells[top + i]@[c] == if left <= c < left + columns {
                            seed@[i * columns + (c - left)]
                        } else {
                            rows_done[top + i][c]
                        });
                    }
                }
            }
        }
        i += 1;
    }
}

} // verus!
