//! The mathematical model of a simulation: what a rule table is, what a
//! grid holds, and how seeding, stepping and finalising change it.
//!
//! Nothing here is executable. The functions of [`crate::board`] state
//! their results in these terms.

use vstd::prelude::*;
use crate::error::Error;
use crate::text::{decimal, decimals};

verus! {

/// A totalistic rule: the next state of a cell, looked up by the sum of
/// the states in its neighbourhood.
pub struct Rules {
    /// The next state for each neighbourhood sum.
    pub table: Seq<usize>,
    /// Whether the neighbourhood is a square rather than a line.
    pub is_2d: bool,
    /// How far the neighbourhood reaches to each side of the cell.
    pub radius: nat,
    /// The number of states; state 0 is dead.
    pub states: nat,
}

/// The number of cells along one side of a neighbourhood.
pub open spec fn window_width(radius: nat) -> nat {
    2 * radius + 1
}

/// The number of cells in a neighbourhood.
pub open spec fn window_cells(radius: nat, is_2d: bool) -> nat {
    if is_2d {
        window_width(radius) * window_width(radius)
    } else {
        window_width(radius)
    }
}

/// The number of different sums that a neighbourhood can have, which is
/// the length of the rule table.
pub open spec fn table_len(states: nat, radius: nat, is_2d: bool) -> nat {
    ((states - 1) * window_cells(radius, is_2d) + 1) as nat
}

impl Rules {
    /// There is a dead state, the table has an entry for every sum, every
    /// entry is a state, and the first entry is the dead state: a
    /// neighbourhood without a live cell stays dead.
    pub open spec fn wf(self) -> bool {
        &&& 0 < self.states
        &&& self.table.len() == table_len(self.states, self.radius, self.is_2d)
        &&& forall|i: int| 0 <= i < self.table.len() ==> self.table[i] < self.states
        &&& self.table[0] == 0
    }

    /// Both rules are for the same kind of automaton.
    pub open spec fn same_kind(self, other: Rules) -> bool {
        &&& self.is_2d == other.is_2d
        &&& self.radius == other.radius
        &&& self.states == other.states
    }

    /// These rules with another table.
    pub open spec fn with_table(self, table: Seq<usize>) -> Rules {
        Rules { table, ..self }
    }
}

/// The state of a simulation.
pub struct BoardState {
    /// The number of columns.
    pub width: nat,
    /// The number of rows.
    pub height: nat,
    /// The states of the cells, row by row.
    pub cells: Seq<Seq<usize>>,
    /// The rules, once the board has been seeded.
    pub rules: Option<Rules>,
    /// Whether no live cell has been seen on the border yet.
    pub apoptotic: bool,
    /// The number of live cells written so far.
    pub fitness: nat,
}

/// Every cell is a state below `bound`.
pub open spec fn cells_below(cells: Seq<Seq<usize>>, bound: nat) -> bool {
    forall|i: int, j: int|
        0 <= i < cells.len() && 0 <= j < cells[i].len() ==> #[trigger] cells[i][j] < bound
}

/// Every entry is a state below `bound`.
pub open spec fn row_below(row: Seq<usize>, bound: nat) -> bool {
    forall|j: int| 0 <= j < row.len() ==> row[j] < bound
}

/// A grid of `height` rows of `width` dead cells.
pub open spec fn dead_grid(width: nat, height: nat) -> Seq<Seq<usize>> {
    Seq::new(height, |i: int| Seq::new(width, |j: int| 0usize))
}

impl BoardState {
    /// The grid has `height` rows of `width` cells, and on a seeded board
    /// the rules are well formed and every cell is one of their states.
    pub open spec fn wf(self) -> bool {
        &&& self.cells.len() == self.height
        &&& forall|i: int| 0 <= i < self.height ==> (#[trigger] self.cells[i]).len() == self.width
        &&& self.rules matches Some(rules) ==> rules.wf() && cells_below(self.cells, rules.states)
    }

    /// The number of cells.
    pub open spec fn area(self) -> nat {
        self.width * self.height
    }
}

/// The unseeded board of the given size: all cells dead, no rules,
/// no fitness, and not yet known to touch the border.
pub open spec fn blank(width: nat, height: nat) -> BoardState {
    BoardState {
        width,
        height,
        cells: dead_grid(width, height),
        rules: None,
        apoptotic: true,
        fitness: 0,
    }
}

/// The number of live cells in a row.
pub open spec fn live_cells(row: Seq<usize>) -> nat
    decreases row.len(),
{
    if row.len() == 0 {
        0
    } else {
        live_cells(row.drop_last()) + if row.last() != 0 { 1nat } else { 0nat }
    }
}

/// The number of live cells in all the rows.
pub open spec fn live_in_rows(rows: Seq<Seq<usize>>) -> nat
    decreases rows.len(),
{
    if rows.len() == 0 {
        0
    } else {
        live_in_rows(rows.drop_last()) + live_cells(rows.last())
    }
}

/// One of the two end cells of the row is live.
pub open spec fn ends_live(row: Seq<usize>) -> bool {
    row.len() > 0 && (row[0] != 0 || row[row.len() - 1] != 0)
}

/// Cell `(i, j)` lies in the first or last row or column.
pub open spec fn on_border(cells: Seq<Seq<usize>>, i: int, j: int) -> bool {
    i == 0 || i == cells.len() - 1 || j == 0 || j == cells[i].len() - 1
}

/// Cell `(i, j)` is a live cell on the border.
pub open spec fn live_on_border(cells: Seq<Seq<usize>>, i: int, j: int) -> bool {
    &&& 0 <= i < cells.len()
    &&& 0 <= j < cells[i].len()
    &&& on_border(cells, i, j)
    &&& cells[i][j] != 0
}

/// Some cell on the border is live.
pub open spec fn border_live(cells: Seq<Seq<usize>>) -> bool {
    exists|i: int, j: int| live_on_border(cells, i, j)
}

/// Position `i` on a ring of `n` positions: the remainder that is never
/// negative, however far `i` lies outside `0..n`.
pub open spec fn wrapped(i: int, n: nat) -> int {
    i % (n as int)
}

/// The sum of `count` consecutive cells of the row, the first at
/// position `start`, the row closed to a ring.
pub open spec fn window_sum(row: Seq<usize>, start: int, count: nat) -> nat
    decreases count,
{
    if count == 0 {
        0
    } else {
        window_sum(row, start, (count - 1) as nat) + row[wrapped(start + count - 1, row.len())] as nat
    }
}

/// The sum of a block of `rows` by `columns` cells whose top left cell is
/// `(top, left)`, the grid closed to a torus.
pub open spec fn block_sum(cells: Seq<Seq<usize>>, top: int, left: int, rows: nat, columns: nat) -> nat
    decreases rows,
{
    if rows == 0 {
        0
    } else {
        block_sum(cells, top, left, (rows - 1) as nat, columns) + window_sum(
            cells[wrapped(top + rows - 1, cells.len())],
            left,
            columns,
        )
    }
}

/// The generation that follows `row` in a one-dimensional automaton.
pub open spec fn next_row(row: Seq<usize>, rules: Rules) -> Seq<usize> {
    Seq::new(
        row.len(),
        |k: int| rules.table[window_sum(row, k - rules.radius, window_width(rules.radius)) as int],
    )
}

/// The `n`th generation after `first` in a one-dimensional automaton.
pub open spec fn nth_row(first: Seq<usize>, rules: Rules, n: nat) -> Seq<usize>
    decreases n,
{
    if n == 0 {
        first
    } else {
        next_row(nth_row(first, rules, (n - 1) as nat), rules)
    }
}

/// The history of a one-dimensional automaton: the first row stays, and
/// every other row is the generation that follows the row above it.
pub open spec fn grown_rows(cells: Seq<Seq<usize>>, rules: Rules) -> Seq<Seq<usize>> {
    Seq::new(cells.len(), |i: int| nth_row(cells[0], rules, i as nat))
}

/// All rows but the first.
pub open spec fn later_rows(cells: Seq<Seq<usize>>) -> Seq<Seq<usize>> {
    if cells.len() == 0 {
        cells
    } else {
        cells.subrange(1, cells.len() as int)
    }
}

/// The generation that follows the grid in a two-dimensional automaton.
pub open spec fn next_grid(cells: Seq<Seq<usize>>, rules: Rules) -> Seq<Seq<usize>> {
    Seq::new(
        cells.len(),
        |j: int|
            Seq::new(
                cells[j].len(),
                |k: int|
                    rules.table[block_sum(
                        cells,
                        j - rules.radius,
                        k - rules.radius,
                        window_width(rules.radius),
                        window_width(rules.radius),
                    ) as int],
            ),
    )
}

/// The board after one call of `next_board`.
///
/// In one dimension the rows below the first are all computed anew, each
/// from the row above it; every live cell among them counts towards the
/// fitness, and a live cell at either end of one of them marks the
/// border as touched. In two dimensions the whole grid is replaced by
/// its next generation; every live cell of it counts, and a live cell
/// anywhere on its border marks the border as touched.
pub open spec fn step(b: BoardState) -> BoardState
    recommends
        b.rules is Some,
{
    let rules = b.rules.unwrap();
    if rules.is_2d {
        let cells = next_grid(b.cells, rules);
        BoardState {
            cells,
            fitness: b.fitness + live_in_rows(cells),
            apoptotic: b.apoptotic && !border_live(cells),
            ..b
        }
    } else {
        let cells = grown_rows(b.cells, rules);
        BoardState {
            cells,
            fitness: b.fitness + live_in_rows(later_rows(cells)),
            apoptotic: b.apoptotic && forall|i: int| 1 <= i < cells.len() ==> !ends_live(#[trigger] cells[i]),
            ..b
        }
    }
}

/// Up to `steps` further steps, of which the first that leaves the border
/// touched is the last.
pub open spec fn advance(b: BoardState, steps: nat) -> BoardState
    recommends
        b.rules is Some,
    decreases steps,
{
    if steps == 0 {
        b
    } else {
        let next = step(b);
        if next.apoptotic {
            advance(next, (steps - 1) as nat)
        } else {
            next
        }
    }
}

/// `side` is the side of a square of `len` cells.
pub open spec fn is_side_of(side: nat, len: nat) -> bool {
    side * side == len
}

/// `len` cells can be laid out as a square.
pub open spec fn is_square(len: nat) -> bool {
    exists|side: nat| is_side_of(side, len)
}

/// The side of a square of `len` cells.
pub open spec fn side_of(len: nat) -> nat {
    choose|side: nat| is_side_of(side, len)
}

/// The width and height of the block that the seed occupies.
pub open spec fn seed_extent(rules: Rules, seed: Seq<usize>) -> (nat, nat) {
    if rules.is_2d {
        (side_of(seed.len()), side_of(seed.len()))
    } else {
        (seed.len(), 1)
    }
}

/// Why the seed cannot be placed on the board under these rules, if it
/// cannot. The checks are made in this order.
pub open spec fn seed_error(b: BoardState, rules: Rules, seed: Seq<usize>) -> Option<Error> {
    if exists|i: int| 0 <= i < seed.len() && seed[i] >= rules.states {
        Some(Error::SeedStateOutOfRange)
    } else if (rules.radius + 1) / 2 > b.height || (rules.radius + 1) / 2 > b.width {
        Some(Error::RadiusExceedsGrid)
    } else if rules.is_2d && !is_square(seed.len()) {
        Some(Error::SeedNotSquare)
    } else if seed_extent(rules, seed).0 > b.width || seed_extent(rules, seed).1 > b.height {
        Some(Error::SeedTooLarge)
    } else {
        None
    }
}

/// The grid with a block of `rows` by `columns` cells replaced by the
/// seed, read row by row, the top left cell of the block at `(top, left)`.
pub open spec fn overlaid(
    cells: Seq<Seq<usize>>,
    seed: Seq<usize>,
    top: int,
    left: int,
    rows: int,
    columns: int,
) -> Seq<Seq<usize>> {
    Seq::new(
        cells.len(),
        |i: int|
            Seq::new(
                cells[i].len(),
                |j: int|
                    if top <= i < top + rows && left <= j < left + columns {
                        seed[(i - top) * columns + (j - left)]
                    } else {
                        cells[i][j]
                    },
            ),
    )
}

/// Where the top left cell of the seed goes: the seed is centred, and
/// where the space around it cannot be halved, the smaller half is to
/// the left and above. In one dimension the seed goes into the first
/// row.
pub open spec fn seed_origin(b: BoardState, rules: Rules, seed: Seq<usize>) -> (int, int) {
    let (columns, rows) = seed_extent(rules, seed);
    let left = (b.width - columns) / 2;
    let top = if rules.is_2d {
        (b.height - rows) / 2
    } else {
        0
    };
    (top, left)
}

/// The grid with the seed laid over its centre.
pub open spec fn seeded_cells(b: BoardState, rules: Rules, seed: Seq<usize>) -> Seq<Seq<usize>> {
    let (columns, rows) = seed_extent(rules, seed);
    let (top, left) = seed_origin(b, rules, seed);
    overlaid(b.cells, seed, top, left, rows as int, columns as int)
}

/// The board after `fill` has placed the seed: the rules are attached,
/// every live seed cell counts towards the fitness, and the border is
/// marked as touched if a live cell lies on it (in one dimension: at
/// either end of the first row).
pub open spec fn seeded(b: BoardState, rules: Rules, seed: Seq<usize>) -> BoardState
    recommends
        seed_error(b, rules, seed) is None,
{
    let cells = seeded_cells(b, rules, seed);
    BoardState {
        cells,
        rules: Some(rules),
        fitness: b.fitness + live_cells(seed),
        apoptotic: b.apoptotic && !(if rules.is_2d {
            border_live(cells)
        } else {
            ends_live(cells[0])
        }),
        ..b
    }
}

/// No cell of the row is live.
pub open spec fn row_dead(row: Seq<usize>) -> bool {
    forall|j: int| 0 <= j < row.len() ==> row[j] == 0
}

/// The pattern has died out. In two dimensions that asks for a grid
/// without a live cell, in one dimension only for a last row without
/// one.
pub open spec fn died_out(b: BoardState) -> bool
    recommends
        b.rules is Some,
{
    if b.rules.unwrap().is_2d {
        forall|i: int| 0 <= i < b.cells.len() ==> row_dead(#[trigger] b.cells[i])
    } else {
        b.cells.len() > 0 ==> row_dead(b.cells[b.cells.len() - 1])
    }
}

/// The board after `is_apoptotic`: a pattern that never touched the
/// border and has died out keeps its fitness; any other loses it.
pub open spec fn finalized(b: BoardState) -> BoardState
    recommends
        b.rules is Some,
{
    if b.apoptotic && died_out(b) {
        b
    } else {
        BoardState { apoptotic: false, fitness: 0, ..b }
    }
}

/// The number of steps that `run` may make after its first.
pub open spec fn further_steps(generations: nat) -> nat {
    if generations == 0 {
        0
    } else {
        (generations - 1) as nat
    }
}

/// The board after `run`: seeded, stepped once whatever the seed did,
/// stepped on until `generations` steps are made or one of the further
/// steps leaves the border touched, and finalised.
pub open spec fn ran(b: BoardState, rules: Rules, seed: Seq<usize>, generations: nat) -> BoardState {
    finalized(advance(step(seeded(b, rules, seed)), further_steps(generations)))
}

/// The board that `make_boards` makes of one rule set: seeded, stepped
/// until `generations` steps are made or one leaves the border touched,
/// and finalised.
pub open spec fn raised(b: BoardState, rules: Rules, seed: Seq<usize>, generations: nat) -> BoardState {
    finalized(advance(seeded(b, rules, seed), generations))
}

/// The number of steps that `run` makes at most.
pub open spec fn most_steps(generations: nat) -> nat {
    1 + further_steps(generations)
}

/// The record of a board: the entries of the rule table in decimal
/// notation with nothing between them, a comma and a space, and the
/// fitness; or `None` for a board without a rule set.
pub open spec fn record(b: BoardState) -> Seq<char> {
    match b.rules {
        Some(rules) => decimals(rules.table) + seq![',', ' '] + decimal(b.fitness),
        None => seq!['N', 'o', 'n', 'e'],
    }
}

/// The records of the boards, each followed by a line feed.
pub open spec fn records(boards: Seq<BoardState>) -> Seq<char>
    decreases boards.len(),
{
    if boards.len() == 0 {
        Seq::empty()
    } else {
        records(boards.drop_last()) + record(boards.last()) + seq!['\n']
    }
}

/// The board after `steps` steps, none of them held back.
pub open spec fn after_steps(b: BoardState, steps: nat) -> BoardState
    recommends
        b.rules is Some,
    decreases steps,
{
    if steps == 0 {
        b
    } else {
        step(after_steps(b, (steps - 1) as nat))
    }
}

/// A step reads the grid and the rules and nothing else: on two boards
/// with the same grid and rules it writes the same grid, adds the same
/// number to the fitness, and comes to the same verdict on the border.
pub proof fn lemma_step_reads_grid_and_rules(first: BoardState, second: BoardState)
    requires
        first.rules is Some,
        first.rules == second.rules,
        first.cells == second.cells,
    ensures
        step(first).cells == step(second).cells,
        step(first).fitness - first.fitness == step(second).fitness - second.fitness,
        first.apoptotic == second.apoptotic ==> step(first).apoptotic == step(second).apoptotic,
{
}

/// Replay: two boards that agree in size, grid, fitness and border
/// flag, seeded alike, are the same after the seeding and after every
/// number of steps, in grid, in fitness and in everything else.
pub proof fn lemma_replay(
    first: BoardState,
    second: BoardState,
    rules: Rules,
    seed: Seq<usize>,
    steps: nat,
)
    requires
        first.width == second.width,
        first.height == second.height,
        first.cells == second.cells,
        first.fitness == second.fitness,
        first.apoptotic == second.apoptotic,
    ensures
        seeded(first, rules, seed) == seeded(second, rules, seed),
        after_steps(seeded(first, rules, seed), steps) == after_steps(
            seeded(second, rules, seed),
            steps,
        ),
{
}

/// In one dimension the last row decides: a pattern that never touched
/// the border is apoptotic as soon as its last row is dead, whatever
/// lives in the rows above, and it keeps its fitness.
pub proof fn lemma_last_row_decides(b: BoardState)
    requires
        b.rules is Some,
        !b.rules.unwrap().is_2d,
        b.apoptotic,
        b.cells.len() > 0,
        row_dead(b.cells.last()),
    ensures
        finalized(b) == b,
{
}

/// In two dimensions every cell decides: a pattern with a live cell
/// anywhere on the grid is not apoptotic and forfeits its fitness.
pub proof fn lemma_any_live_cell_decides(b: BoardState, i: int, j: int)
    requires
        b.rules is Some,
        b.rules.unwrap().is_2d,
        0 <= i < b.cells.len(),
        0 <= j < b.cells[i].len(),
        b.cells[i][j] != 0,
    ensures
        !finalized(b).apoptotic,
        finalized(b).fitness == 0,
{
    assert(!row_dead(b.cells[i]));
}

} // verus!
