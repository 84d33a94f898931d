//! The simulator: a grid of cells that is seeded with a pattern, stepped
//! under a rule set, and scored.

use vstd::prelude::*;
use crate::automata::Automata;
use crate::error::Error;
use crate::grid::{
    count_live,
    grid_border_live,
    grid_of,
    lemma_block_index,
    lemma_live_cells_bound,
    next_generation,
    next_generation_of_row,
    place_seed,
    row_ends_live,
    row_is_dead,
};
use crate::simulation::{
    advance,
    blank,
    cells_below,
    dead_grid,
    died_out,
    ends_live,
    finalized,
    grown_rows,
    later_rows,
    live_in_rows,
    most_steps,
    next_grid,
    raised,
    ran,
    record,
    records,
    row_below,
    row_dead,
    seed_error,
    seed_extent,
    seeded,
    seeded_cells,
    step,
    BoardState,
    Rules,
};
use crate::square::square_side;
use crate::text::{push_decimal, push_decimals};

verus! {

/// One simulation: a grid of cell states, the rule set that drives it
/// once it is seeded, and the score of the pattern so far.
#[derive(Debug)]
pub struct Board {
    /// The number of columns.
    pub width: usize,
    /// The number of rows.
    pub height: usize,
    /// The states of the cells, row by row.
    pub cell_states: Vec<Vec<usize>>,
    /// The rule set, once the board has been seeded.
    pub automata: Option<Automata>,
    /// Whether no live cell has been seen on the border.
    pub apoptotic: bool,
    /// The number of live cells written so far, or zero once the pattern
    /// is known not to be apoptotic.
    pub fitness: usize,
}

/// The rules of the rule set, if there is one.
pub open spec fn rules_of(automata: Option<Automata>) -> Option<Rules> {
    match automata {
        Some(a) => Some(a@),
        None => None,
    }
}

impl View for Board {
    type V = BoardState;

    open spec fn view(&self) -> BoardState {
        BoardState {
            width: self.width as nat,
            height: self.height as nat,
            cells: grid_of(self.cell_states@),
            rules: rules_of(self.automata),
            apoptotic: self.apoptotic,
            fitness: self.fitness as nat,
        }
    }
}

impl Board {
    /// The grid has the board's height and width, and on a seeded board
    /// every cell is a state of its well-formed rule set.
    pub open spec fn wf(&self) -> bool {
        self@.wf()
    }

    /// Whether the board is well formed.
    pub fn is_well_formed(&self) -> (ok: bool)
        ensures
            ok == self.wf(),
    {
        if self.cell_states.len() != self.height {
            return false;
        }
        let mut i: usize = 0;
        while i < self.height
            invariant
                i <= self.height,
                self.cell_states.len() == self.height,
                forall|r: int| 0 <= r < i ==> (#[trigger] self@.cells[r]).len() == self.width,
            decreases self.height - i,
        {
            assert(self@.cells[i as int] == self.cell_states[i as int]@);
            if self.cell_states[i].len() != self.width {
                return false;
            }
            i += 1;
        }
        match &self.automata {
            None => true,
            Some(automata) => {
                if !automata.is_well_formed() {
                    return false;
                }
                let mut i: usize = 0;
                while i < self.height
                    invariant
                        self.automata == Some(*automata),
                        i <= self.height,
                        self.cell_states.len() == self.height,
                        forall|r: int|
                            0 <= r < self.height ==> (#[trigger] self@.cells[r]).len() == self.width,
                        forall|r: int, c: int|
                            0 <= r < i && 0 <= c < self.width ==> #[trigger] self@.cells[r][c]
                                < automata.num_states,
                    decreases self.height - i,
                {
                    assert(self@.cells[i as int] == self.cell_states[i as int]@);
                    let mut j: usize = 0;
                    while j < self.width
                        invariant
                            self.automata == Some(*automata),
                            i < self.height,
                            j <= self.width,
                            self.cell_states.len() == self.height,
                            self@.cells[i as int] == self.cell_states[i as int]@,
                            self.cell_states[i as int].len() == self.width,
                            forall|c: int|
                                0 <= c < j ==> #[trigger] self@.cells[i as int][c] < automata.num_states,
                        decreases self.width - j,
                    {
                        if self.cell_states[i][j] >= automata.num_states {
                            assert(!(self@.cells[i as int][j as int] < automata@.states));
                            return false;
                        }
                        j += 1;
                    }
                    i += 1;
                }
                true
            },
        }
    }

    /// An unseeded board of dead cells.
    pub fn initialise(width: usize, height: usize) -> (board: Board)
        ensures
            board@ == blank(width as nat, height as nat),
            board.wf(),
    {
        let board = Board {
            width,
            height,
            cell_states: vec![vec![0; width]; height],
            automata: None,
            apoptotic: true,
            fitness: 0,
        };
        assert(board@.cells =~~= dead_grid(width as nat, height as nat));
        board
    }

    /// Forgets the pattern, the rule set and the score, so that the board
    /// can be seeded again.
    pub fn empty(&mut self)
        ensures
            final(self)@ == blank(old(self)@.width, old(self)@.height),
            final(self).wf(),
    {
        self.cell_states = vec![vec![0; self.width]; self.height];
        self.automata = None;
        self.apoptotic = true;
        self.fitness = 0;
        assert(self@.cells =~~= dead_grid(self.width as nat, self.height as nat));
    }

    /// One call's worth of generations.
    ///
    /// On an unseeded board nothing happens and the error says so. On a
    /// seeded board the result is [`step`] of the board before: a
    /// function of its grid and rule set alone. The fitness must have
    /// room for every cell of the grid to come alive.
    pub fn next_board(&mut self) -> (r: Result<(), Error>)
        requires
            old(self).wf(),
            old(self).fitness + old(self)@.area() <= usize::MAX,
        ensures
            final(self).wf(),
            old(self).automata is None ==> r == Err::<(), Error>(Error::MissingAutomata)
                && *final(self) == *old(self),
            old(self).automata is Some ==> r is Ok && final(self)@ == step(old(self)@),
            final(self).fitness <= old(self).fitness + old(self)@.area(),
    {
        let is_2d = match &self.automata {
            None => {
                return Err(Error::MissingAutomata);
            },
            Some(automata) => automata.is_2d,
        };
        if is_2d {
            self.replace_grid();
        } else {
            self.grow_rows();
        }
        Ok(())
    }

    /// The step of a one-dimensional automaton: every row below the first
    /// is computed from the row above it.
    fn grow_rows(&mut self)
        requires
            old(self).wf(),
            old(self).automata is Some,
            !old(self).automata.unwrap().is_2d,
            old(self).fitness + old(self)@.area() <= usize::MAX,
        ensures
            final(self).wf(),
            final(self)@ == step(old(self)@),
            final(self).fitness <= old(self).fitness + old(self)@.area(),
    {
        let ghost before = self@;
        let ghost rules = before.rules.unwrap();
        let ghost grown = grown_rows(before.cells, rules);
        let height = self.height;
        let width = self.width;
        if height == 0 {
            assert(self@.cells =~= grown);
            assert(later_rows(grown).len() == 0);
            return ;
        }
        assert forall|r: int| 0 <= r < height implies (#[trigger] self.cell_states[r]).len()
            == width by {
            assert(before.cells[r] == self.cell_states[r]@);
        }
        let mut i: usize = 1;
        while i < height
            invariant
                1 <= i <= height,
                height == self.height,
                width == self.width,
                self.width == before.width,
                self.height == before.height,
                self.automata == old(self).automata,
                self.automata is Some,
                rules == self.automata.unwrap()@,
                rules.wf(),
                !rules.is_2d,
                self.cell_states.len() == height,
                forall|r: int| 0 <= r < height ==> (#[trigger] self.cell_states[r]).len() == width,
                cells_below(self@.cells, rules.states),
                grown == grown_rows(before.cells, rules),
                before.cells.len() == height,
                forall|r: int| 0 <= r < i ==> (#[trigger] self.cell_states[r])@ == grown[r],
                self.fitness == before.fitness + live_in_rows(grown.subrange(1, i as int)),
                self.fitness <= before.fitness + (i - 1) * width,
                before.fitness + width * height <= usize::MAX,
                self.apoptotic == (before.apoptotic && forall|r: int|
                    1 <= r < i ==> !ends_live(#[trigger] grown[r])),
            decreases height - i,
        {
            let ghost cells_before = self@.cells;
            assert(row_below(self.cell_states[i - 1]@, rules.states)) by {
                assert(self@.cells[i - 1] == self.cell_states[i - 1]@);
            }
            let row = next_generation(&self.cell_states[i - 1], self.automata.as_ref().unwrap());
            assert(row@ == grown[i as int]);
            let live = count_live(row.as_slice());
            proof {
                assert(grown.subrange(1, i + 1).drop_last() =~= grown.subrange(1, i as int));
                assert(grown.subrange(1, i + 1).last() == grown[i as int]);
                assert(i * width <= height * width) by (nonlinear_arith)
                    requires
                        i <= height,
                        0 <= width,
                ;
                assert(i * width == (i - 1) * width + width) by (nonlinear_arith);
                assert(height * width == width * height) by (nonlinear_arith);
            }
            self.fitness = self.fitness + live;
            if row_ends_live(&row) {
                self.apoptotic = false;
            }
            self.cell_states[i] = row;
            proof {
                assert forall|a: int, b: int|
                    0 <= a < self@.cells.len() && 0 <= b < self@.cells[a].len() implies #[trigger] self@.cells[a][b]
                    < rules.states by {
                    if a != i {
                        assert(self@.cells[a] == cells_before[a]);
                        assert(cells_before[a][b] < rules.states);
                    }
                }
            }
            i += 1;
        }
        proof {
            assert(self@.cells =~= grown) by {
                assert forall|r: int| 0 <= r < height implies self@.cells[r] == grown[r] by {
                    assert(self.cell_states[r]@ == grown[r]);
                }
            }
            assert(grown.subrange(1, height as int) == later_rows(grown));
            assert((height - 1) * width <= width * height) by (nonlinear_arith)
                requires
                    0 < height,
                    0 <= width,
            ;
        }
    }

    /// The step of a two-dimensional automaton: the whole grid is
    /// replaced by its next generation.
    fn replace_grid(&mut self)
        requires
            old(self).wf(),
            old(self).automata is Some,
            old(self).automata.unwrap().is_2d,
            old(self).fitness + old(self)@.area() <= usize::MAX,
        ensures
            final(self).wf(),
            final(self)@ == step(old(self)@),
            final(self).fitness <= old(self).fitness + old(self)@.area(),
    {
        let ghost before = self@;
        let ghost rules = before.rules.unwrap();
        let ghost grown = next_grid(before.cells, rules);
        let height = self.height;
        let width = self.width;
        let mut next: Vec<Vec<usize>> = Vec::new();
        let mut j: usize = 0;
        while j < height
            invariant
                j <= height,
                height == self.height,
                width == self.width,
                self.width == old(self).width,
                self.height == old(self).height,
                self.cell_states == old(self).cell_states,
                self.automata == old(self).automata,
                self.apoptotic == old(self).apoptotic,
                before == old(self)@,
                before.wf(),
                self.automata is Some,
                rules == self.automata.unwrap()@,
                rules.is_2d,
                grown == next_grid(before.cells, rules),
                next.len() == j,
                forall|r: int| 0 <= r < j ==> (#[trigger] next[r])@ == grown[r],
                forall|r: int| 0 <= r < j ==> row_below((#[trigger] next[r])@, rules.states),
                self.fitness == before.fitness + live_in_rows(grown.take(j as int)),
                self.fitness <= before.fitness + j * width,
                before.fitness + width * height <= usize::MAX,
            decreases height - j,
        {
            assert(grid_of(self.cell_states@) == before.cells);
            assert forall|i: int| 0 <= i < self.cell_states.len() implies (
            #[trigger] self.cell_states[i]).len() == width by {
                assert(before.cells[i].len() == width);
            }
            let row = next_generation_of_row(
                &self.cell_states,
                j,
                width,
                self.automata.as_ref().unwrap(),
            );
            assert(row@ == grown[j as int]);
            assert(row@.len() == width);
            let live = count_live(row.as_slice());
            proof {
                assert(grown.take(j + 1).drop_last() =~= grown.take(j as int));
                assert(grown.take(j + 1).last() == grown[j as int]);
                assert((j + 1) * width <= height * width) by (nonlinear_arith)
                    requires
                        j + 1 <= height,
                        0 <= width,
                ;
                assert((j + 1) * width == j * width + width) by (nonlinear_arith);
                assert(height * width == width * height) by (nonlinear_arith);
            }
            self.fitness = self.fitness + live;
            next.push(row);
            j += 1;
        }
        self.cell_states = next;
        proof {
            assert(height * width == width * height) by (nonlinear_arith);
            assert(grown.take(height as int) =~= grown);
            assert(self@.cells =~= grown) by {
                assert forall|r: int| 0 <= r < height implies self@.cells[r] == grown[r] by {
                    assert(self.cell_states[r]@ == grown[r]);
                }
            }
            assert forall|a: int, b: int|
                0 <= a < self@.cells.len() && 0 <= b < self@.cells[a].len() implies #[trigger] self@.cells[a][b]
                < rules.states by {
                assert(row_below(self.cell_states[a]@, rules.states));
            }
            assert forall|i: int| 0 <= i < self.cell_states.len() implies (
            #[trigger] self.cell_states[i]).len() == width by {
                assert(self.cell_states[i]@ == grown[i]);
                assert(before.cells[i].len() == width);
            }
        }
        if grid_border_live(&self.cell_states, width) {
            self.apoptotic = false;
        }
    }

    /// The width and height of the block that the seed would occupy on
    /// this board under the rule set, or the reason why it cannot be
    /// placed.
    pub(crate) fn seed_block(&self, automata: &Automata, start_population: &[usize]) -> (r: Result<
        (usize, usize),
        Error,
    >)
        ensures
            match seed_error(self@, automata@, start_population@) {
                Some(e) => r == Err::<(usize, usize), Error>(e),
                None => r is Ok && seed_extent(automata@, start_population@) == (
                    r.unwrap().0 as nat,
                    r.unwrap().1 as nat,
                ),
            },
    {
        let length = start_population.len();
        let mut checked: usize = 0;
        while checked < length
            invariant
                checked <= length,
                length == start_population@.len(),
                forall|i: int| 0 <= i < checked ==> start_population@[i] < automata.num_states,
            decreases length - checked,
        {
            if start_population[checked] >= automata.num_states {
                return Err(Error::SeedStateOutOfRange);
            }
            checked += 1;
        }
        let reach = (automata.neighbourhood_size as usize + 1) / 2;
        if reach > self.height || reach > self.width {
            return Err(Error::RadiusExceedsGrid);
        }
        let (columns, rows): (usize, usize) = if automata.is_2d {
            match square_side(length) {
                None => {
                    return Err(Error::SeedNotSquare);
                },
                Some(side) => (side, side),
            }
        } else {
            (length, 1)
        };
        assert(seed_extent(automata@, start_population@) == (columns as nat, rows as nat));
        if columns > self.width || rows > self.height {
            return Err(Error::SeedTooLarge);
        }
        Ok((columns, rows))
    }

    /// Attaches the rule set and lays the seed over the centre of the
    /// grid.
    ///
    /// The request is refused, and the board left as it was, for the
    /// reason that [`seed_error`] gives; otherwise the board becomes
    /// [`seeded`]. Every cell that is on the grid already must be a state
    /// of the new rule set, as all cells of an unseeded board are, and
    /// the fitness must have room for every seed cell.
    pub fn fill(&mut self, automata: Automata, start_population: &[usize]) -> (r: Result<(), Error>)
        requires
            old(self).wf(),
            automata.wf(),
            cells_below(old(self)@.cells, automata@.states),
            old(self).fitness + start_population@.len() <= usize::MAX,
        ensures
            final(self).wf(),
            match seed_error(old(self)@, automata@, start_population@) {
                Some(e) => r == Err::<(), Error>(e) && *final(self) == *old(self),
                None => r is Ok && final(self)@ == seeded(old(self)@, automata@, start_population@),
            },
    {
        let ghost before = self@;
        let ghost rules = automata@;
        let ghost seed = start_population@;
        let length = start_population.len();
        let (columns, rows) = match self.seed_block(&automata, start_population) {
            Err(e) => {
                return Err(e);
            },
            Ok(block) => block,
        };
        assert(seed_error(before, rules, seed) is None);
        let left = (self.width - columns) / 2;
        let top = if automata.is_2d {
            (self.height - rows) / 2
        } else {
            0
        };
        let live = count_live(start_population);
        self.fitness = self.fitness + live;
        proof {
            assert forall|i: int| 0 <= i < self.cell_states.len() implies (
            #[trigger] self.cell_states[i]).len() == self.width by {
                assert(before.cells[i] == self.cell_states[i]@);
            }
            assert(rows * columns == length) by {
                if !automata.is_2d {
                    assert(1 * columns == columns);
                }
            }
        }
        place_seed(
            &mut self.cell_states,
            start_population,
            top,
            left,
            rows,
            columns,
            Ghost(self.width as nat),
        );
        let ghost cells = seeded_cells(before, rules, seed);
        assert(self@.cells == cells);
        proof {
            assert forall|i: int, j: int|
                0 <= i < cells.len() && 0 <= j < cells[i].len() implies #[trigger] cells[i][j]
                < rules.states by {
                if top <= i < top + rows && left <= j < left + columns {
                    lemma_block_index(i - top, j - left, rows as int, columns as int);
                } else {
                    assert(before.cells[i][j] < rules.states);
                }
            }
            assert forall|i: int| 0 <= i < self.height implies (#[trigger] self@.cells[i]).len()
                == self.width by {
                assert(self@.cells[i] == self.cell_states[i]@);
            }
        }
        let touched = if automata.is_2d {
            grid_border_live(&self.cell_states, self.width)
        } else {
            assert(self@.cells[0] == self.cell_states[0]@);
            row_ends_live(&self.cell_states[0])
        };
        if touched {
            self.apoptotic = false;
        }
        self.automata = Some(automata);
        Ok(())
    }

    /// Whether the pattern on a seeded board has died out.
    fn has_died_out(&self) -> (dead: bool)
        requires
            self.wf(),
            self.automata is Some,
        ensures
            dead == died_out(self@),
    {
        if self.automata.as_ref().unwrap().is_2d {
            let mut i: usize = 0;
            while i < self.cell_states.len()
                invariant
                    self.automata is Some,
                    self.automata.unwrap().is_2d,
                    i <= self.cell_states.len(),
                    forall|r: int| 0 <= r < i ==> row_dead(#[trigger] self@.cells[r]),
                decreases self.cell_states.len() - i,
            {
                assert(self@.cells[i as int] == self.cell_states[i as int]@);
                if !row_is_dead(&self.cell_states[i]) {
                    return false;
                }
                i += 1;
            }
            true
        } else if self.cell_states.len() == 0 {
            true
        } else {
            let last = self.cell_states.len() - 1;
            assert(self@.cells[last as int] == self.cell_states[last as int]@);
            row_is_dead(&self.cell_states[last])
        }
    }

    /// Settles whether the pattern is apoptotic, and says so.
    ///
    /// On an unseeded board nothing happens and the error says so. On a
    /// seeded board the board becomes [`finalized`]: the pattern is
    /// apoptotic if it never touched the border and has died out, and
    /// otherwise the fitness is forfeited.
    pub fn is_apoptotic(&mut self) -> (r: Result<bool, Error>)
        requires
            old(self).wf(),
        ensures
            final(self).wf(),
            old(self).automata is None ==> r == Err::<bool, Error>(Error::MissingAutomata)
                && *final(self) == *old(self),
            old(self).automata is Some ==> final(self)@ == finalized(old(self)@) && r == Ok::<
                bool,
                Error,
            >(finalized(old(self)@).apoptotic),
    {
        if self.automata.is_none() {
            return Err(Error::MissingAutomata);
        }
        if self.apoptotic && self.has_died_out() {
            Ok(true)
        } else {
            self.apoptotic = false;
            self.fitness = 0;
            Ok(false)
        }
    }

    /// Steps the board until `steps` steps are made or one of them leaves
    /// the border touched.
    fn advance_by(&mut self, steps: usize)
        requires
            old(self).wf(),
            old(self).automata is Some,
            old(self).fitness + steps * old(self)@.area() <= usize::MAX,
        ensures
            final(self).wf(),
            final(self).automata is Some,
            final(self)@ == advance(old(self)@, steps as nat),
            final(self).width == old(self).width,
            final(self).height == old(self).height,
    {
        let ghost start = self@;
        let ghost area = self@.area();
        let mut remaining = steps;
        while remaining > 0
            invariant_except_break
                advance(start, steps as nat) == advance(self@, remaining as nat),
                self.fitness + remaining * area <= usize::MAX,
            invariant
                self.wf(),
                self.automata is Some,
                self@.area() == area,
                self.width == old(self).width,
                self.height == old(self).height,
            ensures
                self.wf(),
                self.automata is Some,
                self@ == advance(start, steps as nat),
                self.width == old(self).width,
                self.height == old(self).height,
            decreases remaining,
        {
            proof {
                assert(remaining * area == (remaining - 1) * area + area) by (nonlinear_arith);
                assert(0 <= (remaining - 1) * area) by (nonlinear_arith)
                    requires
                        0 < remaining,
                        0 <= area,
                ;
            }
            let _ = self.next_board();
            if !self.apoptotic {
                break ;
            }
            remaining -= 1;
        }
    }

    /// Seeds the board, runs the automaton and settles whether its
    /// pattern is apoptotic.
    ///
    /// The request is refused, and the board left as it was, for the
    /// reason that [`seed_error`] gives; otherwise the board becomes
    /// [`ran`]. The conditions are those of [`Board::fill`], with room in
    /// the fitness for every cell to come alive in every step as well.
    pub fn run(&mut self, automata: Automata, start_population: &[usize], num_iters: usize) -> (r:
        Result<(), Error>)
        requires
            old(self).wf(),
            automata.wf(),
            cells_below(old(self)@.cells, automata@.states),
            old(self).fitness + start_population@.len() + most_steps(num_iters as nat)
                * old(self)@.area() <= usize::MAX,
        ensures
            final(self).wf(),
            final(self).width == old(self).width,
            final(self).height == old(self).height,
            match seed_error(old(self)@, automata@, start_population@) {
                Some(e) => r == Err::<(), Error>(e) && *final(self) == *old(self),
                None => r is Ok && final(self)@ == ran(
                    old(self)@,
                    automata@,
                    start_population@,
                    num_iters as nat,
                ),
            },
    {
        let ghost area = self@.area();
        let further = if num_iters == 0 {
            0
        } else {
            num_iters - 1
        };
        proof {
            assert(most_steps(num_iters as nat) * area == area + further * area)
                by (nonlinear_arith)
                requires
                    most_steps(num_iters as nat) == 1 + further,
            ;
            assert(0 <= further * area) by (nonlinear_arith)
                requires
                    0 <= further,
                    0 <= area,
            ;
        }
        match self.fill(automata, start_population) {
            Err(e) => {
                return Err(e);
            },
            Ok(()) => {},
        }
        proof {
            lemma_live_cells_bound(start_population@);
        }
        let _ = self.next_board();
        self.advance_by(further);
        let _ = self.is_apoptotic();
        Ok(())
    }

    /// The record of the board, as [`record`] spells it.
    pub fn result(&self) -> (text: String)
        ensures
            text@ == record(self@),
    {
        let mut text = String::new();
        match &self.automata {
            Some(automata) => {
                push_decimals(&mut text, &automata.rule_string);
                text.push(',');
                text.push(' ');
                push_decimal(&mut text, self.fitness);
                assert(text@ =~= record(self@));
            },
            None => {
                text.push('N');
                text.push('o');
                text.push('n');
                text.push('e');
                assert(text@ =~= record(self@));
            },
        }
        text
    }
}

/// Whether a fitness that starts at `start` has room for every cell of a
/// seed of `seed_len` cells, and for every cell of a grid of the given
/// size to come alive in each of `steps` steps.
pub fn fitness_has_room(start: usize, seed_len: usize, steps: usize, width: usize, height: usize) -> (ok:
    bool)
    ensures
        ok == (start + seed_len + steps * (width * height) <= usize::MAX),
{
    let base = match start.checked_add(seed_len) {
        None => {
            assert(0 <= steps * (width * height)) by (nonlinear_arith);
            return false;
        },
        Some(base) => base,
    };
    if steps == 0 {
        assert(steps * (width * height) == 0) by (nonlinear_arith)
            requires
                steps == 0,
        ;
        return true;
    }
    assert(width * height <= steps * (width * height)) by (nonlinear_arith)
        requires
            1 <= steps,
            0 <= width,
            0 <= height,
    ;
    let area = match width.checked_mul(height) {
        None => {
            return false;
        },
        Some(area) => area,
    };
    let cells = match steps.checked_mul(area) {
        None => {
            return false;
        },
        Some(cells) => cells,
    };
    base.checked_add(cells).is_some()
}

/// The states of the boards.
pub open spec fn states_of(boards: Seq<Board>) -> Seq<BoardState> {
    Seq::new(boards.len(), |i: int| boards[i]@)
}

/// The records of the boards, one to a line, as [`records`] spells
/// them.
pub fn render_results(boards: &Vec<Board>) -> (text: String)
    ensures
        text@ == records(states_of(boards@)),
{
    let ghost all = states_of(boards@);
    let mut text = String::new();
    let mut i: usize = 0;
    assert(text@ =~= records(all.take(0)));
    while i < boards.len()
        invariant
            i <= boards.len(),
            all == states_of(boards@),
            text@ == records(all.take(i as int)),
        decreases boards.len() - i,
    {
        let line = boards[i].result();
        text.push_str(line.as_str());
        text.push('\n');
        proof {
            assert(all.take(i + 1).drop_last() =~= all.take(i as int));
            assert(all.take(i + 1).last() == boards[i as int]@);
            assert(text@ =~= records(all.take(i + 1)));
        }
        i += 1;
    }
    assert(all.take(boards.len() as int) =~= all);
    text
}

/// A new board of the given size, seeded, run and finalised as [`raised`]
/// says.
fn raise_board(
    automata: Automata,
    width: usize,
    height: usize,
    num_iters: usize,
    start_population: &[usize],
) -> (r: Result<Board, Error>)
    requires
        automata.wf(),
        start_population@.len() + num_iters * (width * height) <= usize::MAX,
    ensures
        match seed_error(blank(width as nat, height as nat), automata@, start_population@) {
            Some(e) => r == Err::<Board, Error>(e),
            None => r is Ok && r.unwrap().wf() && r.unwrap()@ == raised(
                blank(width as nat, height as nat),
                automata@,
                start_population@,
                num_iters as nat,
            ) && r.unwrap().width == width && r.unwrap().height == height,
        },
{
    let mut board = Board::initialise(width, height);
    proof {
        lemma_live_cells_bound(start_population@);
        assert(0 <= num_iters * (width * height)) by (nonlinear_arith)
            requires
                0 <= num_iters,
                0 <= width,
                0 <= height,
        ;
    }
    match board.fill(automata, start_population) {
        Err(e) => {
            return Err(e);
        },
        Ok(()) => {},
    }
    board.advance_by(num_iters);
    let _ = board.is_apoptotic();
    Ok(board)
}

/// One board for each rule set, each seeded on its own unseeded board of
/// the given size, run and finalised as [`raised`] says.
///
/// The boards come in the reverse order of their rule sets. If the seed
/// cannot be placed under one of the rule sets, no board is made, and
/// the error is that of the last such rule set.
pub fn make_boards(
    population: Vec<Automata>,
    width: usize,
    height: usize,
    num_iters: usize,
    start_population: &[usize],
) -> (r: Result<Vec<Board>, Error>)
    requires
        forall|i: int| 0 <= i < population.len() ==> #[trigger] population[i].wf(),
        start_population@.len() + num_iters * (width * height) <= usize::MAX,
    ensures
        match r {
            Ok(boards) => {
                &&& boards.len() == population.len()
                &&& forall|i: int|
                    0 <= i < population.len() ==> #[trigger] seed_error(
                        blank(width as nat, height as nat),
                        population[i]@,
                        start_population@,
                    ) is None
                &&& forall|k: int|
                    0 <= k < boards.len() ==> (#[trigger] boards[k]).wf() && boards[k]@ == raised(
                        blank(width as nat, height as nat),
                        population[population.len() - 1 - k]@,
                        start_population@,
                        num_iters as nat,
                    ) && boards[k].width == width && boards[k].height == height
            },
            Err(e) => exists|i: int|
                {
                    &&& 0 <= i < population.len()
                    &&& #[trigger] seed_error(
                        blank(width as nat, height as nat),
                        population[i]@,
                        start_population@,
                    ) == Some(e)
                    &&& forall|j: int|
                        i < j < population.len() ==> #[trigger] seed_error(
                            blank(width as nat, height as nat),
                            population[j]@,
                            start_population@,
                        ) is None
                },
        },
{
    let ghost all = population@;
    let ghost fresh = blank(width as nat, height as nat);
    let ghost seed = start_population@;
    let mut waiting = population;
    let mut boards: Vec<Board> = Vec::new();
    while waiting.len() > 0
        invariant
            all == population@,
            waiting.len() <= all.len(),
            waiting@ == all.take(waiting.len() as int),
            forall|i: int| 0 <= i < all.len() ==> #[trigger] all[i].wf(),
            fresh == blank(width as nat, height as nat),
            seed == start_population@,
            seed.len() + num_iters * (width * height) <= usize::MAX,
            boards.len() == all.len() - waiting.len(),
            forall|i: int|
                waiting.len() <= i < all.len() ==> #[trigger] seed_error(fresh, all[i]@, seed)
                    is None,
            forall|k: int|
                0 <= k < boards.len() ==> (#[trigger] boards[k]).wf() && boards[k]@ == raised(
                    fresh,
                    all[all.len() - 1 - k]@,
                    seed,
                    num_iters as nat,
                ) && boards[k].width == width && boards[k].height == height,
        decreases waiting.len(),
    {
        let ghost position = waiting.len() - 1;
        let automata = waiting.pop().unwrap();
        assert(automata == all[position]);
        assert(all[position].wf());
        assert(waiting@ =~= all.take(waiting.len() as int));
        match raise_board(automata, width, height, num_iters, start_population) {
            Err(e) => {
                assert(seed_error(fresh, all[position]@, seed) == Some(e));
                return Err(e);
            },
            Ok(board) => {
                boards.push(board);
            },
        }
    }
    Ok(boards)
}

} // verus!
