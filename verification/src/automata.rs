//! Rule sets and their random generation.

use vstd::prelude::*;
use crate::error::Error;
use crate::random::random_below;
use crate::simulation::{table_len, window_cells, Rules};

verus! {

/// A totalistic cellular automaton: the table that gives the next state
/// of a cell for each sum of the states in its neighbourhood.
#[derive(Debug)]
pub struct Automata {
    /// The next state for each neighbourhood sum.
    pub rule_string: Vec<usize>,
    /// Whether the automaton lives on a plane rather than a line.
    pub is_2d: bool,
    /// How far the neighbourhood reaches to each side of a cell.
    pub neighbourhood_size: u8,
    /// The number of states a cell can be in; state 0 is dead.
    pub num_states: usize,
}

impl View for Automata {
    type V = Rules;

    open spec fn view(&self) -> Rules {
        Rules {
            table: self.rule_string@,
            is_2d: self.is_2d,
            radius: self.neighbourhood_size as nat,
            states: self.num_states as nat,
        }
    }
}

impl Clone for Automata {
    fn clone(&self) -> (copy: Self)
        ensures
            copy@ == self@,
    {
        Automata {
            rule_string: self.rule_string.clone(),
            is_2d: self.is_2d,
            neighbourhood_size: self.neighbourhood_size,
            num_states: self.num_states,
        }
    }
}

/// `length` random states below `num_states`, the first of them forced to
/// the dead state: dead cells alone do not come to life.
fn make_rules(length: usize, num_states: usize) -> (rules: Vec<usize>)
    requires
        0 < num_states,
    ensures
        rules.len() == length,
        forall|i: int| 0 <= i < length ==> rules[i] < num_states,
        0 < length ==> rules[0] == 0,
{
    let mut rng = rand::thread_rng();
    let mut rules: Vec<usize> = Vec::new();
    let mut i: usize = 0;
    while i < length
        invariant
            0 < num_states,
            i <= length,
            rules.len() == i,
            forall|j: int| 0 <= j < i ==> rules[j] < num_states,
        decreases length - i,
    {
        rules.push(random_below(&mut rng, num_states));
        i += 1;
    }
    if length > 0 {
        rules[0] = 0;
    }
    rules
}

/// The number of cells in a neighbourhood of the given radius.
pub(crate) fn neighbourhood_cells(radius: u8, is_2d: bool) -> (cells: usize)
    ensures
        cells == window_cells(radius as nat, is_2d),
        0 < cells <= 511 * 511,
{
    let side: usize = 2 * (radius as usize) + 1;
    if is_2d {
        assert(side * side <= 511 * 511) by (nonlinear_arith)
            requires
                side <= 511,
        ;
        assert(0 < side * side) by (nonlinear_arith)
            requires
                0 < side,
        ;
        side * side
    } else {
        side
    }
}

/// Whether a rule table for automata of this kind has a length that a
/// table can have: what `new1d` and `new2d` ask of their arguments.
pub fn table_fits(num_states: usize, neighbourhood_size: u8, is_2d: bool) -> (ok: bool)
    ensures
        ok == (0 < num_states ==> table_len(num_states as nat, neighbourhood_size as nat, is_2d)
            <= usize::MAX),
{
    if num_states == 0 {
        return true;
    }
    let cells = neighbourhood_cells(neighbourhood_size, is_2d);
    match (num_states - 1).checked_mul(cells) {
        None => false,
        Some(product) => product < usize::MAX,
    }
}

impl Automata {
    /// The rule table has one entry for every possible neighbourhood sum,
    /// every entry is one of the states, and the first entry is dead.
    pub open spec fn wf(&self) -> bool {
        self@.wf()
    }

    /// Whether the rule set is well formed.
    pub fn is_well_formed(&self) -> (ok: bool)
        ensures
            ok == self.wf(),
    {
        if self.num_states == 0 {
            return false;
        }
        let cells = neighbourhood_cells(self.neighbourhood_size, self.is_2d);
        let length = self.rule_string.len();
        if length == 0 {
            return false;
        }
        // length == (num_states - 1) * cells + 1, without forming the product
        assert(table_len(self@.states, self@.radius, self@.is_2d) == (self.num_states - 1) * cells
            + 1);
        let steps = self.num_states - 1;
        if (length - 1) % cells != 0 || (length - 1) / cells != steps {
            proof {
                if length - 1 == steps * cells {
                    vstd::arithmetic::div_mod::lemma_fundamental_div_mod_converse(
                        (length - 1) as int,
                        cells as int,
                        steps as int,
                        0,
                    );
                }
            }
            return false;
        }
        proof {
            vstd::arithmetic::div_mod::lemma_fundamental_div_mod((length - 1) as int, cells as int);
            assert(cells * steps == steps * cells) by (nonlinear_arith);
        }
        let mut i: usize = 0;
        while i < length
            invariant
                i <= length,
                length == self.rule_string.len(),
                forall|j: int| 0 <= j < i ==> self.rule_string[j] < self.num_states,
            decreases length - i,
        {
            if self.rule_string[i] >= self.num_states {
                return false;
            }
            i += 1;
        }
        self.rule_string[0] == 0
    }

    /// A random one-dimensional rule set.
    ///
    /// The table has `(num_states - 1) * (2 * neighbourhood_size + 1) + 1`
    /// entries, which must be a length that a table can have. Every entry
    /// is drawn from the states, but for the first, which is dead.
    pub fn new1d(num_states: usize, neighbourhood_size: u8) -> (r: Result<Automata, Error>)
        requires
            0 < num_states ==> table_len(num_states as nat, neighbourhood_size as nat, false)
                <= usize::MAX,
        ensures
            num_states == 0 <==> r is Err,
            r is Err ==> r.unwrap_err() == Error::ZeroStates,
            r matches Ok(a) ==> {
                &&& a.wf()
                &&& !a.is_2d
                &&& a.neighbourhood_size == neighbourhood_size
                &&& a.num_states == num_states
                &&& a.rule_string.len() == (num_states - 1) * (2 * neighbourhood_size + 1) + 1
                &&& a.rule_string[0] == 0
            },
    {
        if num_states == 0 {
            return Err(Error::ZeroStates);
        }
        let cells = neighbourhood_cells(neighbourhood_size, false);
        let rule_string_length = (num_states - 1) * cells + 1;
        let rule_string = make_rules(rule_string_length, num_states);
        Ok(Automata { rule_string, is_2d: false, neighbourhood_size, num_states })
    }

    /// A random two-dimensional rule set.
    ///
    /// The table has `(num_states - 1) * (2 * neighbourhood_size + 1)² + 1`
    /// entries, which must be a length that a table can have. Every entry
    /// is drawn from the states, but for the first, which is dead.
    pub fn new2d(num_states: usize, neighbourhood_size: u8) -> (r: Result<Automata, Error>)
        requires
            0 < num_states ==> table_len(num_states as nat, neighbourhood_size as nat, true)
                <= usize::MAX,
        ensures
            num_states == 0 <==> r is Err,
            r is Err ==> r.unwrap_err() == Error::ZeroStates,
            r matches Ok(a) ==> {
                &&& a.wf()
                &&& a.is_2d
                &&& a.neighbourhood_size == neighbourhood_size
                &&& a.num_states == num_states
                &&& a.rule_string.len() == (num_states - 1) * ((2 * neighbourhood_size + 1) * (2
                    * neighbourhood_size + 1)) + 1
                &&& a.rule_string[0] == 0
            },
    {
        if num_states == 0 {
            return Err(Error::ZeroStates);
        }
        let cells = neighbourhood_cells(neighbourhood_size, true);
        let rule_string_length = (num_states - 1) * cells + 1;
        let rule_string = make_rules(rule_string_length, num_states);
        Ok(Automata { rule_string, is_2d: true, neighbourhood_size, num_states })
    }
}

} // verus!
