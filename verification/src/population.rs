//! Populations of random rule sets.

use vstd::prelude::*;
use crate::automata::Automata;
use crate::error::Error;
use crate::simulation::table_len;

verus! {

/// The rule set is a well-formed one of the given kind whose first
/// entry is dead.
pub open spec fn is_fresh(automata: Automata, num_states: usize, neighbourhood_size: u8, is_2d: bool) -> bool {
    &&& automata.wf()
    &&& automata.is_2d == is_2d
    &&& automata.neighbourhood_size == neighbourhood_size
    &&& automata.num_states == num_states
    &&& automata.rule_string[0] == 0
}

/// `size` random one-dimensional rule sets.
///
/// A population without members can be had for any number of states;
/// one with members needs a state, and the error says so.
pub fn make_1d_population(size: usize, num_states: usize, neighbourhood_size: u8) -> (r: Result<
    Vec<Automata>,
    Error,
>)
    requires
        0 < num_states ==> table_len(num_states as nat, neighbourhood_size as nat, false)
            <= usize::MAX,
    ensures
        r is Err <==> num_states == 0 && size > 0,
        r is Err ==> r.unwrap_err() == Error::ZeroStates,
        r matches Ok(population) ==> population.len() == size && forall|i: int|
            0 <= i < size ==> is_fresh(#[trigger] population[i], num_states, neighbourhood_size, false),
{
    let mut population: Vec<Automata> = Vec::new();
    while population.len() < size
        invariant
            0 < num_states ==> table_len(num_states as nat, neighbourhood_size as nat, false)
            <= usize::MAX,
            population.len() <= size,
            population.len() > 0 ==> num_states > 0,
            forall|i: int|
                0 <= i < population.len() ==> is_fresh(
                    #[trigger] population[i],
                    num_states,
                    neighbourhood_size,
                    false,
                ),
        decreases size - population.len(),
    {
        match Automata::new1d(num_states, neighbourhood_size) {
            Err(e) => {
                return Err(e);
            },
            Ok(automata) => {
                population.push(automata);
            },
        }
    }
    Ok(population)
}

/// `size` random two-dimensional rule sets.
///
/// A population without members can be had for any number of states;
/// one with members needs a state, and the error says so.
pub fn make_2d_population(size: usize, num_states: usize, neighbourhood_size: u8) -> (r: Result<
    Vec<Automata>,
    Error,
>)
    requires
        0 < num_states ==> table_len(num_states as nat, neighbourhood_size as nat, true)
            <= usize::MAX,
    ensures
        r is Err <==> num_states == 0 && size > 0,
        r is Err ==> r.unwrap_err() == Error::ZeroStates,
        r matches Ok(population) ==> population.len() == size && forall|i: int|
            0 <= i < size ==> is_fresh(#[trigger] population[i], num_states, neighbourhood_size, true),
{
    let mut population: Vec<Automata> = Vec::new();
    while population.len() < size
        invariant
            0 < num_states ==> table_len(num_states as nat, neighbourhood_size as nat, true)
            <= usize::MAX,
            population.len() <= size,
            population.len() > 0 ==> num_states > 0,
            forall|i: int|
                0 <= i < population.len() ==> is_fresh(
                    #[trigger] population[i],
                    num_states,
                    neighbourhood_size,
                    true,
                ),
        decreases size - population.len(),
    {
        match Automata::new2d(num_states, neighbourhood_size) {
            Err(e) => {
                return Err(e);
            },
            Ok(automata) => {
                population.push(automata);
            },
        }
    }
    Ok(population)
}

} // verus!
