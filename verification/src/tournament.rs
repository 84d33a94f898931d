//! Tournament selection: the fittest two of a random sample breed, and
//! their children take the places of the least fit two.

use vstd::prelude::*;
use crate::automata::Automata;
use crate::board::{fitness_has_room, Board};
use crate::error::Error;
use crate::mutation::{crossed_rules, crossover, is_crossing, is_mutation, mutate, mutated_rules};
use crate::random::{distinct_below, sample_positions};
use crate::simulation::{blank, cells_below, most_steps, ran, seed_error, BoardState, Rules};

verus! {

/// `(first, second)` are the positions of the two largest values of `s`,
/// where among equal values the earlier position wins: `first` is the
/// earliest position of the maximum, and `second` is the earliest position
/// of the maximum of what is left when `first` is taken out.
pub open spec fn is_max_pair(s: Seq<usize>, first: int, second: int) -> bool {
    &&& 0 <= first < s.len()
    &&& 0 <= second < s.len()
    &&& first != second
    &&& forall|j: int| 0 <= j < s.len() ==> s[j] <= s[first]
    &&& forall|j: int| 0 <= j < first ==> s[j] < s[first]
    &&& forall|j: int| 0 <= j < s.len() && j != first ==> s[j] <= s[second]
    &&& forall|j: int| 0 <= j < second && j != first ==> s[j] < s[second]
}

/// `(first, second)` are the positions of the two smallest values of `s`,
/// where among equal values the later position wins: `first` is the
/// latest position of the minimum, and `second` is the latest position of
/// the minimum of what is left when `first` is taken out.
pub open spec fn is_min_pair(s: Seq<usize>, first: int, second: int) -> bool {
    &&& 0 <= first < s.len()
    &&& 0 <= second < s.len()
    &&& first != second
    &&& forall|j: int| 0 <= j < s.len() ==> s[first] <= s[j]
    &&& forall|j: int| first < j < s.len() ==> s[first] < s[j]
    &&& forall|j: int| 0 <= j < s.len() && j != first ==> s[second] <= s[j]
    &&& forall|j: int| second < j < s.len() && j != first ==> s[second] < s[j]
}

/// The maximum pair of the sequence, if it has one.
pub open spec fn max_pair(s: Seq<usize>) -> (int, int) {
    choose|pair: (int, int)| is_max_pair(s, pair.0, pair.1)
}

/// The minimum pair of the sequence, if it has one.
pub open spec fn min_pair(s: Seq<usize>) -> (int, int) {
    choose|pair: (int, int)| is_min_pair(s, pair.0, pair.1)
}

/// The positions of the largest and the second largest value, ties going
/// to the earlier position.
pub fn max_two_indices(s: &Vec<usize>) -> (r: (usize, usize))
    requires
        1 < s.len(),
    ensures
        is_max_pair(s@, r.0 as int, r.1 as int),
        max_pair(s@) == (r.0 as int, r.1 as int),
{
    let mut max1: usize;
    let mut max2: usize;
    if s[0] < s[1] {
        max1 = 1;
        max2 = 0;
    } else {
        max1 = 0;
        max2 = 1;
    }
    let mut i: usize = 2;
    while i < s.len()
        invariant
            2 <= i <= s.len(),
            is_max_pair(s@.take(i as int), max1 as int, max2 as int),
        decreases s.len() - i,
    {
        if s[max1] < s[i] {
            max2 = max1;
            max1 = i;
        } else if s[max2] < s[i] {
            max2 = i;
        }
        i += 1;
    }
    assert(s@.take(s.len() as int) =~= s@);
    proof {
        lemma_max_pair(s@, max1 as int, max2 as int);
    }
    (max1, max2)
}

/// The positions of the smallest and the second smallest value, ties going
/// to the later position.
pub fn min_two_indices(s: &Vec<usize>) -> (r: (usize, usize))
    requires
        1 < s.len(),
    ensures
        is_min_pair(s@, r.0 as int, r.1 as int),
        min_pair(s@) == (r.0 as int, r.1 as int),
{
    let n = s.len();
    let mut min1: usize;
    let mut min2: usize;
    if s[n - 2] < s[n - 1] {
        min1 = n - 2;
        min2 = n - 1;
    } else {
        min1 = n - 1;
        min2 = n - 2;
    }
    let mut i: usize = n - 2;
    while i > 0
        invariant
            n == s.len(),
            i <= n - 2,
            i <= min1 < n,
            i <= min2 < n,
            min1 != min2,
            forall|j: int| i <= j < n ==> s[min1 as int] <= s[j],
            forall|j: int| min1 < j < n ==> s[min1 as int] < s[j],
            forall|j: int| i <= j < n && j != min1 ==> s[min2 as int] <= s[j],
            forall|j: int| min2 < j < n && j != min1 ==> s[min2 as int] < s[j],
        decreases i,
    {
        i -= 1;
        if s[i] < s[min1] {
            min2 = min1;
            min1 = i;
        } else if s[i] < s[min2] {
            min2 = i;
        }
    }
    proof {
        lemma_min_pair(s@, min1 as int, min2 as int);
    }
    (min1, min2)
}

/// Two pairs that both qualify as the maximum pair of one sequence are
/// the same pair: the tie-break leaves no choice.
pub proof fn lemma_max_pair_unique(s: Seq<usize>, a: int, b: int, c: int, d: int)
    requires
        is_max_pair(s, a, b),
        is_max_pair(s, c, d),
    ensures
        a == c,
        b == d,
{
    if a < c {
        assert(s[a] < s[c]);
    } else if c < a {
        assert(s[c] < s[a]);
    }
    if b < d {
        assert(s[b] < s[d]);
        assert(s[d] <= s[b]);
    } else if d < b {
        assert(s[d] < s[b]);
        assert(s[b] <= s[d]);
    }
}

/// Two pairs that both qualify as the minimum pair of one sequence are
/// the same pair.
pub proof fn lemma_min_pair_unique(s: Seq<usize>, a: int, b: int, c: int, d: int)
    requires
        is_min_pair(s, a, b),
        is_min_pair(s, c, d),
    ensures
        a == c,
        b == d,
{
    if a < c {
        assert(s[a] < s[c]);
    } else if c < a {
        assert(s[c] < s[a]);
    }
    if b < d {
        assert(s[b] < s[d]);
        assert(s[d] <= s[b]);
    } else if d < b {
        assert(s[d] < s[b]);
        assert(s[b] <= s[d]);
    }
}

/// A pair that qualifies as the maximum pair is the maximum pair.
pub proof fn lemma_max_pair(s: Seq<usize>, first: int, second: int)
    requires
        is_max_pair(s, first, second),
    ensures
        max_pair(s) == (first, second),
{
    let found = (first, second);
    assert(is_max_pair(s, found.0, found.1));
    let chosen = max_pair(s);
    lemma_max_pair_unique(s, first, second, chosen.0, chosen.1);
}

/// A pair that qualifies as the minimum pair is the minimum pair.
pub proof fn lemma_min_pair(s: Seq<usize>, first: int, second: int)
    requires
        is_min_pair(s, first, second),
    ensures
        min_pair(s) == (first, second),
{
    let found = (first, second);
    assert(is_min_pair(s, found.0, found.1));
    let chosen = min_pair(s);
    lemma_min_pair_unique(s, first, second, chosen.0, chosen.1);
}

/// Where every value is the same and there are at least four of them,
/// the parents come from the front, the replaced come from the back, and
/// no position is both.
pub proof fn lemma_uniform_pairs_disjoint(s: Seq<usize>, max1: int, max2: int, min1: int, min2: int)
    requires
        4 <= s.len(),
        forall|i: int, j: int| 0 <= i < s.len() && 0 <= j < s.len() ==> s[i] == s[j],
        is_max_pair(s, max1, max2),
        is_min_pair(s, min1, min2),
    ensures
        max1 == 0,
        max2 == 1,
        min1 == s.len() - 1,
        min2 == s.len() - 2,
        max1 != min1 && max1 != min2 && max2 != min1 && max2 != min2,
{
    if max1 != 0 {
        assert(s[0] < s[max1]);
    }
    if max2 != 1 {
        assert(s[1] < s[max2]);
    }
    if min1 != s.len() - 1 {
        assert(s[min1] < s[s.len() - 1]);
    }
    if min2 != s.len() - 2 {
        assert(s[min2] < s[s.len() - 2]);
    }
}

/// The fitness of each sampled member of the population.
pub open spec fn fitness_values(population: Seq<Board>, sample: Seq<usize>) -> Seq<usize> {
    Seq::new(sample.len(), |i: int| population[sample[i] as int].fitness)
}

/// The rule sets of the two fittest sampled members, the fittest first.
pub open spec fn parents(population: Seq<Board>, sample: Seq<usize>) -> (
    Option<Automata>,
    Option<Automata>,
) {
    let pair = max_pair(fitness_values(population, sample));
    (population[sample[pair.0] as int].automata, population[sample[pair.1] as int].automata)
}

/// The places in the population of the two least fit sampled members,
/// the least fit first.
pub open spec fn targets(population: Seq<Board>, sample: Seq<usize>) -> (int, int) {
    let pair = min_pair(fitness_values(population, sample));
    (sample[pair.0] as int, sample[pair.1] as int)
}

/// The board after it has been emptied and run anew under the rules.
pub open spec fn rerun(board: BoardState, rules: Rules, seed: Seq<usize>, generations: nat) -> BoardState {
    ran(blank(board.width, board.height), rules, seed, generations)
}

/// The fitness of the board, counted from zero, has room for every seed
/// cell and for every cell to come alive in every step of a run.
pub open spec fn has_room(board: BoardState, seed_len: nat, generations: nat) -> bool {
    seed_len + most_steps(generations) * board.area() <= usize::MAX
}

/// Every board is well formed and has room for a run.
pub open spec fn ready(population: Seq<Board>, seed_len: nat, generations: nat) -> bool {
    forall|i: int|
        0 <= i < population.len() ==> (#[trigger] population[i]).wf() && has_room(
            population[i]@,
            seed_len,
            generations,
        )
}

/// The members at `first` and `second` have been emptied and run anew
/// under the rules `child1` and `child2`, and every other member is as
/// it was.
pub open spec fn replaced(
    before: Seq<Board>,
    after: Seq<Board>,
    first: int,
    second: int,
    child1: Rules,
    child2: Rules,
    seed: Seq<usize>,
    generations: nat,
) -> bool {
    &&& after.len() == before.len()
    &&& 0 <= first < before.len()
    &&& 0 <= second < before.len()
    &&& first != second
    &&& after[first]@ == rerun(before[first]@, child1, seed, generations)
    &&& after[second]@ == rerun(before[second]@, child2, seed, generations)
    &&& forall|i: int| 0 <= i < before.len() && i != first && i != second ==> after[i] == before[i]
}

/// `after` is what one mating event may make of `before`: the rule sets
/// of the two fittest of the sample have been crossed at the cut
/// points, each child has been mutated at its locations, and the two
/// least fit of the sample have been emptied and run anew, the least fit
/// under the first child.
pub open spec fn mating(
    before: Seq<Board>,
    after: Seq<Board>,
    tournament_size: nat,
    max_cuts: nat,
    max_mutations: nat,
    seed: Seq<usize>,
    generations: nat,
    sample: Seq<usize>,
    cuts: Seq<usize>,
    locations1: Seq<usize>,
    values1: Seq<usize>,
    locations2: Seq<usize>,
    values2: Seq<usize>,
) -> bool {
    let (first, second) = parents(before, sample);
    let (least, next) = targets(before, sample);
    let crossed1 = crossed_rules(first.unwrap()@, second.unwrap()@, cuts);
    let crossed2 = crossed_rules(second.unwrap()@, first.unwrap()@, cuts);
    let child1 = mutated_rules(crossed1, locations1, values1);
    let child2 = mutated_rules(crossed2, locations2, values2);
    &&& sample.len() == tournament_size
    &&& distinct_below(sample, before.len())
    &&& first is Some
    &&& second is Some
    &&& is_crossing(first.unwrap()@, second.unwrap()@, max_cuts, cuts, crossed1, crossed2)
    &&& is_mutation(crossed1, max_mutations, locations1, values1, child1)
    &&& is_mutation(crossed2, max_mutations, locations2, values2, child2)
    &&& child1.wf()
    &&& child2.wf()
    &&& replaced(before, after, least, next, child1, child2, seed, generations)
}

/// Whatever is drawn, a mating event on this population goes through:
/// every board has a rule set, all rule sets are of one kind, the
/// numbers of cuts and of mutations allowed suit their tables, and the
/// seed can be placed on every board under every rule set.
pub open spec fn breedable(
    population: Seq<Board>,
    max_cuts: nat,
    max_mutations: nat,
    seed: Seq<usize>,
) -> bool {
    &&& forall|i: int| 0 <= i < population.len() ==> (#[trigger] population[i]).automata is Some
    &&& forall|i: int, j: int|
        0 <= i < population.len() && 0 <= j < population.len() ==> (#[trigger] population[i])@.rules.unwrap().same_kind(
            (#[trigger] population[j])@.rules.unwrap(),
        )
    &&& forall|i: int|
        0 <= i < population.len() ==> max_cuts < (#[trigger] population[i])@.rules.unwrap().table.len()
            && max_mutations <= population[i]@.rules.unwrap().table.len()
    &&& forall|i: int, j: int|
        0 <= i < population.len() && 0 <= j < population.len() ==> seed_error(
            (#[trigger] population[i])@,
            (#[trigger] population[j])@.rules.unwrap(),
            seed,
        ) is None
}

/// Whether the seed can be placed depends on the rules by their kind
/// only, not by their table.
pub proof fn lemma_seed_error_by_kind(board: BoardState, first: Rules, second: Rules, seed: Seq<usize>)
    requires
        first.same_kind(second),
    ensures
        seed_error(board, first, seed) == seed_error(board, second, seed),
{
}

/// Whether every board is well formed and has room for a run: what a
/// mating event asks of the population.
pub fn is_ready(population: &Vec<Board>, seed_len: usize, num_iters: usize) -> (ok: bool)
    ensures
        ok == ready(population@, seed_len as nat, num_iters as nat),
{
    let steps = if num_iters == 0 {
        1
    } else {
        num_iters
    };
    let mut i: usize = 0;
    while i < population.len()
        invariant
            i <= population.len(),
            steps == most_steps(num_iters as nat),
            forall|k: int|
                0 <= k < i ==> (#[trigger] population[k]).wf() && has_room(
                    population[k]@,
                    seed_len as nat,
                    num_iters as nat,
                ),
        decreases population.len() - i,
    {
        let board = &population[i];
        if !board.is_well_formed() || !fitness_has_room(0, seed_len, steps, board.width, board.height) {
            return false;
        }
        i += 1;
    }
    true
}

/// The fitness of each sampled member of the population.
pub fn sampled_fitness(population: &Vec<Board>, sample: &Vec<usize>) -> (values: Vec<usize>)
    requires
        forall|i: int| 0 <= i < sample.len() ==> sample[i] < population.len(),
    ensures
        values@ == fitness_values(population@, sample@),
{
    let mut values: Vec<usize> = Vec::new();
    let mut i: usize = 0;
    while i < sample.len()
        invariant
            i <= sample.len(),
            forall|k: int| 0 <= k < sample.len() ==> sample[k] < population.len(),
            values.len() == i,
            forall|k: int| 0 <= k < i ==> values[k] == population[sample[k] as int].fitness,
        decreases sample.len() - i,
    {
        values.push(population[sample[i]].fitness);
        i += 1;
    }
    assert(values@ =~= fitness_values(population@, sample@));
    values
}

/// Copies of the rule sets of the two fittest sampled members, the
/// fittest first. A board among the two that has no rule set is an
/// error.
pub fn select_parents(population: &Vec<Board>, sample: &Vec<usize>) -> (r: Result<
    (Automata, Automata),
    Error,
>)
    requires
        1 < sample.len(),
        forall|i: int| 0 <= i < sample.len() ==> sample[i] < population.len(),
        forall|i: int| 0 <= i < population.len() ==> (#[trigger] population[i]).wf(),
    ensures
        match parents(population@, sample@) {
            (Some(first), Some(second)) => r is Ok && r.unwrap().0@ == first@ && r.unwrap().1@
                == second@,
            _ => r is Err && r.unwrap_err() == Error::MissingAutomata,
        },
        r matches Ok(pair) ==> pair.0.wf() && pair.1.wf(),
        is_max_pair(
            fitness_values(population@, sample@),
            max_pair(fitness_values(population@, sample@)).0,
            max_pair(fitness_values(population@, sample@)).1,
        ),
{
    let fitness = sampled_fitness(population, sample);
    let (max1, max2) = max_two_indices(&fitness);
    assert(population[sample[max1 as int] as int].wf());
    assert(population[sample[max2 as int] as int].wf());
    let first = match &population[sample[max1]].automata {
        Some(automata) => automata.clone(),
        None => {
            return Err(Error::MissingAutomata);
        },
    };
    let second = match &population[sample[max2]].automata {
        Some(automata) => automata.clone(),
        None => {
            return Err(Error::MissingAutomata);
        },
    };
    Ok((first, second))
}

/// Empties the two least fit sampled members of the population and runs
/// them anew, the least fit under `child1` and the other under `child2`.
///
/// If the seed cannot be placed on one of the two boards under its new
/// rule set, nothing is changed, and the error is the one of the first
/// board that has one.
pub fn replace_least_fit(
    population: &mut Vec<Board>,
    sample: &Vec<usize>,
    child1: Automata,
    child2: Automata,
    start_population: &[usize],
    num_iters: usize,
) -> (r: Result<(), Error>)
    requires
        1 < sample.len(),
        distinct_below(sample@, old(population)@.len()),
        ready(old(population)@, start_population@.len(), num_iters as nat),
        child1.wf(),
        child2.wf(),
    ensures
        ready(final(population)@, start_population@.len(), num_iters as nat),
        final(population)@.len() == old(population)@.len(),
        is_min_pair(
            fitness_values(old(population)@, sample@),
            min_pair(fitness_values(old(population)@, sample@)).0,
            min_pair(fitness_values(old(population)@, sample@)).1,
        ),
        ({
            let (first, second) = targets(old(population)@, sample@);
            let error1 = seed_error(old(population)@[first]@, child1@, start_population@);
            let error2 = seed_error(old(population)@[second]@, child2@, start_population@);
            if error1 is Some {
                r == Err::<(), Error>(error1.unwrap()) && final(population)@ == old(population)@
            } else if error2 is Some {
                r == Err::<(), Error>(error2.unwrap()) && final(population)@ == old(population)@
            } else {
                r is Ok && replaced(
                    old(population)@,
                    final(population)@,
                    first,
                    second,
                    child1@,
                    child2@,
                    start_population@,
                    num_iters as nat,
                )
            }
        }),
{
    let ghost before = population@;
    let ghost seed = start_population@;
    let fitness = sampled_fitness(population, sample);
    let (min1, min2) = min_two_indices(&fitness);
    let first = sample[min1];
    let second = sample[min2];
    assert(first != second);
    assert(before[first as int].wf() && before[second as int].wf());
    match population[first].seed_block(&child1, start_population) {
        Err(e) => {
            return Err(e);
        },
        Ok(_) => {},
    }
    match population[second].seed_block(&child2, start_population) {
        Err(e) => {
            return Err(e);
        },
        Ok(_) => {},
    }
    assert(has_room(before[first as int]@, seed.len(), num_iters as nat));
    assert(has_room(before[second as int]@, seed.len(), num_iters as nat));
    rerun_board(&mut population[first], child1, start_population, num_iters);
    rerun_board(&mut population[second], child2, start_population, num_iters);
    proof {
        assert forall|i: int| 0 <= i < population@.len() implies (#[trigger] population@[i]).wf()
            && has_room(population@[i]@, seed.len(), num_iters as nat) by {
            if i != first && i != second {
                assert(population@[i] == before[i]);
            }
        }
    }
    Ok(())
}

/// Empties the board and runs it anew under the rule set, which is known
/// to take the seed.
fn rerun_board(board: &mut Board, automata: Automata, start_population: &[usize], num_iters: usize)
    requires
        old(board).wf(),
        automata.wf(),
        has_room(old(board)@, start_population@.len(), num_iters as nat),
        seed_error(old(board)@, automata@, start_population@) is None,
    ensures
        final(board).wf(),
        final(board)@ == rerun(old(board)@, automata@, start_population@, num_iters as nat),
        has_room(final(board)@, start_population@.len(), num_iters as nat),
{
    board.empty();
    assert(cells_below(board@.cells, automata@.states));
    assert(seed_error(board@, automata@, start_population@) is None);
    let _ = board.run(automata, start_population, num_iters);
}

/// One mating event.
///
/// `tournament_size` different members of the population are drawn. The
/// two fittest of them are the parents: copies of their rule sets are
/// crossed at up to `max_cuts` cut points, and each child is mutated at
/// up to `max_mutations` locations. The two least fit of the sample are
/// emptied and run anew, one under each child, from the seed and for
/// the number of generations given.
///
/// A sample larger than the population, or one too small to supply two
/// parents, is refused. So is a tournament whose parents lack a rule
/// set or cannot be crossed or mutated as asked, and one whose children
/// do not take the seed on the boards they are meant for. Whenever the
/// request is refused, the population is left as it was. On a
/// population that is [`breedable`], none of this can happen whatever
/// is drawn, and a sample of two members or more that fits the
/// population is never refused.
pub fn tournament(
    tournament_size: usize,
    population: &mut Vec<Board>,
    max_cuts: usize,
    max_mutations: usize,
    start_population: &[usize],
    num_iters: usize,
) -> (r: Result<(), Error>)
    requires
        ready(old(population)@, start_population@.len(), num_iters as nat),
    ensures
        ready(final(population)@, start_population@.len(), num_iters as nat),
        final(population)@.len() == old(population)@.len(),
        tournament_size > old(population)@.len() <==> r == Err::<(), Error>(Error::SampleTooLarge),
        tournament_size <= old(population)@.len() && tournament_size < 2 <==> r == Err::<(), Error>(
            Error::SampleTooSmall,
        ),
        2 <= tournament_size <= old(population)@.len() && breedable(
            old(population)@,
            max_cuts as nat,
            max_mutations as nat,
            start_population@,
        ) ==> r is Ok,
        r is Err ==> final(population)@ == old(population)@,
        r is Ok ==> exists|
            sample: Seq<usize>,
            cuts: Seq<usize>,
            locations1: Seq<usize>,
            values1: Seq<usize>,
            locations2: Seq<usize>,
            values2: Seq<usize>,
        | #[trigger]
            mating(
                old(population)@,
                final(population)@,
                tournament_size as nat,
                max_cuts as nat,
                max_mutations as nat,
                start_population@,
                num_iters as nat,
                sample,
                cuts,
                locations1,
                values1,
                locations2,
                values2,
            ),
{
    if tournament_size > population.len() {
        return Err(Error::SampleTooLarge);
    }
    if tournament_size < 2 {
        return Err(Error::SampleTooSmall);
    }
    let mut rng = rand::thread_rng();
    let sample = sample_positions(&mut rng, population.len(), tournament_size);
    let (mut child1, mut child2) = match select_parents(population, &sample) {
        Err(e) => {
            return Err(e);
        },
        Ok(pair) => pair,
    };
    let ghost parent1 = child1@;
    let ghost parent2 = child2@;
    match crossover(&mut child1, &mut child2, max_cuts) {
        Err(e) => {
            return Err(e);
        },
        Ok(()) => {},
    }
    let ghost crossed1 = child1@;
    let ghost crossed2 = child2@;
    match mutate(&mut child1, max_mutations) {
        Err(e) => {
            return Err(e);
        },
        Ok(()) => {},
    }
    match mutate(&mut child2, max_mutations) {
        Err(e) => {
            return Err(e);
        },
        Ok(()) => {},
    }
    let ghost rules1 = child1@;
    let ghost rules2 = child2@;
    match replace_least_fit(population, &sample, child1, child2, start_population, num_iters) {
        Err(e) => {
            return Err(e);
        },
        Ok(()) => {},
    }
    proof {
        let cuts = choose|cuts: Seq<usize>|
            is_crossing(parent1, parent2, max_cuts as nat, cuts, crossed1, crossed2);
        let (locations1, values1) = choose|locations: Seq<usize>, values: Seq<usize>|
            is_mutation(crossed1, max_mutations as nat, locations, values, rules1);
        let (locations2, values2) = choose|locations: Seq<usize>, values: Seq<usize>|
            is_mutation(crossed2, max_mutations as nat, locations, values, rules2);
        assert(mating(
            old(population)@,
            population@,
            tournament_size as nat,
            max_cuts as nat,
            max_mutations as nat,
            start_population@,
            num_iters as nat,
            sample@,
            cuts,
            locations1,
            values1,
            locations2,
            values2,
        ));
    }
    Ok(())
}

} // verus!
