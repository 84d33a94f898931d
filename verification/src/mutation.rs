//! The genetic operators: point mutation and crossover by exchange of
//! segments.

use vstd::prelude::*;
use crate::automata::Automata;
use crate::error::Error;
use crate::random::{distinct_below, random_below, sample_positions};
use crate::simulation::Rules;

verus! {

/// The number of positions below `n` at which the two tables differ.
pub open spec fn differing(a: Seq<usize>, b: Seq<usize>, n: nat) -> nat
    decreases n,
{
    if n == 0 {
        0
    } else {
        differing(a, b, (n - 1) as nat) + if a[n - 1] != b[n - 1] {
            1nat
        } else {
            0nat
        }
    }
}

/// The number of entries of the table that are not what they were.
pub open spec fn changed(before: Seq<usize>, after: Seq<usize>) -> nat {
    differing(before, after, before.len())
}

/// The table after the first `count` of the point mutations: one after
/// the other, the entry at each location is replaced by the value that
/// goes with it.
pub open spec fn mutated(table: Seq<usize>, locations: Seq<usize>, values: Seq<usize>, count: nat) -> Seq<
    usize,
>
    decreases count,
{
    if count == 0 {
        table
    } else {
        mutated(table, locations, values, (count - 1) as nat).update(
            locations[count - 1] as int,
            values[count - 1],
        )
    }
}

/// Every value is a state of the rules and goes with a location in
/// their table, and the value for the first entry, if there is one, is
/// the dead state.
pub open spec fn mutations_fit(rules: Rules, locations: Seq<usize>, values: Seq<usize>) -> bool {
    &&& locations.len() == values.len()
    &&& forall|i: int| 0 <= i < locations.len() ==> locations[i] < rules.table.len()
    &&& forall|i: int| 0 <= i < values.len() ==> values[i] < rules.states
    &&& forall|i: int| 0 <= i < locations.len() && locations[i] == 0 ==> values[i] == 0
}

/// Whether the children have changed places at position `i`: they do so
/// at every cut point, so they have if the number of cut points up to
/// and including `i` is odd.
pub open spec fn swapped(cuts: Seq<usize>, i: int) -> bool
    decreases i + 1,
{
    if i < 0 {
        false
    } else {
        swapped(cuts, i - 1) != cuts.contains(i as usize)
    }
}

/// The table of a child: its own parent's entries where the children
/// have not changed places, the other parent's where they have.
pub open spec fn crossed(own: Seq<usize>, other: Seq<usize>, cuts: Seq<usize>) -> Seq<usize> {
    Seq::new(
        own.len(),
        |i: int|
            if swapped(cuts, i) {
                other[i]
            } else {
                own[i]
            },
    )
}

/// Why the two rule sets cannot be crossed with up to `max_cuts` cuts, if
/// they cannot. The checks are made in this order.
pub open spec fn crossover_error(a: Rules, b: Rules, max_cuts: nat) -> Option<Error> {
    if a.is_2d != b.is_2d {
        Some(Error::DimensionalityMismatch)
    } else if a.radius != b.radius {
        Some(Error::RadiusMismatch)
    } else if a.states != b.states {
        Some(Error::StateCountMismatch)
    } else if max_cuts >= a.table.len() {
        Some(Error::TooManyCuts)
    } else {
        None
    }
}

/// The rules after the point mutations.
pub open spec fn mutated_rules(rules: Rules, locations: Seq<usize>, values: Seq<usize>) -> Rules {
    rules.with_table(mutated(rules.table, locations, values, locations.len()))
}

/// The child that has `own` for its own parent.
pub open spec fn crossed_rules(own: Rules, other: Rules, cuts: Seq<usize>) -> Rules {
    own.with_table(crossed(own.table, other.table, cuts))
}

/// `after` is what `mutate` may make of `before`: up to `max_mutations`
/// different locations have been given states of the rules.
pub open spec fn is_mutation(
    before: Rules,
    max_mutations: nat,
    locations: Seq<usize>,
    values: Seq<usize>,
    after: Rules,
) -> bool {
    &&& locations.len() <= max_mutations
    &&& distinct_below(locations, before.table.len())
    &&& mutations_fit(before, locations, values)
    &&& after == mutated_rules(before, locations, values)
}

/// `child_a` and `child_b` are what `crossover` may make of `a` and `b`:
/// the segments between up to `max_cuts` different cut points have been
/// exchanged in turn.
pub open spec fn is_crossing(
    a: Rules,
    b: Rules,
    max_cuts: nat,
    cuts: Seq<usize>,
    child_a: Rules,
    child_b: Rules,
) -> bool {
    &&& cuts.len() <= max_cuts
    &&& distinct_below(cuts, a.table.len())
    &&& child_a == crossed_rules(a, b, cuts)
    &&& child_b == crossed_rules(b, a, cuts)
}

/// One replaced entry makes at most one more entry differ.
pub proof fn lemma_update_differs(before: Seq<usize>, after: Seq<usize>, at: int, value: usize, n: nat)
    requires
        before.len() == after.len(),
        0 <= at < after.len(),
        n <= before.len(),
    ensures
        differing(before, after.update(at, value), n) <= differing(before, after, n) + if at < n {
            1nat
        } else {
            0nat
        },
    decreases n,
{
    if n > 0 {
        lemma_update_differs(before, after, at, value, (n - 1) as nat);
    }
}

/// A table differs from itself nowhere.
pub proof fn lemma_same_differs_nowhere(table: Seq<usize>, n: nat)
    ensures
        differing(table, table, n) == 0,
    decreases n,
{
    if n > 0 {
        lemma_same_differs_nowhere(table, (n - 1) as nat);
    }
}

/// Point mutations keep the length of the table and its entries within
/// the states, and change at most one entry each.
pub proof fn lemma_mutated(rules: Rules, locations: Seq<usize>, values: Seq<usize>, count: nat)
    requires
        rules.wf(),
        mutations_fit(rules, locations, values),
        count <= locations.len(),
    ensures
        mutated(rules.table, locations, values, count).len() == rules.table.len(),
        rules.with_table(mutated(rules.table, locations, values, count)).wf(),
        changed(rules.table, mutated(rules.table, locations, values, count)) <= count,
    decreases count,
{
    if count == 0 {
        lemma_same_differs_nowhere(rules.table, rules.table.len());
    } else {
        lemma_mutated(rules, locations, values, (count - 1) as nat);
        let earlier = mutated(rules.table, locations, values, (count - 1) as nat);
        lemma_update_differs(
            rules.table,
            earlier,
            locations[count - 1] as int,
            values[count - 1],
            rules.table.len(),
        );
        let table = mutated(rules.table, locations, values, count);
        assert forall|i: int| 0 <= i < table.len() implies table[i] < rules.states by {
            if i != locations[count - 1] {
                assert(table[i] == earlier[i]);
            }
        }
    }
}

/// Replaces the entry at each location by the value that goes with it,
/// in the order given.
pub fn apply_mutations(automata: &mut Automata, locations: &Vec<usize>, values: &Vec<usize>)
    requires
        old(automata).wf(),
        mutations_fit(old(automata)@, locations@, values@),
    ensures
        final(automata).wf(),
        final(automata)@ == old(automata)@.with_table(
            mutated(old(automata)@.table, locations@, values@, locations@.len()),
        ),
        changed(old(automata)@.table, final(automata)@.table) <= locations@.len(),
{
    let ghost before = automata@;
    let mut i: usize = 0;
    while i < locations.len()
        invariant
            i <= locations.len(),
            before.wf(),
            mutations_fit(before, locations@, values@),
            automata@ == before.with_table(mutated(before.table, locations@, values@, i as nat)),
        decreases locations.len() - i,
    {
        proof {
            lemma_mutated(before, locations@, values@, i as nat);
        }
        automata.rule_string[locations[i]] = values[i];
        i += 1;
    }
    proof {
        lemma_mutated(before, locations@, values@, locations@.len());
    }
}

/// Replaces up to `max_mutations` entries of the rule table by random
/// states.
///
/// The request is refused, and the rule set left as it was, if more
/// mutations are allowed than the table has entries. Otherwise a number
/// of mutations up to `max_mutations` is drawn, that many different
/// locations are drawn, and a state is drawn for each. A drawn state may
/// be the one that was there, so fewer entries may change than were
/// drawn. The first entry stays dead: where it is among the locations,
/// the dead state is written to it.
pub fn mutate(automata: &mut Automata, max_mutations: usize) -> (r: Result<(), Error>)
    requires
        old(automata).wf(),
    ensures
        final(automata).wf(),
        final(automata)@.table[0] == 0,
        r is Err <==> max_mutations > old(automata)@.table.len(),
        r is Err ==> r == Err::<(), Error>(Error::TooManyMutations) && *final(automata) == *old(automata),
        r is Ok ==> {
            &&& final(automata)@.same_kind(old(automata)@)
            &&& final(automata)@.table.len() == old(automata)@.table.len()
            &&& changed(old(automata)@.table, final(automata)@.table) <= max_mutations
            &&& exists|locations: Seq<usize>, values: Seq<usize>| #[trigger]
                is_mutation(
                    old(automata)@,
                    max_mutations as nat,
                    locations,
                    values,
                    final(automata)@,
                )
        },
{
    let length = automata.rule_string.len();
    if max_mutations > length {
        return Err(Error::TooManyMutations);
    }
    let mut rng = rand::thread_rng();
    let num_mutations = if max_mutations < usize::MAX {
        random_below(&mut rng, max_mutations + 1)
    } else {
        // no table is this long; the bound is one short so that it can be formed
        random_below(&mut rng, max_mutations)
    };
    let locations = sample_positions(&mut rng, length, num_mutations);
    let mut values: Vec<usize> = Vec::new();
    while values.len() < num_mutations
        invariant
            values.len() <= num_mutations,
            num_mutations == locations.len(),
            0 < automata.num_states,
            forall|i: int| 0 <= i < values.len() ==> values[i] < automata.num_states,
            forall|i: int| 0 <= i < values.len() && locations[i] == 0 ==> values[i] == 0,
        decreases num_mutations - values.len(),
    {
        let drawn = random_below(&mut rng, automata.num_states);
        if locations[values.len()] == 0 {
            values.push(0);
        } else {
            values.push(drawn);
        }
    }
    apply_mutations(automata, &locations, &values);
    assert(is_mutation(old(automata)@, max_mutations as nat, locations@, values@, automata@));
    Ok(())
}

/// The table of a child is as long as the tables of its parents, and each
/// of its entries is the entry of one of them.
pub proof fn lemma_crossed(own: Rules, other: Rules, cuts: Seq<usize>)
    requires
        own.wf(),
        other.wf(),
        own.same_kind(other),
    ensures
        own.with_table(crossed(own.table, other.table, cuts)).wf(),
        forall|i: int|
            0 <= i < own.table.len() ==> {
                ||| crossed(own.table, other.table, cuts)[i] == own.table[i] && crossed(
                    other.table,
                    own.table,
                    cuts,
                )[i] == other.table[i]
                ||| crossed(own.table, other.table, cuts)[i] == other.table[i] && crossed(
                    other.table,
                    own.table,
                    cuts,
                )[i] == own.table[i]
            },
{
}

/// Exchanges segments of the two rule tables: up to the first cut point
/// each keeps its own entries, from there to the next each has the
/// other's, and so on in turn. Cut points beyond the table, and
/// repetitions of a cut point, change nothing.
pub fn exchange_segments(automata1: &mut Automata, automata2: &mut Automata, cuts: &Vec<usize>)
    requires
        old(automata1).wf(),
        old(automata2).wf(),
        old(automata1)@.same_kind(old(automata2)@),
    ensures
        final(automata1).wf(),
        final(automata2).wf(),
        final(automata1)@ == old(automata1)@.with_table(
            crossed(old(automata1)@.table, old(automata2)@.table, cuts@),
        ),
        final(automata2)@ == old(automata2)@.with_table(
            crossed(old(automata2)@.table, old(automata1)@.table, cuts@),
        ),
{
    let ghost first = automata1@;
    let ghost second = automata2@;
    let length = automata1.rule_string.len();
    assert(automata2.rule_string.len() == length);
    // which positions are cut points
    let mut is_cut: Vec<bool> = Vec::new();
    while is_cut.len() < length
        invariant
            is_cut.len() <= length,
            forall|p: int| 0 <= p < is_cut.len() ==> !is_cut[p],
        decreases length - is_cut.len(),
    {
        is_cut.push(false);
    }
    let mut c: usize = 0;
    while c < cuts.len()
        invariant
            c <= cuts.len(),
            is_cut.len() == length,
            forall|p: int|
                0 <= p < length ==> (#[trigger] is_cut[p] <==> cuts@.take(c as int).contains(
                    p as usize,
                )),
        decreases cuts.len() - c,
    {
        let ghost seen = cuts@.take(c as int);
        let ghost marks = is_cut@;
        let cut = cuts[c];
        if cut < length {
            is_cut[cut] = true;
        }
        proof {
            let more = cuts@.take(c + 1);
            assert(more =~= seen.push(cut));
            assert forall|p: int| 0 <= p < length implies (#[trigger] is_cut[p] <==> more.contains(
                p as usize,
            )) by {
                assert(marks[p] <==> seen.contains(p as usize));
                if more.contains(p as usize) {
                    let k = choose|k: int| 0 <= k < more.len() && more[k] == p as usize;
                    if k < c {
                        assert(seen[k] == p as usize);
                    }
                } else {
                    if seen.contains(p as usize) {
                        let k = choose|k: int| 0 <= k < seen.len() && seen[k] == p as usize;
                        assert(more[k] == p as usize);
                    }
                    assert(more[c as int] == cut);
                }
            }
        }
        c += 1;
    }
    assert(cuts@.take(cuts.len() as int) =~= cuts@);
    let mut rules1: Vec<usize> = Vec::new();
    let mut rules2: Vec<usize> = Vec::new();
    let mut swap = false;
    let mut i: usize = 0;
    while i < length
        invariant
            i <= length,
            length == automata1.rule_string.len(),
            length == automata2.rule_string.len(),
            automata1@ == first,
            automata2@ == second,
            is_cut.len() == length,
            forall|p: int| 0 <= p < length ==> (#[trigger] is_cut[p] <==> cuts@.contains(p as usize)),
            swap == swapped(cuts@, i - 1),
            rules1.len() == i,
            rules2.len() == i,
            forall|p: int| 0 <= p < i ==> rules1[p] == crossed(first.table, second.table, cuts@)[p],
            forall|p: int| 0 <= p < i ==> rules2[p] == crossed(second.table, first.table, cuts@)[p],
        decreases length - i,
    {
        if is_cut[i] {
            swap = !swap;
        }
        assert(swap == swapped(cuts@, i as int));
        if swap {
            rules1.push(automata2.rule_string[i]);
            rules2.push(automata1.rule_string[i]);
        } else {
            rules1.push(automata1.rule_string[i]);
            rules2.push(automata2.rule_string[i]);
        }
        i += 1;
    }
    automata1.rule_string = rules1;
    automata2.rule_string = rules2;
    proof {
        assert(automata1@.table =~= crossed(first.table, second.table, cuts@));
        assert(automata2@.table =~= crossed(second.table, first.table, cuts@));
        lemma_crossed(first, second, cuts@);
        lemma_crossed(second, first, cuts@);
    }
}

/// Crosses the two rule sets at up to `max_cuts` random cut points.
///
/// The request is refused, and both rule sets left as they were, for
/// the reason that [`crossover_error`] gives. Otherwise a number of cuts
/// up to `max_cuts` is drawn, that many different cut points are drawn,
/// and the segments between them are exchanged in turn, as [`crossed`]
/// says. Each child has, at every position, the entry of one parent, and
/// the other child that of the other.
pub fn crossover(automata1: &mut Automata, automata2: &mut Automata, max_cuts: usize) -> (r: Result<
    (),
    Error,
>)
    requires
        old(automata1).wf(),
        old(automata2).wf(),
    ensures
        final(automata1).wf(),
        final(automata2).wf(),
        match crossover_error(old(automata1)@, old(automata2)@, max_cuts as nat) {
            Some(e) => {
                &&& r == Err::<(), Error>(e)
                &&& *final(automata1) == *old(automata1)
                &&& *final(automata2) == *old(automata2)
            },
            None => {
                &&& r is Ok
                &&& final(automata1)@.same_kind(old(automata1)@)
                &&& final(automata2)@.same_kind(old(automata2)@)
                &&& final(automata1)@.table.len() == old(automata1)@.table.len()
                &&& final(automata2)@.table.len() == old(automata2)@.table.len()
                &&& forall|i: int|
                    0 <= i < old(automata1)@.table.len() ==> {
                        ||| final(automata1)@.table[i] == old(automata1)@.table[i]
                            && final(automata2)@.table[i] == old(automata2)@.table[i]
                        ||| final(automata1)@.table[i] == old(automata2)@.table[i]
                            && final(automata2)@.table[i] == old(automata1)@.table[i]
                    }
                &&& exists|cuts: Seq<usize>| #[trigger]
                    is_crossing(
                        old(automata1)@,
                        old(automata2)@,
                        max_cuts as nat,
                        cuts,
                        final(automata1)@,
                        final(automata2)@,
                    )
            },
        },
{
    if automata1.is_2d != automata2.is_2d {
        return Err(Error::DimensionalityMismatch);
    }
    if automata1.neighbourhood_size != automata2.neighbourhood_size {
        return Err(Error::RadiusMismatch);
    }
    if automata1.num_states != automata2.num_states {
        return Err(Error::StateCountMismatch);
    }
    let length = automata1.rule_string.len();
    if max_cuts >= length {
        return Err(Error::TooManyCuts);
    }
    let mut rng = rand::thread_rng();
    let num_cuts = random_below(&mut rng, max_cuts + 1);
    let cuts = sample_positions(&mut rng, length, num_cuts);
    proof {
        lemma_crossed(automata1@, automata2@, cuts@);
    }
    exchange_segments(automata1, automata2, &cuts);
    assert(is_crossing(
        old(automata1)@,
        old(automata2)@,
        max_cuts as nat,
        cuts@,
        automata1@,
        automata2@,
    ));
    Ok(())
}

} // verus!
