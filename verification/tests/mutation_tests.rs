use aca::automata::Automata;
use aca::error::Error;
use aca::mutation::{apply_mutations, crossover, exchange_segments, mutate};

fn line(table: Vec<usize>) -> Automata {
    // five states and a window of one cell: any five entries will do
    Automata { is_2d: false, neighbourhood_size: 0, rule_string: table, num_states: 5 }
}

#[test]
fn run_mutate() {
    let num_states = 5;
    let mut a1d = Automata::new1d(num_states, 3).unwrap();
    let copy_a1d = a1d.clone();
    let max_mutations = 10;
    mutate(&mut a1d, max_mutations).unwrap();
    let mut num_changes = 0;
    for (i, j) in a1d.rule_string.iter().zip(copy_a1d.rule_string.iter()) {
        if i != j {
            num_changes += 1;
        }
        // new value for mutation should not exceed num_states - 1
        assert!(*i < num_states);
        assert!(*j < num_states);
    }
    assert!(num_changes <= max_mutations);
    println!("{}", num_changes);
    println!("{:?}", copy_a1d.rule_string);
    println!("{:?}", a1d.rule_string);
}

#[test]
fn too_many_mutations() {
    let mut a1d = Automata::new1d(5, 3).unwrap();
    let copy_a1d = a1d.clone();
    let max_mutations = 200;
    assert_eq!(mutate(&mut a1d, max_mutations), Err(Error::TooManyMutations));
    assert_eq!(a1d.rule_string, copy_a1d.rule_string);
}

#[test]
fn run_crossover() {
    let mut a1 = Automata::new1d(5, 2).unwrap();
    let mut a2 = Automata::new1d(5, 2).unwrap();
    println!("{:?}", a1.rule_string);
    println!("{:?}", a2.rule_string);
    crossover(&mut a1, &mut a2, 5).unwrap();
    println!("{:?}", a1.rule_string);
    println!("{:?}", a2.rule_string);
}

#[test]
fn mismatched_neighbourhood_sizes() {
    let mut a1 = Automata::new1d(5, 1).unwrap();
    let mut a2 = Automata::new1d(5, 2).unwrap();
    assert_eq!(crossover(&mut a1, &mut a2, 5), Err(Error::RadiusMismatch));
}

#[test]
fn mismatched_num_states() {
    let mut a1 = Automata::new1d(4, 2).unwrap();
    let mut a2 = Automata::new1d(5, 2).unwrap();
    assert_eq!(crossover(&mut a1, &mut a2, 5), Err(Error::StateCountMismatch));
}

#[test]
fn mismatched_automata_types() {
    let mut a1d = Automata::new1d(4, 2).unwrap();
    let mut a2d = Automata::new2d(5, 2).unwrap();
    assert_eq!(crossover(&mut a1d, &mut a2d, 5), Err(Error::DimensionalityMismatch));
}

#[test]
fn as_many_mutations_as_entries_are_allowed() {
    let mut a = Automata::new1d(5, 3).unwrap();
    let length = a.rule_string.len();
    assert_eq!(length, 29);
    assert_eq!(mutate(&mut a, length), Ok(()));
    assert_eq!(mutate(&mut a, length + 1), Err(Error::TooManyMutations));
    assert_eq!(a.rule_string.len(), length);
}

#[test]
fn no_mutation_allowed_changes_nothing() {
    let mut a = Automata::new1d(5, 3).unwrap();
    let before = a.rule_string.clone();
    for _ in 0..20 {
        mutate(&mut a, 0).unwrap();
    }
    assert_eq!(a.rule_string, before);
}

#[test]
fn mutation_changes_no_more_than_allowed() {
    for allowed in 0..6usize {
        for _ in 0..50 {
            let mut a = Automata::new2d(7, 1).unwrap();
            let before = a.clone();
            mutate(&mut a, allowed).unwrap();
            let changes =
                a.rule_string.iter().zip(before.rule_string.iter()).filter(|(x, y)| x != y).count();
            assert!(changes <= allowed);
            assert_eq!(a.rule_string.len(), before.rule_string.len());
            assert!(a.rule_string.iter().all(|s| *s < 7));
            assert_eq!(a.is_2d, before.is_2d);
            assert_eq!(a.neighbourhood_size, before.neighbourhood_size);
            assert_eq!(a.num_states, before.num_states);
        }
    }
}

#[test]
fn mutations_reach_every_part_of_the_table() {
    // one mutation at a time: were the locations not shuffled, only the
    // first entry could ever be chosen, and that one stays dead
    let mut seen = [false; 5];
    for _ in 0..4000 {
        let mut a = line(vec![0, 0, 0, 0, 0]);
        mutate(&mut a, 1).unwrap();
        assert_eq!(a.rule_string[0], 0);
        for (i, s) in a.rule_string.iter().enumerate() {
            if *s != 0 {
                seen[i] = true;
            }
        }
    }
    assert_eq!(seen, [false, true, true, true, true]);
}

#[test]
fn the_first_entry_stays_dead() {
    for _ in 0..500 {
        let mut a = Automata::new1d(5, 1).unwrap();
        let length = a.rule_string.len();
        mutate(&mut a, length).unwrap();
        assert_eq!(a.rule_string[0], 0);
        assert!(a.is_well_formed());
        let mut b = Automata::new2d(3, 1).unwrap();
        mutate(&mut b, 1).unwrap();
        assert_eq!(b.rule_string[0], 0);
    }
}

#[test]
fn the_number_of_mutations_varies() {
    let mut fewest = usize::MAX;
    let mut most = 0;
    for _ in 0..300 {
        let mut a = Automata { is_2d: false, neighbourhood_size: 20, rule_string: vec![0; 165], num_states: 5 };
        mutate(&mut a, 165).unwrap();
        let changes = a.rule_string.iter().filter(|s| **s != 0).count();
        fewest = fewest.min(changes);
        most = most.max(changes);
    }
    assert!(fewest < 40);
    assert!(most > 90);
}

#[test]
fn mutations_are_applied_in_order() {
    let mut a = line(vec![0, 1, 2, 3, 4]);
    apply_mutations(&mut a, &vec![3, 4], &vec![1, 0]);
    assert_eq!(a.rule_string, vec![0, 1, 2, 1, 0]);
    // a value that was there already changes nothing
    apply_mutations(&mut a, &vec![1, 0], &vec![1, 0]);
    assert_eq!(a.rule_string, vec![0, 1, 2, 1, 0]);
    // of two values for one location the later stays
    apply_mutations(&mut a, &vec![2, 2], &vec![0, 3]);
    assert_eq!(a.rule_string, vec![0, 1, 3, 1, 0]);
    apply_mutations(&mut a, &vec![], &vec![]);
    assert_eq!(a.rule_string, vec![0, 1, 3, 1, 0]);
    assert_eq!(a.num_states, 5);
}

#[test]
fn without_cuts_the_children_are_the_parents() {
    let mut a = line(vec![0, 1, 2, 3, 4]);
    let mut b = line(vec![0, 4, 3, 2, 1]);
    exchange_segments(&mut a, &mut b, &vec![]);
    assert_eq!(a.rule_string, vec![0, 1, 2, 3, 4]);
    assert_eq!(b.rule_string, vec![0, 4, 3, 2, 1]);
}

#[test]
fn segments_are_exchanged_in_turn() {
    let mut a = line(vec![0, 1, 2, 3, 4]);
    let mut b = line(vec![0, 4, 3, 2, 1]);
    exchange_segments(&mut a, &mut b, &vec![2]);
    assert_eq!(a.rule_string, vec![0, 1, 3, 2, 1]);
    assert_eq!(b.rule_string, vec![0, 4, 2, 3, 4]);

    let mut a = line(vec![0, 1, 2, 3, 4]);
    let mut b = line(vec![0, 4, 3, 2, 1]);
    exchange_segments(&mut a, &mut b, &vec![1, 3]);
    assert_eq!(a.rule_string, vec![0, 4, 3, 3, 4]);
    assert_eq!(b.rule_string, vec![0, 1, 2, 2, 1]);

    // the order in which the cut points are given is of no account
    let mut a = line(vec![0, 1, 2, 3, 4]);
    let mut b = line(vec![0, 4, 3, 2, 1]);
    exchange_segments(&mut a, &mut b, &vec![3, 1]);
    assert_eq!(a.rule_string, vec![0, 4, 3, 3, 4]);
    assert_eq!(b.rule_string, vec![0, 1, 2, 2, 1]);

    // a cut before the first entry exchanges the tables whole
    let mut a = line(vec![0, 1, 2, 3, 4]);
    let mut b = line(vec![0, 4, 3, 2, 1]);
    exchange_segments(&mut a, &mut b, &vec![0]);
    assert_eq!(a.rule_string, vec![0, 4, 3, 2, 1]);
    assert_eq!(b.rule_string, vec![0, 1, 2, 3, 4]);

    // cut points beyond the table and repeated ones change nothing
    let mut a = line(vec![0, 1, 2, 3, 4]);
    let mut b = line(vec![0, 4, 3, 2, 1]);
    exchange_segments(&mut a, &mut b, &vec![4, 9, 4, 5]);
    assert_eq!(a.rule_string, vec![0, 1, 2, 3, 1]);
    assert_eq!(b.rule_string, vec![0, 4, 3, 2, 4]);
}

#[test]
fn too_many_cuts() {
    let mut a = line(vec![0, 1, 2, 3, 4]);
    let mut b = line(vec![0, 4, 3, 2, 1]);
    assert_eq!(crossover(&mut a, &mut b, 5), Err(Error::TooManyCuts));
    assert_eq!(crossover(&mut a, &mut b, 6), Err(Error::TooManyCuts));
    assert_eq!(a.rule_string, vec![0, 1, 2, 3, 4]);
    assert_eq!(b.rule_string, vec![0, 4, 3, 2, 1]);
    assert_eq!(crossover(&mut a, &mut b, 4), Ok(()));
    // the kind is looked at before the number of cuts
    let mut c = Automata::new1d(5, 1).unwrap();
    assert_eq!(crossover(&mut a, &mut c, 100), Err(Error::RadiusMismatch));
}

#[test]
fn children_take_every_entry_from_a_parent() {
    for _ in 0..200 {
        let mut a = Automata::new2d(6, 1).unwrap();
        let mut b = Automata::new2d(6, 1).unwrap();
        let (pa, pb) = (a.clone(), b.clone());
        crossover(&mut a, &mut b, 10).unwrap();
        assert_eq!(a.rule_string.len(), pa.rule_string.len());
        assert_eq!(b.rule_string.len(), pb.rule_string.len());
        assert_eq!((a.is_2d, a.neighbourhood_size, a.num_states), (true, 1, 6));
        assert_eq!((b.is_2d, b.neighbourhood_size, b.num_states), (true, 1, 6));
        let mut switches = 0;
        let mut swapped = false;
        for i in 0..a.rule_string.len() {
            let kept = a.rule_string[i] == pa.rule_string[i] && b.rule_string[i] == pb.rule_string[i];
            let taken = a.rule_string[i] == pb.rule_string[i] && b.rule_string[i] == pa.rule_string[i];
            assert!(kept || taken);
            if swapped && !taken || !swapped && !kept {
                swapped = !swapped;
                switches += 1;
            }
        }
        assert!(switches <= 10);
    }
}

#[test]
fn no_cut_allowed_leaves_the_parents() {
    let mut a = line(vec![0, 1, 2, 3, 4]);
    let mut b = line(vec![0, 4, 3, 2, 1]);
    for _ in 0..20 {
        crossover(&mut a, &mut b, 0).unwrap();
    }
    assert_eq!(a.rule_string, vec![0, 1, 2, 3, 4]);
    assert_eq!(b.rule_string, vec![0, 4, 3, 2, 1]);
}

#[test]
fn cuts_fall_everywhere() {
    // with one cut at most, the child keeps a prefix of its own table;
    // were the cut points not shuffled, the prefix would always be the
    // same. The dead first entry is the same in both tables, so the
    // prefix is told from the second entry on.
    let mut lengths = [false; 5];
    for _ in 0..4000 {
        let mut a = line(vec![0, 1, 1, 1, 1]);
        let mut b = line(vec![0, 2, 2, 2, 2]);
        crossover(&mut a, &mut b, 1).unwrap();
        assert_eq!((a.rule_string[0], b.rule_string[0]), (0, 0));
        let kept = a.rule_string.iter().skip(1).take_while(|s| **s == 1).count();
        assert!(a.rule_string.iter().skip(1 + kept).all(|s| *s == 2));
        assert!(b.rule_string.iter().skip(1).take(kept).all(|s| *s == 2));
        assert!(b.rule_string.iter().skip(1 + kept).all(|s| *s == 1));
        lengths[kept] = true;
    }
    assert!(lengths.iter().all(|seen| *seen));
}
