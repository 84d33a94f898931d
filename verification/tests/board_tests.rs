use aca::automata::Automata;
use aca::board::{fitness_has_room, make_boards, render_results, Board};
use aca::error::Error;
use aca::population::make_2d_population;
use aca::tournament::tournament;

fn growing() -> Automata {
    Automata { is_2d: false, neighbourhood_size: 1, rule_string: vec![0, 1, 2, 2, 0, 0, 1], num_states: 3 }
}

fn dying() -> Automata {
    Automata { is_2d: false, neighbourhood_size: 1, rule_string: vec![0, 0, 0, 0, 1, 0, 0], num_states: 3 }
}

#[test]
#[allow(non_snake_case)]
fn example_2D() {
    let num_mevs = 10;
    let population_size = 10;
    let num_states = 10;
    let tournament_size = 7;
    let neighbourhood_size = 1;
    let width = 51;
    let height = 51;
    let num_iters = 50;
    let start_population = [0, 1, 0, 1, 2, 1, 0, 1, 0];
    let max_cuts = 5;
    let max_mutations = 15;

    let automata = make_2d_population(population_size, num_states, neighbourhood_size).unwrap();
    let mut boards = make_boards(automata, width, height, num_iters, &start_population).unwrap();
    assert_eq!(boards.len(), population_size);

    for i in 0..num_mevs {
        println!("mev: {}", i);
        tournament(tournament_size, &mut boards, max_cuts, max_mutations, &start_population, num_iters)
            .unwrap();
    }

    let results = render_results(&boards);
    assert_eq!(results.lines().count(), population_size);
    for line in results.lines() {
        assert!(line.contains(", "));
    }
}

#[test]
fn incorrect_num_states() {
    let a1d = Automata::new1d(5, 2).unwrap();
    let mut board = Board::initialise(100, 100);
    let r = board.fill(a1d, &[5, 2, 1]);
    assert_eq!(r, Err(Error::SeedStateOutOfRange));
    assert!(board.automata.is_none());
    assert_eq!(board.cell_states, vec![vec![0; 100]; 100]);
}

#[test]
fn empty_board() {
    let a2d = Automata::new2d(5, 3).unwrap();
    let mut board = Board::initialise(100, 100);
    assert_eq!(board.cell_states, vec![vec![0; 100]; 100]);
    board.fill(a2d, &[0, 0, 0, 0]).unwrap();
    assert_eq!(board.cell_states, vec![vec![0; 100]; 100]);
}

#[test]
fn make1d() {
    let a1d = Automata {
        is_2d: false,
        neighbourhood_size: 1,
        rule_string: vec![0, 1, 2, 2, 0, 0, 1],
        num_states: 3,
    };
    let mut board = Board::initialise(5, 3);
    board.fill(a1d, &[1, 2, 1]).unwrap();
    assert_eq!(
        board.cell_states,
        vec![vec![0, 1, 2, 1, 0], vec![0, 0, 0, 0, 0], vec![0, 0, 0, 0, 0],]
    );
    board.next_board().unwrap();
    assert_eq!(
        board.cell_states,
        vec![vec![0, 1, 2, 1, 0], vec![1, 2, 0, 2, 1], vec![0, 2, 0, 2, 0],]
    );
    board.is_apoptotic().unwrap();
    assert_eq!(board.fitness, 0);
    assert_eq!(board.apoptotic, false);
}

#[test]
fn make1d_apoptotic() {
    let a1d = Automata {
        is_2d: false,
        neighbourhood_size: 1,
        rule_string: vec![0, 0, 0, 0, 1, 0, 0],
        num_states: 3,
    };
    let mut board = Board::initialise(5, 3);
    board.fill(a1d, &[1, 2, 1]).unwrap();
    board.next_board().unwrap();
    assert_eq!(
        board.cell_states,
        vec![vec![0, 1, 2, 1, 0], vec![0, 0, 1, 0, 0], vec![0, 0, 0, 0, 0],]
    );
    assert_eq!(board.fitness, 4);
    assert_eq!(board.apoptotic, true);
}

#[test]
fn make_2d() {
    let a2d = Automata {
        is_2d: true,
        neighbourhood_size: 2,
        // 51 states
        rule_string: vec![
            0, 1, 1, 2, 2, 0, 0, 0, 1, 0, 2, 0, 1, 1, 2, 2, 0, 0, 0, 1, 2, 0, 0, 0, 1, 0, 0, 0,
            1, 0, 2, 0, 1, 1, 2, 2, 0, 0, 0, 1, 2, 0, 0, 0, 1, 0, 0, 0, 1, 0, 0,
        ],
        num_states: 3,
    };
    let mut board = Board::initialise(7, 7);
    board.fill(a2d, &[1, 2, 0, 1]).unwrap();
    assert_eq!(
        board.cell_states,
        vec![
            vec![0, 0, 0, 0, 0, 0, 0],
            vec![0, 0, 0, 0, 0, 0, 0],
            vec![0, 0, 1, 2, 0, 0, 0],
            vec![0, 0, 0, 1, 0, 0, 0],
            vec![0, 0, 0, 0, 0, 0, 0],
            vec![0, 0, 0, 0, 0, 0, 0],
            vec![0, 0, 0, 0, 0, 0, 0],
        ]
    );
    board.next_board().unwrap();
    assert_eq!(
        board.cell_states,
        vec![
            vec![1, 2, 2, 2, 2, 1, 0],
            vec![1, 2, 2, 2, 2, 2, 0],
            vec![1, 2, 2, 2, 2, 2, 0],
            vec![1, 2, 2, 2, 2, 2, 0],
            vec![1, 2, 2, 2, 2, 2, 0],
            vec![0, 1, 1, 1, 1, 1, 0],
            vec![0, 0, 0, 0, 0, 0, 0],
        ]
    );
    assert_eq!(board.apoptotic, false);
    board.is_apoptotic().unwrap();
    assert_eq!(board.fitness, 0);
}

#[test]
fn test_generic() {
    let a1d = Automata::new1d(3, 1).unwrap();
    println!("{:?}", a1d);

    let mut board = Board::initialise(5, 5);

    board.fill(a1d, &[1, 2, 1]).unwrap();
    board.next_board().unwrap();
    println!("{:?}", board);

    let a2d = Automata::new2d(2, 1).unwrap();
    println!("{:?}", a2d);

    board.empty();
    println!("{:?}", board);

    board.fill(a2d, &[1, 1, 1, 1]).unwrap();
    println!("{:?}", board);
}

#[test]
fn see_result() {
    let mut b = Board::initialise(100, 100);
    let a = Automata::new1d(10, 1).unwrap();
    b.fill(a, &[1, 2, 1]).unwrap();
    b.next_board().unwrap();
    let result = b.result();
    println!("{}", result);
    assert!(result.contains(", "));
}

#[test]
fn initialise_gives_a_blank_board() {
    let board = Board::initialise(4, 2);
    assert_eq!(board.width, 4);
    assert_eq!(board.height, 2);
    assert_eq!(board.cell_states, vec![vec![0; 4]; 2]);
    assert!(board.automata.is_none());
    assert!(board.apoptotic);
    assert_eq!(board.fitness, 0);
}

#[test]
fn empty_resets_everything_but_the_size() {
    let mut board = Board::initialise(5, 3);
    board.fill(growing(), &[1, 2, 1]).unwrap();
    board.next_board().unwrap();
    assert!(!board.apoptotic);
    assert!(board.fitness > 0);
    board.empty();
    assert_eq!(board.width, 5);
    assert_eq!(board.height, 3);
    assert_eq!(board.cell_states, vec![vec![0; 5]; 3]);
    assert!(board.automata.is_none());
    assert!(board.apoptotic);
    assert_eq!(board.fitness, 0);
}

#[test]
fn seed_is_centred_with_the_spare_cell_to_the_right() {
    let mut board = Board::initialise(6, 2);
    board.fill(dying(), &[1, 2, 1]).unwrap();
    // padding (6 - 3) / 2 = 1 to the left, 2 to the right
    assert_eq!(board.cell_states, vec![vec![0, 1, 2, 1, 0, 0], vec![0; 6]]);
    assert_eq!(board.fitness, 3);
    assert!(board.apoptotic);
}

#[test]
fn seed_at_the_end_of_the_row_touches_the_border() {
    let mut board = Board::initialise(3, 2);
    board.fill(dying(), &[1, 0, 0]).unwrap();
    assert_eq!(board.cell_states[0], vec![1, 0, 0]);
    assert_eq!(board.fitness, 1);
    assert!(!board.apoptotic);

    let mut other = Board::initialise(3, 2);
    other.fill(dying(), &[0, 0, 2]).unwrap();
    assert!(!other.apoptotic);

    let mut inner = Board::initialise(3, 2);
    inner.fill(dying(), &[0, 2, 0]).unwrap();
    assert!(inner.apoptotic);
}

#[test]
fn square_seed_is_centred_with_the_spare_cells_below_and_right() {
    let a2d = Automata { is_2d: true, neighbourhood_size: 0, rule_string: vec![0, 1, 2, 3], num_states: 4 };
    let mut board = Board::initialise(5, 6);
    board.fill(a2d, &[1, 2, 3, 0]).unwrap();
    // top (6 - 2) / 2 = 2, left (5 - 2) / 2 = 1
    assert_eq!(
        board.cell_states,
        vec![
            vec![0, 0, 0, 0, 0],
            vec![0, 0, 0, 0, 0],
            vec![0, 1, 2, 0, 0],
            vec![0, 3, 0, 0, 0],
            vec![0, 0, 0, 0, 0],
            vec![0, 0, 0, 0, 0],
        ]
    );
    assert_eq!(board.fitness, 3);
    assert!(board.apoptotic);
}

#[test]
fn square_seed_on_the_border_is_seen() {
    let a2d = Automata { is_2d: true, neighbourhood_size: 0, rule_string: vec![0, 1], num_states: 2 };
    let mut board = Board::initialise(3, 4);
    // a 3 by 3 seed at rows 0..3, whose left column is the border
    board.fill(a2d.clone(), &[0, 0, 0, 1, 0, 0, 0, 0, 0]).unwrap();
    assert!(!board.apoptotic);
    let mut inner = Board::initialise(3, 4);
    // its only live cell lies in row 1, column 1
    inner.fill(a2d.clone(), &[0, 0, 0, 0, 1, 0, 0, 0, 0]).unwrap();
    assert!(inner.apoptotic);
    let mut bottom = Board::initialise(3, 3);
    bottom.fill(a2d, &[0, 0, 0, 0, 0, 0, 0, 1, 0]).unwrap();
    assert!(!bottom.apoptotic);
}

#[test]
fn fill_refuses_what_does_not_fit() {
    // half the radius, rounded up, is more than the height
    let wide = Automata::new1d(2, 3).unwrap();
    let mut low = Board::initialise(10, 1);
    assert_eq!(low.fill(wide, &[1]), Err(Error::RadiusExceedsGrid));
    let wide = Automata::new1d(2, 3).unwrap();
    let mut narrow = Board::initialise(1, 10);
    assert_eq!(narrow.fill(wide, &[1]), Err(Error::RadiusExceedsGrid));
    // radius 2 needs one row and one column only
    let fitting = Automata::new1d(2, 2).unwrap();
    let mut small = Board::initialise(1, 1);
    assert_eq!(small.fill(fitting, &[1]), Ok(()));

    let a2d = Automata::new2d(3, 1).unwrap();
    let mut board = Board::initialise(7, 7);
    assert_eq!(board.fill(a2d.clone(), &[1, 2, 1]), Err(Error::SeedNotSquare));
    assert_eq!(board.fill(a2d.clone(), &[1, 2]), Err(Error::SeedNotSquare));
    assert_eq!(board.fill(a2d.clone(), &[0; 8]), Err(Error::SeedNotSquare));
    assert_eq!(board.fill(a2d.clone(), &[0; 64]), Err(Error::SeedTooLarge));
    assert_eq!(board.fill(a2d.clone(), &[0; 49]), Ok(()));

    let mut row = Board::initialise(5, 3);
    assert_eq!(row.fill(dying(), &[0; 6]), Err(Error::SeedTooLarge));
    assert_eq!(row.fill(dying(), &[0; 5]), Ok(()));

    // the state check comes first, the radius check second
    let mut tiny = Board::initialise(1, 1);
    let far = Automata::new2d(2, 5).unwrap();
    assert_eq!(tiny.fill(far.clone(), &[2, 0, 0]), Err(Error::SeedStateOutOfRange));
    assert_eq!(tiny.fill(far, &[1, 0, 0]), Err(Error::RadiusExceedsGrid));
    assert!(tiny.automata.is_none());
}

#[test]
fn grids_without_cells_do_no_harm() {
    let still = Automata { is_2d: true, neighbourhood_size: 0, rule_string: vec![0, 1], num_states: 2 };
    let mut board = Board::initialise(0, 0);
    assert_eq!(board.fill(still.clone(), &[]), Ok(()));
    assert_eq!(board.next_board(), Ok(()));
    assert_eq!(board.is_apoptotic(), Ok(true));
    assert_eq!(board.fitness, 0);

    let mut flat = Board::initialise(3, 0);
    assert_eq!(flat.fill(still, &[]), Ok(()));
    assert_eq!(flat.next_board(), Ok(()));
    assert_eq!(flat.is_apoptotic(), Ok(true));

    // a row automaton needs a row for its seed
    let line = Automata { is_2d: false, neighbourhood_size: 0, rule_string: vec![0, 1], num_states: 2 };
    let mut none = Board::initialise(3, 0);
    assert_eq!(none.fill(line.clone(), &[]), Err(Error::SeedTooLarge));
    let mut thin = Board::initialise(0, 2);
    assert_eq!(thin.fill(line, &[]), Ok(()));
    assert_eq!(thin.next_board(), Ok(()));
    assert!(thin.apoptotic);
    assert_eq!(thin.is_apoptotic(), Ok(true));
}

#[test]
fn unseeded_boards_refuse_to_step_and_to_finalise() {
    let mut board = Board::initialise(5, 3);
    assert_eq!(board.next_board(), Err(Error::MissingAutomata));
    assert_eq!(board.is_apoptotic(), Err(Error::MissingAutomata));
    assert!(board.apoptotic);
    assert_eq!(board.fitness, 0);
    assert_eq!(board.cell_states, vec![vec![0; 5]; 3]);
}

#[test]
fn window_wraps_around_a_row_shorter_than_itself() {
    // radius 2 on a ring of 3: each cell sees two cells twice
    let parity = Automata { is_2d: false, neighbourhood_size: 2, rule_string: vec![0, 1, 0, 1, 0, 1], num_states: 2 };
    let mut board = Board::initialise(3, 2);
    board.fill(parity, &[1, 0, 0]).unwrap();
    board.next_board().unwrap();
    // sums 1, 2, 2
    assert_eq!(board.cell_states, vec![vec![1, 0, 0], vec![1, 0, 0]]);
    assert_eq!(board.fitness, 2);

    // radius 4 on a ring of 3: the window goes round three times
    let thrice = Automata {
        is_2d: false,
        neighbourhood_size: 4,
        rule_string: vec![0, 0, 0, 1, 0, 0, 0, 0, 0, 0],
        num_states: 2,
    };
    let mut board = Board::initialise(3, 3);
    board.fill(thrice, &[0, 1, 0]).unwrap();
    board.next_board().unwrap();
    // every sum is 3 in the first generation and 9 in the second
    assert_eq!(board.cell_states, vec![vec![0, 1, 0], vec![1, 1, 1], vec![0, 0, 0]]);
    assert_eq!(board.fitness, 4);
    assert!(!board.apoptotic);
}

#[test]
fn window_wraps_around_a_grid_smaller_than_itself() {
    let mut table = Vec::new();
    for i in 0..37usize {
        table.push(i % 5);
    }
    let sums = Automata { is_2d: true, neighbourhood_size: 1, rule_string: table, num_states: 5 };
    let mut board = Board::initialise(2, 2);
    board.fill(sums, &[1, 0, 0, 0]).unwrap();
    assert_eq!(board.fitness, 1);
    board.next_board().unwrap();
    // the live cell is seen once, twice, twice and four times
    assert_eq!(board.cell_states, vec![vec![1, 2], vec![2, 4]]);
    assert_eq!(board.fitness, 5);
    assert!(!board.apoptotic);
}

#[test]
fn step_in_two_dimensions_reads_the_old_grid_only() {
    // radius 0: every cell is mapped by the table on its own
    let shift = Automata { is_2d: true, neighbourhood_size: 0, rule_string: vec![0, 2, 1], num_states: 3 };
    let mut board = Board::initialise(5, 5);
    board.fill(shift, &[1, 2, 0, 1, 0, 2, 2, 1, 1]).unwrap();
    assert_eq!(board.fitness, 7);
    board.next_board().unwrap();
    assert_eq!(
        board.cell_states,
        vec![
            vec![0, 0, 0, 0, 0],
            vec![0, 2, 1, 0, 0],
            vec![0, 2, 0, 1, 0],
            vec![0, 1, 2, 2, 0],
            vec![0, 0, 0, 0, 0],
        ]
    );
    assert_eq!(board.fitness, 14);
    assert!(board.apoptotic);
    assert_eq!(board.is_apoptotic(), Ok(false));
    assert_eq!(board.fitness, 0);
    assert!(!board.apoptotic);
}

#[test]
fn every_call_in_one_dimension_counts_the_rows_again() {
    let mut board = Board::initialise(5, 3);
    board.fill(dying(), &[1, 2, 1]).unwrap();
    board.next_board().unwrap();
    assert_eq!(board.fitness, 4);
    let grid = board.cell_states.clone();
    board.next_board().unwrap();
    assert_eq!(board.cell_states, grid);
    assert_eq!(board.fitness, 5);
    assert!(board.apoptotic);
}

#[test]
fn two_boards_seeded_alike_stay_alike() {
    let rules = Automata::new2d(4, 1).unwrap();
    let seed = [0, 1, 0, 1, 2, 1, 0, 3, 0];
    let mut first = Board::initialise(9, 9);
    let mut second = Board::initialise(9, 9);
    first.fill(rules.clone(), &seed).unwrap();
    second.fill(rules, &seed).unwrap();
    for _ in 0..6 {
        assert_eq!(first.cell_states, second.cell_states);
        assert_eq!(first.fitness, second.fitness);
        assert_eq!(first.apoptotic, second.apoptotic);
        first.next_board().unwrap();
        second.next_board().unwrap();
    }
    assert_eq!(first.cell_states, second.cell_states);
    assert_eq!(first.fitness, second.fitness);
}

#[test]
fn one_dimension_asks_for_a_dead_last_row_only() {
    let mut board = Board::initialise(5, 3);
    board.fill(dying(), &[0, 1, 0]).unwrap();
    // the live cell of the first row is still there
    assert_eq!(board.cell_states[0], vec![0, 0, 1, 0, 0]);
    assert_eq!(board.is_apoptotic(), Ok(true));
    assert!(board.apoptotic);
    assert_eq!(board.fitness, 1);

    let mut alive = Board {
        width: 3,
        height: 2,
        cell_states: vec![vec![0, 0, 0], vec![0, 1, 0]],
        automata: Some(dying()),
        apoptotic: true,
        fitness: 9,
    };
    assert_eq!(alive.is_apoptotic(), Ok(false));
    assert!(!alive.apoptotic);
    assert_eq!(alive.fitness, 0);
}

#[test]
fn two_dimensions_ask_for_a_dead_grid() {
    let still = Automata { is_2d: true, neighbourhood_size: 1, rule_string: vec![0; 10], num_states: 2 };
    let mut board = Board::initialise(5, 5);
    board.fill(still.clone(), &[1]).unwrap();
    assert!(board.apoptotic);
    assert_eq!(board.is_apoptotic(), Ok(false));
    assert!(!board.apoptotic);
    assert_eq!(board.fitness, 0);

    let mut dead = Board::initialise(5, 5);
    dead.fill(still, &[1]).unwrap();
    dead.next_board().unwrap();
    assert_eq!(dead.is_apoptotic(), Ok(true));
    assert_eq!(dead.fitness, 1);
}

#[test]
fn touching_the_border_forfeits_the_fitness_for_good() {
    let mut board = Board {
        width: 3,
        height: 2,
        cell_states: vec![vec![0, 0, 0], vec![0, 0, 0]],
        automata: Some(dying()),
        apoptotic: false,
        fitness: 12,
    };
    assert_eq!(board.is_apoptotic(), Ok(false));
    assert_eq!(board.fitness, 0);
    assert!(!board.apoptotic);
}

#[test]
fn run_steps_as_often_as_asked() {
    let mut once = Board::initialise(5, 3);
    once.run(dying(), &[1, 2, 1], 1).unwrap();
    assert_eq!(once.fitness, 4);
    assert!(once.apoptotic);
    assert_eq!(
        once.cell_states,
        vec![vec![0, 1, 2, 1, 0], vec![0, 0, 1, 0, 0], vec![0, 0, 0, 0, 0]]
    );

    let mut thrice = Board::initialise(5, 3);
    thrice.run(dying(), &[1, 2, 1], 3).unwrap();
    assert_eq!(thrice.fitness, 6);
    assert!(thrice.apoptotic);

    // the first step is made whatever the number
    let mut never = Board::initialise(5, 3);
    never.run(dying(), &[1, 2, 1], 0).unwrap();
    assert_eq!(never.fitness, 4);
}

#[test]
fn run_stops_at_the_border() {
    let mut board = Board::initialise(5, 3);
    board.run(growing(), &[1, 2, 1], 5).unwrap();
    assert_eq!(
        board.cell_states,
        vec![vec![0, 1, 2, 1, 0], vec![1, 2, 0, 2, 1], vec![0, 2, 0, 2, 0]]
    );
    assert_eq!(board.fitness, 0);
    assert!(!board.apoptotic);
    assert_eq!(board.automata.as_ref().unwrap().rule_string, vec![0, 1, 2, 2, 0, 0, 1]);
}

#[test]
fn run_refuses_like_fill_and_changes_nothing() {
    let mut board = Board::initialise(5, 3);
    assert_eq!(board.run(dying(), &[1, 3, 1], 4), Err(Error::SeedStateOutOfRange));
    assert_eq!(board.run(dying(), &[0; 6], 4), Err(Error::SeedTooLarge));
    assert!(board.automata.is_none());
    assert_eq!(board.fitness, 0);
    assert_eq!(board.cell_states, vec![vec![0; 5]; 3]);
}

#[test]
fn boards_come_in_the_reverse_order_of_their_rules() {
    let boards = make_boards(vec![dying(), growing()], 5, 3, 1, &[1, 2, 1]).unwrap();
    assert_eq!(boards.len(), 2);
    assert_eq!(boards[0].automata.as_ref().unwrap().rule_string, vec![0, 1, 2, 2, 0, 0, 1]);
    assert_eq!(boards[0].fitness, 0);
    assert!(!boards[0].apoptotic);
    assert_eq!(boards[1].automata.as_ref().unwrap().rule_string, vec![0, 0, 0, 0, 1, 0, 0]);
    assert_eq!(boards[1].fitness, 4);
    assert!(boards[1].apoptotic);
    assert_eq!(boards[1].width, 5);
    assert_eq!(boards[1].height, 3);
}

#[test]
fn boards_are_stepped_as_often_as_asked() {
    let none = make_boards(vec![dying()], 5, 3, 0, &[1, 2, 1]).unwrap();
    assert_eq!(none[0].fitness, 3);
    assert_eq!(none[0].cell_states[1], vec![0; 5]);
    let two = make_boards(vec![dying()], 5, 3, 2, &[1, 2, 1]).unwrap();
    assert_eq!(two[0].fitness, 5);
    assert!(make_boards(vec![], 5, 3, 2, &[1, 2, 1]).unwrap().is_empty());
}

#[test]
fn no_board_is_made_if_one_seed_does_not_fit() {
    let two_states = Automata::new1d(2, 1).unwrap();
    let r = make_boards(vec![dying(), two_states, growing()], 5, 3, 1, &[1, 2, 1]);
    assert_eq!(r.err(), Some(Error::SeedStateOutOfRange));
    let flat = Automata::new2d(3, 1).unwrap();
    let r = make_boards(vec![flat, dying()], 5, 3, 1, &[1, 2, 1]);
    assert_eq!(r.err(), Some(Error::SeedNotSquare));
}

#[test]
fn record_is_the_table_and_the_fitness() {
    let mut board = Board::initialise(5, 3);
    assert_eq!(board.result(), "None");
    board.fill(growing(), &[1, 2, 1]).unwrap();
    assert_eq!(board.result(), "0122001, 3");
    board.next_board().unwrap();
    assert_eq!(board.result(), "0122001, 9");
    board.is_apoptotic().unwrap();
    assert_eq!(board.result(), "0122001, 0");
}

#[test]
fn record_spells_numbers_in_full() {
    let many = Automata {
        is_2d: false,
        neighbourhood_size: 0,
        rule_string: vec![0, 10, 11, 1, 2, 3, 4, 5, 6, 7, 8, 9],
        num_states: 12,
    };
    let board = Board {
        width: 1,
        height: 1,
        cell_states: vec![vec![11]],
        automata: Some(many),
        apoptotic: false,
        fitness: 1234567890,
    };
    assert_eq!(board.result(), "01011123456789, 1234567890");
    let top = Board {
        width: 0,
        height: 0,
        cell_states: vec![],
        automata: Some(Automata { is_2d: false, neighbourhood_size: 0, rule_string: vec![0], num_states: 1 }),
        apoptotic: true,
        fitness: usize::MAX,
    };
    assert_eq!(top.result(), format!("0, {}", usize::MAX));
}

#[test]
fn records_come_one_to_a_line() {
    let mut seeded = Board::initialise(5, 3);
    seeded.fill(growing(), &[1, 2, 1]).unwrap();
    let boards = vec![seeded, Board::initialise(2, 2)];
    assert_eq!(render_results(&boards), "0122001, 3\nNone\n");
    assert_eq!(render_results(&Vec::new()), "");
}

#[test]
fn well_formedness_of_boards_is_checked() {
    assert!(Board::initialise(4, 2).is_well_formed());
    assert!(Board::initialise(0, 0).is_well_formed());
    let mut seeded = Board::initialise(5, 3);
    seeded.run(growing(), &[1, 2, 1], 3).unwrap();
    assert!(seeded.is_well_formed());

    let mut short = Board::initialise(4, 2);
    short.cell_states.pop();
    assert!(!short.is_well_formed());
    let mut ragged = Board::initialise(4, 2);
    ragged.cell_states[1].push(0);
    assert!(!ragged.is_well_formed());
    // any state will do on a board without rules
    let mut wild = Board::initialise(4, 2);
    wild.cell_states[1][3] = 7;
    assert!(wild.is_well_formed());
    // but not on one with rules
    let mut strange = Board::initialise(5, 3);
    strange.fill(growing(), &[1, 2, 1]).unwrap();
    strange.cell_states[2][4] = 3;
    assert!(!strange.is_well_formed());
    strange.cell_states[2][4] = 2;
    assert!(strange.is_well_formed());
    strange.automata.as_mut().unwrap().rule_string.pop();
    assert!(!strange.is_well_formed());
}

#[test]
fn room_for_the_fitness_is_told() {
    assert!(fitness_has_room(0, 9, 50, 201, 201));
    assert!(fitness_has_room(usize::MAX, 0, 0, 7, 7));
    assert!(!fitness_has_room(usize::MAX, 1, 0, 7, 7));
    assert!(fitness_has_room(usize::MAX, 0, 5, 0, 7));
    assert!(fitness_has_room(0, 0, 0, usize::MAX, usize::MAX));
    assert!(!fitness_has_room(0, 0, 1, usize::MAX, 2));
    assert!(fitness_has_room(0, 0, 1, usize::MAX, 1));
    assert!(!fitness_has_room(1, 0, 1, usize::MAX, 1));
    assert!(!fitness_has_room(0, 0, 2, usize::MAX / 2 + 1, 1));
    assert!(fitness_has_room(0, 1, 2, usize::MAX / 2, 1));
    assert!(!fitness_has_room(0, 2, 2, usize::MAX / 2, 1));
}
