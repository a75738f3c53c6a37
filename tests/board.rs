use unkodus_lib::board::{BoardError, SudokuBoard};
use unkodus_lib::encode::encode;
use unkodus_lib::grid::{Grid, GridError};
use rand::SeedableRng;
use unkodus_lib::fill::try_digits;
use unkodus_lib::oracle::{check_unique, first_outcome, second_verdict, SatAnswer, Verdict};

fn clue_count(g: &Grid) -> usize {
    g.values().iter().filter(|v| **v != 0).count()
}

fn units_complete(values: &[u8]) -> bool {
    for u in 0..9 {
        let mut row = [false; 10];
        let mut col = [false; 10];
        let mut bx = [false; 10];
        for k in 0..9 {
            row[values[u * 9 + k] as usize] = true;
            col[values[k * 9 + u] as usize] = true;
            let r = (u / 3) * 3 + k / 3;
            let c = (u % 3) * 3 + k % 3;
            bx[values[r * 9 + c] as usize] = true;
        }
        for d in 1..10 {
            if !row[d] || !col[d] || !bx[d] {
                return false;
            }
        }
    }
    true
}

fn generated(seed: u64) -> (Grid, Grid) {
    let mut board = SudokuBoard::new(seed);
    board.generate().expect("generation succeeds")
}

#[test]
fn test_create_board() {
    let board = SudokuBoard::new(0);
    assert_eq!(board.seed(), 0);
    assert_eq!(clue_count(board.puzzle()), 0);
}

#[test]
fn lib_test_create_board() {
    let mut board = SudokuBoard::new(0);
    board.fill_board();
    assert!(board.solution().is_full_solution());
    let cnf = board.board_to_smt();
    assert!(!cnf.is_empty());
    let before = board.puzzle().values();
    let removed = board.remove_pos(0).expect("no solver failure");
    let after = board.puzzle().values();
    if removed {
        assert_ne!(before[0], 0);
        assert_eq!(after[0], 0);
    } else {
        assert_eq!(before, after);
    }
}

fn filled(seed: u64) -> Grid {
    let mut board = SudokuBoard::new(seed);
    board.fill_board();
    assert_eq!(board.puzzle().values(), board.solution().values());
    board.solution().clone()
}

const SEED_SEVEN_SOLUTION: [u8; 81] = [
    6, 4, 8, 2, 7, 3, 5, 1, 9, 3, 1, 9, 8, 4, 5, 7, 6, 2, 5, 7, 2, 9, 6, 1, 8, 4, 3, 2, 6, 5, 4,
    9, 8, 3, 7, 1, 7, 8, 1, 5, 3, 2, 6, 9, 4, 9, 3, 4, 6, 1, 7, 2, 5, 8, 4, 5, 6, 3, 2, 9, 1, 8,
    7, 1, 9, 3, 7, 8, 6, 4, 2, 5, 8, 2, 7, 1, 5, 4, 9, 3, 6,
];

const SEED_SEVEN_PUZZLE: [u8; 81] = [
    0, 0, 0, 0, 7, 3, 0, 0, 0, 0, 0, 0, 8, 4, 0, 0, 0, 0, 0, 0, 2, 0, 0, 0, 8, 0, 0, 0, 0, 5, 0,
    9, 0, 0, 7, 0, 7, 8, 0, 5, 3, 0, 0, 9, 0, 0, 0, 0, 6, 0, 0, 0, 0, 0, 4, 0, 6, 0, 2, 0, 1, 0,
    0, 0, 9, 0, 0, 8, 0, 4, 0, 5, 8, 0, 0, 0, 0, 0, 0, 3, 0,
];

// One generation takes several seconds in a test build, so the grids of
// seed 7 are compared with the ones it is known to give, which also holds
// them equal from one process to the next.
#[test]
fn same_seed_same_grids() {
    let (solution, puzzle) = generated(7);
    assert_eq!(solution.values(), SEED_SEVEN_SOLUTION.to_vec());
    assert_eq!(puzzle.values(), SEED_SEVEN_PUZZLE.to_vec());
    assert_eq!(filled(7).values(), SEED_SEVEN_SOLUTION.to_vec());
}

#[test]
fn same_seed_same_solution() {
    for seed in [0u64, 12345, u64::MAX] {
        assert_eq!(filled(seed).values(), filled(seed).values());
    }
}

#[test]
fn solution_is_full_grid() {
    for seed in [1u64, 2, 3, 1000, u64::MAX] {
        let s = filled(seed);
        let values = s.values();
        assert_eq!(values.len(), 81);
        assert!(values.iter().all(|v| (1..=9).contains(v)));
        assert!(units_complete(&values));
        assert!(s.is_locally_valid());
        assert!(s.is_full_solution());
    }
}

#[test]
fn puzzle_clues_match_solution() {
    let (s, p) = generated(5);
    let sv = s.values();
    for (i, v) in p.values().iter().enumerate() {
        if *v != 0 {
            assert_eq!(*v, sv[i]);
        }
    }
}

#[test]
fn puzzle_is_unique() {
    let (s, p) = generated(9);
    match check_unique(&p) {
        Verdict::Unique(m) => assert_eq!(m.values(), s.values()),
        _ => panic!("puzzle should have one completion"),
    }
}

#[test]
fn puzzle_is_locally_irreducible() {
    let (_, p) = generated(11);
    for pos in 0..81 {
        let mut t = p.clone();
        let (row, col) = (pos / 9, pos % 9);
        if t.get(row, col).unwrap() != 0 {
            t.set(row, col, 0).unwrap();
            assert!(matches!(check_unique(&t), Verdict::NotUnique));
        }
    }
}

#[test]
fn full_grid_round_trip_is_unique() {
    let (s, _) = generated(3);
    match check_unique(&s) {
        Verdict::Unique(m) => assert_eq!(m.values(), s.values()),
        _ => panic!("a full grid is its own one completion"),
    }
}

#[test]
fn seed_zero_scenario() {
    let (s, p) = generated(0);
    assert!(units_complete(&s.values()));
    assert!(clue_count(&p) < 81);
    assert!(matches!(check_unique(&p), Verdict::Unique(_)));
}

#[test]
fn empty_grid_is_not_unique() {
    assert!(matches!(check_unique(&Grid::new()), Verdict::NotUnique));
}

#[test]
fn known_solution_is_unique() {
    let mut g = Grid::new();
    for r in 0..9 {
        for c in 0..9 {
            let v = ((3 * r + r / 3 + c) % 9 + 1) as u8;
            g.set(r, c, v).unwrap();
        }
    }
    assert!(g.is_full_solution());
    match check_unique(&g) {
        Verdict::Unique(m) => assert_eq!(m.values(), g.values()),
        _ => panic!("a full grid is its own one completion"),
    }
}

#[test]
fn conflicting_clues_are_unsolvable() {
    let mut g = Grid::new();
    g.set(0, 0, 5).unwrap();
    g.set(0, 8, 5).unwrap();
    assert!(!g.is_locally_valid());
    assert!(matches!(check_unique(&g), Verdict::Unsolvable));
}

#[test]
fn grid_access_out_of_range() {
    let mut g = Grid::new();
    assert_eq!(g.get(9, 0), Err(GridError::OutOfRange));
    assert_eq!(g.get(0, 9), Err(GridError::OutOfRange));
    assert_eq!(g.set(0, 9, 1), Err(GridError::OutOfRange));
    assert_eq!(g.set(0, 0, 10), Err(GridError::OutOfRange));
    assert_eq!(g.set(8, 8, 9), Ok(()));
    assert_eq!(g.get(8, 8), Ok(9));
    assert_eq!(g.values()[80], 9);
}

#[test]
fn local_validity_spots_box_repeat() {
    let mut g = Grid::new();
    g.set(0, 0, 4).unwrap();
    g.set(1, 1, 4).unwrap();
    assert!(!g.is_locally_valid());
    g.set(1, 1, 3).unwrap();
    assert!(g.is_locally_valid());
    assert!(!g.is_full_solution());
}

#[test]
fn clause_counts() {
    let empty = Grid::new();
    assert_eq!(encode(&empty).len(), 81 + 81 * 36 + 810 * 9);
    let mut one = Grid::new();
    one.set(4, 4, 7).unwrap();
    let cnf = encode(&one);
    assert_eq!(cnf.len(), 81 + 81 * 36 + 810 * 9 + 1);
    assert!(cnf.contains(&vec![40 * 9 + 7]));
}

#[test]
fn remove_pos_edges() {
    let mut board = SudokuBoard::new(4);
    assert_eq!(board.remove_pos(81), Err(BoardError::OutOfRange));
    assert_eq!(board.remove_pos(0), Ok(false));
    board.generate().expect("generation succeeds");
    let p = board.puzzle().values();
    let empty = p.iter().position(|v| *v == 0).expect("some cell was removed");
    assert_eq!(board.remove_pos(empty), Ok(false));
    assert_eq!(board.puzzle().values(), p);
}

#[test]
fn different_seeds_differ() {
    let a = filled(100);
    let b = filled(200);
    assert_ne!(a.values(), b.values());
}

#[test]
fn one_hole_removal_is_kept() {
    let mut board = SudokuBoard::new(21);
    board.fill_board();
    let full = board.solution().values();
    assert_eq!(board.remove_pos(40), Ok(true));
    let after = board.puzzle().values();
    assert_eq!(after[40], 0);
    for i in 0..81 {
        if i != 40 {
            assert_eq!(after[i], full[i]);
        }
    }
    assert_eq!(board.solution().values(), full);
}

fn shifted(offset: usize) -> Grid {
    let mut g = Grid::new();
    for r in 0..9 {
        for c in 0..9 {
            g.set(r, c, ((3 * r + r / 3 + c + offset) % 9 + 1) as u8).unwrap();
        }
    }
    g
}

fn model_of(g: &Grid) -> Vec<i32> {
    let values = g.values();
    (1..=729i32)
        .map(|v| {
            let cell = ((v - 1) / 9) as usize;
            let digit = ((v - 1) % 9 + 1) as u8;
            if values[cell] == digit { v } else { -v }
        })
        .collect()
}

#[test]
fn first_outcome_maps_answers() {
    let empty = Grid::new();
    let full = shifted(0);
    assert!(matches!(first_outcome(&empty, SatAnswer::Unsat), Err(Verdict::Unsolvable)));
    assert!(matches!(first_outcome(&empty, SatAnswer::Failed), Err(Verdict::SolverFailure)));
    match first_outcome(&empty, SatAnswer::Sat(model_of(&full))) {
        Ok(m) => assert_eq!(m.values(), full.values()),
        Err(_) => panic!("a model of a full grid completes the empty grid"),
    }
    let mut clue = Grid::new();
    clue.set(0, 0, 9).unwrap();
    assert!(matches!(
        first_outcome(&clue, SatAnswer::Sat(model_of(&full))),
        Err(Verdict::SolverFailure)
    ));
}

#[test]
fn second_verdict_maps_answers() {
    let empty = Grid::new();
    let first = shifted(0);
    let other = shifted(1);
    match second_verdict(&empty, first.clone(), SatAnswer::Unsat) {
        Verdict::Unique(m) => assert_eq!(m.values(), first.values()),
        _ => panic!("UNSAT on the second solve means one completion"),
    }
    assert!(matches!(
        second_verdict(&empty, first.clone(), SatAnswer::Sat(model_of(&other))),
        Verdict::NotUnique
    ));
    assert!(matches!(
        second_verdict(&empty, first.clone(), SatAnswer::Sat(model_of(&first))),
        Verdict::SolverFailure
    ));
    assert!(matches!(
        second_verdict(&empty, first, SatAnswer::Failed),
        Verdict::SolverFailure
    ));
}

#[test]
fn try_digits_takes_first_workable_digit() {
    let mut rng = rand::rngs::StdRng::seed_from_u64(3);
    let mut g = Grid::new();
    assert!(try_digits(&mut g, 0, &vec![6, 2], &mut rng));
    assert_eq!(g.get(0, 0), Ok(6));
    assert!(g.is_full_solution());
}
