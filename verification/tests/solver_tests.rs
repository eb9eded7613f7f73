use polytile::backtracking::{Backtrackable, Solver, SolverOpts};
use polytile::geometry::{Location, Orientation, Placement};
use polytile::piece::{
    make_l_shaped_piece, make_rectangle_piece, make_s_shaped_piece, make_square_piece,
    make_t_shaped_piece,
};
use polytile::puzzle::Puzzle;

#[test]
fn test_solver_opts_default() {
    let opts = SolverOpts::default();
    assert!(!opts.verbose);
    assert!(opts.delay.is_none());
}

#[test]
fn test_square_fills_two_by_two_exactly_once() {
    // A 2-by-2 board with one square piece has exactly one solution.
    let puzzle = Puzzle::new(2, 2, vec![make_square_piece()]);
    let mut solver = Solver::new(SolverOpts::default());
    solver.solve(&puzzle);
    assert_eq!(1, solver.solutions.len());
    assert_eq!("QQ\nQQ\n", solver.solutions[0].render());
}

#[test]
fn test_candidates_anchor_first_empty_cell() {
    let puzzle = Puzzle::new(2, 2, vec![make_square_piece()]);
    let candidates = puzzle.get_next_candidates();
    // Of 4 anchor cells x 8 orientations, exactly those placements survive
    // that drop the whole square inside the board with its anchor on cell 0;
    // all of them fill the board completely.
    assert!(!candidates.is_empty());
    for c in &candidates {
        assert_eq!("QQQQ", c.hash.forwards);
        assert!(c.is_solution());
    }
}

#[test]
fn test_full_board_yields_no_candidates() {
    let mut puzzle = Puzzle::new(2, 2, vec![make_square_piece()]);
    puzzle
        .place_piece(
            Location { x: 0, y: 0 },
            Placement {
                location: Location { x: 0, y: 0 },
                orientation: Orientation::Up(false),
            },
            0,
        )
        .unwrap();
    assert!(puzzle.get_next_candidates().is_empty());
    assert!(puzzle.is_solution());
}

#[test]
fn test_partial_fill_is_no_solution() {
    // A full board alone is not enough: every piece must also be placed.
    let mut puzzle = Puzzle::new(2, 2, vec![make_square_piece(), make_square_piece()]);
    puzzle
        .place_piece(
            Location { x: 0, y: 0 },
            Placement {
                location: Location { x: 0, y: 0 },
                orientation: Orientation::Up(false),
            },
            0,
        )
        .unwrap();
    assert!(puzzle.get_next_empty_space().is_none());
    assert!(!puzzle.is_solution());
}

#[test]
fn test_reinserting_explored_hash_changes_nothing() {
    let mut explored = Solver::<Puzzle>::new(SolverOpts::default()).explored_candidates;
    let mut seen = Puzzle::new(2, 3, vec![make_square_piece()]);
    seen.place_piece(
        Location { x: 0, y: 0 },
        Placement { location: Location { x: 0, y: 0 }, orientation: Orientation::Up(false) },
        0,
    )
    .unwrap();
    let unseen = Puzzle::new(2, 3, vec![make_square_piece()]);

    seen.insert_explorations(&mut explored);
    let seen_before = seen.is_candidate_explored(&explored);
    let unseen_before = unseen.is_candidate_explored(&explored);
    assert!(seen_before);
    assert!(!unseen_before);

    // Re-inserting an already-explored state's hashes is idempotent.
    seen.insert_explorations(&mut explored);
    assert_eq!(seen_before, seen.is_candidate_explored(&explored));
    assert_eq!(unseen_before, unseen.is_candidate_explored(&explored));
}

#[test]
fn test_symmetric_tilings_collapse() {
    // A 2-by-6 board with a square and two bars admits two tilings (square at
    // the left, square at the right); they are vertical mirrors of one
    // another, so only one solution is recorded.
    let pieces = vec![make_square_piece(), make_rectangle_piece(), make_rectangle_piece()];
    let puzzle = Puzzle::new(2, 6, pieces);
    let mut solver = Solver::new(SolverOpts::default());
    solver.solve(&puzzle);
    assert_eq!(1, solver.solutions.len());
}

#[test]
fn test_distinct_solutions_have_unrelated_hashes() {
    // A 2-by-8 board with two squares and two bars admits three tilings; two
    // of them are 180-degree rotations of one another, so two solutions are
    // recorded, and their hashes differ under the symmetry relation.
    let pieces = vec![
        make_square_piece(),
        make_square_piece(),
        make_rectangle_piece(),
        make_rectangle_piece(),
    ];
    let puzzle = Puzzle::new(2, 8, pieces);
    let mut solver = Solver::new(SolverOpts::default());
    solver.solve(&puzzle);
    assert_eq!(2, solver.solutions.len());
    let a = &solver.solutions[0];
    let b = &solver.solutions[1];
    assert!(a.hash != b.hash);
    assert!(b.hash != a.hash);
}

#[test]
fn test_catalogue_first_expansion_anchors_cell_zero() {
    // The documented catalogue: two each of L, T, square, S and bar on an
    // 8-wide, 5-tall board. Every first-level candidate commits exactly one
    // piece and covers the first raster cell.
    let pieces = vec![
        make_l_shaped_piece(),
        make_l_shaped_piece(),
        make_t_shaped_piece(),
        make_t_shaped_piece(),
        make_square_piece(),
        make_square_piece(),
        make_s_shaped_piece(),
        make_s_shaped_piece(),
        make_rectangle_piece(),
        make_rectangle_piece(),
    ];
    let puzzle = Puzzle::new(5, 8, pieces);
    let candidates = puzzle.get_next_candidates();
    assert!(!candidates.is_empty());
    for c in &candidates {
        assert!(c.spaces[0].is_some());
        let placed = c.pieces.iter().filter(|p| p.placement.is_some()).count();
        assert_eq!(1, placed);
    }
}

#[test]
fn test_solving_twice_records_nothing_new() {
    // After the first run the initial board itself is registered as
    // explored, so a second run on the same board prunes at once and
    // changes nothing.
    let puzzle = Puzzle::new(2, 2, vec![make_square_piece()]);
    let mut solver = Solver::new(SolverOpts::default());
    solver.solve(&puzzle);
    assert_eq!(1, solver.solutions.len());
    solver.solve(&puzzle);
    assert_eq!(1, solver.solutions.len());
}

#[test]
fn test_candidates_come_in_catalogue_order() {
    // Candidates are enumerated catalogue-first: every candidate that places
    // the square (piece 0) precedes every candidate that places the bar
    // (piece 1).
    let puzzle = Puzzle::new(4, 4, vec![make_square_piece(), make_rectangle_piece()]);
    let candidates = puzzle.get_next_candidates();
    let placed_piece: Vec<usize> = candidates
        .iter()
        .map(|c| c.pieces.iter().position(|p| p.placement.is_some()).unwrap())
        .collect();
    assert!(placed_piece.contains(&0));
    assert!(placed_piece.contains(&1));
    let mut sorted = placed_piece.clone();
    sorted.sort();
    assert_eq!(sorted, placed_piece);
}
