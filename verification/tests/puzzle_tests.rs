use polytile::geometry::{Location, Orientation, Placement};
use polytile::hashing::PuzzleHash;
use polytile::piece::{
    make_l_shaped_piece, make_rectangle_piece, make_s_shaped_piece, make_square_piece,
    make_t_shaped_piece,
};
use polytile::puzzle::Puzzle;

fn cells_of(piece: &polytile::piece::Piece) -> Vec<(i8, i8)> {
    piece.locations.iter().map(|l| (l.x, l.y)).collect()
}

#[test]
fn test_catalogue_shapes() {
    let l = make_l_shaped_piece();
    assert_eq!('L', l.shape);
    assert_eq!(vec![(0, 0), (0, 1), (0, 2), (1, 2)], cells_of(&l));
    assert!(l.placement.is_none());

    let t = make_t_shaped_piece();
    assert_eq!('T', t.shape);
    assert_eq!(vec![(0, 0), (0, 1), (1, 1), (0, 2)], cells_of(&t));

    let q = make_square_piece();
    assert_eq!('Q', q.shape);
    assert_eq!(vec![(0, 0), (1, 0), (0, 1), (1, 1)], cells_of(&q));

    let s = make_s_shaped_piece();
    assert_eq!('S', s.shape);
    assert_eq!(vec![(0, 0), (0, 1), (1, 1), (1, 2)], cells_of(&s));

    let i = make_rectangle_piece();
    assert_eq!('I', i.shape);
    assert_eq!(vec![(0, 0), (0, 1), (0, 2), (0, 3)], cells_of(&i));
}

#[test]
fn test_occupied_cells_count_and_distinctness() {
    // Any valid placement occupies exactly as many cells as the footprint
    // has, all pairwise distinct.
    let piece = make_l_shaped_piece();
    let placement = Placement {
        location: Location { x: 3, y: 1 },
        orientation: Orientation::Right(true),
    };
    let origin = Location { x: 0, y: 1 };
    let mut occupied: Vec<(i8, i8)> = piece
        .get_potentially_occupied_locations(origin, placement)
        .iter()
        .map(|l| (l.x, l.y))
        .collect();
    assert_eq!(4, occupied.len());
    occupied.sort();
    occupied.dedup();
    assert_eq!(4, occupied.len());
}

#[test]
fn test_potentially_occupied_exact_cells() {
    // Square anchored at its own (0, 0), unrotated, dropped on (2, 1).
    let piece = make_square_piece();
    let placement = Placement {
        location: Location { x: 2, y: 1 },
        orientation: Orientation::Up(false),
    };
    let origin = Location { x: 0, y: 0 };
    let occupied: Vec<(i8, i8)> = piece
        .get_potentially_occupied_locations(origin, placement)
        .iter()
        .map(|l| (l.x, l.y))
        .collect();
    assert_eq!(vec![(2, 1), (3, 1), (2, 2), (3, 2)], occupied);
}

#[test]
fn test_unplaced_piece_occupies_nothing() {
    let piece = make_t_shaped_piece();
    assert!(piece.get_occupied_locations().is_empty());
}

#[test]
fn test_place_piece_commits_cells_and_hash() {
    let mut puzzle = Puzzle::new(2, 2, vec![make_square_piece()]);
    let placement = Placement {
        location: Location { x: 0, y: 0 },
        orientation: Orientation::Up(false),
    };
    let r = puzzle.place_piece(Location { x: 0, y: 0 }, placement, 0);
    assert!(r.is_ok());
    assert_eq!(vec![Some(0), Some(0), Some(0), Some(0)], puzzle.spaces);
    assert_eq!("QQQQ", puzzle.hash.forwards);
    assert!(puzzle.pieces[0].placement.is_some());
    assert_eq!("QQ\nQQ\n", puzzle.render());
}

#[test]
fn test_place_piece_rejects_out_of_bounds_without_mutation() {
    let mut puzzle = Puzzle::new(2, 2, vec![make_l_shaped_piece()]);
    let spaces_before = puzzle.spaces.clone();
    let hash_before = puzzle.hash.forwards.clone();
    // The L piece is three cells tall: it cannot fit a 2-by-2 board.
    let placement = Placement {
        location: Location { x: 0, y: 0 },
        orientation: Orientation::Up(false),
    };
    let r = puzzle.place_piece(Location { x: 0, y: 0 }, placement, 0);
    assert!(r.is_err());
    assert_eq!(spaces_before, puzzle.spaces);
    assert_eq!(hash_before, puzzle.hash.forwards);
    assert!(puzzle.pieces[0].placement.is_none());
}

#[test]
fn test_place_piece_rejects_overlap_without_mutation() {
    let mut puzzle = Puzzle::new(2, 4, vec![make_square_piece(), make_square_piece()]);
    let up = Orientation::Up(false);
    let anchor = Location { x: 0, y: 0 };
    assert!(puzzle
        .place_piece(anchor, Placement { location: Location { x: 0, y: 0 }, orientation: up }, 0)
        .is_ok());
    let spaces_before = puzzle.spaces.clone();
    // The second square overlaps the first by one column.
    let r = puzzle.place_piece(
        anchor,
        Placement { location: Location { x: 1, y: 0 }, orientation: up },
        1,
    );
    assert!(r.is_err());
    assert_eq!(spaces_before, puzzle.spaces);
    // A disjoint target still works.
    let r2 = puzzle.place_piece(
        anchor,
        Placement { location: Location { x: 2, y: 0 }, orientation: up },
        1,
    );
    assert!(r2.is_ok());
    assert_eq!("QQQQ\nQQQQ\n", puzzle.render());
}

#[test]
fn test_get_next_empty_space_scans_raster_order() {
    let mut puzzle = Puzzle::new(2, 4, vec![make_square_piece()]);
    assert_eq!(Some(0), puzzle.get_next_empty_space());
    let up = Orientation::Up(false);
    puzzle
        .place_piece(
            Location { x: 0, y: 0 },
            Placement { location: Location { x: 0, y: 0 }, orientation: up },
            0,
        )
        .unwrap();
    // Cells 0, 1, 4, 5 are taken; the first empty raster index is 2.
    assert_eq!(Some(2), puzzle.get_next_empty_space());
}

#[test]
fn test_hash_transforms_exact() {
    let h = PuzzleHash::new(2, 3, String::from("ab-cd-"));
    assert_eq!("ab-cd-", h.forwards);
    // 180-degree rotation reverses the raster scan.
    assert_eq!("-dc-ba", h.rotated_180);
    // Horizontal mirror swaps the two rows.
    assert_eq!("cd-ab-", h.mirrored_horizontally);
    // Vertical mirror reverses each row.
    assert_eq!("-ba-dc", h.mirrored_vertically);
}

#[test]
fn test_hash_equality_of_mirrored_boards() {
    // The same square placed at the left and at the right of a 2-by-3 board:
    // the two renderings are vertical mirrors of one another, so their hashes
    // are equal under the symmetry relation, in both directions.
    let up = Orientation::Up(false);
    let anchor = Location { x: 0, y: 0 };
    let mut left = Puzzle::new(2, 3, vec![make_square_piece()]);
    left.place_piece(anchor, Placement { location: Location { x: 0, y: 0 }, orientation: up }, 0)
        .unwrap();
    let mut right = Puzzle::new(2, 3, vec![make_square_piece()]);
    right
        .place_piece(anchor, Placement { location: Location { x: 1, y: 0 }, orientation: up }, 0)
        .unwrap();
    assert_eq!("QQ-QQ-", left.hash.forwards);
    assert_eq!("-QQ-QQ", right.hash.forwards);
    assert!(left.hash == right.hash);
    assert!(right.hash == left.hash);
    // A genuinely different board is unrelated.
    let fresh = Puzzle::new(2, 3, vec![make_square_piece()]);
    assert!(fresh.hash != left.hash);
}
