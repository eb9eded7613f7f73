use polytile::geometry::{get_all_orientations, Location, Orientation};

fn orient_pair(c: (i8, i8), o: Orientation) -> (i8, i8) {
    let l = Location { x: c.0, y: c.1 }.orient(o);
    (l.x, l.y)
}

#[test]
fn test_orient_all_eight_maps() {
    let c = (1i8, 2i8);
    assert_eq!((1, 2), orient_pair(c, Orientation::Up(false)));
    assert_eq!((-1, 2), orient_pair(c, Orientation::Up(true)));
    assert_eq!((-2, 1), orient_pair(c, Orientation::Right(false)));
    assert_eq!((2, 1), orient_pair(c, Orientation::Right(true)));
    assert_eq!((-1, -2), orient_pair(c, Orientation::Down(false)));
    assert_eq!((1, -2), orient_pair(c, Orientation::Down(true)));
    assert_eq!((2, -1), orient_pair(c, Orientation::Left(false)));
    assert_eq!((-2, -1), orient_pair(c, Orientation::Left(true)));
}

#[test]
fn test_orbit_of_generic_cell_has_eight_distinct_values() {
    // (1, 2) is off the axes and diagonals, so its orbit is free.
    let mut images: Vec<(i8, i8)> = get_all_orientations()
        .iter()
        .map(|&o| orient_pair((1, 2), o))
        .collect();
    assert_eq!(8, images.len());
    images.sort();
    images.dedup();
    assert_eq!(8, images.len());
}

#[test]
fn test_orbit_closed_under_composition() {
    // Applying any two orientations in sequence lands back in the orbit of
    // the eight orientations: group closure, checked pointwise on a generic
    // cell whose orbit is free.
    let all = get_all_orientations();
    for &o1 in all.iter() {
        for &o2 in all.iter() {
            let mid = orient_pair((1, 2), o1);
            let composed = orient_pair(mid, o2);
            let matches = all
                .iter()
                .filter(|&&o3| orient_pair((1, 2), o3) == composed)
                .count();
            assert_eq!(1, matches);
        }
    }
}

#[test]
fn test_index_round_trip() {
    let l = Location::from_index(8, 21);
    assert_eq!(5, l.x);
    assert_eq!(2, l.y);
    assert_eq!(21, l.to_index(8));
}

#[test]
fn test_translation_and_difference() {
    let a = Location { x: 3, y: -2 };
    let b = Location { x: 1, y: 5 };
    let sum = a.plus(b);
    assert_eq!((4, 3), (sum.x, sum.y));
    let diff = a.minus(b);
    assert_eq!((2, -7), (diff.x, diff.y));
}

#[test]
fn test_orientation_enumeration_order() {
    let all = get_all_orientations();
    assert_eq!(
        vec![
            Orientation::Up(false),
            Orientation::Up(true),
            Orientation::Right(false),
            Orientation::Right(true),
            Orientation::Down(false),
            Orientation::Down(true),
            Orientation::Left(false),
            Orientation::Left(true),
        ],
        all
    );
}
