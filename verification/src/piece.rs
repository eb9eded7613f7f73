//! Pieces: an immutable labelled footprint of relative cells, plus an
//! optional committed placement (the anchor cell chosen inside the footprint
//! and where on the board it was put). The occupied-cell computation re-bases
//! the footprint around the anchor, orients it, and translates it to the
//! target board cell.

use vstd::prelude::*;

use crate::geometry::{oriented, Location, Orientation, Placement};
use crate::geometry::lemma_oriented_injective;

verus! {

/// Whether a mathematical cell fits the executable coordinate type.
pub open spec fn cell_fits_i8(c: (int, int)) -> bool {
    &&& i8::MIN <= c.0 <= i8::MAX
    &&& i8::MIN <= c.1 <= i8::MAX
}

/// The board cell that a footprint cell `c` lands on when the footprint is
/// re-based around `origin`, oriented, and translated to the placement's
/// target cell.
pub open spec fn placed_cell(c: (int, int), origin: (int, int), pl: Placement) -> (int, int) {
    let d = oriented((c.0 - origin.0, c.1 - origin.1), pl.orientation);
    (d.0 + pl.location@.0, d.1 + pl.location@.1)
}

/// The image of a whole footprint under a placement.
pub open spec fn placed_footprint(cells: Seq<(int, int)>, origin: (int, int), pl: Placement) -> Seq<
    (int, int),
> {
    cells.map_values(|c: (int, int)| placed_cell(c, origin, pl))
}

/// The mathematical value of a [`Piece`]: the label, the footprint as
/// integer cells, and the committed placement if any.
#[verifier::ext_equal]
pub ghost struct PieceView {
    pub shape: char,
    pub cells: Seq<(int, int)>,
    pub placement: Option<(Location, Placement)>,
}

impl PieceView {
    /// A piece is well formed when its footprint cells are pairwise distinct.
    pub open spec fn wf(&self) -> bool {
        forall|i: int, j: int| 0 <= i < j < self.cells.len() ==> self.cells[i] != self.cells[j]
    }

    /// The board cells this piece occupies under its committed placement;
    /// empty while the piece is unplaced.
    pub open spec fn occupied(&self) -> Seq<(int, int)> {
        match self.placement {
            None => Seq::<(int, int)>::empty(),
            Some((origin, pl)) => placed_footprint(self.cells, origin@, pl),
        }
    }

    /// Whether this piece's occupied cells include `c`.
    pub open spec fn covers(&self, c: (int, int)) -> bool {
        self.occupied().contains(c)
    }

    /// The same piece with a placement committed.
    pub open spec fn placed_at(&self, origin: Location, pl: Placement) -> PieceView {
        PieceView { placement: Some((origin, pl)), ..*self }
    }
}

/// A polyomino piece: a one-character shape label, the relative footprint
/// fixed at construction, and the committed placement if the piece has been
/// put on a board (anchor cell of the footprint, then target and orientation).
#[derive(Debug)]
pub struct Piece {
    pub shape: char,
    pub locations: Vec<Location>,
    pub placement: Option<(Location, Placement)>,
}

impl View for Piece {
    type V = PieceView;

    open spec fn view(&self) -> PieceView {
        PieceView {
            shape: self.shape,
            cells: self.locations@.map_values(|l: Location| l@),
            placement: self.placement,
        }
    }
}

impl Piece {
    /// A new, unplaced piece.
    pub fn new(shape: char, locations: Vec<Location>) -> (r: Piece)
        ensures
            r@.shape == shape,
            r@.cells == locations@.map_values(|l: Location| l@),
            r@.placement is None,
            r.locations == locations,
    {
        Piece { shape, locations, placement: None }
    }

    /// The board cells the piece would occupy under a hypothetical placement,
    /// without committing it.
    pub fn get_potentially_occupied_locations(&self, origin: Location, placement: Placement) -> (r:
        Vec<Location>)
        requires
            forall|j: int|
                0 <= j < self@.cells.len() ==> cell_fits_i8(
                    placed_cell(self@.cells[j], origin@, placement),
                ),
        ensures
            r@.len() == self@.cells.len(),
            forall|j: int|
                0 <= j < r@.len() ==> r@[j]@ == placed_cell(self@.cells[j], origin@, placement),
    {
        let mut r: Vec<Location> = Vec::new();
        let mut i: usize = 0;
        while i < self.locations.len()
            invariant
                i <= self.locations.len(),
                r@.len() == i,
                self@.cells.len() == self.locations@.len(),
                forall|j: int|
                    0 <= j < self@.cells.len() ==> cell_fits_i8(
                        placed_cell(self@.cells[j], origin@, placement),
                    ),
                forall|j: int|
                    0 <= j < i as int ==> r@[j]@ == placed_cell(self@.cells[j], origin@, placement),
            decreases self.locations.len() - i,
        {
            let c = self.locations[i];
            let (ox, oy) = oriented_wide(
                c.x as i16 - origin.x as i16,
                c.y as i16 - origin.y as i16,
                placement.orientation,
            );
            let tx = ox + placement.location.x as i16;
            let ty = oy + placement.location.y as i16;
            r.push(Location { x: tx as i8, y: ty as i8 });
            i += 1;
        }
        r
    }

    /// The board cells the piece occupies under its committed placement;
    /// empty while unplaced.
    pub fn get_occupied_locations(&self) -> (r: Vec<Location>)
        requires
            forall|j: int|
                0 <= j < self@.occupied().len() ==> cell_fits_i8(self@.occupied()[j]),
        ensures
            r@.len() == self@.occupied().len(),
            forall|j: int| 0 <= j < r@.len() ==> r@[j]@ == self@.occupied()[j],
    {
        match self.placement {
            None => Vec::new(),
            Some((origin, pl)) => {
                proof {
                    assert forall|j: int| 0 <= j < self@.cells.len() implies cell_fits_i8(
                        placed_cell(self@.cells[j], origin@, pl),
                    ) by {
                        assert(self@.occupied()[j] == placed_cell(self@.cells[j], origin@, pl));
                    }
                }
                self.get_potentially_occupied_locations(origin, pl)
            },
        }
    }
}

impl Clone for Piece {
    /// A copy with the same mathematical value.
    fn clone(&self) -> (r: Self)
        ensures
            r@ == self@,
    {
        let mut locations: Vec<Location> = Vec::new();
        let mut i: usize = 0;
        while i < self.locations.len()
            invariant
                i <= self.locations.len(),
                locations@ =~= self.locations@.take(i as int),
            decreases self.locations.len() - i,
        {
            locations.push(self.locations[i]);
            i += 1;
        }
        proof {
            assert(locations@ =~= self.locations@);
        }
        let r = Piece { shape: self.shape, locations, placement: self.placement };
        proof {
            assert(r@ =~= self@);
        }
        r
    }
}

/// Orientation of a re-based footprint cell, carried out in a wide enough
/// integer type that no intermediate value can overflow.
pub(crate) fn oriented_wide(dx: i16, dy: i16, o: Orientation) -> (r: (i16, i16))
    requires
        -255 <= dx <= 255,
        -255 <= dy <= 255,
    ensures
        (r.0 as int, r.1 as int) == oriented((dx as int, dy as int), o),
{
    match o {
        Orientation::Up(false) => (dx, dy),
        Orientation::Up(true) => (-dx, dy),
        Orientation::Right(false) => (-dy, dx),
        Orientation::Right(true) => (dy, dx),
        Orientation::Down(false) => (-dx, -dy),
        Orientation::Down(true) => (dx, -dy),
        Orientation::Left(false) => (dy, -dx),
        Orientation::Left(true) => (-dy, -dx),
    }
}

/// A placement maps pairwise distinct footprint cells to the same number of
/// pairwise distinct board cells.
pub proof fn lemma_placed_footprint_distinct(cells: Seq<(int, int)>, origin: (int, int), pl: Placement)
    requires
        forall|i: int, j: int| 0 <= i < j < cells.len() ==> cells[i] != cells[j],
    ensures
        placed_footprint(cells, origin, pl).len() == cells.len(),
        forall|i: int, j: int|
            0 <= i < j < placed_footprint(cells, origin, pl).len() ==> placed_footprint(
                cells,
                origin,
                pl,
            )[i] != placed_footprint(cells, origin, pl)[j],
{
    let placed = placed_footprint(cells, origin, pl);
    assert forall|i: int, j: int| 0 <= i < j < placed.len() implies placed[i] != placed[j] by {
        if placed[i] == placed[j] {
            let di = (cells[i].0 - origin.0, cells[i].1 - origin.1);
            let dj = (cells[j].0 - origin.0, cells[j].1 - origin.1);
            assert(oriented(di, pl.orientation) == oriented(dj, pl.orientation));
            lemma_oriented_injective(pl.orientation, di, dj);
        }
    }
}

/// A placed, well-formed piece occupies exactly as many cells as its
/// footprint has, and those cells are pairwise distinct.
pub proof fn lemma_occupied_cells_distinct(p: PieceView)
    requires
        p.wf(),
        p.placement is Some,
    ensures
        p.occupied().len() == p.cells.len(),
        forall|i: int, j: int|
            0 <= i < j < p.occupied().len() ==> p.occupied()[i] != p.occupied()[j],
{
    let (origin, pl) = p.placement->Some_0;
    lemma_placed_footprint_distinct(p.cells, origin@, pl);
}

/// The L-shaped piece of the catalogue:
/// a vertical bar of three cells with a foot to the right.
pub fn make_l_shaped_piece() -> (r: Piece)
    ensures
        r@.shape == 'L',
        r@.placement is None,
        r@.cells =~= seq![(0int, 0int), (0int, 1int), (0int, 2int), (1int, 2int)],
        r@.wf(),
{
    Piece::new(
        'L',
        vec![
            Location { x: 0, y: 0 },
            Location { x: 0, y: 1 },
            Location { x: 0, y: 2 },
            Location { x: 1, y: 2 },
        ],
    )
}

/// The T-shaped piece of the catalogue:
/// a vertical bar of three cells with a nose to the right of its middle.
pub fn make_t_shaped_piece() -> (r: Piece)
    ensures
        r@.shape == 'T',
        r@.placement is None,
        r@.cells =~= seq![(0int, 0int), (0int, 1int), (1int, 1int), (0int, 2int)],
        r@.wf(),
{
    Piece::new(
        'T',
        vec![
            Location { x: 0, y: 0 },
            Location { x: 0, y: 1 },
            Location { x: 1, y: 1 },
            Location { x: 0, y: 2 },
        ],
    )
}

/// The square piece of the catalogue: a 2-by-2 block.
pub fn make_square_piece() -> (r: Piece)
    ensures
        r@.shape == 'Q',
        r@.placement is None,
        r@.cells =~= seq![(0int, 0int), (1int, 0int), (0int, 1int), (1int, 1int)],
        r@.wf(),
{
    Piece::new(
        'Q',
        vec![
            Location { x: 0, y: 0 },
            Location { x: 1, y: 0 },
            Location { x: 0, y: 1 },
            Location { x: 1, y: 1 },
        ],
    )
}

/// The S-shaped piece of the catalogue: two vertical dominoes offset by one.
pub fn make_s_shaped_piece() -> (r: Piece)
    ensures
        r@.shape == 'S',
        r@.placement is None,
        r@.cells =~= seq![(0int, 0int), (0int, 1int), (1int, 1int), (1int, 2int)],
        r@.wf(),
{
    Piece::new(
        'S',
        vec![
            Location { x: 0, y: 0 },
            Location { x: 0, y: 1 },
            Location { x: 1, y: 1 },
            Location { x: 1, y: 2 },
        ],
    )
}

/// The bar piece of the catalogue: four cells in a vertical line.
pub fn make_rectangle_piece() -> (r: Piece)
    ensures
        r@.shape == 'I',
        r@.placement is None,
        r@.cells =~= seq![(0int, 0int), (0int, 1int), (0int, 2int), (0int, 3int)],
        r@.wf(),
{
    Piece::new(
        'I',
        vec![
            Location { x: 0, y: 0 },
            Location { x: 0, y: 1 },
            Location { x: 0, y: 2 },
            Location { x: 0, y: 3 },
        ],
    )
}

} // verus!
