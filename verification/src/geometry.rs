//! Plane geometry of the board: integer cells and the eight orientations
//! (four rotations, each with or without a horizontal flip) that a piece may
//! take, together with the exact linear map each orientation applies.

use vstd::prelude::*;

verus! {

/// A cell of the plane, used both as a shape-relative offset and as an
/// absolute board coordinate. `(0, 0)` is the top-left corner of the board;
/// `x` grows to the right and `y` grows downwards.
#[derive(Clone, Copy, Debug, PartialEq, Eq, Structural)]
pub struct Location {
    pub x: i8,
    pub y: i8,
}

impl View for Location {
    type V = (int, int);

    open spec fn view(&self) -> (int, int) {
        (self.x as int, self.y as int)
    }
}

/// One of the eight elements of the dihedral group of the square: a rotation
/// by 0, 90, 180 or 270 degrees (`Up`, `Right`, `Down`, `Left`), combined
/// with a horizontal-flip flag.
#[derive(Clone, Copy, Debug, PartialEq, Eq, Structural)]
pub enum Orientation {
    Up(bool),
    Right(bool),
    Down(bool),
    Left(bool),
}

/// Where a piece lands: the board cell its anchor is mapped to, and the
/// orientation applied to its footprint.
#[derive(Clone, Copy, Debug, PartialEq, Eq, Structural)]
pub struct Placement {
    pub location: Location,
    pub orientation: Orientation,
}

/// The exact linear map that an orientation applies to a cell.
pub open spec fn oriented(c: (int, int), o: Orientation) -> (int, int) {
    match o {
        Orientation::Up(false) => (c.0, c.1),
        Orientation::Up(true) => (-c.0, c.1),
        Orientation::Right(false) => (-c.1, c.0),
        Orientation::Right(true) => (c.1, c.0),
        Orientation::Down(false) => (-c.0, -c.1),
        Orientation::Down(true) => (c.0, -c.1),
        Orientation::Left(false) => (c.1, -c.0),
        Orientation::Left(true) => (-c.1, -c.0),
    }
}

/// The eight orientations in their canonical enumeration order.
pub open spec fn all_orientations() -> Seq<Orientation> {
    seq![
        Orientation::Up(false),
        Orientation::Up(true),
        Orientation::Right(false),
        Orientation::Right(true),
        Orientation::Down(false),
        Orientation::Down(true),
        Orientation::Left(false),
        Orientation::Left(true),
    ]
}

impl Location {
    /// Apply an orientation's linear map to this cell.
    pub fn orient(&self, orientation: Orientation) -> (r: Location)
        requires
            self.x != i8::MIN,
            self.y != i8::MIN,
        ensures
            r@ == oriented(self@, orientation),
    {
        match orientation {
            Orientation::Up(false) => *self,
            Orientation::Up(true) => Location { x: -self.x, y: self.y },
            Orientation::Right(false) => Location { x: -self.y, y: self.x },
            Orientation::Right(true) => Location { x: self.y, y: self.x },
            Orientation::Down(false) => Location { x: -self.x, y: -self.y },
            Orientation::Down(true) => Location { x: self.x, y: -self.y },
            Orientation::Left(false) => Location { x: self.y, y: -self.x },
            Orientation::Left(true) => Location { x: -self.y, y: -self.x },
        }
    }

    /// The cell at a raster-order index of a board `width` cells wide.
    pub fn from_index(width: u8, idx: usize) -> (r: Location)
        requires
            1 <= width <= 127,
            idx < 127 * width as int,
        ensures
            r@ == ((idx as int) % (width as int), (idx as int) / (width as int)),
            0 <= r.x < width,
            0 <= r.y <= 126,
    {
        let w = width as usize;
        proof {
            assert(idx as int / w as int <= 126) by (nonlinear_arith)
                requires
                    1 <= w <= 127,
                    idx < 127 * w,
            ;
        }
        Location { x: (idx % w) as i8, y: (idx / w) as i8 }
    }

    /// The raster-order index of this cell on a board `width` cells wide.
    pub fn to_index(&self, width: u8) -> (r: usize)
        requires
            self.x >= 0,
            self.y >= 0,
        ensures
            r as int == self.y as int * width as int + self.x as int,
    {
        proof {
            assert(self.y as int * width as int <= 127 * 255) by (nonlinear_arith)
                requires
                    0 <= self.y <= 127,
                    0 <= width <= 255,
            ;
        }
        (self.y as usize) * (width as usize) + (self.x as usize)
    }

    /// Componentwise translation.
    pub fn plus(self, rhs: Location) -> (r: Location)
        requires
            i8::MIN <= self.x as int + rhs.x as int <= i8::MAX,
            i8::MIN <= self.y as int + rhs.y as int <= i8::MAX,
        ensures
            r@ == (self@.0 + rhs@.0, self@.1 + rhs@.1),
    {
        Location { x: self.x + rhs.x, y: self.y + rhs.y }
    }

    /// Componentwise difference.
    pub fn minus(self, rhs: Location) -> (r: Location)
        requires
            i8::MIN <= self.x as int - rhs.x as int <= i8::MAX,
            i8::MIN <= self.y as int - rhs.y as int <= i8::MAX,
        ensures
            r@ == (self@.0 - rhs@.0, self@.1 - rhs@.1),
    {
        Location { x: self.x - rhs.x, y: self.y - rhs.y }
    }
}

/// The eight orientations, in the order candidate generation tries them.
pub fn get_all_orientations() -> (r: Vec<Orientation>)
    ensures
        r@ == all_orientations(),
{
    let v = vec![
        Orientation::Up(false),
        Orientation::Up(true),
        Orientation::Right(false),
        Orientation::Right(true),
        Orientation::Down(false),
        Orientation::Down(true),
        Orientation::Left(false),
        Orientation::Left(true),
    ];
    proof {
        assert(v@ =~= all_orientations());
    }
    v
}

/// A cell within the bounds of a `w`-by-`h` board has a raster index below
/// `h * w`, and the index determines the cell.
pub proof fn lemma_raster_index(x: int, y: int, w: int, h: int)
    requires
        0 <= x < w,
        0 <= y < h,
    ensures
        0 <= y * w + x < h * w,
        (y * w + x) / w == y,
        (y * w + x) % w == x,
{
    assert(0 <= y * w + x < h * w) by (nonlinear_arith)
        requires
            0 <= x < w,
            0 <= y < h,
    ;
    vstd::arithmetic::div_mod::lemma_fundamental_div_mod_converse(y * w + x, w, y, x);
}

/// A raster index below `h * w` decomposes into in-bounds coordinates.
pub proof fn lemma_raster_coords(i: int, w: int, h: int)
    requires
        w >= 1,
        h >= 1,
        0 <= i < h * w,
    ensures
        0 <= i % w < w,
        0 <= i / w < h,
        i == (i / w) * w + i % w,
{
    vstd::arithmetic::div_mod::lemma_fundamental_div_mod(i, w);
    assert(i / w < h) by (nonlinear_arith)
        requires
            w >= 1,
            h >= 1,
            0 <= i < h * w,
            i == w * (i / w) + i % w,
            0 <= i % w < w,
    ;
}

/// The rotation component of an orientation, as a quarter-turn count.
pub open spec fn rotation_index(o: Orientation) -> int {
    match o {
        Orientation::Up(_) => 0,
        Orientation::Right(_) => 1,
        Orientation::Down(_) => 2,
        Orientation::Left(_) => 3,
    }
}

/// The horizontal-flip component of an orientation.
pub open spec fn is_flipped(o: Orientation) -> bool {
    match o {
        Orientation::Up(f) => f,
        Orientation::Right(f) => f,
        Orientation::Down(f) => f,
        Orientation::Left(f) => f,
    }
}

/// The orientation with the given quarter-turn count and flip flag.
pub open spec fn orientation_from(rot: int, flip: bool) -> Orientation {
    if rot == 0 {
        Orientation::Up(flip)
    } else if rot == 1 {
        Orientation::Right(flip)
    } else if rot == 2 {
        Orientation::Down(flip)
    } else {
        Orientation::Left(flip)
    }
}

/// The orientation whose map equals applying `first` and then `second`.
pub open spec fn compose(first: Orientation, second: Orientation) -> Orientation {
    let turn = if is_flipped(first) {
        (4 - rotation_index(second)) % 4
    } else {
        rotation_index(second)
    };
    orientation_from((rotation_index(first) + turn) % 4, is_flipped(first) != is_flipped(second))
}

/// Group closure: applying any two orientations in sequence equals applying
/// their composition, which is again one of the eight orientations.
pub proof fn lemma_orientation_composition_closed(first: Orientation, second: Orientation, c: (int, int))
    ensures
        oriented(oriented(c, first), second) == oriented(c, compose(first, second)),
{
}

/// Every orientation's map is injective.
pub proof fn lemma_oriented_injective(o: Orientation, a: (int, int), b: (int, int))
    requires
        oriented(a, o) == oriented(b, o),
    ensures
        a == b,
{
}

/// On a cell in general position (off the axes and the diagonals), the eight
/// orientations produce eight pairwise distinct images.
pub proof fn lemma_orbit_distinct(c: (int, int))
    requires
        c.0 != 0,
        c.1 != 0,
        c.0 != c.1,
        c.0 != -c.1,
    ensures
        forall|i: int, j: int|
            0 <= i < j < all_orientations().len() ==> oriented(c, all_orientations()[i])
                != oriented(c, all_orientations()[j]),
{
}

} // verus!
