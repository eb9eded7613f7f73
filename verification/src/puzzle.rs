//! The board state: per-cell ownership, the piece collection, and the derived
//! canonical hash. Placements are validated against bounds and overlap and
//! committed atomically; the next empty cell in raster order drives candidate
//! generation.
//!
//! `(0, 0)` is the top-left corner of the board and `(width - 1, height - 1)`
//! the bottom-right one.

use vstd::prelude::*;

use crate::geometry::{
    all_orientations, get_all_orientations, lemma_raster_coords, lemma_raster_index, Location,
    Placement,
};
use crate::backtracking::{views_overlap, Backtrackable, Solver};
use crate::hashing::{hash_related, lemma_disjoint_views_unrelated, push_char, views_of, HashViews, PuzzleHash};
use crate::piece::{cell_fits_i8, placed_cell, Piece, PieceView};
use vstd::hash_set::StringHashSet;

verus! {

/// The number of pieces of a collection that are not yet placed.
pub open spec fn count_unplaced(pieces: Seq<PieceView>) -> nat
    decreases pieces.len(),
{
    if pieces.len() == 0 {
        0
    } else {
        (if pieces.last().placement is None {
            1nat
        } else {
            0nat
        }) + count_unplaced(pieces.drop_last())
    }
}

/// Committing a placement on an unplaced piece lowers the unplaced count.
pub proof fn lemma_count_unplaced_decreases(pieces: Seq<PieceView>, k: int, p: PieceView)
    requires
        0 <= k < pieces.len(),
        pieces[k].placement is None,
        p.placement is Some,
    ensures
        count_unplaced(pieces.update(k, p)) < count_unplaced(pieces),
    decreases pieces.len(),
{
    let updated = pieces.update(k, p);
    if k == pieces.len() - 1 {
        assert(updated.drop_last() =~= pieces.drop_last());
    } else {
        assert(updated.drop_last() =~= pieces.drop_last().update(k, p));
        lemma_count_unplaced_decreases(pieces.drop_last(), k, p);
    }
}

/// The mathematical value of a [`Puzzle`]: the board dimensions, the pieces,
/// the per-cell ownership, and the four hash views.
#[verifier::ext_equal]
pub ghost struct PuzzleView {
    pub height: u8,
    pub width: u8,
    pub pieces: Seq<PieceView>,
    pub spaces: Seq<Option<usize>>,
    pub hash: HashViews,
}

impl PuzzleView {
    /// The coordinates of the cell at a raster index.
    pub open spec fn cell_of(&self, i: int) -> (int, int) {
        (i % self.width as int, i / self.width as int)
    }

    /// The raster index of a cell.
    pub open spec fn index_of(&self, c: (int, int)) -> int {
        c.1 * self.width as int + c.0
    }

    /// Whether a cell lies on the board.
    pub open spec fn in_bounds(&self, c: (int, int)) -> bool {
        &&& 0 <= c.0 < self.width as int
        &&& 0 <= c.1 < self.height as int
    }

    /// The dimensions fit the executable coordinate types and the slot vector
    /// has one entry per cell.
    pub open spec fn dims_wf(&self) -> bool {
        &&& 1 <= self.width <= 127
        &&& 1 <= self.height <= 127
        &&& self.spaces.len() == self.height as int * self.width as int
    }

    /// Every owned slot names a piece of the collection.
    pub open spec fn slots_wf(&self) -> bool {
        forall|i: int|
            0 <= i < self.spaces.len() && self.spaces[i] is Some ==> (#[trigger] self.spaces[i])->0
                < self.pieces.len()
    }

    /// Every piece of the collection is well formed.
    pub open spec fn pieces_wf(&self) -> bool {
        forall|k: int| 0 <= k < self.pieces.len() ==> (#[trigger] self.pieces[k]).wf()
    }

    /// Slots and placements agree: a slot is owned by a piece exactly when
    /// that piece's occupied cells include it, every occupied cell lies on
    /// the board, and no two pieces share a cell.
    pub open spec fn ownership_wf(&self) -> bool {
        &&& forall|i: int|
            0 <= i < self.spaces.len() && self.spaces[i] is Some
                ==> self.pieces[(#[trigger] self.spaces[i])->0 as int].covers(self.cell_of(i))
        &&& forall|k: int, j: int|
            0 <= k < self.pieces.len() && 0 <= j < self.pieces[k].occupied().len() ==> {
                &&& self.in_bounds(#[trigger] self.pieces[k].occupied()[j])
                &&& self.spaces[self.index_of(self.pieces[k].occupied()[j])] == Some(k as usize)
            }
    }

    /// The raster rendering of the board: the owning piece's label for owned
    /// cells, `'-'` for empty ones.
    pub open spec fn render(&self) -> Seq<char> {
        Seq::new(
            self.spaces.len(),
            |i: int|
                match self.spaces[i] {
                    None => '-',
                    Some(k) => self.pieces[k as int].shape,
                },
        )
    }

    /// The textual form of the board: `height` lines of `width` characters,
    /// each line closed by a newline.
    pub open spec fn rendered_lines(&self) -> Seq<char> {
        Seq::new(
            (self.height as int * (self.width as int + 1)) as nat,
            |i: int|
                if i % (self.width as int + 1) == self.width as int {
                    '\n'
                } else {
                    self.render()[(i / (self.width as int + 1)) * self.width as int + i % (
                    self.width as int + 1)]
                },
        )
    }

    /// The hash field holds the four views of the current rendering.
    pub open spec fn hash_wf(&self) -> bool {
        self.hash == views_of(self.render(), self.height as int, self.width as int)
    }

    /// The full state invariant.
    pub open spec fn wf(&self) -> bool {
        &&& self.dims_wf()
        &&& self.slots_wf()
        &&& self.pieces_wf()
        &&& self.ownership_wf()
        &&& self.hash_wf()
    }

    /// No cell is empty.
    pub open spec fn board_full(&self) -> bool {
        forall|i: int| 0 <= i < self.spaces.len() ==> (#[trigger] self.spaces[i]) is Some
    }

    /// Every piece of the collection has been placed.
    pub open spec fn all_pieces_placed(&self) -> bool {
        forall|k: int|
            0 <= k < self.pieces.len() ==> (#[trigger] self.pieces[k]).placement is Some
    }

    /// A solution: no empty cell remains and every piece has been placed.
    pub open spec fn solved(&self) -> bool {
        self.board_full() && self.all_pieces_placed()
    }

    /// The number of pieces still unplaced; the solver's progress measure.
    pub open spec fn unplaced_count(&self) -> nat {
        count_unplaced(self.pieces)
    }

    /// `e` is the first empty cell in raster order.
    pub open spec fn first_empty_at(&self, e: int) -> bool {
        &&& 0 <= e < self.spaces.len()
        &&& self.spaces[e] is None
        &&& forall|j: int| 0 <= j < e ==> (#[trigger] self.spaces[j]) is Some
    }

    /// Whether placing piece `k` with the given anchor and placement is
    /// valid: every cell of the oriented, translated footprint lies on the
    /// board and is currently empty.
    pub open spec fn placement_valid(&self, origin: Location, pl: Placement, k: int) -> bool {
        valid_for_cells(*self, self.pieces[k].cells, origin, pl)
    }

    /// The board cell that candidate generation anchors on: the first empty
    /// cell `e`, as a location.
    pub open spec fn anchor_location(&self, e: int) -> Location {
        Location { x: (e % self.width as int) as i8, y: (e / self.width as int) as i8 }
    }

    /// The anchor cell chosen inside piece `k`'s footprint.
    pub open spec fn combo_origin(&self, k: int, ci: int) -> Location {
        Location {
            x: self.pieces[k].cells[ci].0 as i8,
            y: self.pieces[k].cells[ci].1 as i8,
        }
    }

    /// The placement candidate generation tries: the first empty cell as the
    /// target, with the `oi`-th orientation.
    pub open spec fn combo_placement(&self, e: int, oi: int) -> Placement {
        Placement { location: self.anchor_location(e), orientation: all_orientations()[oi] }
    }

    /// Whether the combination of an unplaced piece `k`, the `ci`-th footprint
    /// cell as anchor and the `oi`-th orientation yields a valid placement at
    /// the first empty cell `e`.
    pub open spec fn combo_valid(&self, e: int, k: int, ci: int, oi: int) -> bool {
        &&& 0 <= k < self.pieces.len()
        &&& self.pieces[k].placement is None
        &&& 0 <= ci < self.pieces[k].cells.len()
        &&& 0 <= oi < all_orientations().len()
        &&& self.placement_valid(self.combo_origin(k, ci), self.combo_placement(e, oi), k)
    }

    /// The candidate state that such a combination produces.
    pub open spec fn combo_successor(&self, e: int, k: int, ci: int, oi: int) -> PuzzleView {
        self.placed_successor(self.combo_origin(k, ci), self.combo_placement(e, oi), k)
    }

    /// The state after committing a placement of piece `k`: the piece carries
    /// the placement, exactly its occupied cells become owned by `k`, and the
    /// hash is re-derived from the new rendering.
    pub open spec fn placed_successor(&self, origin: Location, pl: Placement, k: int) -> PuzzleView {
        let placed = self.pieces[k].placed_at(origin, pl);
        let base = PuzzleView {
            height: self.height,
            width: self.width,
            pieces: self.pieces.update(k, placed),
            spaces: Seq::new(
                self.spaces.len(),
                |i: int|
                    if placed.covers(self.cell_of(i)) {
                        Some(k as usize)
                    } else {
                        self.spaces[i]
                    },
            ),
            hash: self.hash,
        };
        PuzzleView {
            hash: views_of(base.render(), self.height as int, self.width as int),
            ..base
        }
    }
}

/// A puzzle state: the board dimensions fixed at construction, the piece
/// collection, one ownership slot per cell in raster order, and the canonical
/// hash of the current rendering.
#[derive(Debug)]
pub struct Puzzle {
    pub height: u8,
    pub width: u8,
    pub pieces: Vec<Piece>,
    pub spaces: Vec<Option<usize>>,
    pub hash: PuzzleHash,
}

impl View for Puzzle {
    type V = PuzzleView;

    open spec fn view(&self) -> PuzzleView {
        PuzzleView {
            height: self.height,
            width: self.width,
            pieces: self.pieces@.map_values(|p: Piece| p@),
            spaces: self.spaces@,
            hash: self.hash@,
        }
    }
}

impl Puzzle {
    /// An empty board of the given dimensions holding the given catalogue of
    /// unplaced pieces.
    pub fn new(height: u8, width: u8, pieces: Vec<Piece>) -> (r: Puzzle)
        requires
            1 <= height <= 127,
            1 <= width <= 127,
            forall|k: int|
                0 <= k < pieces@.len() ==> (#[trigger] pieces@[k])@.wf() && pieces@[k]@.placement
                    is None,
        ensures
            r@.height == height,
            r@.width == width,
            r@.pieces == pieces@.map_values(|p: Piece| p@),
            r@.spaces == Seq::new((height as int * width as int) as nat, |i: int| None::<usize>),
            r@.wf(),
    {
        proof {
            assert(height as int * width as int <= 127 * 127) by (nonlinear_arith)
                requires
                    1 <= height <= 127,
                    1 <= width <= 127,
            ;
        }
        let n = (height as usize) * (width as usize);
        let mut spaces: Vec<Option<usize>> = Vec::new();
        let mut forwards = String::new();
        let mut i: usize = 0;
        while i < n
            invariant
                i <= n,
                spaces@.len() == i,
                forall|j: int| 0 <= j < i as int ==> spaces@[j] is None,
                forwards@.len() == i,
                forall|j: int| 0 <= j < i as int ==> forwards@[j] == '-',
            decreases n - i,
        {
            spaces.push(None);
            push_char(&mut forwards, '-');
            i += 1;
        }
        let hash = PuzzleHash::new(height as usize, width as usize, forwards);
        let r = Puzzle { height, width, pieces, spaces, hash };
        proof {
            assert(r@.spaces =~= Seq::new(
                (height as int * width as int) as nat,
                |i: int| None::<usize>,
            ));
            assert(r@.render() =~= r.hash.forwards@);
            assert forall|k: int| 0 <= k < r@.pieces.len() implies (#[trigger] r@.pieces[k]).wf()
                && r@.pieces[k].placement is None by {
                assert(r@.pieces[k] == r.pieces@[k]@);
            }
            assert forall|k: int, j: int|
                0 <= k < r@.pieces.len() && 0 <= j < r@.pieces[k].occupied().len() implies {
                &&& r@.in_bounds(#[trigger] r@.pieces[k].occupied()[j])
                &&& r@.spaces[r@.index_of(r@.pieces[k].occupied()[j])] == Some(k as usize)
            } by {
                assert(r@.pieces[k].occupied().len() == 0);
            }
            assert(r@.wf());
        }
        r
    }

    /// Whether the given piece could be committed at the given anchor and
    /// placement: all of its would-be cells lie on the board and are empty.
    pub fn valid_piece_placement(&self, origin: Location, placement: Placement, piece: &Piece) -> (r:
        bool)
        requires
            self@.dims_wf(),
        ensures
            r == valid_for_cells(self@, piece@.cells, origin, placement),
    {
        let ghost cells = piece@.cells;
        let mut j: usize = 0;
        while j < piece.locations.len()
            invariant
                j <= piece.locations.len(),
                cells == piece@.cells,
                cells.len() == piece.locations@.len(),
                self@.dims_wf(),
                forall|t: int|
                    0 <= t < j as int ==> {
                        let c = placed_cell(#[trigger] cells[t], origin@, placement);
                        &&& self@.in_bounds(c)
                        &&& self@.spaces[self@.index_of(c)] is None
                    },
            decreases piece.locations.len() - j,
        {
            let c = piece.locations[j];
            let (ox, oy) = crate::piece::oriented_wide(
                c.x as i16 - origin.x as i16,
                c.y as i16 - origin.y as i16,
                placement.orientation,
            );
            let tx = ox + placement.location.x as i16;
            let ty = oy + placement.location.y as i16;
            proof {
                assert(placed_cell(cells[j as int], origin@, placement) == (tx as int, ty as int));
            }
            if tx < 0 || tx >= self.width as i16 || ty < 0 || ty >= self.height as i16 {
                return false;
            }
            proof {
                lemma_raster_index(tx as int, ty as int, self.width as int, self.height as int);
                assert(ty as int * self.width as int <= 126 * 127) by (nonlinear_arith)
                    requires
                        0 <= ty as int <= 126,
                        0 <= self.width as int <= 127,
                ;
            }
            let idx = (ty as usize) * (self.width as usize) + (tx as usize);
            if self.spaces[idx].is_some() {
                return false;
            }
            j += 1;
        }
        true
    }

    /// The raster index of the first empty cell, or `None` when the board is
    /// full.
    pub fn get_next_empty_space(&self) -> (r: Option<usize>)
        ensures
            match r {
                Some(e) => self@.first_empty_at(e as int),
                None => self@.board_full(),
            },
    {
        let mut idx: usize = 0;
        while idx < self.spaces.len()
            invariant
                idx <= self.spaces.len(),
                forall|j: int| 0 <= j < idx as int ==> (#[trigger] self.spaces@[j]) is Some,
            decreases self.spaces.len() - idx,
        {
            if self.spaces[idx].is_none() {
                return Some(idx);
            }
            idx += 1;
        }
        None
    }

    /// The canonical hash of the current rendering.
    pub fn get_puzzle_hash(&self) -> (r: PuzzleHash)
        requires
            self@.dims_wf(),
            self@.slots_wf(),
        ensures
            r@ == views_of(self@.render(), self@.height as int, self@.width as int),
    {
        let mut acc = String::new();
        let mut i: usize = 0;
        while i < self.spaces.len()
            invariant
                i <= self.spaces.len(),
                self@.dims_wf(),
                self@.slots_wf(),
                acc@ =~= self@.render().take(i as int),
            decreases self.spaces.len() - i,
        {
            match self.spaces[i] {
                None => push_char(&mut acc, '-'),
                Some(s) => {
                    let shape = self.pieces[s].shape;
                    proof {
                        assert(self@.pieces[s as int] == self.pieces@[s as int]@);
                    }
                    push_char(&mut acc, shape);
                },
            }
            proof {
                assert(self@.render().take(i as int).push(self@.render()[i as int])
                    =~= self@.render().take(i as int + 1));
            }
            i += 1;
        }
        proof {
            assert(acc@ =~= self@.render());
            assert(acc@.len() == self.height as int * self.width as int);
        }
        PuzzleHash::new(self.height as usize, self.width as usize, acc)
    }

    /// The board as text: `height` lines of `width` characters, the owning
    /// piece's label for owned cells and `'-'` for empty ones.
    pub fn render(&self) -> (r: String)
        requires
            self@.dims_wf(),
            self@.slots_wf(),
        ensures
            r@ == self@.rendered_lines(),
    {
        let ghost w = self.width as int;
        let ghost h = self.height as int;
        let ghost lines = self@.rendered_lines();
        let mut ret = String::new();
        let mut y: usize = 0;
        while y < self.height as usize
            invariant
                y <= self.height as usize,
                self@.dims_wf(),
                self@.slots_wf(),
                w == self.width as int,
                h == self.height as int,
                lines == self@.rendered_lines(),
                ret@ =~= lines.take(y as int * (w + 1)),
            decreases self.height as usize - y,
        {
            let mut x: usize = 0;
            while x < self.width as usize
                invariant
                    y < self.height as usize,
                    x <= self.width as usize,
                    self@.dims_wf(),
                    self@.slots_wf(),
                    w == self.width as int,
                    h == self.height as int,
                    lines == self@.rendered_lines(),
                    ret@ =~= lines.take(y as int * (w + 1) + x as int),
                decreases self.width as usize - x,
            {
                let ghost p = y as int * (w + 1) + x as int;
                proof {
                    lemma_raster_index(x as int, y as int, w + 1, h);
                    lemma_raster_index(x as int, y as int, w, h);
                    assert(y as int * w <= 126 * 127) by (nonlinear_arith)
                        requires
                            0 <= y as int <= 126,
                            0 <= w <= 127,
                    ;
                }
                let idx = y * (self.width as usize) + x;
                let ch = match self.spaces[idx] {
                    None => '-',
                    Some(c) => {
                        proof {
                            assert(self@.pieces[self.spaces@[idx as int]->0 as int]
                                == self.pieces@[self.spaces@[idx as int]->0 as int]@);
                        }
                        self.pieces[c].shape
                    },
                };
                proof {
                    assert(ch == lines[p]);
                    assert(lines.take(p).push(lines[p]) =~= lines.take(p + 1));
                }
                push_char(&mut ret, ch);
                x += 1;
            }
            let ghost p = y as int * (w + 1) + w;
            proof {
                lemma_raster_index(w, y as int, w + 1, h);
                assert(lines[p] == '\n');
                assert(lines.take(p).push(lines[p]) =~= lines.take(p + 1));
                assert(y as int * (w + 1) + (w + 1) == (y as int + 1) * (w + 1)) by (nonlinear_arith);
            }
            push_char(&mut ret, '\n');
            y += 1;
        }
        proof {
            assert(lines.len() == h * (w + 1));
            assert(ret@ =~= lines);
        }
        ret
    }

    /// Validate and commit a placement of the piece at `piece_index`: on
    /// success the piece carries the placement, exactly its cells become
    /// owned by it, and the hash is recomputed; on failure the state is left
    /// untouched.
    pub fn place_piece(&mut self, origin: Location, placement: Placement, piece_index: usize) -> (r:
        Result<(), ()>)
        requires
            old(self)@.wf(),
            piece_index < old(self)@.pieces.len(),
            old(self)@.pieces[piece_index as int].placement is None,
        ensures
            r is Ok <==> old(self)@.placement_valid(origin, placement, piece_index as int),
            r is Err ==> *final(self) == *old(self),
            r is Ok ==> final(self)@ == old(self)@.placed_successor(
                origin,
                placement,
                piece_index as int,
            ),
            r is Ok ==> final(self)@.wf() && final(self)@.unplaced_count() < old(
                self,
            )@.unplaced_count(),
    {
        let ghost pre = self@;
        let ghost k = piece_index as int;
        let ghost w = pre.width as int;
        let ghost h = pre.height as int;
        proof {
            assert(pre.pieces[k] == self.pieces@[k]@);
        }
        let valid = self.valid_piece_placement(origin, placement, &self.pieces[piece_index]);
        if !valid {
            return Err(());
        }
        let ghost placed = pre.pieces[k].placed_at(origin, placement);
        let mut p = self.pieces[piece_index].clone();
        p.placement = Some((origin, placement));
        proof {
            assert(p@ =~= placed);
            assert forall|j: int| 0 <= j < p@.occupied().len() implies cell_fits_i8(
                #[trigger] p@.occupied()[j],
            ) by {
                assert(p@.occupied()[j] == placed_cell(p@.cells[j], origin@, placement));
                assert(pre.in_bounds(placed_cell(pre.pieces[k].cells[j], origin@, placement)));
            }
        }
        let cells = p.get_occupied_locations();
        self.pieces.set(piece_index, p);
        proof {
            assert(self@.pieces =~= pre.pieces.update(k, placed));
        }
        let ghost occ = placed.occupied();
        proof {
            assert forall|t: int| 0 <= t < occ.len() implies pre.in_bounds(#[trigger] occ[t])
                && pre.spaces[pre.index_of(occ[t])] is None by {
                assert(occ[t] == placed_cell(pre.pieces[k].cells[t], origin@, placement));
            }
        }
        let mut j: usize = 0;
        while j < cells.len()
            invariant
                j <= cells.len(),
                cells@.len() == occ.len(),
                forall|t: int| 0 <= t < occ.len() ==> (#[trigger] cells@[t])@ == occ[t],
                forall|t: int| 0 <= t < occ.len() ==> pre.in_bounds(#[trigger] occ[t]),
                pre.dims_wf(),
                self.width == pre.width,
                self.height == pre.height,
                self.spaces@.len() == pre.spaces.len(),
                self@.pieces == pre.pieces.update(k, placed),
                self.hash@ == pre.hash,
                k == piece_index as int,
                w == pre.width as int,
                h == pre.height as int,
                forall|i: int|
                    0 <= i < self.spaces@.len() ==> #[trigger] self.spaces@[i] == (if (exists|t: int|
                        0 <= t < j as int && pre.index_of(occ[t]) == i) {
                        Some(piece_index)
                    } else {
                        pre.spaces[i]
                    }),
            decreases cells.len() - j,
        {
            let c = cells[j];
            proof {
                assert(c@ == occ[j as int]);
                assert(pre.in_bounds(occ[j as int]));
                lemma_raster_index(c.x as int, c.y as int, w, h);
                assert(c.y as int * w <= 126 * 127) by (nonlinear_arith)
                    requires
                        0 <= c.y as int <= 126,
                        0 <= w <= 127,
                ;
            }
            let idx = (c.y as usize) * (self.width as usize) + (c.x as usize);
            self.spaces.set(idx, Some(piece_index));
            proof {
                assert(pre.index_of(occ[j as int]) == idx as int);
                assert forall|i: int| 0 <= i < self.spaces@.len() implies #[trigger] self.spaces@[i]
                    == (if (exists|t: int|
                    0 <= t < j as int + 1 && pre.index_of(occ[t]) == i) {
                    Some(piece_index)
                } else {
                    pre.spaces[i]
                }) by {
                    if i == idx as int {
                        assert(0 <= (j as int) && (j as int) < (j as int) + 1 && pre.index_of(
                            occ[j as int],
                        ) == i);
                    } else {
                        if exists|t: int| 0 <= t < j as int + 1 && pre.index_of(occ[t]) == i {
                            let t = choose|t: int|
                                0 <= t < j as int + 1 && pre.index_of(occ[t]) == i;
                            assert(t < j as int);
                        }
                    }
                }
            }
            j += 1;
        }
        proof {
            // Slots name valid pieces, so the hash can be recomputed.
            assert forall|i: int|
                0 <= i < self.spaces@.len() && self.spaces@[i] is Some implies (
            #[trigger] self.spaces@[i])->0 < self@.pieces.len() by {
                if !(exists|t: int| 0 <= t < occ.len() && pre.index_of(occ[t]) == i) {
                    assert(self.spaces@[i] == pre.spaces[i]);
                }
            }
        }
        let new_hash = self.get_puzzle_hash();
        self.hash = new_hash;
        proof {
            let post = pre.placed_successor(origin, placement, k);
            assert forall|i: int| 0 <= i < self.spaces@.len() implies self.spaces@[i]
                == post.spaces[i] by {
                lemma_raster_coords(i, w, h);
                if exists|t: int| 0 <= t < occ.len() && pre.index_of(occ[t]) == i {
                    let t = choose|t: int| 0 <= t < occ.len() && pre.index_of(occ[t]) == i;
                    lemma_raster_index(occ[t].0, occ[t].1, w, h);
                    assert(pre.cell_of(i) == occ[t]);
                    assert(placed.covers(pre.cell_of(i)));
                } else {
                    if placed.covers(pre.cell_of(i)) {
                        let t = choose|t: int|
                            0 <= t < occ.len() && occ[t] == pre.cell_of(i);
                        assert(pre.index_of(occ[t]) == i);
                        assert(false);
                    }
                }
            }
            assert(self@.spaces =~= post.spaces);
            assert(self@.render() =~= post.render());
            assert(self@ =~= post);
            lemma_placed_successor_wf(pre, origin, placement, k);
            lemma_count_unplaced_decreases(pre.pieces, k, placed);
        }
        Ok(())
    }
}

/// Committing a valid placement on a well-formed state yields a well-formed
/// state: the new piece owns exactly its cells, previously owned cells keep
/// their owner, and ownership stays exclusive.
proof fn lemma_placed_successor_wf(pre: PuzzleView, origin: Location, pl: Placement, k: int)
    requires
        pre.wf(),
        0 <= k < pre.pieces.len(),
        k <= usize::MAX,
        pre.pieces[k].placement is None,
        pre.placement_valid(origin, pl, k),
    ensures
        pre.placed_successor(origin, pl, k).dims_wf(),
        pre.placed_successor(origin, pl, k).slots_wf(),
        pre.placed_successor(origin, pl, k).pieces_wf(),
        pre.placed_successor(origin, pl, k).ownership_wf(),
        pre.placed_successor(origin, pl, k).render() == pre.placed_successor(
            origin,
            pl,
            k,
        ).hash.forwards,
        pre.placed_successor(origin, pl, k).wf(),
{
    let post = pre.placed_successor(origin, pl, k);
    let placed = pre.pieces[k].placed_at(origin, pl);
    let w = pre.width as int;
    let h = pre.height as int;
    assert(post.pieces[k] == placed);

    // Each occupied cell of the new piece is exactly the image of a footprint
    // cell, lies on the board, and was empty before.
    assert forall|j: int| 0 <= j < placed.occupied().len() implies {
        &&& placed.occupied()[j] == placed_cell(pre.pieces[k].cells[j], origin@, pl)
        &&& pre.in_bounds(placed.occupied()[j])
        &&& pre.spaces[pre.index_of(placed.occupied()[j])] is None
        &&& 0 <= pre.index_of(placed.occupied()[j]) < pre.spaces.len()
        &&& pre.cell_of(pre.index_of(placed.occupied()[j])) == placed.occupied()[j]
    } by {
        let c = placed_cell(pre.pieces[k].cells[j], origin@, pl);
        assert(pre.in_bounds(c) && pre.spaces[pre.index_of(c)] is None);
        lemma_raster_index(c.0, c.1, w, h);
    }

    // A covered cell's raster index identifies it.
    assert forall|i: int| 0 <= i < pre.spaces.len() implies pre.cell_of(i) == (i % w, i / w)
        && pre.index_of(pre.cell_of(i)) == i by {
        lemma_raster_coords(i, w, h);
    }

    // slots_wf
    assert forall|i: int|
        0 <= i < post.spaces.len() && post.spaces[i] is Some implies (#[trigger] post.spaces[i])->0
        < post.pieces.len() by {
        if !placed.covers(pre.cell_of(i)) {
            assert(post.spaces[i] == pre.spaces[i]);
        }
    }

    // pieces_wf
    assert forall|m: int| 0 <= m < post.pieces.len() implies (#[trigger] post.pieces[m]).wf() by {
        if m != k {
            assert(post.pieces[m] == pre.pieces[m]);
        } else {
            assert(placed.cells == pre.pieces[k].cells);
        }
    }

    // ownership_wf, first clause: every owned slot is covered by its owner.
    assert forall|i: int|
        0 <= i < post.spaces.len() && post.spaces[i] is Some implies post.pieces[(
        #[trigger] post.spaces[i])->0 as int].covers(post.cell_of(i)) by {
        if placed.covers(pre.cell_of(i)) {
            assert(post.spaces[i] == Some(k as usize));
            assert(post.cell_of(i) == pre.cell_of(i));
        } else {
            assert(post.spaces[i] == pre.spaces[i]);
            let m = pre.spaces[i]->0 as int;
            assert(pre.pieces[m].covers(pre.cell_of(i)));
            if m == k {
                assert(pre.pieces[k].occupied().len() == 0);
                assert(false);
            }
            assert(post.pieces[m] == pre.pieces[m]);
        }
    }

    // ownership_wf, second clause: every occupied cell is on the board and
    // owned by its piece.
    assert forall|m: int, j: int|
        0 <= m < post.pieces.len() && 0 <= j < post.pieces[m].occupied().len() implies {
        &&& post.in_bounds(#[trigger] post.pieces[m].occupied()[j])
        &&& post.spaces[post.index_of(post.pieces[m].occupied()[j])] == Some(m as usize)
    } by {
        if m == k {
            let c = placed.occupied()[j];
            assert(pre.in_bounds(c));
            let i = pre.index_of(c);
            assert(pre.cell_of(i) == c);
            assert(placed.covers(pre.cell_of(i)));
            assert(post.spaces[i] == Some(k as usize));
        } else {
            assert(post.pieces[m] == pre.pieces[m]);
            let c = pre.pieces[m].occupied()[j];
            assert(pre.in_bounds(c));
            let i = pre.index_of(c);
            assert(pre.spaces[i] == Some(m as usize));
            assert(0 <= i < pre.spaces.len()) by {
                lemma_raster_index(c.0, c.1, w, h);
            }
            if placed.covers(pre.cell_of(i)) {
                let t = choose|t: int|
                    0 <= t < placed.occupied().len() && placed.occupied()[t] == pre.cell_of(i);
                assert(pre.spaces[pre.index_of(placed.occupied()[t])] is None);
                assert(pre.index_of(pre.cell_of(i)) == i);
                assert(false);
            }
            assert(post.spaces[i] == pre.spaces[i]);
        }
    }

    // The hash stored in the successor is derived from its own rendering.
    let base = PuzzleView { hash: pre.hash, ..post };
    assert(base.render() =~= post.render());
    assert(post.hash == views_of(post.render(), h, w));
}

/// Whether placing a footprint given by `cells` at the given anchor and
/// placement touches only empty on-board cells.
pub open spec fn valid_for_cells(
    v: PuzzleView,
    cells: Seq<(int, int)>,
    origin: Location,
    pl: Placement,
) -> bool {
    forall|j: int|
        0 <= j < cells.len() ==> {
            let c = placed_cell(#[trigger] cells[j], origin@, pl);
            &&& v.in_bounds(c)
            &&& v.spaces[v.index_of(c)] is None
        }
}

impl Clone for Puzzle {
    /// A copy with the same mathematical value.
    fn clone(&self) -> (r: Self)
        ensures
            r@ == self@,
    {
        let mut pieces: Vec<Piece> = Vec::new();
        let mut i: usize = 0;
        while i < self.pieces.len()
            invariant
                i <= self.pieces.len(),
                pieces@.len() == i,
                forall|j: int| 0 <= j < i as int ==> (#[trigger] pieces@[j])@ == self.pieces@[j]@,
            decreases self.pieces.len() - i,
        {
            pieces.push(self.pieces[i].clone());
            i += 1;
        }
        let mut spaces: Vec<Option<usize>> = Vec::new();
        let mut j: usize = 0;
        while j < self.spaces.len()
            invariant
                j <= self.spaces.len(),
                spaces@ =~= self.spaces@.take(j as int),
            decreases self.spaces.len() - j,
        {
            spaces.push(self.spaces[j]);
            j += 1;
        }
        let r = Puzzle {
            height: self.height,
            width: self.width,
            pieces,
            spaces,
            hash: self.hash.clone(),
        };
        proof {
            assert(spaces@ =~= self.spaces@);
            assert(r@.pieces =~= self@.pieces);
            assert(r@ =~= self@);
        }
        r
    }
}


/// The first empty cell of a board is unique.
pub proof fn lemma_first_empty_unique(v: PuzzleView, e1: int, e2: int)
    requires
        v.first_empty_at(e1),
        v.first_empty_at(e2),
    ensures
        e1 == e2,
{
    if e1 < e2 {
        assert(v.spaces[e1] is Some);
    }
    if e2 < e1 {
        assert(v.spaces[e2] is Some);
    }
}

/// If the combination `(k, ci, oi)` is a valid placement at the first empty
/// cell `e`, then its successor state is represented in the candidate list.
pub open spec fn combo_covered(
    pre: PuzzleView,
    e: int,
    k: int,
    ci: int,
    oi: int,
    rs: Seq<Puzzle>,
) -> bool {
    pre.combo_valid(e, k, ci, oi) ==> exists|i: int|
        0 <= i < rs.len() && rs[i]@ == pre.combo_successor(e, k, ci, oi)
}

/// Appending to a candidate list keeps every represented combination
/// represented.
proof fn lemma_covered_preserved_push(pre: PuzzleView, e: int, rs: Seq<Puzzle>, x: Puzzle)
    ensures
        forall|k: int, ci: int, oi: int|
            combo_covered(pre, e, k, ci, oi, rs) ==> #[trigger] combo_covered(
                pre,
                e,
                k,
                ci,
                oi,
                rs.push(x),
            ),
{
    assert forall|k: int, ci: int, oi: int|
        combo_covered(pre, e, k, ci, oi, rs) implies #[trigger] combo_covered(
        pre,
        e,
        k,
        ci,
        oi,
        rs.push(x),
    ) by {
        if pre.combo_valid(e, k, ci, oi) {
            let i = choose|i: int|
                0 <= i < rs.len() && rs[i]@ == pre.combo_successor(e, k, ci, oi);
            assert(rs.push(x)[i]@ == pre.combo_successor(e, k, ci, oi));
        }
    }
}

/// The mathematical values of a candidate list.
pub open spec fn candidate_views(rs: Seq<Puzzle>) -> Seq<PuzzleView> {
    rs.map_values(|p: Puzzle| p@)
}

/// The candidate sequence in enumeration order, resumed at the combination
/// `(k, ci, oi)`: catalogue order first, then anchor-cell order within the
/// piece's footprint, then orientation order, keeping exactly the
/// combinations that place validly at the first empty cell `e`.
pub open spec fn candidates_in_order_from(
    v: PuzzleView,
    e: int,
    k: int,
    ci: int,
    oi: int,
) -> Seq<PuzzleView>
    decreases v.pieces.len() - k, v.pieces[k].cells.len() - ci, all_orientations().len() - oi,
{
    if !(0 <= k < v.pieces.len()) {
        Seq::empty()
    } else if v.pieces[k].placement is Some {
        candidates_in_order_from(v, e, k + 1, 0, 0)
    } else if !(0 <= ci < v.pieces[k].cells.len()) {
        candidates_in_order_from(v, e, k + 1, 0, 0)
    } else if !(0 <= oi < all_orientations().len()) {
        candidates_in_order_from(v, e, k, ci + 1, 0)
    } else if v.combo_valid(e, k, ci, oi) {
        seq![v.combo_successor(e, k, ci, oi)] + candidates_in_order_from(v, e, k, ci, oi + 1)
    } else {
        candidates_in_order_from(v, e, k, ci, oi + 1)
    }
}

/// The candidate state `c` arises from some valid combination of an unplaced
/// piece, an anchor cell of its footprint and an orientation, all placed at
/// the first empty cell `e`.
pub open spec fn candidate_sound(pre: PuzzleView, e: int, c: Puzzle) -> bool {
    exists|k: int, ci: int, oi: int|
        pre.combo_valid(e, k, ci, oi) && c@ == pre.combo_successor(e, k, ci, oi)
}

/// The candidate list `rs` generated for a state `pre` whose first empty cell
/// is `e` is sound and complete: every entry arises from a valid combination
/// of an unplaced piece, an anchor cell of its footprint and an orientation,
/// and every valid combination is represented.
pub open spec fn candidates_correct(pre: PuzzleView, e: int, rs: Seq<Puzzle>) -> bool {
    &&& forall|i: int| 0 <= i < rs.len() ==> candidate_sound(pre, e, #[trigger] rs[i])
    &&& forall|k: int, ci: int, oi: int| #[trigger] combo_covered(pre, e, k, ci, oi, rs)
}

impl Backtrackable for Puzzle {
    /// A searchable state is a well-formed board.
    open spec fn inv(&self) -> bool {
        self@.wf()
    }

    /// A state is recorded and recognised under its four hash views.
    open spec fn hash_views_set(&self) -> Set<Seq<char>> {
        self@.hash.as_set()
    }

    /// Solved means: board full and every piece placed.
    open spec fn spec_solved(&self) -> bool {
        self@.solved()
    }

    /// Each candidate places one more piece, so the unplaced count bounds the
    /// remaining depth.
    open spec fn measure(&self) -> nat {
        self@.unplaced_count()
    }

    /// The branching rule: anchor on the first empty cell in raster order;
    /// for every still-unplaced piece in catalogue order, every footprint
    /// cell taken as anchor in cell order, and every orientation in their
    /// enumeration order, keep a copy of the board on which the placement
    /// commits successfully. The returned vector is exactly that enumeration;
    /// a full board yields no candidates.
    #[verifier::loop_isolation(false)]
    fn get_next_candidates(&self) -> (r: Vec<Puzzle>)
        ensures
            self@.board_full() ==> r@.len() == 0,
            forall|e: int| self@.first_empty_at(e) ==> candidates_correct(self@, e, r@),
            forall|e: int|
                self@.first_empty_at(e) ==> candidate_views(r@) == candidates_in_order_from(
                    self@,
                    e,
                    0,
                    0,
                    0,
                ),
    {
        let ghost pre = self@;
        let empty_space_idx = self.get_next_empty_space();
        let e: usize;
        match empty_space_idx {
            None => {
                let r: Vec<Puzzle> = Vec::new();
                proof {
                    assert forall|e2: int| pre.first_empty_at(e2) implies candidates_correct(
                        pre,
                        e2,
                        r@,
                    ) && candidate_views(r@) == candidates_in_order_from(pre, e2, 0, 0, 0) by {
                        assert(pre.spaces[e2] is Some);
                    }
                }
                return r;
            },
            Some(idx) => {
                e = idx;
            },
        }
        let ghost ev = e as int;
        proof {
            assert(pre.spaces.len() <= 127 * pre.width as int) by (nonlinear_arith)
                requires
                    pre.spaces.len() == pre.height as int * pre.width as int,
                    1 <= pre.height <= 127,
                    1 <= pre.width,
            ;
        }
        let target = Location::from_index(self.width, e);
        proof {
            assert(target.x == (ev % pre.width as int) as i8);
            assert(target.y == (ev / pre.width as int) as i8);
            assert(target == pre.anchor_location(ev));
        }
        let orientations = get_all_orientations();
        let ghost full = candidates_in_order_from(pre, ev, 0, 0, 0);
        let mut candidates: Vec<Puzzle> = Vec::new();
        proof {
            assert(candidate_views(candidates@) =~= Seq::<PuzzleView>::empty());
            assert(candidate_views(candidates@) + full =~= full);
        }
        let mut k: usize = 0;
        while k < self.pieces.len()
            invariant
                k <= self.pieces.len(),
                forall|i: int|
                    0 <= i < candidates@.len() ==> {
                        &&& (#[trigger] candidates@[i])@.wf()
                        &&& candidates@[i]@.unplaced_count() < pre.unplaced_count()
                        &&& candidate_sound(pre, ev, candidates@[i])
                    },
                forall|k2: int, ci2: int, oi2: int|
                    0 <= k2 < k as int ==> #[trigger] combo_covered(
                        pre,
                        ev,
                        k2,
                        ci2,
                        oi2,
                        candidates@,
                    ),
                candidate_views(candidates@) + candidates_in_order_from(pre, ev, k as int, 0, 0)
                    == full,
            decreases self.pieces.len() - k,
        {
            if self.pieces[k].placement.is_none() {
                proof {
                    assert(pre.pieces[k as int] == self.pieces@[k as int]@);
                }
                let mut ci: usize = 0;
                while ci < self.pieces[k].locations.len()
                    invariant
                        k < self.pieces.len(),
                        ci <= self.pieces@[k as int].locations@.len(),
                        forall|i: int|
                            0 <= i < candidates@.len() ==> {
                                &&& (#[trigger] candidates@[i])@.wf()
                                &&& candidates@[i]@.unplaced_count() < pre.unplaced_count()
                                &&& candidate_sound(pre, ev, candidates@[i])
                            },
                        forall|k2: int, ci2: int, oi2: int|
                            0 <= k2 < k as int ==> #[trigger] combo_covered(
                                pre,
                                ev,
                                k2,
                                ci2,
                                oi2,
                                candidates@,
                            ),
                        forall|ci2: int, oi2: int|
                            0 <= ci2 < ci as int ==> #[trigger] combo_covered(
                                pre,
                                ev,
                                k as int,
                                ci2,
                                oi2,
                                candidates@,
                            ),
                        candidate_views(candidates@) + candidates_in_order_from(
                            pre,
                            ev,
                            k as int,
                            ci as int,
                            0,
                        ) == full,
                    decreases self.pieces@[k as int].locations@.len() - ci,
                {
                    let origin = self.pieces[k].locations[ci];
                    proof {
                        assert(pre.pieces[k as int].cells[ci as int] == origin@);
                        assert(origin == pre.combo_origin(k as int, ci as int));
                    }
                    let mut oi: usize = 0;
                    while oi < orientations.len()
                        invariant
                            k < self.pieces.len(),
                            ci < self.pieces@[k as int].locations@.len(),
                            oi <= orientations@.len(),
                            origin == pre.combo_origin(k as int, ci as int),
                            forall|i: int|
                                0 <= i < candidates@.len() ==> {
                                    &&& (#[trigger] candidates@[i])@.wf()
                                    &&& candidates@[i]@.unplaced_count() < pre.unplaced_count()
                                    &&& candidate_sound(pre, ev, candidates@[i])
                                },
                            forall|k2: int, ci2: int, oi2: int|
                                0 <= k2 < k as int ==> #[trigger] combo_covered(
                                    pre,
                                    ev,
                                    k2,
                                    ci2,
                                    oi2,
                                    candidates@,
                                ),
                            forall|ci2: int, oi2: int|
                                0 <= ci2 < ci as int ==> #[trigger] combo_covered(
                                    pre,
                                    ev,
                                    k as int,
                                    ci2,
                                    oi2,
                                    candidates@,
                                ),
                            forall|oi2: int|
                                0 <= oi2 < oi as int ==> #[trigger] combo_covered(
                                    pre,
                                    ev,
                                    k as int,
                                    ci as int,
                                    oi2,
                                    candidates@,
                                ),
                            candidate_views(candidates@) + candidates_in_order_from(
                                pre,
                                ev,
                                k as int,
                                ci as int,
                                oi as int,
                            ) == full,
                        decreases orientations@.len() - oi,
                    {
                        let placement = Placement {
                            location: target,
                            orientation: orientations[oi],
                        };
                        proof {
                            assert(placement == pre.combo_placement(ev, oi as int));
                        }
                        let mut next_candidate = self.clone();
                        let ghost prev = candidates@;
                        if next_candidate.place_piece(origin, placement, k).is_ok() {
                            proof {
                                assert(pre.combo_valid(ev, k as int, ci as int, oi as int));
                                assert(next_candidate@ == pre.combo_successor(
                                    ev,
                                    k as int,
                                    ci as int,
                                    oi as int,
                                ));
                            }
                            proof {
                                assert(candidate_sound(pre, ev, next_candidate));
                            }
                            candidates.push(next_candidate);
                            proof {
                                lemma_covered_preserved_push(pre, ev, prev, next_candidate);
                                assert(candidates@ == prev.push(next_candidate));
                                assert(candidates@[candidates@.len() - 1]@ == pre.combo_successor(
                                    ev,
                                    k as int,
                                    ci as int,
                                    oi as int,
                                ));
                                assert(combo_covered(
                                    pre,
                                    ev,
                                    k as int,
                                    ci as int,
                                    oi as int,
                                    candidates@,
                                ));
                                assert(candidates_in_order_from(pre, ev, k as int, ci as int, oi as int)
                                    == seq![pre.combo_successor(ev, k as int, ci as int, oi as int)]
                                    + candidates_in_order_from(
                                    pre,
                                    ev,
                                    k as int,
                                    ci as int,
                                    oi as int + 1,
                                ));
                                assert(candidate_views(candidates@) =~= candidate_views(prev).push(
                                    next_candidate@,
                                ));
                                assert(candidate_views(prev).push(next_candidate@)
                                    + candidates_in_order_from(pre, ev, k as int, ci as int, oi as int + 1)
                                    =~= candidate_views(prev) + candidates_in_order_from(
                                    pre,
                                    ev,
                                    k as int,
                                    ci as int,
                                    oi as int,
                                ));
                            }
                        } else {
                            proof {
                                assert(!pre.combo_valid(ev, k as int, ci as int, oi as int));
                                assert(combo_covered(
                                    pre,
                                    ev,
                                    k as int,
                                    ci as int,
                                    oi as int,
                                    candidates@,
                                ));
                                assert(candidates_in_order_from(pre, ev, k as int, ci as int, oi as int)
                                    == candidates_in_order_from(
                                    pre,
                                    ev,
                                    k as int,
                                    ci as int,
                                    oi as int + 1,
                                ));
                            }
                        }
                        oi += 1;
                    }
                    proof {
                        assert forall|oi2: int| true implies #[trigger] combo_covered(
                            pre,
                            ev,
                            k as int,
                            ci as int,
                            oi2,
                            candidates@,
                        ) by {
                            if !(0 <= oi2 < oi as int) {
                                assert(!pre.combo_valid(ev, k as int, ci as int, oi2));
                            }
                        }
                        assert(candidates_in_order_from(pre, ev, k as int, ci as int, oi as int)
                            == candidates_in_order_from(pre, ev, k as int, ci as int + 1, 0));
                    }
                    ci += 1;
                }
                proof {
                    assert forall|ci2: int, oi2: int| true implies #[trigger] combo_covered(
                        pre,
                        ev,
                        k as int,
                        ci2,
                        oi2,
                        candidates@,
                    ) by {
                        if !(0 <= ci2 < ci as int) {
                            assert(pre.pieces[k as int].cells.len()
                                == self.pieces@[k as int].locations@.len());
                            assert(!pre.combo_valid(ev, k as int, ci2, oi2));
                        }
                    }
                    assert(candidates_in_order_from(pre, ev, k as int, ci as int, 0)
                        == candidates_in_order_from(pre, ev, k as int + 1, 0, 0));
                }
            } else {
                proof {
                    assert(pre.pieces[k as int] == self.pieces@[k as int]@);
                    assert forall|ci2: int, oi2: int| true implies #[trigger] combo_covered(
                        pre,
                        ev,
                        k as int,
                        ci2,
                        oi2,
                        candidates@,
                    ) by {
                        assert(pre.pieces[k as int].placement is Some);
                        assert(!pre.combo_valid(ev, k as int, ci2, oi2));
                    }
                    assert(candidates_in_order_from(pre, ev, k as int, 0, 0)
                        == candidates_in_order_from(pre, ev, k as int + 1, 0, 0));
                }
            }
            k += 1;
        }
        proof {
            assert forall|k2: int, ci2: int, oi2: int| true implies #[trigger] combo_covered(
                pre,
                ev,
                k2,
                ci2,
                oi2,
                candidates@,
            ) by {
                if !(0 <= k2 < k as int) {
                    assert(!pre.combo_valid(ev, k2, ci2, oi2));
                }
            }
            assert(candidates_correct(pre, ev, candidates@));
            assert(candidates_in_order_from(pre, ev, k as int, 0, 0) =~= Seq::<PuzzleView>::empty());
            assert(candidate_views(candidates@) + Seq::<PuzzleView>::empty() =~= candidate_views(
                candidates@,
            ));
            assert(candidate_views(candidates@) == full);
            assert forall|e2: int| pre.first_empty_at(e2) implies candidates_correct(
                pre,
                e2,
                candidates@,
            ) && candidate_views(candidates@) == candidates_in_order_from(pre, e2, 0, 0, 0) by {
                assert(pre.first_empty_at(ev));
                lemma_first_empty_unique(pre, e2, ev);
            }
        }
        candidates
    }

    /// Whether the board is full and every piece has been placed.
    fn is_solution(&self) -> (r: bool) {
        if self.get_next_empty_space().is_some() {
            return false;
        }
        let mut k: usize = 0;
        while k < self.pieces.len()
            invariant
                k <= self.pieces.len(),
                forall|t: int|
                    0 <= t < k as int ==> (#[trigger] self.pieces@[t])@.placement is Some,
            decreases self.pieces.len() - k,
        {
            if self.pieces[k].placement.is_none() {
                proof {
                    assert(self@.pieces[k as int] == self.pieces@[k as int]@);
                }
                return false;
            }
            k += 1;
        }
        proof {
            assert forall|t: int| 0 <= t < self@.pieces.len() implies (
            #[trigger] self@.pieces[t]).placement is Some by {
                assert(self@.pieces[t] == self.pieces@[t]@);
            }
        }
        true
    }

    /// Record all four hash views of this state in the explored set.
    fn insert_explorations(&self, hash_set: &mut StringHashSet) {
        hash_set.insert(self.hash.forwards.clone());
        hash_set.insert(self.hash.rotated_180.clone());
        hash_set.insert(self.hash.mirrored_horizontally.clone());
        hash_set.insert(self.hash.mirrored_vertically.clone());
        proof {
            assert(hash_set@ =~= old(hash_set)@.union(self@.hash.as_set()));
        }
    }

    /// Whether any of the four hash views of this state is in the set.
    fn is_candidate_explored(&self, hash_set: &StringHashSet) -> (r: bool) {
        let r = hash_set.contains(self.hash.forwards.as_str()) || hash_set.contains(
            self.hash.rotated_180.as_str(),
        ) || hash_set.contains(self.hash.mirrored_horizontally.as_str()) || hash_set.contains(
            self.hash.mirrored_vertically.as_str(),
        );
        proof {
            let views = self@.hash.as_set();
            if r {
                assert(views_overlap(views, hash_set@));
            } else {
                if views_overlap(views, hash_set@) {
                    let v = choose|v: Seq<char>| views.contains(v) && hash_set@.contains(v);
                    assert(v == self@.hash.forwards || v == self@.hash.rotated_180 || v
                        == self@.hash.mirrored_horizontally || v == self@.hash.mirrored_vertically);
                    assert(false);
                }
            }
        }
        r
    }

    /// The forward rendering is always among the hash views.
    proof fn hash_views_inhabited(&self) {
        assert(self.hash_views_set().contains(self@.hash.forwards));
    }

    /// A full copy of the board state.
    fn duplicate(&self) -> (r: Puzzle) {
        self.clone()
    }
}

/// No duplicate solutions: any two states the solver has recorded have
/// unrelated hashes, in both directions of the symmetry relation.
pub proof fn lemma_solutions_pairwise_unrelated(s: &Solver<Puzzle>, i: int, j: int)
    requires
        s.inv(),
        0 <= i < s.solutions@.len(),
        0 <= j < s.solutions@.len(),
        i != j,
    ensures
        !hash_related(s.solutions@[i]@.hash, s.solutions@[j]@.hash),
        !hash_related(s.solutions@[j]@.hash, s.solutions@[i]@.hash),
{
    if i < j {
        lemma_disjoint_views_unrelated(s.solutions@[i]@.hash, s.solutions@[j]@.hash);
    } else {
        assert(s.solutions@[j].hash_views_set().disjoint(s.solutions@[i].hash_views_set()));
        assert(s.solutions@[i]@.hash.as_set().disjoint(s.solutions@[j]@.hash.as_set())) by {
            assert forall|v: Seq<char>|
                s.solutions@[i]@.hash.as_set().contains(v) implies !s.solutions@[j]@.hash.as_set()
                .contains(v) by {
                if s.solutions@[j]@.hash.as_set().contains(v) {
                    assert(s.solutions@[j].hash_views_set().contains(v));
                }
            }
        }
        lemma_disjoint_views_unrelated(s.solutions@[i]@.hash, s.solutions@[j]@.hash);
    }
}

} // verus!
