//! The canonical board hash: the raster-order rendering of a board together
//! with its three symmetric transforms (180-degree rotation, horizontal
//! mirror, vertical mirror). Two hashes count as equal when any view of one
//! matches the forward rendering of the other; this approximate relation is
//! what the solver uses to collapse symmetric states and solutions.

use vstd::prelude::*;

use crate::geometry::{lemma_raster_coords, lemma_raster_index};

verus! {

/// The 180-degree rotation of a raster rendering of an `h`-by-`w` board.
pub open spec fn rot180_of(s: Seq<char>, h: int, w: int) -> Seq<char> {
    Seq::new((h * w) as nat, |i: int| s[h * w - 1 - i])
}

/// The horizontal mirror (top and bottom rows swapped) of a rendering.
pub open spec fn mirror_h_of(s: Seq<char>, h: int, w: int) -> Seq<char> {
    Seq::new((h * w) as nat, |i: int| s[(h - 1 - i / w) * w + i % w])
}

/// The vertical mirror (left and right columns swapped) of a rendering.
pub open spec fn mirror_v_of(s: Seq<char>, h: int, w: int) -> Seq<char> {
    Seq::new((h * w) as nat, |i: int| s[(i / w) * w + (w - 1 - i % w)])
}

/// The mathematical value of a [`PuzzleHash`]: the four view strings as
/// character sequences.
#[verifier::ext_equal]
pub ghost struct HashViews {
    pub forwards: Seq<char>,
    pub rotated_180: Seq<char>,
    pub mirrored_horizontally: Seq<char>,
    pub mirrored_vertically: Seq<char>,
}

impl HashViews {
    /// The four views as a set, as they enter the explored-state set.
    pub open spec fn as_set(&self) -> Set<Seq<char>> {
        set![self.forwards, self.rotated_180, self.mirrored_horizontally, self.mirrored_vertically]
    }
}

/// The four views derived from a forward rendering of an `h`-by-`w` board.
pub open spec fn views_of(s: Seq<char>, h: int, w: int) -> HashViews {
    HashViews {
        forwards: s,
        rotated_180: rot180_of(s, h, w),
        mirrored_horizontally: mirror_h_of(s, h, w),
        mirrored_vertically: mirror_v_of(s, h, w),
    }
}

/// The approximate symmetry-equivalence used for deduplication: some view of
/// `a` matches the forward rendering of `b`. It is symmetric on hashes that
/// were derived from board renderings, but not transitive in general.
pub open spec fn hash_related(a: HashViews, b: HashViews) -> bool {
    ||| a.forwards == b.forwards
    ||| a.rotated_180 == b.forwards
    ||| a.mirrored_horizontally == b.forwards
    ||| a.mirrored_vertically == b.forwards
}

/// The canonical hash of a board state: the forward raster rendering and its
/// three symmetric transforms.
#[derive(Debug)]
pub struct PuzzleHash {
    pub forwards: String,
    pub rotated_180: String,
    pub mirrored_horizontally: String,
    pub mirrored_vertically: String,
}

impl View for PuzzleHash {
    type V = HashViews;

    open spec fn view(&self) -> HashViews {
        HashViews {
            forwards: self.forwards@,
            rotated_180: self.rotated_180@,
            mirrored_horizontally: self.mirrored_horizontally@,
            mirrored_vertically: self.mirrored_vertically@,
        }
    }
}

/// Relies on std's `String::push`: appends the given character to the end of
/// the string.
#[verifier::external_body]
pub(crate) fn push_char(s: &mut String, c: char)
    ensures
        final(s)@ == old(s)@.push(c),
{
    s.push(c)
}

/// The characters of a string slice, in order.
fn chars_of(s: &str) -> (v: Vec<char>)
    ensures
        v@ == s@,
{
    broadcast use vstd::string::axiom_spec_iter;

    let mut v: Vec<char> = Vec::new();
    for c in it: s.chars()
        invariant
            it.seq() == s@,
            v@ =~= it.seq().take(it.index()),
    {
        v.push(c);
    }
    proof {
        assert(v@ =~= s@);
    }
    v
}

impl PuzzleHash {
    /// Derive the three symmetric views from a forward rendering of an
    /// `height`-by-`width` board.
    pub fn new(height: usize, width: usize, forwards: String) -> (r: PuzzleHash)
        requires
            forwards@.len() == height * width,
            height * width <= usize::MAX,
        ensures
            r@ == views_of(forwards@, height as int, width as int),
            r.forwards == forwards,
    {
        let ghost s = forwards@;
        let ghost h = height as int;
        let ghost w = width as int;
        let chars = chars_of(forwards.as_str());
        let mut rotated_180 = String::new();
        let mut mirrored_horizontally = String::new();
        let mut mirrored_vertically = String::new();
        let mut y: usize = 0;
        while y < height
            invariant
                0 <= y <= height,
                forwards@ == s,
                chars@ == s,
                s.len() == h * w,
                h == height as int,
                w == width as int,
                h * w <= usize::MAX,
                rotated_180@ =~= rot180_of(s, h, w).take(y as int * w),
                mirrored_horizontally@ =~= mirror_h_of(s, h, w).take(y as int * w),
                mirrored_vertically@ =~= mirror_v_of(s, h, w).take(y as int * w),
            decreases height - y,
        {
            let mut x: usize = 0;
            proof {
                assert(y as int * w + 0 == y as int * w);
            }
            while x < width
                invariant
                    0 <= y < height,
                    0 <= x <= width,
                    forwards@ == s,
                    chars@ == s,
                    s.len() == h * w,
                    h == height as int,
                    w == width as int,
                    h * w <= usize::MAX,
                    rotated_180@ =~= rot180_of(s, h, w).take(y as int * w + x as int),
                    mirrored_horizontally@ =~= mirror_h_of(s, h, w).take(y as int * w + x as int),
                    mirrored_vertically@ =~= mirror_v_of(s, h, w).take(y as int * w + x as int),
                decreases width - x,
            {
                let ghost p = y as int * w + x as int;
                proof {
                    lemma_raster_index(x as int, y as int, w, h);
                    lemma_raster_index(w - 1 - x as int, h - 1 - y as int, w, h);
                    lemma_raster_index(x as int, h - 1 - y as int, w, h);
                    lemma_raster_index(w - 1 - x as int, y as int, w, h);
                    assert((h - 1 - y as int) * w + (w - 1 - x as int) == h * w - 1 - (y as int * w
                        + x as int)) by (nonlinear_arith);
                }
                let rotated_idx = (height - 1 - y) * width + (width - 1 - x);
                let mirrored_h_idx = (height - 1 - y) * width + x;
                let mirrored_v_idx = y * width + (width - 1 - x);
                let rotated_char = chars[rotated_idx];
                let mirrored_h_char = chars[mirrored_h_idx];
                let mirrored_v_char = chars[mirrored_v_idx];
                push_char(&mut rotated_180, rotated_char);
                push_char(&mut mirrored_horizontally, mirrored_h_char);
                push_char(&mut mirrored_vertically, mirrored_v_char);
                proof {
                    assert(rotated_char == rot180_of(s, h, w)[p]);
                    assert(mirrored_h_char == mirror_h_of(s, h, w)[p]);
                    assert(mirrored_v_char == mirror_v_of(s, h, w)[p]);
                    assert(rot180_of(s, h, w).take(p).push(rot180_of(s, h, w)[p]) =~= rot180_of(
                        s,
                        h,
                        w,
                    ).take(p + 1));
                    assert(mirror_h_of(s, h, w).take(p).push(mirror_h_of(s, h, w)[p])
                        =~= mirror_h_of(s, h, w).take(p + 1));
                    assert(mirror_v_of(s, h, w).take(p).push(mirror_v_of(s, h, w)[p])
                        =~= mirror_v_of(s, h, w).take(p + 1));
                }
                x += 1;
            }
            proof {
                assert(y as int * w + w == (y as int + 1) * w) by (nonlinear_arith);
            }
            y += 1;
        }
        proof {
            assert(rotated_180@ =~= rot180_of(s, h, w));
            assert(mirrored_horizontally@ =~= mirror_h_of(s, h, w));
            assert(mirrored_vertically@ =~= mirror_v_of(s, h, w));
        }
        let r = PuzzleHash { forwards, rotated_180, mirrored_horizontally, mirrored_vertically };
        proof {
            assert(r@ =~= views_of(s, h, w));
        }
        r
    }
}

impl Clone for PuzzleHash {
    /// An exact copy.
    fn clone(&self) -> (r: Self)
        ensures
            r == *self,
    {
        PuzzleHash {
            forwards: self.forwards.clone(),
            rotated_180: self.rotated_180.clone(),
            mirrored_horizontally: self.mirrored_horizontally.clone(),
            mirrored_vertically: self.mirrored_vertically.clone(),
        }
    }
}

impl PartialEq for PuzzleHash {
    /// The deduplication relation: some view of `self` matches the forward
    /// rendering of `other`.
    fn eq(&self, other: &Self) -> (r: bool) {
        self.forwards == other.forwards || self.rotated_180 == other.forwards
            || self.mirrored_horizontally == other.forwards || self.mirrored_vertically
            == other.forwards
    }
}

impl vstd::std_specs::cmp::PartialEqSpecImpl for PuzzleHash {
    open spec fn obeys_eq_spec() -> bool {
        true
    }

    open spec fn eq_spec(&self, other: &Self) -> bool {
        hash_related(self@, other@)
    }
}

/// Rotating a rendering twice by 180 degrees yields the rendering back.
pub proof fn lemma_rot180_involution(s: Seq<char>, h: int, w: int)
    requires
        h >= 1,
        w >= 1,
        s.len() == h * w,
    ensures
        rot180_of(rot180_of(s, h, w), h, w) == s,
{
    assert(rot180_of(rot180_of(s, h, w), h, w) =~= s);
}

/// Mirroring a rendering twice horizontally yields the rendering back.
pub proof fn lemma_mirror_h_involution(s: Seq<char>, h: int, w: int)
    requires
        h >= 1,
        w >= 1,
        s.len() == h * w,
    ensures
        mirror_h_of(mirror_h_of(s, h, w), h, w) == s,
{
    let m = mirror_h_of(s, h, w);
    assert forall|i: int| 0 <= i < h * w implies mirror_h_of(m, h, w)[i] == s[i] by {
        lemma_raster_coords(i, w, h);
        let q = (h - 1 - i / w) * w + i % w;
        lemma_raster_index(i % w, h - 1 - i / w, w, h);
        assert(m[q] == s[(h - 1 - q / w) * w + q % w]);
        assert(q / w == h - 1 - i / w && q % w == i % w);
        assert((h - 1 - q / w) * w + q % w == i);
    }
    assert(mirror_h_of(m, h, w) =~= s);
}

/// Mirroring a rendering twice vertically yields the rendering back.
pub proof fn lemma_mirror_v_involution(s: Seq<char>, h: int, w: int)
    requires
        h >= 1,
        w >= 1,
        s.len() == h * w,
    ensures
        mirror_v_of(mirror_v_of(s, h, w), h, w) == s,
{
    let m = mirror_v_of(s, h, w);
    assert forall|i: int| 0 <= i < h * w implies mirror_v_of(m, h, w)[i] == s[i] by {
        lemma_raster_coords(i, w, h);
        let q = (i / w) * w + (w - 1 - i % w);
        lemma_raster_index(w - 1 - i % w, i / w, w, h);
        assert(m[q] == s[(q / w) * w + (w - 1 - q % w)]);
        assert(q / w == i / w && q % w == w - 1 - i % w);
        assert((q / w) * w + (w - 1 - q % w) == i);
    }
    assert(mirror_v_of(m, h, w) =~= s);
}

/// Hash symmetry: the hash of a board rendering and the hash of any of its
/// three symmetric transforms are related in both directions.
pub proof fn lemma_hash_views_symmetric(s: Seq<char>, t: Seq<char>, h: int, w: int)
    requires
        h >= 1,
        w >= 1,
        s.len() == h * w,
        t == rot180_of(s, h, w) || t == mirror_h_of(s, h, w) || t == mirror_v_of(s, h, w),
    ensures
        hash_related(views_of(s, h, w), views_of(t, h, w)),
        hash_related(views_of(t, h, w), views_of(s, h, w)),
{
    if t == rot180_of(s, h, w) {
        lemma_rot180_involution(s, h, w);
    } else if t == mirror_h_of(s, h, w) {
        lemma_mirror_h_involution(s, h, w);
    } else {
        lemma_mirror_v_involution(s, h, w);
    }
}

/// Hashes whose view sets are disjoint are unrelated in either direction:
/// recorded solutions with pairwise disjoint view sets are pairwise distinct
/// under the deduplication relation.
pub proof fn lemma_disjoint_views_unrelated(a: HashViews, b: HashViews)
    requires
        a.as_set().disjoint(b.as_set()),
    ensures
        !hash_related(a, b),
        !hash_related(b, a),
{
    assert(a.as_set().contains(a.forwards));
    assert(b.as_set().contains(b.forwards));
    assert(a.as_set().contains(a.rotated_180));
    assert(a.as_set().contains(a.mirrored_horizontally));
    assert(a.as_set().contains(a.mirrored_vertically));
    assert(b.as_set().contains(b.rotated_180));
    assert(b.as_set().contains(b.mirrored_horizontally));
    assert(b.as_set().contains(b.mirrored_vertically));
}

} // verus!
