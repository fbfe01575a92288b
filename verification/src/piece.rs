//! A cubie: the pairing of a colour identity with the slot it occupies.
//!
//! Both halves are face tuples that are kept co-indexed: entry `i` of
//! `id` is the colour showing on face `pos[i]`.  Whenever the identity
//! tuple changes it is re-sorted into ascending order, with the slot
//! tuple carried along by the same permutation, so that physically
//! identical pieces compare equal no matter how they were built.

use vstd::prelude::*;
use crate::face::Face;
use crate::face::lemma_adjacent_complete;
use crate::position::Pos;
use crate::position::Projection;
use crate::position::projection;
use crate::position::spec_projection;
use crate::position::spec_remap_seq;

verus! {

broadcast use vstd::array::group_array_axioms;

/// The mathematical shadow of a piece: its two face tuples as sequences.
#[verifier::ext_equal]
pub ghost struct PieceV {
    pub id: Seq<Face>,
    pub pos: Seq<Face>,
}

/// Entries of a face tuple are valid labels, pairwise distinct, and no
/// two of them name opposite sides.
pub open spec fn faces_wf(s: Seq<Face>) -> bool {
    &&& forall|i: int| 0 <= i < s.len() ==> (#[trigger] s[i]).wf()
    &&& forall|i: int, j: int|
        #![trigger s[i], s[j]]
        0 <= i < s.len() && 0 <= j < s.len() && i != j ==> s[i] != s[j] && s[i]
            != s[j].spec_opposite()
}

impl PieceV {
    /// Both tuples have length `n` and are well-formed face tuples.
    pub open spec fn wf(self, n: int) -> bool {
        &&& self.id.len() == n
        &&& self.pos.len() == n
        &&& faces_wf(self.id)
        &&& faces_wf(self.pos)
    }
}

/// Two co-indexed pairs reordered so the `id` half ascends.
pub open spec fn resort2(id: Seq<Face>, pos: Seq<Face>) -> PieceV {
    if id[0].0 <= id[1].0 {
        PieceV { id: id, pos: pos }
    } else {
        PieceV { id: seq![id[1], id[0]], pos: seq![pos[1], pos[0]] }
    }
}

/// Three co-indexed pairs reordered by a fixed network of
/// compare-and-swap steps keyed on the `id` half.
pub open spec fn resort3(id: Seq<Face>, pos: Seq<Face>) -> PieceV {
    let a = if id[0].0 <= id[1].0 {
        PieceV { id: id, pos: pos }
    } else {
        PieceV { id: seq![id[1], id[0], id[2]], pos: seq![pos[1], pos[0], pos[2]] }
    };
    let b = if a.id[1].0 <= a.id[2].0 {
        a
    } else {
        PieceV {
            id: seq![a.id[0], a.id[2], a.id[1]],
            pos: seq![a.pos[0], a.pos[2], a.pos[1]],
        }
    };
    if b.id[0].0 <= b.id[1].0 {
        b
    } else {
        PieceV {
            id: seq![b.id[1], b.id[0], b.id[2]],
            pos: seq![b.pos[1], b.pos[0], b.pos[2]],
        }
    }
}

impl Face {
    /// The four edge pieces that touch this face on a solved cube, in
    /// adjacency order.
    pub fn adjacent_edges(self) -> (r: [Edge; 4])
        requires
            self.wf(),
        ensures
            forall|i: int|
                0 <= i < 4 ==> (#[trigger] r@[i])@ == resort2(
                    seq![self.spec_adjacent()[i], self],
                    seq![self.spec_adjacent()[i], self],
                ),
    {
        let adjacent = self.adjacent();
        let r: [Edge; 4] = [
            Piece::new_edge(adjacent[0], self),
            Piece::new_edge(adjacent[1], self),
            Piece::new_edge(adjacent[2], self),
            Piece::new_edge(adjacent[3], self),
        ];
        r
    }

    /// The four corner pieces that touch this face on a solved cube,
    /// one for each neighbouring pair of ring faces.
    pub fn adjacent_corners(self) -> (r: [Corner; 4])
        requires
            self.wf(),
        ensures
            forall|i: int|
                0 <= i < 4 ==> (#[trigger] r@[i])@ == resort3(
                    seq![
                        self,
                        self.spec_adjacent()[i],
                        self.spec_adjacent()[(i + 1) % 4],
                    ],
                    seq![
                        self,
                        self.spec_adjacent()[i],
                        self.spec_adjacent()[(i + 1) % 4],
                    ],
                ),
    {
        let adjacent = self.adjacent();
        let r: [Corner; 4] = [
            Piece::new_corner(self, adjacent[0], adjacent[1]),
            Piece::new_corner(self, adjacent[1], adjacent[2]),
            Piece::new_corner(self, adjacent[2], adjacent[3]),
            Piece::new_corner(self, adjacent[3], adjacent[0]),
        ];
        r
    }
}

/// An edge re-read in another orientation: both tuples remapped, then
/// the canonical identity order restored.
pub open spec fn edge_transposed_v(p: PieceV, from: Seq<Face>, to: Seq<Face>) -> PieceV {
    resort2(spec_remap_seq(p.id, from, to), spec_remap_seq(p.pos, from, to))
}

/// A corner re-read in another orientation: both tuples remapped, then
/// the canonical identity order restored.
pub open spec fn corner_transposed_v(p: PieceV, from: Seq<Face>, to: Seq<Face>) -> PieceV {
    resort3(spec_remap_seq(p.id, from, to), spec_remap_seq(p.pos, from, to))
}

/// One physical cubie: colour identity `id` and occupied slot `pos`,
/// co-indexed entry by entry (`N = 2` for edges, `N = 3` for corners).
#[derive(Copy, Clone, Hash, Debug)]
pub struct Piece<const N: usize> {
    pub id: Pos<N>,
    pub pos: Pos<N>,
}

pub type Edge = Piece<2>;

pub type Corner = Piece<3>;

impl<const N: usize> View for Piece<N> {
    type V = PieceV;

    open spec fn view(&self) -> PieceV {
        PieceV { id: self.id@, pos: self.pos@ }
    }
}

impl<const N: usize> PartialEq for Piece<N> {
    fn eq(&self, other: &Self) -> (r: bool) {
        self.id == other.id && self.pos == other.pos
    }
}

impl<const N: usize> Eq for Piece<N> {}

impl<const N: usize> vstd::std_specs::cmp::PartialEqSpecImpl for Piece<N> {
    open spec fn obeys_eq_spec() -> bool {
        true
    }

    open spec fn eq_spec(&self, other: &Self) -> bool {
        self.id == other.id && self.pos == other.pos
    }
}

impl<const N: usize> Piece<N> {
    pub fn id(&self) -> (r: &Pos<N>)
        ensures
            *r == self.id,
    {
        &self.id
    }

    pub fn pos(&self) -> (r: &Pos<N>)
        ensures
            *r == self.pos,
    {
        &self.pos
    }

    /// Whether the piece currently touches `face`.
    pub fn is_on(&self, face: Face) -> (r: bool)
        ensures
            r == self.pos@.contains(face),
    {
        self.pos.has(face)
    }

    /// The colour that shows on `face`, which must be one of the faces
    /// the piece currently occupies; anything else is a defect in the
    /// caller, not an input to handle.
    pub fn id_on(&self, face: Face) -> (r: Face)
        requires
            self.pos@.contains(face),
        ensures
            exists|i: int| 0 <= i < N && self.pos@[i] == face && r == self.id@[i],
            faces_wf(self.pos@) ==> forall|i: int|
                0 <= i < N && self.pos@[i] == face ==> r == self.id@[i],
    {
        let mut i: usize = 0;
        while i < N
            invariant
                0 <= i <= N,
                self.pos@.contains(face),
                forall|j: int| 0 <= j < i ==> self.pos@[j] != face,
            decreases N - i,
        {
            if self.pos.0[i] == face {
                return self.id.0[i];
            }
            i += 1;
        }
        proof {
            assert(forall|j: int| 0 <= j < N ==> self.pos@[j] != face);
            assert(false);
        }
        Face(0)
    }

    /// A piece is solved when every colour rests on the like-named face.
    pub fn is_solved(&self) -> (r: bool)
        ensures
            r == (self.id == self.pos),
    {
        self.id == self.pos
    }

    /// Remaps the occupied slot from one viewing orientation to another;
    /// the colour identity is fixed to the piece and never moves.
    pub fn transpose_pos(&mut self, from: Pos<2>, to: Pos<2>)
        requires
            from.wf(),
            to.wf(),
        ensures
            final(self).id == old(self).id,
            final(self).pos@ == spec_remap_seq(
                old(self).pos@,
                spec_projection(from@[0], from@[1]),
                spec_projection(to@[0], to@[1]),
            ),
    {
        proof {
            lemma_adjacent_complete(from@[0], from@[1]);
            lemma_adjacent_complete(to@[0], to@[1]);
        }
        let pf = projection(from);
        let pt = projection(to);
        self.pos.transpose_with_projection(pf, pt);
    }
}

impl Piece<2> {
    /// Stores the two co-indexed tuples, then sorts them together so
    /// the identity ascends.
    pub fn new(id: Pos<2>, pos: Pos<2>) -> (r: Self)
        ensures
            r@ =~= resort2(id@, pos@),
    {
        let mut piece = Piece { id, pos };
        piece.resort();
        piece
    }

    /// An edge whose identity and slot both read `(a, b)`.
    pub fn new_edge(a: Face, b: Face) -> (r: Self)
        ensures
            r@ =~= resort2(seq![a, b], seq![a, b]),
    {
        let p = Pos([a, b]);
        proof {
            assert(p@ =~= seq![a, b]);
        }
        Self::new(p, p)
    }

    fn resort(&mut self)
        ensures
            final(self)@ =~= resort2(old(self).id@, old(self).pos@),
    {
        if self.id.0[0].0 <= self.id.0[1].0 {
        } else {
            self.id = Pos([self.id.0[1], self.id.0[0]]);
            self.pos = Pos([self.pos.0[1], self.pos.0[0]]);
        }
    }

    /// Whether the piece's colour identity is `id`, in any storage
    /// order.
    pub fn has_id(&self, id: Pos<2>) -> (r: bool)
        ensures
            r == (crate::position::sort2(self.id@) == crate::position::sort2(id@)),
    {
        let a = self.id.sorted();
        let b = id.sorted();
        let r = a == b;
        proof {
            if a@ == b@ {
                assert(a.0 =~= b.0);
            }
        }
        r
    }

    /// Whether `face` is one of the piece's colours.
    pub fn id_contains(&self, face: Face) -> (r: bool)
        ensures
            r == self.id@.contains(face),
    {
        self.id.has(face)
    }

    /// The slot face other than `face`; the piece must touch `face`.
    pub fn position_without(&self, face: Face) -> (r: Face)
        requires
            self.pos@.contains(face),
            self.pos@[0] != self.pos@[1],
        ensures
            r == if self.pos@[0] == face {
                self.pos@[1]
            } else {
                self.pos@[0]
            },
    {
        let v = self.pos.without(face);
        v[0]
    }

    /// The raw face tuples, identity first: `[[id..], [pos..]]`.
    pub fn as_ruby(&self) -> (r: [[Face; 2]; 2])
        ensures
            r@.len() == 2 && r@[0] == self.id.0 && r@[1] == self.pos.0,
    {
        let r = [self.id.0, self.pos.0];
        proof {
            assert(r@ =~= seq![self.id.0, self.pos.0]);
        }
        r
    }

    /// Whether the piece's slot is `position`, in any storage order.
    pub fn is_at(&self, position: Pos<2>) -> (r: bool)
        ensures
            r == (crate::position::sort2(self.pos@) == crate::position::sort2(position@)),
    {
        let a = self.pos.sorted();
        let b = position.sorted();
        let r = a == b;
        proof {
            if a@ == b@ {
                assert(a.0 =~= b.0);
            }
        }
        r
    }

    /// Remaps both identity and slot into another orientation, then
    /// restores the canonical identity order.
    pub fn transpose_with_projection(&mut self, from: Projection, to: Projection)
        ensures
            final(self)@ =~= resort2(
                spec_remap_seq(old(self).id@, from@, to@),
                spec_remap_seq(old(self).pos@, from@, to@),
            ),
    {
        self.id.transpose_with_projection(from, to);
        self.pos.transpose_with_projection(from, to);
        self.resort();
    }

    /// The same remapping on a copy, leaving this piece untouched.
    pub fn transposed(&self, from: Pos<2>, to: Pos<2>) -> (r: Self)
        requires
            from.wf(),
            to.wf(),
        ensures
            r@ =~= resort2(
                spec_remap_seq(
                    self.id@,
                    spec_projection(from@[0], from@[1]),
                    spec_projection(to@[0], to@[1]),
                ),
                spec_remap_seq(
                    self.pos@,
                    spec_projection(from@[0], from@[1]),
                    spec_projection(to@[0], to@[1]),
                ),
            ),
    {
        proof {
            lemma_adjacent_complete(from@[0], from@[1]);
            lemma_adjacent_complete(to@[0], to@[1]);
        }
        let pf = projection(from);
        let pt = projection(to);
        let mut copy = *self;
        copy.transpose_with_projection(pf, pt);
        copy
    }
}

impl Piece<3> {
    /// Stores the three co-indexed tuples, then sorts them together so
    /// the identity ascends.
    pub fn new(id: Pos<3>, pos: Pos<3>) -> (r: Self)
        ensures
            r@ =~= resort3(id@, pos@),
    {
        let mut piece = Piece { id, pos };
        piece.resort();
        piece
    }

    /// A corner whose identity and slot both read `(a, b, c)`.
    pub fn new_corner(a: Face, b: Face, c: Face) -> (r: Self)
        ensures
            r@ =~= resort3(seq![a, b, c], seq![a, b, c]),
    {
        let p = Pos([a, b, c]);
        proof {
            assert(p@ =~= seq![a, b, c]);
        }
        Self::new(p, p)
    }

    fn resort(&mut self)
        ensures
            final(self)@ =~= resort3(old(self).id@, old(self).pos@),
    {
        if self.id.0[0].0 <= self.id.0[1].0 {
        } else {
            self.id = Pos([self.id.0[1], self.id.0[0], self.id.0[2]]);
            self.pos = Pos([self.pos.0[1], self.pos.0[0], self.pos.0[2]]);
        }
        if self.id.0[1].0 <= self.id.0[2].0 {
        } else {
            self.id = Pos([self.id.0[0], self.id.0[2], self.id.0[1]]);
            self.pos = Pos([self.pos.0[0], self.pos.0[2], self.pos.0[1]]);
        }
        if self.id.0[0].0 <= self.id.0[1].0 {
        } else {
            self.id = Pos([self.id.0[1], self.id.0[0], self.id.0[2]]);
            self.pos = Pos([self.pos.0[1], self.pos.0[0], self.pos.0[2]]);
        }
    }

    /// The two slot faces other than `face`, in storage order; the
    /// piece must touch `face`.
    pub fn position_without(&self, face: Face) -> (r: (Face, Face))
        requires
            self.pos@.contains(face),
            self.pos@[0] != self.pos@[1] && self.pos@[0] != self.pos@[2] && self.pos@[1]
                != self.pos@[2],
        ensures
            seq![r.0, r.1] == if self.pos@[0] == face {
                seq![self.pos@[1], self.pos@[2]]
            } else if self.pos@[1] == face {
                seq![self.pos@[0], self.pos@[2]]
            } else {
                seq![self.pos@[0], self.pos@[1]]
            },
    {
        let v = self.pos.without(face);
        let r = (v[0], v[1]);
        proof {
            assert(seq![r.0, r.1] =~= v@);
        }
        r
    }

    /// The raw face tuples, identity first: `[[id..], [pos..]]`.
    pub fn as_ruby(&self) -> (r: [[Face; 3]; 2])
        ensures
            r@.len() == 2 && r@[0] == self.id.0 && r@[1] == self.pos.0,
    {
        let r = [self.id.0, self.pos.0];
        proof {
            assert(r@ =~= seq![self.id.0, self.pos.0]);
        }
        r
    }

    /// Whether the piece's slot is `position`, in any storage order.
    pub fn is_at(&self, position: Pos<3>) -> (r: bool)
        ensures
            r == (crate::position::sort3(self.pos@) == crate::position::sort3(position@)),
    {
        let a = self.pos.sorted();
        let b = position.sorted();
        let r = a == b;
        proof {
            if a@ == b@ {
                assert(a.0 =~= b.0);
            }
        }
        r
    }

    /// Remaps both identity and slot into another orientation, then
    /// restores the canonical identity order.
    pub fn transpose_with_projection(&mut self, from: Projection, to: Projection)
        ensures
            final(self)@ =~= resort3(
                spec_remap_seq(old(self).id@, from@, to@),
                spec_remap_seq(old(self).pos@, from@, to@),
            ),
    {
        self.id.transpose_with_projection(from, to);
        self.pos.transpose_with_projection(from, to);
        self.resort();
    }

    /// The same remapping on a copy, leaving this piece untouched.
    pub fn transposed(&self, from: Pos<2>, to: Pos<2>) -> (r: Self)
        requires
            from.wf(),
            to.wf(),
        ensures
            r@ =~= resort3(
                spec_remap_seq(
                    self.id@,
                    spec_projection(from@[0], from@[1]),
                    spec_projection(to@[0], to@[1]),
                ),
                spec_remap_seq(
                    self.pos@,
                    spec_projection(from@[0], from@[1]),
                    spec_projection(to@[0], to@[1]),
                ),
            ),
    {
        proof {
            lemma_adjacent_complete(from@[0], from@[1]);
            lemma_adjacent_complete(to@[0], to@[1]);
        }
        let pf = projection(from);
        let pt = projection(to);
        let mut copy = *self;
        copy.transpose_with_projection(pf, pt);
        copy
    }
}

} // verus!
