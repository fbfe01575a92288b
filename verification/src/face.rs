//! The six labelled sides of the cube and their adjacency arithmetic.
//!
//! A face is an integer label in a six-element cyclic domain; `f` and
//! `f + 3 (mod 6)` name opposite sides.  The four remaining faces are
//! adjacent to `f`; `adjacent` lists them in ascending label order and
//! `adjacent_clockwise` reorders that list so that walking it traverses
//! the ring around `f` clockwise when `f` is viewed from outside.

use vstd::prelude::*;

verus! {

/// One of the six sides of the cube, labelled 0 through 5.
#[derive(Copy, Clone, PartialEq, Eq, Structural, Hash, Debug)]
pub struct Face(pub u8);

impl Face {
    /// A face label is meaningful only when it is below 6.
    pub open spec fn wf(self) -> bool {
        self.0 < 6
    }

    /// The side diametrically opposite to this one: `f + 3 (mod 6)`.
    pub open spec fn spec_opposite(self) -> Face {
        Face(((self.0 + 3) % 6) as u8)
    }

    /// The four faces adjacent to this one, in ascending label order.
    pub open spec fn spec_adjacent(self) -> Seq<Face> {
        if self.0 == 0 {
            seq![Face(1), Face(2), Face(4), Face(5)]
        } else if self.0 == 1 {
            seq![Face(0), Face(2), Face(3), Face(5)]
        } else if self.0 == 2 {
            seq![Face(0), Face(1), Face(3), Face(4)]
        } else if self.0 == 3 {
            seq![Face(1), Face(2), Face(4), Face(5)]
        } else if self.0 == 4 {
            seq![Face(0), Face(2), Face(3), Face(5)]
        } else {
            seq![Face(0), Face(1), Face(3), Face(4)]
        }
    }

    /// The four adjacent faces in clockwise traversal order: the sorted
    /// adjacency list, reversed when the face label is even.
    pub open spec fn spec_ring(self) -> Seq<Face> {
        if self.0 == 0 {
            seq![Face(5), Face(4), Face(2), Face(1)]
        } else if self.0 == 1 {
            seq![Face(0), Face(2), Face(3), Face(5)]
        } else if self.0 == 2 {
            seq![Face(4), Face(3), Face(1), Face(0)]
        } else if self.0 == 3 {
            seq![Face(1), Face(2), Face(4), Face(5)]
        } else if self.0 == 4 {
            seq![Face(5), Face(3), Face(2), Face(0)]
        } else {
            seq![Face(0), Face(1), Face(3), Face(4)]
        }
    }

    /// Position of face `d` within this face's sorted adjacency list.
    pub open spec fn spec_adj_index(self, d: Face) -> int {
        let adj = self.spec_adjacent();
        if adj[0] == d {
            0
        } else if adj[1] == d {
            1
        } else if adj[2] == d {
            2
        } else {
            3
        }
    }

    /// Position of face `d` within this face's clockwise ring.
    pub open spec fn spec_ring_index(self, d: Face) -> int {
        let ring = self.spec_ring();
        if ring[0] == d {
            0
        } else if ring[1] == d {
            1
        } else if ring[2] == d {
            2
        } else {
            3
        }
    }

    pub fn new(value: u8) -> (r: Face)
        requires
            value < 6,
        ensures
            r == Face(value),
    {
        Face(value)
    }

    pub fn unwrap(self) -> (r: u8)
        ensures
            r == self.0,
    {
        self.0
    }

    pub fn is_even(self) -> (r: bool)
        ensures
            r == (self.0 % 2 == 0),
    {
        self.0 % 2 == 0
    }

    pub fn opposite(self) -> (r: Face)
        requires
            self.wf(),
        ensures
            r == self.spec_opposite(),
            r.wf(),
    {
        Face((self.0 + 3) % 6)
    }

    pub fn adjacent(self) -> (r: [Face; 4])
        requires
            self.wf(),
        ensures
            r@ == self.spec_adjacent(),
    {
        let r: [Face; 4] = if self.0 == 0 {
            [Face(1), Face(2), Face(4), Face(5)]
        } else if self.0 == 1 {
            [Face(0), Face(2), Face(3), Face(5)]
        } else if self.0 == 2 {
            [Face(0), Face(1), Face(3), Face(4)]
        } else if self.0 == 3 {
            [Face(1), Face(2), Face(4), Face(5)]
        } else if self.0 == 4 {
            [Face(0), Face(2), Face(3), Face(5)]
        } else {
            [Face(0), Face(1), Face(3), Face(4)]
        };
        proof {
            assert(r@ =~= self.spec_adjacent());
        }
        r
    }

    pub fn adjacent_clockwise(self) -> (r: [Face; 4])
        requires
            self.wf(),
        ensures
            r@ == self.spec_ring(),
    {
        let adjacent = self.adjacent();
        let r: [Face; 4] = if self.is_even() {
            [adjacent[3], adjacent[2], adjacent[1], adjacent[0]]
        } else {
            adjacent
        };
        proof {
            assert(r@ =~= self.spec_ring());
        }
        r
    }
}

/// Opposing is an involution: the opposite of the opposite of any face
/// is that face again.
pub proof fn lemma_opposite_involution(f: Face)
    requires
        f.wf(),
    ensures
        f.spec_opposite().spec_opposite() == f,
{
}

/// The adjacency list of any face has exactly four members, all of them
/// well-formed, pairwise distinct, and excluding both the face itself
/// and its opposite.
pub proof fn lemma_adjacent_members(f: Face)
    requires
        f.wf(),
    ensures
        f.spec_adjacent().len() == 4,
        forall|i: int| 0 <= i < 4 ==> (#[trigger] f.spec_adjacent()[i]).wf(),
        forall|i: int| 0 <= i < 4 ==> #[trigger] f.spec_adjacent()[i] != f,
        forall|i: int| 0 <= i < 4 ==> #[trigger] f.spec_adjacent()[i] != f.spec_opposite(),
        forall|i: int, j: int|
            0 <= i < 4 && 0 <= j < 4 && i != j ==> f.spec_adjacent()[i] != f.spec_adjacent()[j],
{
}

/// Any well-formed face other than `f` and its opposite appears in
/// `f`'s adjacency list.
pub proof fn lemma_adjacent_complete(f: Face, g: Face)
    requires
        f.wf(),
        g.wf(),
        g != f,
        g != f.spec_opposite(),
    ensures
        f.spec_adjacent().contains(g),
{
    assert(f.spec_adjacent()[f.spec_adj_index(g)] == g);
}

/// The clockwise ring of a face holds the same four members as its
/// adjacency list, and faces two apart on the ring are opposite.
pub proof fn lemma_ring_members(f: Face)
    requires
        f.wf(),
    ensures
        f.spec_ring().len() == 4,
        forall|i: int| 0 <= i < 4 ==> (#[trigger] f.spec_ring()[i]).wf(),
        forall|i: int| 0 <= i < 4 ==> #[trigger] f.spec_ring()[i] != f,
        forall|i: int| 0 <= i < 4 ==> #[trigger] f.spec_ring()[i] != f.spec_opposite(),
        forall|i: int, j: int|
            0 <= i < 4 && 0 <= j < 4 && i != j ==> f.spec_ring()[i] != f.spec_ring()[j],
        forall|i: int| 0 <= i < 4 ==> f.spec_ring()[(i + 2) % 4] == (
        #[trigger] f.spec_ring()[i]).spec_opposite(),
        forall|d: Face| f.spec_adjacent().contains(d) <==> f.spec_ring().contains(d),
{
    assert(f.spec_ring().len() == 4);
    assert forall|d: Face| f.spec_adjacent().contains(d) implies f.spec_ring().contains(d) by {
        let i = choose|i: int| 0 <= i < 4 && f.spec_adjacent()[i] == d;
        if f.0 % 2 == 0 {
            assert(f.spec_ring()[3 - i] == d);
        } else {
            assert(f.spec_ring()[i] == d);
        }
    }
    assert forall|d: Face| f.spec_ring().contains(d) implies f.spec_adjacent().contains(d) by {
        let i = choose|i: int| 0 <= i < 4 && f.spec_ring()[i] == d;
        if f.0 % 2 == 0 {
            assert(f.spec_adjacent()[3 - i] == d);
        } else {
            assert(f.spec_adjacent()[i] == d);
        }
    }
}

/// Faces two places apart on a ring are opposite.
pub proof fn lemma_ring_opposite_at(f: Face, k: int)
    requires
        f.wf(),
        0 <= k < 4,
    ensures
        f.spec_ring()[(k + 2) % 4] == f.spec_ring()[k].spec_opposite(),
{
}

/// Looking a ring member up by value recovers its position.
pub proof fn lemma_ring_index_inverse(f: Face, k: int)
    requires
        f.wf(),
        0 <= k < 4,
    ensures
        f.spec_ring_index(f.spec_ring()[k]) == k,
{
    lemma_ring_members(f);
}

/// `spec_ring_index` finds the position of any adjacent face on the ring.
pub proof fn lemma_ring_index(f: Face, d: Face)
    requires
        f.wf(),
        f.spec_adjacent().contains(d),
    ensures
        0 <= f.spec_ring_index(d) < 4,
        f.spec_ring()[f.spec_ring_index(d)] == d,
{
    lemma_ring_members(f);
}

} // verus!
