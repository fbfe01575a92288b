//! Ordered tuples of faces naming a physical slot (or a piece's colour
//! identity), and the projection machinery that remaps faces between
//! two `(front, down)` viewing orientations.

use vstd::prelude::*;
use crate::face::Face;
use crate::face::lemma_ring_members;
use crate::face::lemma_ring_index;

verus! {

broadcast use vstd::array::group_array_axioms;

/// The canonical ordering of all six faces as seen from one viewing
/// orientation: `[front, ring0, down, ring2, ring3, back]`.
pub type Projection = [Face; 6];

/// An ordered tuple of `N` faces (`N = 2` for edges, `N = 3` for corners).
#[derive(Copy, Clone, Hash, Debug)]
pub struct Pos<const N: usize>(pub [Face; N]);

impl<const N: usize> View for Pos<N> {
    type V = Seq<Face>;

    open spec fn view(&self) -> Seq<Face> {
        self.0@
    }
}

impl<const N: usize> PartialEq for Pos<N> {
    fn eq(&self, other: &Self) -> (r: bool) {
        let mut i: usize = 0;
        while i < N
            invariant
                0 <= i <= N,
                forall|j: int| 0 <= j < i ==> self.0@[j] == other.0@[j],
            decreases N - i,
        {
            if self.0[i] != other.0[i] {
                return false;
            }
            i += 1;
        }
        proof {
            assert(self.0@ =~= other.0@);
            assert(self.0 =~= other.0);
        }
        true
    }
}

impl<const N: usize> Eq for Pos<N> {}

impl<const N: usize> vstd::std_specs::cmp::PartialEqSpecImpl for Pos<N> {
    open spec fn obeys_eq_spec() -> bool {
        true
    }

    open spec fn eq_spec(&self, other: &Self) -> bool {
        self.0 == other.0
    }
}

impl<const N: usize> Pos<N> {
    /// Entries are valid face labels, pairwise distinct, and no two of
    /// them name opposite sides of the cube.
    pub open spec fn wf(self) -> bool {
        &&& forall|i: int| 0 <= i < N ==> (#[trigger] self@[i]).wf()
        &&& forall|i: int, j: int|
            #![trigger self@[i], self@[j]]
            0 <= i < N && 0 <= j < N && i != j ==> self@[i] != self@[j] && self@[i]
                != self@[j].spec_opposite()
    }

    /// Read access to the faces of the tuple, in storage order.
    pub fn iter(&self) -> (r: &[Face])
        ensures
            r@ == self@,
    {
        self.0.as_slice()
    }

    pub fn has(self, face: Face) -> (r: bool)
        ensures
            r == self@.contains(face),
    {
        let mut i: usize = 0;
        while i < N
            invariant
                0 <= i <= N,
                forall|j: int| 0 <= j < i ==> self@[j] != face,
            decreases N - i,
        {
            if self.0[i] == face {
                return true;
            }
            i += 1;
        }
        false
    }
}

/// A two-face tuple reordered so the smaller label comes first.
pub open spec fn sort2(s: Seq<Face>) -> Seq<Face> {
    if s[0].0 <= s[1].0 {
        s
    } else {
        seq![s[1], s[0]]
    }
}

/// A three-face tuple reordered into ascending label order by a fixed
/// network of compare-and-swap steps.
pub open spec fn sort3(s: Seq<Face>) -> Seq<Face> {
    let a = if s[0].0 <= s[1].0 {
        s
    } else {
        seq![s[1], s[0], s[2]]
    };
    let b = if a[1].0 <= a[2].0 {
        a
    } else {
        seq![a[0], a[2], a[1]]
    };
    if b[0].0 <= b[1].0 {
        b
    } else {
        seq![b[1], b[0], b[2]]
    }
}

impl Pos<2> {
    pub fn sorted(self) -> (r: Self)
        ensures
            r@ == sort2(self@),
    {
        let r = if self.0[0].0 <= self.0[1].0 {
            self
        } else {
            Pos([self.0[1], self.0[0]])
        };
        proof {
            assert(r@ =~= sort2(self@));
        }
        r
    }

    /// The entry other than `face`.
    pub fn without(&self, face: Face) -> (r: Vec<Face>)
        requires
            self@.contains(face),
            self@[0] != self@[1],
        ensures
            r@.len() == 1,
            r@[0] == if self@[0] == face {
                self@[1]
            } else {
                self@[0]
            },
            self@.contains(r@[0]),
            r@[0] != face,
    {
        let mut v: Vec<Face> = Vec::new();
        if self.0[0] == face {
            v.push(self.0[1]);
        } else {
            v.push(self.0[0]);
        }
        v
    }
}

impl Pos<3> {
    pub fn sorted(self) -> (r: Self)
        ensures
            r@ == sort3(self@),
    {
        let mut a = self.0;
        if a[0].0 <= a[1].0 {
        } else {
            a = [a[1], a[0], a[2]];
        }
        if a[1].0 <= a[2].0 {
        } else {
            a = [a[0], a[2], a[1]];
        }
        if a[0].0 <= a[1].0 {
        } else {
            a = [a[1], a[0], a[2]];
        }
        proof {
            assert(a@ =~= sort3(self@));
        }
        Pos(a)
    }

    /// The two entries other than `face`, in storage order.
    pub fn without(&self, face: Face) -> (r: Vec<Face>)
        requires
            self@.contains(face),
            self@[0] != self@[1] && self@[0] != self@[2] && self@[1] != self@[2],
        ensures
            r@.len() == 2,
            r@ == if self@[0] == face {
                seq![self@[1], self@[2]]
            } else if self@[1] == face {
                seq![self@[0], self@[2]]
            } else {
                seq![self@[0], self@[1]]
            },
            self@.contains(r@[0]) && self@.contains(r@[1]),
            r@[0] != face && r@[1] != face,
    {
        let mut v: Vec<Face> = Vec::new();
        if self.0[0] == face {
            v.push(self.0[1]);
            v.push(self.0[2]);
        } else if self.0[1] == face {
            v.push(self.0[0]);
            v.push(self.0[2]);
        } else {
            v.push(self.0[0]);
            v.push(self.0[1]);
        }
        proof {
            assert(v@ =~= if self@[0] == face {
                seq![self@[1], self@[2]]
            } else if self@[1] == face {
                seq![self@[0], self@[2]]
            } else {
                seq![self@[0], self@[1]]
            });
        }
        v
    }
}

/// The projection determined by a `(front, down)` pair: the clockwise
/// ring of `front` is rotated so `down` sits at position 2, and the pair
/// is framed by `front` at position 0 and its opposite at position 5.
pub open spec fn spec_projection(front: Face, down: Face) -> Seq<Face> {
    let ring = front.spec_ring();
    let i = front.spec_ring_index(down);
    seq![
        front,
        ring[(i + 3) % 4],
        ring[i],
        ring[(i + 1) % 4],
        ring[(i + 2) % 4],
        front.spec_opposite(),
    ]
}

/// Builds the projection of the orientation whose front is
/// `position[0]` and whose down is `position[1]`.
pub fn projection(position: Pos<2>) -> (r: Projection)
    requires
        position@[0].wf(),
        position@[0].spec_adjacent().contains(position@[1]),
    ensures
        r@ == spec_projection(position@[0], position@[1]),
{
    let front = position.0[0];
    let down = position.0[1];
    let ring = front.adjacent_clockwise();
    proof {
        lemma_ring_members(front);
        lemma_ring_index(front, down);
    }
    let index: usize = if ring[0] == down {
        0
    } else if ring[1] == down {
        1
    } else if ring[2] == down {
        2
    } else {
        3
    };
    let r: Projection = [
        front,
        ring[(index + 3) % 4],
        ring[index],
        ring[(index + 1) % 4],
        ring[(index + 2) % 4],
        front.opposite(),
    ];
    proof {
        assert(r@ =~= spec_projection(position@[0], position@[1]));
    }
    r
}

/// Position of face `g` in the six-face list `s`, by first match.
pub open spec fn proj_find(s: Seq<Face>, g: Face) -> int {
    if s[0] == g {
        0
    } else if s[1] == g {
        1
    } else if s[2] == g {
        2
    } else if s[3] == g {
        3
    } else if s[4] == g {
        4
    } else {
        5
    }
}

/// The face that `g` becomes when the orientation described by `from`
/// is re-read in the orientation described by `to`: the entry of `to`
/// co-indexed with `g`'s entry in `from`.
pub open spec fn spec_remap(g: Face, from: Seq<Face>, to: Seq<Face>) -> Face {
    to[proj_find(from, g)]
}

/// Every face tuple remapped entrywise.
pub open spec fn spec_remap_seq(s: Seq<Face>, from: Seq<Face>, to: Seq<Face>) -> Seq<Face> {
    s.map_values(|g: Face| spec_remap(g, from, to))
}

impl Face {
    pub fn transpose_with_projection(&mut self, from: Projection, to: Projection)
        ensures
            *final(self) == spec_remap(*old(self), from@, to@),
    {
        let index: usize = if from[0] == *self {
            0
        } else if from[1] == *self {
            1
        } else if from[2] == *self {
            2
        } else if from[3] == *self {
            3
        } else if from[4] == *self {
            4
        } else {
            5
        };
        *self = to[index];
    }
}

impl<const N: usize> Pos<N> {
    pub fn transpose_with_projection(&mut self, from: Projection, to: Projection)
        ensures
            final(self)@ == spec_remap_seq(old(self)@, from@, to@),
    {
        let ghost orig = self@;
        let mut i: usize = 0;
        while i < N
            invariant
                0 <= i <= N,
                self@.len() == N,
                orig.len() == N,
                forall|j: int| i <= j < N ==> self@[j] == orig[j],
                forall|j: int| 0 <= j < i ==> self@[j] == spec_remap(orig[j], from@, to@),
            decreases N - i,
        {
            let mut f = self.0[i];
            f.transpose_with_projection(from, to);
            self.0[i] = f;
            i += 1;
        }
        proof {
            assert(self@ =~= spec_remap_seq(orig, from@, to@));
        }
    }
}

/// A well-formed projection mentions every well-formed face.
#[verifier::rlimit(50)]
pub proof fn lemma_projection_complete(front: Face, down: Face, g: Face)
    requires
        front.wf(),
        front.spec_adjacent().contains(down),
        g.wf(),
    ensures
        exists|k: int| 0 <= k < 6 && spec_projection(front, down)[k] == g,
{
    let proj = spec_projection(front, down);
    let ring = front.spec_ring();
    let i = front.spec_ring_index(down);
    lemma_ring_members(front);
    lemma_ring_index(front, down);
    if g == front {
        assert(proj[0] == g);
    } else if g == front.spec_opposite() {
        assert(proj[5] == g);
    } else {
        crate::face::lemma_adjacent_complete(front, g);
        assert(ring.contains(g));
        let j = choose|j: int| 0 <= j < 4 && ring[j] == g;
        if j == (i + 3) % 4 {
            assert(proj[1] == g);
        } else if j == i {
            assert(proj[2] == g);
        } else if j == (i + 1) % 4 {
            assert(proj[3] == g);
        } else {
            assert(j == (i + 2) % 4);
            assert(proj[4] == g);
        }
    }
}

/// `projection(f, d)` starts with `f` and ends with `f`'s opposite.
pub proof fn lemma_projection_ends(front: Face, down: Face)
    requires
        front.wf(),
        front.spec_adjacent().contains(down),
    ensures
        spec_projection(front, down).len() == 6,
        spec_projection(front, down)[0] == front,
        spec_projection(front, down)[2] == down,
        spec_projection(front, down)[5] == front.spec_opposite(),
{
    lemma_ring_index(front, down);
}


/// A projection's six entries are well-formed and pairwise distinct,
/// and entries at positions `(0,5)`, `(1,3)` and `(2,4)` are opposite
/// faces.
#[verifier::rlimit(100)]
pub proof fn lemma_projection_pairs(front: Face, down: Face)
    requires
        front.wf(),
        front.spec_adjacent().contains(down),
    ensures
        forall|k: int| 0 <= k < 6 ==> (#[trigger] spec_projection(front, down)[k]).wf(),
        forall|k1: int, k2: int|
            #![trigger spec_projection(front, down)[k1], spec_projection(front, down)[k2]]
            0 <= k1 < 6 && 0 <= k2 < 6 && k1 != k2 ==> spec_projection(front, down)[k1]
                != spec_projection(front, down)[k2],
        spec_projection(front, down)[0].spec_opposite() == spec_projection(front, down)[5],
        spec_projection(front, down)[5].spec_opposite() == spec_projection(front, down)[0],
        spec_projection(front, down)[1].spec_opposite() == spec_projection(front, down)[3],
        spec_projection(front, down)[3].spec_opposite() == spec_projection(front, down)[1],
        spec_projection(front, down)[2].spec_opposite() == spec_projection(front, down)[4],
        spec_projection(front, down)[4].spec_opposite() == spec_projection(front, down)[2],
{
    let ring = front.spec_ring();
    let i = front.spec_ring_index(down);
    lemma_ring_members(front);
    lemma_ring_index(front, down);
    assert(((i + 3) % 4 + 2) % 4 == (i + 1) % 4);
    assert(((i + 1) % 4 + 2) % 4 == (i + 3) % 4);
    assert((i + 2) % 4 == ((i + 2) % 4 + 2 + 2) % 4);
    assert(ring[(i + 3) % 4].spec_opposite() == ring[(i + 1) % 4]);
    assert(ring[(i + 1) % 4].spec_opposite() == ring[(i + 3) % 4]);
    assert(ring[i].spec_opposite() == ring[(i + 2) % 4]);
    assert(ring[(i + 2) % 4].spec_opposite() == ring[((i + 2) % 4 + 2) % 4]);
    assert(((i + 2) % 4 + 2) % 4 == i);
}

/// The first-match index really finds any face a projection mentions.
pub proof fn lemma_proj_find_hits(front: Face, down: Face, g: Face)
    requires
        front.wf(),
        front.spec_adjacent().contains(down),
        g.wf(),
    ensures
        0 <= proj_find(spec_projection(front, down), g) < 6,
        spec_projection(front, down)[proj_find(spec_projection(front, down), g)] == g,
{
    lemma_projection_complete(front, down, g);
}

/// Remapping a well-formed face between two well-formed orientations
/// yields a well-formed face, and remapping commutes with taking the
/// opposite face.
#[verifier::rlimit(100)]
pub proof fn lemma_remap_props(f1: Face, d1: Face, f2: Face, d2: Face, g: Face)
    requires
        f1.wf(),
        f1.spec_adjacent().contains(d1),
        f2.wf(),
        f2.spec_adjacent().contains(d2),
        g.wf(),
    ensures
        spec_remap(g, spec_projection(f1, d1), spec_projection(f2, d2)).wf(),
        spec_remap(g.spec_opposite(), spec_projection(f1, d1), spec_projection(f2, d2))
            == spec_remap(g, spec_projection(f1, d1), spec_projection(f2, d2)).spec_opposite(),
{
    let from = spec_projection(f1, d1);
    let to = spec_projection(f2, d2);
    lemma_projection_pairs(f1, d1);
    lemma_projection_pairs(f2, d2);
    lemma_proj_find_hits(f1, d1, g);
    crate::face::lemma_ring_members(f1);
    assert(g.spec_opposite().wf());
    lemma_proj_find_hits(f1, d1, g.spec_opposite());
    let k = proj_find(from, g);
    let k2 = proj_find(from, g.spec_opposite());
    assert(from[k] == g && from[k2] == g.spec_opposite());
    assert(g.spec_opposite() != g);
    assert(from[k].spec_opposite() == from[if k == 0 {
        5int
    } else if k == 5 {
        0int
    } else if k == 1 {
        3int
    } else if k == 3 {
        1int
    } else if k == 2 {
        4int
    } else {
        2int
    }]);
}

/// Distinct faces stay distinct under remapping.
#[verifier::rlimit(100)]
pub proof fn lemma_remap_injective(f1: Face, d1: Face, f2: Face, d2: Face, g1: Face, g2: Face)
    requires
        f1.wf(),
        f1.spec_adjacent().contains(d1),
        f2.wf(),
        f2.spec_adjacent().contains(d2),
        g1.wf(),
        g2.wf(),
        g1 != g2,
    ensures
        spec_remap(g1, spec_projection(f1, d1), spec_projection(f2, d2)) != spec_remap(
            g2,
            spec_projection(f1, d1),
            spec_projection(f2, d2),
        ),
{
    lemma_projection_pairs(f1, d1);
    lemma_projection_pairs(f2, d2);
    lemma_proj_find_hits(f1, d1, g1);
    lemma_proj_find_hits(f1, d1, g2);
}

/// Remapping sends the old orientation's front and down to the new
/// orientation's front and down.
#[verifier::rlimit(100)]
pub proof fn lemma_remap_pair(f1: Face, d1: Face, f2: Face, d2: Face)
    requires
        f1.wf(),
        f1.spec_adjacent().contains(d1),
        f2.wf(),
        f2.spec_adjacent().contains(d2),
    ensures
        spec_remap(f1, spec_projection(f1, d1), spec_projection(f2, d2)) == f2,
        spec_remap(d1, spec_projection(f1, d1), spec_projection(f2, d2)) == d2,
{
    let from = spec_projection(f1, d1);
    let to = spec_projection(f2, d2);
    lemma_projection_pairs(f1, d1);
    lemma_ring_members(f1);
    lemma_ring_index(f1, d1);
    assert(from[0] == f1);
    assert(proj_find(from, f1) == 0);
    assert(from[2] == d1);
    assert(from[0] != d1 && from[1] != d1);
    assert(proj_find(from, d1) == 2);
    lemma_ring_index(f2, d2);
}


/// Two-face tuples with one sorted form are each other's orderings.
pub proof fn lemma_sort2_cases(x: Seq<Face>, y: Seq<Face>)
    requires
        x.len() == 2,
        y.len() == 2,
        sort2(x) == sort2(y),
    ensures
        (x =~= y) || (x =~= seq![y[1], y[0]]),
{
}

/// Swapping a pair does not change its sorted form.
pub proof fn lemma_sort2_swap(w: Seq<Face>)
    requires
        w.len() == 2,
    ensures
        sort2(seq![w[1], w[0]]) == sort2(w),
{
    if w[0].0 <= w[1].0 && w[1].0 <= w[0].0 {
        assert(w[0].0 == w[1].0);
        assert(w[0] == w[1] || w[0] != w[1]);
        if w[0] == w[1] {
            assert(sort2(seq![w[1], w[0]]) =~= sort2(w));
        } else {
            assert(sort2(seq![w[1], w[0]]) =~= sort2(w));
        }
    } else if w[0].0 <= w[1].0 {
        assert(sort2(seq![w[1], w[0]]) =~= w);
    } else {
        assert(sort2(seq![w[1], w[0]]) =~= seq![w[1], w[0]]);
        assert(sort2(w) =~= seq![w[1], w[0]]);
    }
}

/// Swapping the first two entries does not change the sorted form.
#[verifier::rlimit(100)]
pub proof fn lemma_sort3_swap01(w: Seq<Face>)
    requires
        w.len() == 3,
    ensures
        sort3(seq![w[1], w[0], w[2]]) == sort3(w),
{
    assert(sort3(seq![w[1], w[0], w[2]]) =~= sort3(w));
}

/// Swapping the last two entries does not change the sorted form.
#[verifier::rlimit(100)]
pub proof fn lemma_sort3_swap12(w: Seq<Face>)
    requires
        w.len() == 3,
    ensures
        sort3(seq![w[0], w[2], w[1]]) == sort3(w),
{
    assert(sort3(seq![w[0], w[2], w[1]]) =~= sort3(w));
}

/// Three-face tuples with one sorted form are each other's orderings.
#[verifier::rlimit(100)]
#[verifier::spinoff_prover]
pub proof fn lemma_sort3_cases(x: Seq<Face>, y: Seq<Face>)
    requires
        x.len() == 3,
        y.len() == 3,
        sort3(x) == sort3(y),
    ensures
        (x =~= y) || (x =~= seq![y[0], y[2], y[1]]) || (x =~= seq![y[1], y[0], y[2]]) || (x =~= seq![
            y[1],
            y[2],
            y[0],
        ]) || (x =~= seq![y[2], y[0], y[1]]) || (x =~= seq![y[2], y[1], y[0]]),
{
}

} // verus!
