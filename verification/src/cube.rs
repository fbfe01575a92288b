//! The cube itself: twelve edges and eight corners, moved by face turns.
//!
//! A turn of face `f` by `t` quarters leaves every piece not touching
//! `f` alone and rotates the remaining faces of the touched pieces `t`
//! steps along `f`'s clockwise ring; `f` itself and its opposite are
//! fixed.  The executable code realises one rotation step as a slot
//! transposition between two `(front, down)` orientations, and the
//! bridging lemma below shows the two readings agree.

use vstd::prelude::*;
use crate::face::Face;
use crate::face::lemma_adjacent_complete;
use crate::face::lemma_ring_members;
use crate::face::lemma_ring_index;
use crate::face::lemma_ring_index_inverse;
use crate::position::Pos;
use crate::position::proj_find;
use crate::position::spec_projection;
use crate::position::spec_remap;
use crate::position::sort2;
use crate::position::sort3;
use crate::piece::Piece;
use crate::piece::PieceV;
use crate::piece::edge_transposed_v;
use crate::piece::corner_transposed_v;
use crate::position::Projection;
use crate::piece::Edge;
use crate::piece::Corner;
use crate::piece::faces_wf;
use crate::algorithm::Alg;
use crate::algorithm::Move;
use crate::algorithm::MoveType;
use crate::algorithm::moves_wf;
use crate::algorithm::spec_reversed_seq;
use crate::algorithm::axis_sum;
use crate::algorithm::reduce_group;
use crate::algorithm::run_end;
use crate::algorithm::spec_pass_from;
use crate::algorithm::spec_simplified;
use crate::algorithm::lemma_run_end_bounds;
use crate::algorithm::lemma_run_end_members;
use crate::algorithm::lemma_axis_sum_nonneg;
use crate::algorithm::lemma_pass_len;
use crate::algorithm::lemma_reduce_members;

verus! {

broadcast use vstd::array::group_array_axioms;

/// Where one face goes under a turn of face `f` by `t` quarter steps:
/// `f` and its opposite stay, ring members advance `t` places clockwise.
pub open spec fn spec_rot(g: Face, f: Face, t: int) -> Face {
    if g == f || g == f.spec_opposite() {
        g
    } else {
        f.spec_ring()[(f.spec_ring_index(g) + t) % 4]
    }
}

/// Every face of a tuple rotated around `f`.
pub open spec fn spec_rot_seq(s: Seq<Face>, f: Face, t: int) -> Seq<Face> {
    s.map_values(|g: Face| spec_rot(g, f, t))
}

/// A turn moves a piece only if the piece touches the turned face, and
/// then it moves only the occupied slot, never the colour identity.
pub open spec fn spec_move_piece(p: PieceV, f: Face, t: int) -> PieceV {
    if p.pos.contains(f) {
        PieceV { id: p.id, pos: spec_rot_seq(p.pos, f, t) }
    } else {
        p
    }
}

/// The mathematical shadow of a cube: its pieces, edges then corners.
#[verifier::ext_equal]
pub ghost struct CubeV {
    pub edges: Seq<PieceV>,
    pub corners: Seq<PieceV>,
}

impl CubeV {
    /// Twelve well-formed edges and eight well-formed corners.
    pub open spec fn wf(self) -> bool {
        &&& self.edges.len() == 12
        &&& self.corners.len() == 8
        &&& forall|i: int| 0 <= i < 12 ==> (#[trigger] self.edges[i]).wf(2)
        &&& forall|i: int| 0 <= i < 8 ==> (#[trigger] self.corners[i]).wf(3)
    }
}

/// One face turn applied to every piece of the cube.
pub open spec fn spec_move_cube(c: CubeV, f: Face, t: int) -> CubeV {
    CubeV {
        edges: c.edges.map_values(|p: PieceV| spec_move_piece(p, f, t)),
        corners: c.corners.map_values(|p: PieceV| spec_move_piece(p, f, t)),
    }
}

/// A whole algorithm applied move by move, first move first.
pub open spec fn spec_apply(c: CubeV, s: Seq<Move>) -> CubeV
    decreases s.len(),
{
    if s.len() == 0 {
        c
    } else {
        spec_apply(spec_move_cube(c, s[0].spec_face(), s[0].1 as int), s.skip(1))
    }
}

/// Reading a rotation step as a slot transposition: remapping between
/// the orientations `(f, m)` and `(f, m rotated t steps)` is exactly
/// the ring rotation by `t` around `f`.
#[verifier::rlimit(100)]
#[verifier::spinoff_prover]
pub proof fn lemma_remap_is_rot(f: Face, m: Face, t: int, g: Face)
    requires
        f.wf(),
        f.spec_adjacent().contains(m),
        0 <= t < 4,
        g.wf(),
    ensures
        spec_remap(
            g,
            spec_projection(f, m),
            spec_projection(f, f.spec_ring()[(f.spec_ring_index(m) + t) % 4]),
        ) == spec_rot(g, f, t),
{
    assert(t == 0 || t == 1 || t == 2 || t == 3);
    let ring = f.spec_ring();
    let im = f.spec_ring_index(m);
    let n = ring[(im + t) % 4];
    lemma_ring_members(f);
    lemma_ring_index(f, m);
    lemma_ring_index_inverse(f, (im + t) % 4);
    let inn = f.spec_ring_index(n);
    assert(inn == (im + t) % 4);
    let from = spec_projection(f, m);
    let to = spec_projection(f, n);
    assert(f != f.spec_opposite());
    if g == f {
        assert(proj_find(from, g) == 0);
        assert(to[0] == f);
    } else if g == f.spec_opposite() {
        assert(proj_find(from, g) == 5);
        assert(to[5] == g);
    } else {
        lemma_adjacent_complete(f, g);
        lemma_ring_index(f, g);
        let j = f.spec_ring_index(g);
        assert(ring[j] == g);
        assert(j == im || j == (im + 1) % 4 || j == (im + 2) % 4 || j == (im + 3) % 4);
        if j == im {
            assert(proj_find(from, g) == 2);
            assert(to[2] == ring[inn]);
            assert((im + t) % 4 == (j + t) % 4);
        } else if j == (im + 1) % 4 {
            assert(proj_find(from, g) == 3);
            assert(to[3] == ring[(inn + 1) % 4]);
            assert(((im + t) % 4 + 1) % 4 == ((im + 1) % 4 + t) % 4);
        } else if j == (im + 2) % 4 {
            assert(proj_find(from, g) == 4);
            assert(to[4] == ring[(inn + 2) % 4]);
            assert(((im + t) % 4 + 2) % 4 == ((im + 2) % 4 + t) % 4);
        } else {
            assert(proj_find(from, g) == 1);
            assert(to[1] == ring[(inn + 3) % 4]);
            assert(((im + t) % 4 + 3) % 4 == ((im + 3) % 4 + t) % 4);
        }
    }
}

/// A rotation step sends well-formed faces to well-formed faces.
pub proof fn lemma_rot_wf(f: Face, t: int, g: Face)
    requires
        f.wf(),
        g.wf(),
    ensures
        spec_rot(g, f, t).wf(),
{
    lemma_ring_members(f);
}

/// Distinct faces stay distinct under a rotation step.
#[verifier::rlimit(100)]
#[verifier::spinoff_prover]
pub proof fn lemma_rot_injective(f: Face, t: int, g1: Face, g2: Face)
    requires
        f.wf(),
        g1.wf(),
        g2.wf(),
        0 <= t <= 4,
        spec_rot(g1, f, t) == spec_rot(g2, f, t),
    ensures
        g1 == g2,
{
    assert(t == 0 || t == 1 || t == 2 || t == 3 || t == 4);
    lemma_ring_members(f);
    if g1 != f && g1 != f.spec_opposite() && g2 != f && g2 != f.spec_opposite() {
        lemma_adjacent_complete(f, g1);
        lemma_ring_index(f, g1);
        lemma_adjacent_complete(f, g2);
        lemma_ring_index(f, g2);
        let j1 = f.spec_ring_index(g1);
        let j2 = f.spec_ring_index(g2);
        assert(0 <= (j1 + t) % 4 < 4 && 0 <= (j2 + t) % 4 < 4);
        if g1 != g2 {
            assert(j1 != j2);
            assert((j1 + t) % 4 != (j2 + t) % 4);
            assert(f.spec_ring()[(j1 + t) % 4] != f.spec_ring()[(j2 + t) % 4]);
        }
    } else if g1 != f && g1 != f.spec_opposite() {
        lemma_adjacent_complete(f, g1);
        lemma_ring_index(f, g1);
        let j1 = f.spec_ring_index(g1);
        assert(0 <= (j1 + t) % 4 < 4);
        assert(f.spec_ring()[(j1 + t) % 4] != f && f.spec_ring()[(j1 + t) % 4]
            != f.spec_opposite());
    } else if g2 != f && g2 != f.spec_opposite() {
        lemma_adjacent_complete(f, g2);
        lemma_ring_index(f, g2);
        let j2 = f.spec_ring_index(g2);
        assert(0 <= (j2 + t) % 4 < 4);
        assert(f.spec_ring()[(j2 + t) % 4] != f && f.spec_ring()[(j2 + t) % 4]
            != f.spec_opposite());
    }
}

/// Rotation commutes with taking the opposite face.
#[verifier::rlimit(100)]
#[verifier::spinoff_prover]
pub proof fn lemma_rot_opposite(f: Face, t: int, g: Face)
    requires
        f.wf(),
        g.wf(),
        0 <= t < 4,
    ensures
        spec_rot(g.spec_opposite(), f, t) == spec_rot(g, f, t).spec_opposite(),
{
    if g == f || g == f.spec_opposite() {
    } else {
        lemma_adjacent_complete(f, g);
        lemma_ring_index(f, g);
        let j = f.spec_ring_index(g);
        crate::face::lemma_ring_opposite_at(f, j);
        assert(g.spec_opposite() == f.spec_ring()[(j + 2) % 4]);
        lemma_ring_index_inverse(f, (j + 2) % 4);
        assert(g.spec_opposite() != f && g.spec_opposite() != f.spec_opposite());
        crate::face::lemma_ring_opposite_at(f, (j + t) % 4);
        assert(((j + 2) % 4 + t) % 4 == ((j + t) % 4 + 2) % 4);
    }
}

/// Two rotation steps compose into one by adding their counts.
#[verifier::rlimit(100)]
#[verifier::spinoff_prover]
pub proof fn lemma_rot_compose(f: Face, t1: int, t2: int, g: Face)
    requires
        f.wf(),
        g.wf(),
        0 <= t1 <= 4,
        0 <= t2 <= 4,
    ensures
        spec_rot(spec_rot(g, f, t1), f, t2) == spec_rot(g, f, t1 + t2),
{
    assert(t1 == 0 || t1 == 1 || t1 == 2 || t1 == 3 || t1 == 4);
    assert(t2 == 0 || t2 == 1 || t2 == 2 || t2 == 3 || t2 == 4);
    lemma_ring_members(f);
    if g == f || g == f.spec_opposite() {
    } else {
        lemma_adjacent_complete(f, g);
        lemma_ring_index(f, g);
        let j = f.spec_ring_index(g);
        let j2 = (j + t1) % 4;
        assert(0 <= j2 < 4);
        assert(spec_rot(g, f, t1) == f.spec_ring()[j2]);
        assert(f.spec_ring()[j2] != f && f.spec_ring()[j2] != f.spec_opposite());
        lemma_ring_index_inverse(f, j2);
        assert(f.spec_ring_index(f.spec_ring()[j2]) == j2);
        assert(spec_rot(f.spec_ring()[j2], f, t2) == f.spec_ring()[(j2 + t2) % 4]);
        assert((j2 + t2) % 4 == (j + (t1 + t2)) % 4);
    }
}

/// A whole number of full turns leaves every face where it was.
pub proof fn lemma_rot_full_turn(f: Face, t: int, g: Face)
    requires
        f.wf(),
        g.wf(),
        t >= 0,
        t % 4 == 0,
    ensures
        spec_rot(g, f, t) == g,
{
    lemma_ring_members(f);
    if g == f || g == f.spec_opposite() {
    } else {
        lemma_adjacent_complete(f, g);
        lemma_ring_index(f, g);
        let j = f.spec_ring_index(g);
        assert((j + t) % 4 == j);
    }
}

/// A rotated face tuple is still well-formed.
pub proof fn lemma_rot_seq_wf(s: Seq<Face>, f: Face, t: int)
    requires
        f.wf(),
        faces_wf(s),
        0 <= t < 4,
    ensures
        faces_wf(spec_rot_seq(s, f, t)),
{
    let r = spec_rot_seq(s, f, t);
    assert forall|i: int| 0 <= i < r.len() implies (#[trigger] r[i]).wf() by {
        lemma_rot_wf(f, t, s[i]);
    }
    assert forall|i: int, j: int|
        #![trigger r[i], r[j]]
        0 <= i < r.len() && 0 <= j < r.len() && i != j implies r[i] != r[j] && r[i]
        != r[j].spec_opposite() by {
        if r[i] == r[j] {
            lemma_rot_injective(f, t, s[i], s[j]);
        }
        if r[i] == r[j].spec_opposite() {
            lemma_rot_opposite(f, t, s[j]);
            lemma_rot_injective(f, t, s[i], s[j].spec_opposite());
        }
    }
}

/// A moved piece is still well-formed, and it keeps its identity.
pub proof fn lemma_move_piece_wf(p: PieceV, f: Face, t: int, n: int)
    requires
        f.wf(),
        p.wf(n),
        0 <= t < 4,
    ensures
        spec_move_piece(p, f, t).wf(n),
        spec_move_piece(p, f, t).id == p.id,
{
    if p.pos.contains(f) {
        lemma_rot_seq_wf(p.pos, f, t);
    }
}

/// A piece touches the turned face after the turn exactly when it did
/// before it.
pub proof fn lemma_move_piece_on(p: PieceV, f: Face, t: int, n: int)
    requires
        f.wf(),
        p.wf(n),
        0 <= t <= 4,
    ensures
        spec_move_piece(p, f, t).pos.contains(f) == p.pos.contains(f),
{
    let q = spec_move_piece(p, f, t);
    if p.pos.contains(f) {
        let i = choose|i: int| 0 <= i < p.pos.len() && p.pos[i] == f;
        assert(q.pos[i] == spec_rot(f, f, t));
        assert(q.pos.contains(f));
    }
}

/// Two turns of the same face compose by adding their quarter counts.
pub proof fn lemma_move_piece_compose(p: PieceV, f: Face, t1: int, t2: int, n: int)
    requires
        f.wf(),
        p.wf(n),
        0 <= t1 <= 4,
        0 <= t2 <= 4,
    ensures
        spec_move_piece(spec_move_piece(p, f, t1), f, t2) == spec_move_piece(p, f, t1 + t2),
{
    let q = spec_move_piece(p, f, t1);
    lemma_move_piece_on(p, f, t1, n);
    if p.pos.contains(f) {
        assert forall|i: int| 0 <= i < p.pos.len() implies spec_rot_seq(q.pos, f, t2)[i]
            == spec_rot_seq(p.pos, f, t1 + t2)[i] by {
            lemma_rot_compose(f, t1, t2, p.pos[i]);
        }
        assert(spec_move_piece(q, f, t2).pos =~= spec_move_piece(p, f, t1 + t2).pos);
        assert(spec_move_piece(q, f, t2) =~= spec_move_piece(p, f, t1 + t2));
    }
}

/// A whole number of full turns leaves a piece exactly as it was.
pub proof fn lemma_move_piece_full_turn(p: PieceV, f: Face, t: int, n: int)
    requires
        f.wf(),
        p.wf(n),
        t >= 0,
        t % 4 == 0,
    ensures
        spec_move_piece(p, f, t) == p,
{
    if p.pos.contains(f) {
        assert forall|i: int| 0 <= i < p.pos.len() implies spec_rot_seq(p.pos, f, t)[i]
            == p.pos[i] by {
            lemma_rot_full_turn(f, t, p.pos[i]);
        }
        assert(spec_move_piece(p, f, t).pos =~= p.pos);
        assert(spec_move_piece(p, f, t) =~= p);
    }
}

/// A moved cube is still well-formed.
pub proof fn lemma_move_cube_wf(c: CubeV, f: Face, t: int)
    requires
        f.wf(),
        c.wf(),
        0 <= t < 4,
    ensures
        spec_move_cube(c, f, t).wf(),
{
    let r = spec_move_cube(c, f, t);
    assert forall|i: int| 0 <= i < 12 implies (#[trigger] r.edges[i]).wf(2) by {
        lemma_move_piece_wf(c.edges[i], f, t, 2);
    }
    assert forall|i: int| 0 <= i < 8 implies (#[trigger] r.corners[i]).wf(3) by {
        lemma_move_piece_wf(c.corners[i], f, t, 3);
    }
}

/// Two turns of the same face compose by adding their quarter counts.
pub proof fn lemma_move_cube_compose(c: CubeV, f: Face, t1: int, t2: int)
    requires
        f.wf(),
        c.wf(),
        0 <= t1 <= 4,
        0 <= t2 <= 4,
    ensures
        spec_move_cube(spec_move_cube(c, f, t1), f, t2) == spec_move_cube(c, f, t1 + t2),
{
    let q = spec_move_cube(c, f, t1);
    assert forall|i: int| 0 <= i < 12 implies spec_move_cube(q, f, t2).edges[i]
        == spec_move_cube(c, f, t1 + t2).edges[i] by {
        lemma_move_piece_compose(c.edges[i], f, t1, t2, 2);
    }
    assert forall|i: int| 0 <= i < 8 implies spec_move_cube(q, f, t2).corners[i]
        == spec_move_cube(c, f, t1 + t2).corners[i] by {
        lemma_move_piece_compose(c.corners[i], f, t1, t2, 3);
    }
    assert(spec_move_cube(q, f, t2).edges =~= spec_move_cube(c, f, t1 + t2).edges);
    assert(spec_move_cube(q, f, t2).corners =~= spec_move_cube(c, f, t1 + t2).corners);
    assert(spec_move_cube(q, f, t2) =~= spec_move_cube(c, f, t1 + t2));
}

/// A whole number of full turns leaves the cube exactly as it was.
pub proof fn lemma_move_cube_full_turn(c: CubeV, f: Face, t: int)
    requires
        f.wf(),
        c.wf(),
        t >= 0,
        t % 4 == 0,
    ensures
        spec_move_cube(c, f, t) == c,
{
    assert forall|i: int| 0 <= i < 12 implies spec_move_cube(c, f, t).edges[i] == c.edges[i] by {
        lemma_move_piece_full_turn(c.edges[i], f, t, 2);
    }
    assert forall|i: int| 0 <= i < 8 implies spec_move_cube(c, f, t).corners[i] == c.corners[i] by {
        lemma_move_piece_full_turn(c.corners[i], f, t, 3);
    }
    assert(spec_move_cube(c, f, t).edges =~= c.edges);
    assert(spec_move_cube(c, f, t).corners =~= c.corners);
    assert(spec_move_cube(c, f, t) =~= c);
}

/// Turning any face four quarter steps returns any cube to the exact
/// state it started in: each face turn is a group action of order 4.
pub proof fn lemma_quarter_turns_order_four(c: CubeV, f: Face)
    requires
        f.wf(),
        c.wf(),
    ensures
        spec_move_cube(spec_move_cube(spec_move_cube(spec_move_cube(c, f, 1), f, 1), f, 1), f, 1)
            == c,
{
    lemma_move_cube_compose(c, f, 1, 1);
    lemma_move_cube_wf(c, f, 2);
    lemma_move_cube_compose(c, f, 2, 1);
    lemma_move_cube_wf(c, f, 3);
    lemma_move_cube_compose(c, f, 3, 1);
    lemma_move_cube_full_turn(c, f, 4);
}

/// The same law at the algorithm surface: applying one quarter-turn
/// move four times in a row returns the exact original state.
pub proof fn lemma_apply_quarter_turn_four_times(c: CubeV, m: Move)
    requires
        c.wf(),
        m.1 == 1,
    ensures
        spec_apply(c, seq![m, m, m, m]) == c,
{
    reveal_with_fuel(spec_apply, 6);
    let s = seq![m, m, m, m];
    assert(s.skip(1) =~= seq![m, m, m]);
    assert(seq![m, m, m].skip(1) =~= seq![m, m]);
    assert(seq![m, m].skip(1) =~= seq![m]);
    assert(seq![m].skip(1) =~= Seq::<Move>::empty());
    lemma_quarter_turns_order_four(c, m.spec_face());
}

/// Applying a concatenation applies the first part, then the second.
pub proof fn lemma_apply_append(c: CubeV, s1: Seq<Move>, s2: Seq<Move>)
    ensures
        spec_apply(c, s1 + s2) == spec_apply(spec_apply(c, s1), s2),
    decreases s1.len(),
{
    if s1.len() == 0 {
        assert(s1 + s2 =~= s2);
    } else {
        let c1 = spec_move_cube(c, (s1 + s2)[0].spec_face(), (s1 + s2)[0].1 as int);
        assert((s1 + s2)[0] == s1[0]);
        assert((s1 + s2).skip(1) =~= s1.skip(1) + s2);
        lemma_apply_append(c1, s1.skip(1), s2);
    }
}

/// Every intermediate state of a well-formed cube stays well-formed.
pub proof fn lemma_apply_wf(c: CubeV, s: Seq<Move>)
    requires
        c.wf(),
        moves_wf(s),
    ensures
        spec_apply(c, s).wf(),
    decreases s.len(),
{
    if s.len() > 0 {
        lemma_move_cube_wf(c, s[0].spec_face(), s[0].1 as int);
        assert(moves_wf(s.skip(1)));
        lemma_apply_wf(spec_move_cube(c, s[0].spec_face(), s[0].1 as int), s.skip(1));
    }
}

/// Applying an algorithm and then its reversal restores the cube to
/// the exact state it was in before.
pub proof fn lemma_apply_reversed(c: CubeV, s: Seq<Move>)
    requires
        c.wf(),
        moves_wf(s),
    ensures
        spec_apply(spec_apply(c, s), spec_reversed_seq(s)) == c,
    decreases s.len(),
{
    if s.len() == 0 {
        assert(spec_reversed_seq(s) =~= Seq::<Move>::empty());
    } else {
        let m = s[0];
        let rest = s.skip(1);
        let c1 = spec_move_cube(c, m.spec_face(), m.1 as int);
        lemma_move_cube_wf(c, m.spec_face(), m.1 as int);
        assert(moves_wf(rest));
        assert(spec_reversed_seq(s) =~= spec_reversed_seq(rest) + seq![m.spec_reversed()]);
        lemma_apply_append(spec_apply(c1, rest), spec_reversed_seq(rest), seq![m.spec_reversed()]);
        lemma_apply_reversed(c1, rest);
        reveal_with_fuel(spec_apply, 3);
        let one = seq![m.spec_reversed()];
        assert(one.skip(1) =~= Seq::<Move>::empty());
        assert(one[0] == m.spec_reversed());
        assert(spec_apply(c1, one) == spec_move_cube(
            c1,
            m.spec_reversed().spec_face(),
            m.spec_reversed().1 as int,
        ));
        assert(m.spec_reversed().spec_face() == m.spec_face());
        assert(spec_apply(spec_apply(c, s), spec_reversed_seq(s)) == spec_apply(c1, one));
        lemma_move_cube_compose(c, m.spec_face(), m.1 as int, m.spec_reversed().1 as int);
        lemma_move_cube_full_turn(c, m.spec_face(), m.1 as int + m.spec_reversed().1 as int);
    }
}

/// The fixed arrangement of the solved cube: every piece sits in the
/// slot its colours name, edges listed for face 0, face 3 and the
/// equator, corners for faces 0 and 3.
pub open spec fn edge_v(a: u8, b: u8) -> PieceV {
    PieceV { id: seq![Face(a), Face(b)], pos: seq![Face(a), Face(b)] }
}

pub open spec fn corner_v(a: u8, b: u8, c: u8) -> PieceV {
    PieceV { id: seq![Face(a), Face(b), Face(c)], pos: seq![Face(a), Face(b), Face(c)] }
}

pub open spec fn spec_solved() -> CubeV {
    CubeV {
        edges: seq![
            edge_v(0, 1),
            edge_v(0, 2),
            edge_v(0, 4),
            edge_v(0, 5),
            edge_v(1, 3),
            edge_v(2, 3),
            edge_v(3, 4),
            edge_v(3, 5),
            edge_v(1, 2),
            edge_v(2, 4),
            edge_v(4, 5),
            edge_v(1, 5),
        ],
        corners: seq![
            corner_v(0, 1, 2),
            corner_v(0, 2, 4),
            corner_v(0, 4, 5),
            corner_v(0, 1, 5),
            corner_v(1, 2, 3),
            corner_v(2, 3, 4),
            corner_v(3, 4, 5),
            corner_v(1, 3, 5),
        ],
    }
}

/// The full cube: twelve edges and eight corners.  Moves permute the
/// occupied slots of the pieces; no piece is ever added or removed.
#[derive(Copy, Clone, Debug)]
pub struct Cube {
    pub edges: [Edge; 12],
    pub corners: [Corner; 8],
}

impl View for Cube {
    type V = CubeV;

    open spec fn view(&self) -> CubeV {
        CubeV {
            edges: self.edges@.map_values(|e: Edge| e@),
            corners: self.corners@.map_values(|c: Corner| c@),
        }
    }
}

impl PartialEq for Cube {
    fn eq(&self, other: &Self) -> (r: bool) {
        let mut i: usize = 0;
        while i < 12
            invariant
                0 <= i <= 12,
                forall|j: int| 0 <= j < i ==> self.edges@[j] == other.edges@[j],
            decreases 12 - i,
        {
            if self.edges[i] != other.edges[i] {
                return false;
            }
            i += 1;
        }
        let mut i: usize = 0;
        while i < 8
            invariant
                0 <= i <= 8,
                forall|j: int| 0 <= j < 12 ==> self.edges@[j] == other.edges@[j],
                forall|j: int| 0 <= j < i ==> self.corners@[j] == other.corners@[j],
            decreases 8 - i,
        {
            if self.corners[i] != other.corners[i] {
                return false;
            }
            i += 1;
        }
        proof {
            assert(self.edges =~= other.edges);
            assert(self.corners =~= other.corners);
        }
        true
    }
}

impl Eq for Cube {}

impl vstd::std_specs::cmp::PartialEqSpecImpl for Cube {
    open spec fn obeys_eq_spec() -> bool {
        true
    }

    open spec fn eq_spec(&self, other: &Self) -> bool {
        self.edges == other.edges && self.corners == other.corners
    }
}

impl Cube {
    /// Builds the solved cube piece by piece.
    pub fn new_solved() -> (r: Cube)
        ensures
            r@ == spec_solved(),
            r@.wf(),
    {
        let face0 = Face::new(0);
        let face3 = Face::new(3);
        let e0 = face0.adjacent_edges();
        let e3 = face3.adjacent_edges();
        let adjacent = face0.adjacent();
        let around: [Edge; 4] = [
            Piece::new_edge(adjacent[0], adjacent[1]),
            Piece::new_edge(adjacent[1], adjacent[2]),
            Piece::new_edge(adjacent[2], adjacent[3]),
            Piece::new_edge(adjacent[3], adjacent[0]),
        ];
        let c0 = face0.adjacent_corners();
        let c3 = face3.adjacent_corners();
        let r = Cube {
            edges: [
                e0[0],
                e0[1],
                e0[2],
                e0[3],
                e3[0],
                e3[1],
                e3[2],
                e3[3],
                around[0],
                around[1],
                around[2],
                around[3],
            ],
            corners: [c0[0], c0[1], c0[2], c0[3], c3[0], c3[1], c3[2], c3[3]],
        };
        proof {
            assert(r@.edges =~~= spec_solved().edges);
            assert(r@.corners =~~= spec_solved().corners);
            assert(r@ =~= spec_solved());
        }
        r
    }

    /// A cube is solved when it equals the freshly built solved cube.
    pub fn is_solved(&self) -> (r: bool)
        ensures
            r == (self@ == spec_solved()),
    {
        let solved = Self::new_solved();
        let r = *self == solved;
        proof {
            if self.edges == solved.edges && self.corners == solved.corners {
                assert(self@ =~= solved@);
            }
            if self@ == solved@ {
                assert forall|j: int| 0 <= j < 12 implies self.edges@[j] == solved.edges@[j] by {
                    assert(self.edges@[j]@ == solved.edges@[j]@);
                    assert(self.edges@[j].id.0 =~= solved.edges@[j].id.0);
                    assert(self.edges@[j].pos.0 =~= solved.edges@[j].pos.0);
                }
                assert forall|j: int| 0 <= j < 8 implies self.corners@[j] == solved.corners@[j] by {
                    assert(self.corners@[j]@ == solved.corners@[j]@);
                    assert(self.corners@[j].id.0 =~= solved.corners@[j].id.0);
                    assert(self.corners@[j].pos.0 =~= solved.corners@[j].pos.0);
                }
                assert(self.edges =~= solved.edges);
                assert(self.corners =~= solved.corners);
            }
        }
        r
    }

    /// The edge whose slot is `position`; some edge must be there,
    /// anything else is a defect of the cube, not an input to handle.
    pub fn edge_at(&self, position: Pos<2>) -> (r: &Edge)
        requires
            exists|i: int| 0 <= i < 12 && sort2((#[trigger] self.edges@[i])@.pos) == sort2(
                position@,
            ),
        ensures
            sort2(r@.pos) == sort2(position@),
            exists|i: int| 0 <= i < 12 && *r == self.edges@[i],
    {
        let mut i: usize = 0;
        while i < 12
            invariant
                0 <= i <= 12,
                exists|k: int| 0 <= k < 12 && sort2((#[trigger] self.edges@[k])@.pos) == sort2(
                    position@,
                ),
                forall|k: int| 0 <= k < i ==> sort2((#[trigger] self.edges@[k])@.pos) != sort2(
                    position@,
                ),
            decreases 12 - i,
        {
            if self.edges[i].is_at(position) {
                return vstd::array::array_index_get(&self.edges, i);
            }
            i += 1;
        }
        proof {
            assert(false);
        }
        vstd::array::array_index_get(&self.edges, 0)
    }

    /// The corner whose slot is `position`; some corner must be there.
    pub fn corner_at(&self, position: Pos<3>) -> (r: &Corner)
        requires
            exists|i: int| 0 <= i < 8 && sort3((#[trigger] self.corners@[i])@.pos) == sort3(
                position@,
            ),
        ensures
            sort3(r@.pos) == sort3(position@),
            exists|i: int| 0 <= i < 8 && *r == self.corners@[i],
    {
        let mut i: usize = 0;
        while i < 8
            invariant
                0 <= i <= 8,
                exists|k: int| 0 <= k < 8 && sort3((#[trigger] self.corners@[k])@.pos) == sort3(
                    position@,
                ),
                forall|k: int| 0 <= k < i ==> sort3((#[trigger] self.corners@[k])@.pos) != sort3(
                    position@,
                ),
            decreases 8 - i,
        {
            if self.corners[i].is_at(position) {
                return vstd::array::array_index_get(&self.corners, i);
            }
            i += 1;
        }
        proof {
            assert(false);
        }
        vstd::array::array_index_get(&self.corners, 0)
    }

    /// The edge pieces, in storage order.
    pub fn iter_edges(&self) -> (r: &[Edge])
        ensures
            r@ == self.edges@,
    {
        self.edges.as_slice()
    }

    /// The corner pieces, in storage order.
    pub fn iter_corners(&self) -> (r: &[Corner])
        ensures
            r@ == self.corners@,
    {
        self.corners.as_slice()
    }

    /// Write access to the edge pieces, in storage order.
    pub fn iter_edges_mut(&mut self) -> (r: &mut [Edge])
        ensures
            r@ == old(self).edges@,
            final(self).edges@ == final(r)@,
            final(self).corners == old(self).corners,
    {
        vstd::array::ref_mut_array_unsizing_coercion(&mut self.edges)
    }

    /// Write access to the corner pieces, in storage order.
    pub fn iter_corners_mut(&mut self) -> (r: &mut [Corner])
        ensures
            r@ == old(self).corners@,
            final(self).corners@ == final(r)@,
            final(self).edges == old(self).edges,
    {
        vstd::array::ref_mut_array_unsizing_coercion(&mut self.corners)
    }

    /// Re-reads the whole cube in another orientation: every piece's
    /// identity and slot are remapped and re-sorted.
    pub fn transpose_with_projection(&mut self, from: Projection, to: Projection)
        ensures
            final(self)@.edges == old(self)@.edges.map_values(
                |p: PieceV| edge_transposed_v(p, from@, to@),
            ),
            final(self)@.corners == old(self)@.corners.map_values(
                |p: PieceV| corner_transposed_v(p, from@, to@),
            ),
    {
        let ghost c0 = self@;
        let mut i: usize = 0;
        while i < 12
            invariant
                0 <= i <= 12,
                self.edges@.len() == 12,
                c0.edges == old(self).edges@.map_values(|e: Edge| e@),
                c0.corners == old(self).corners@.map_values(|c: Corner| c@),
                self.corners@.map_values(|c: Corner| c@) == c0.corners,
                forall|j: int| i <= j < 12 ==> (#[trigger] self.edges@[j])@ == c0.edges[j],
                forall|j: int|
                    0 <= j < i ==> (#[trigger] self.edges@[j])@ == edge_transposed_v(
                        c0.edges[j],
                        from@,
                        to@,
                    ),
            decreases 12 - i,
        {
            let mut e = self.edges[i];
            e.transpose_with_projection(from, to);
            self.edges[i] = e;
            i += 1;
        }
        let mut i: usize = 0;
        while i < 8
            invariant
                0 <= i <= 8,
                self.corners@.len() == 8,
                c0.corners == old(self).corners@.map_values(|c: Corner| c@),
                self.edges@.map_values(|e: Edge| e@) == c0.edges.map_values(
                    |p: PieceV| edge_transposed_v(p, from@, to@),
                ),
                forall|j: int| i <= j < 8 ==> (#[trigger] self.corners@[j])@ == c0.corners[j],
                forall|j: int|
                    0 <= j < i ==> (#[trigger] self.corners@[j])@ == corner_transposed_v(
                        c0.corners[j],
                        from@,
                        to@,
                    ),
            decreases 8 - i,
        {
            let mut c = self.corners[i];
            c.transpose_with_projection(from, to);
            self.corners[i] = c;
            i += 1;
        }
        proof {
            assert(self@.edges =~= c0.edges.map_values(
                |p: PieceV| edge_transposed_v(p, from@, to@),
            ));
            assert(self@.corners =~= c0.corners.map_values(
                |p: PieceV| corner_transposed_v(p, from@, to@),
            ));
        }
    }

    /// The same remapping, with the orientations given as
    /// `(front, down)` pairs.
    pub fn transpose(&mut self, from: Pos<2>, to: Pos<2>)
        requires
            from.wf(),
            to.wf(),
        ensures
            final(self)@.edges == old(self)@.edges.map_values(
                |p: PieceV|
                    edge_transposed_v(
                        p,
                        spec_projection(from@[0], from@[1]),
                        spec_projection(to@[0], to@[1]),
                    ),
            ),
            final(self)@.corners == old(self)@.corners.map_values(
                |p: PieceV|
                    corner_transposed_v(
                        p,
                        spec_projection(from@[0], from@[1]),
                        spec_projection(to@[0], to@[1]),
                    ),
            ),
    {
        proof {
            lemma_adjacent_complete(from@[0], from@[1]);
            lemma_adjacent_complete(to@[0], to@[1]);
        }
        let pf = crate::position::projection(from);
        let pt = crate::position::projection(to);
        self.transpose_with_projection(pf, pt);
    }

    /// One face turn: every piece touching the turned face advances
    /// along its clockwise ring by the move's quarter count.
    #[verifier::rlimit(100)]
    fn apply_move(&mut self, m: Move)
        requires
            old(self)@.wf(),
            m.wf(),
        ensures
            final(self)@ == spec_move_cube(old(self)@, m.spec_face(), m.1 as int),
            final(self)@.wf(),
    {
        let face = m.face();
        let times = m.times();
        let ghost fc = m.spec_face();
        let ghost t = m.1 as int;
        let ghost c0 = self@;
        let clockwise = face.adjacent_clockwise();
        proof {
            lemma_ring_members(face);
        }
        let mut i: usize = 0;
        while i < 12
            invariant
                0 <= i <= 12,
                c0.wf(),
                face == fc,
                face.wf(),
                1 <= times <= 3,
                times == t,
                clockwise@ == face.spec_ring(),
                self.corners@.map_values(|c: Corner| c@) == c0.corners,
                self.edges@.len() == 12,
                c0.edges == old(self).edges@.map_values(|e: Edge| e@),
                c0.corners == old(self).corners@.map_values(|c: Corner| c@),
                forall|j: int| i <= j < 12 ==> (#[trigger] self.edges@[j])@ == c0.edges[j],
                forall|j: int|
                    0 <= j < i ==> (#[trigger] self.edges@[j])@ == spec_move_piece(
                        c0.edges[j],
                        fc,
                        t,
                    ),
            decreases 12 - i,
        {
            let e = self.edges[i];
            proof {
                assert(e@ == c0.edges[i as int]);
                assert(e@.wf(2));
            }
            if e.is_on(face) {
                let missing_v = e.pos.without(face);
                let missing = missing_v[0];
                proof {
                    assert(e.pos@.contains(missing));
                    let k = choose|k: int| 0 <= k < 2 && e.pos@[k] == missing;
                    assert(missing.wf());
                    assert(missing != face && missing != face.spec_opposite());
                    assert(face != missing.spec_opposite());
                    lemma_adjacent_complete(face, missing);
                    lemma_ring_index(face, missing);
                }
                let index: usize = if clockwise[0] == missing {
                    0
                } else if clockwise[1] == missing {
                    1
                } else if clockwise[2] == missing {
                    2
                } else {
                    3
                };
                proof {
                    assert(index == face.spec_ring_index(missing));
                }
                let next = clockwise[(index + times as usize) % 4];
                let from = Pos([face, missing]);
                let to = Pos([face, next]);
                proof {
                    assert(from@ =~= seq![face, missing]);
                    assert(to@ =~= seq![face, next]);
                    assert(next == face.spec_ring()[(face.spec_ring_index(missing) + t) % 4]);
                    assert(next.wf() && next != face && next != face.spec_opposite());
                    assert(face != next.spec_opposite());
                    assert(from.wf());
                    assert(to.wf());
                }
                let mut e2 = e;
                e2.transpose_pos(from, to);
                proof {
                    let pf = spec_projection(fc, missing);
                    let pt = spec_projection(fc, next);
                    assert forall|k: int| 0 <= k < 2 implies e2.pos@[k] == spec_rot_seq(
                        e@.pos,
                        fc,
                        t,
                    )[k] by {
                        assert(e2.pos@[k] == spec_remap(e@.pos[k], pf, pt));
                        lemma_remap_is_rot(fc, missing, t, e@.pos[k]);
                    }
                    assert(e2.pos@ =~= spec_rot_seq(e@.pos, fc, t));
                    assert(e2@ =~= spec_move_piece(c0.edges[i as int], fc, t));
                }
                self.edges[i] = e2;
            } else {
                proof {
                    assert(e@ =~= spec_move_piece(c0.edges[i as int], fc, t));
                }
            }
            i += 1;
        }
        let mut i: usize = 0;
        while i < 8
            invariant
                0 <= i <= 8,
                c0.wf(),
                face == fc,
                face.wf(),
                1 <= times <= 3,
                times == t,
                clockwise@ == face.spec_ring(),
                self.corners@.len() == 8,
                c0.corners == old(self).corners@.map_values(|c: Corner| c@),
                self.edges@.map_values(|e: Edge| e@) == spec_move_cube(c0, fc, t).edges,
                forall|j: int| i <= j < 8 ==> (#[trigger] self.corners@[j])@ == c0.corners[j],
                forall|j: int|
                    0 <= j < i ==> (#[trigger] self.corners@[j])@ == spec_move_piece(
                        c0.corners[j],
                        fc,
                        t,
                    ),
            decreases 8 - i,
        {
            let c = self.corners[i];
            proof {
                assert(c@ == c0.corners[i as int]);
                assert(c@.wf(3));
            }
            if c.is_on(face) {
                let missing_v = c.pos.without(face);
                let missing = missing_v[0];
                proof {
                    assert(c.pos@.contains(missing));
                    assert(missing.wf());
                    assert(missing != face && missing != face.spec_opposite());
                    assert(face != missing.spec_opposite());
                    lemma_adjacent_complete(face, missing);
                    lemma_ring_index(face, missing);
                }
                let index: usize = if clockwise[0] == missing {
                    0
                } else if clockwise[1] == missing {
                    1
                } else if clockwise[2] == missing {
                    2
                } else {
                    3
                };
                proof {
                    assert(index == face.spec_ring_index(missing));
                }
                let next = clockwise[(index + times as usize) % 4];
                let from = Pos([face, missing]);
                let to = Pos([face, next]);
                proof {
                    assert(from@ =~= seq![face, missing]);
                    assert(to@ =~= seq![face, next]);
                    assert(next == face.spec_ring()[(face.spec_ring_index(missing) + t) % 4]);
                    assert(next.wf() && next != face && next != face.spec_opposite());
                    assert(face != next.spec_opposite());
                    assert(from.wf());
                    assert(to.wf());
                }
                let mut c2 = c;
                c2.transpose_pos(from, to);
                proof {
                    let pf = spec_projection(fc, missing);
                    let pt = spec_projection(fc, next);
                    assert forall|k: int| 0 <= k < 3 implies c2.pos@[k] == spec_rot_seq(
                        c@.pos,
                        fc,
                        t,
                    )[k] by {
                        assert(c2.pos@[k] == spec_remap(c@.pos[k], pf, pt));
                        lemma_remap_is_rot(fc, missing, t, c@.pos[k]);
                    }
                    assert(c2.pos@ =~= spec_rot_seq(c@.pos, fc, t));
                    assert(c2@ =~= spec_move_piece(c0.corners[i as int], fc, t));
                }
                self.corners[i] = c2;
            } else {
                proof {
                    assert(c@ =~= spec_move_piece(c0.corners[i as int], fc, t));
                }
            }
            i += 1;
        }
        proof {
            assert(self.corners@.map_values(|c: Corner| c@) =~= spec_move_cube(c0, fc, t).corners);
            assert(self@ =~= spec_move_cube(c0, fc, t));
            lemma_move_cube_wf(c0, fc, t);
        }
    }

    /// Folds the algorithm's moves over the cube in order.
    pub fn apply(&mut self, algorithm: &Alg)
        requires
            old(self)@.wf(),
            algorithm.wf(),
        ensures
            final(self)@ == spec_apply(old(self)@, algorithm@),
            final(self)@.wf(),
    {
        let ghost c0 = self@;
        let ghost s = algorithm@;
        let n = algorithm.0.len();
        let mut i: usize = 0;
        while i < n
            invariant
                0 <= i <= n,
                n == s.len(),
                s == algorithm@,
                moves_wf(s),
                c0.wf(),
                self@.wf(),
                self@ == spec_apply(c0, s.take(i as int)),
            decreases n - i,
        {
            let m = algorithm.0[i];
            proof {
                assert(s[i as int].wf());
            }
            self.apply_move(m);
            proof {
                reveal_with_fuel(spec_apply, 3);
                assert(s.take(i + 1) =~= s.take(i as int) + seq![m]);
                lemma_apply_append(c0, s.take(i as int), seq![m]);
                assert(seq![m].skip(1) =~= Seq::<Move>::empty());
                assert(seq![m][0] == m);
                assert(spec_apply(spec_apply(c0, s.take(i as int)), seq![m]) == spec_move_cube(
                    spec_apply(c0, s.take(i as int)),
                    m.spec_face(),
                    m.1 as int,
                ));
            }
            i += 1;
        }
        proof {
            assert(s.take(n as int) =~= s);
        }
    }
}


/// The colour identities of a cube, which no move ever changes, are
/// those of the solved cube, piece for piece.
pub open spec fn ids_canonical(c: CubeV) -> bool {
    &&& c.edges.len() == 12
    &&& c.corners.len() == 8
    &&& forall|i: int| 0 <= i < 12 ==> (#[trigger] c.edges[i]).id == spec_solved().edges[i].id
    &&& forall|i: int| 0 <= i < 8 ==> (#[trigger] c.corners[i]).id == spec_solved().corners[i].id
}

/// Moves permute occupied slots but never touch colour identities.
pub proof fn lemma_apply_keeps_ids(c: CubeV, s: Seq<Move>)
    ensures
        spec_apply(c, s).edges.len() == c.edges.len(),
        spec_apply(c, s).corners.len() == c.corners.len(),
        forall|i: int|
            0 <= i < c.edges.len() ==> (#[trigger] spec_apply(c, s).edges[i]).id == c.edges[i].id,
        forall|i: int|
            0 <= i < c.corners.len() ==> (#[trigger] spec_apply(c, s).corners[i]).id
                == c.corners[i].id,
    decreases s.len(),
{
    if s.len() > 0 {
        let c1 = spec_move_cube(c, s[0].spec_face(), s[0].1 as int);
        lemma_apply_keeps_ids(c1, s.skip(1));
    }
}


/// Some edge of the cube occupies the slot `s`, in any storage order.
pub open spec fn has_edge_slot(c: CubeV, s: Seq<Face>) -> bool {
    exists|i: int| 0 <= i < c.edges.len() && sort2((#[trigger] c.edges[i]).pos) == sort2(s)
}

/// Some corner of the cube occupies the slot `s`, in any storage order.
pub open spec fn has_corner_slot(c: CubeV, s: Seq<Face>) -> bool {
    exists|i: int| 0 <= i < c.corners.len() && sort3((#[trigger] c.corners[i]).pos) == sort3(s)
}

/// A real edge slot: two distinct, non-opposite faces.
pub open spec fn valid_edge_slot(s: Seq<Face>) -> bool {
    s.len() == 2 && faces_wf(s)
}

/// A real corner slot: three pairwise distinct, non-opposite faces.
pub open spec fn valid_corner_slot(s: Seq<Face>) -> bool {
    s.len() == 3 && faces_wf(s)
}

/// The occupied slots of the cube are exactly the cube's slots: every
/// real edge slot holds an edge and every real corner slot a corner.
pub open spec fn slots_complete(c: CubeV) -> bool {
    &&& forall|s: Seq<Face>| valid_edge_slot(s) ==> #[trigger] has_edge_slot(c, s)
    &&& forall|s: Seq<Face>| valid_corner_slot(s) ==> #[trigger] has_corner_slot(c, s)
}

/// The inverse of a rotation step is the complementary rotation step.
proof fn lemma_rot_inverse(f: Face, t: int, a: Face)
    requires
        f.wf(),
        a.wf(),
        1 <= t <= 3,
    ensures
        spec_rot(spec_rot(a, f, 4 - t), f, t) == a,
        spec_rot(a, f, 4 - t).wf(),
{
    lemma_rot_wf(f, 4 - t, a);
    lemma_rot_compose(f, 4 - t, t, a);
    lemma_rot_full_turn(f, 4, a);
}

/// One face turn keeps every real edge slot occupied.
#[verifier::rlimit(100)]
proof fn lemma_move_keeps_edge_slots(c: CubeV, f: Face, t: int, s: Seq<Face>)
    requires
        c.wf(),
        f.wf(),
        1 <= t <= 3,
        slots_complete(c),
        valid_edge_slot(s),
    ensures
        has_edge_slot(spec_move_cube(c, f, t), s),
{
    let c2 = spec_move_cube(c, f, t);
    let a = s[0];
    let b = s[1];
    if a == f || b == f {
        let a0 = spec_rot(a, f, 4 - t);
        let b0 = spec_rot(b, f, 4 - t);
        lemma_rot_inverse(f, t, a);
        lemma_rot_inverse(f, t, b);
        if a0 == b0 {
            assert(a == b);
        }
        lemma_rot_opposite(f, 4 - t, b);
        lemma_rot_opposite(f, 4 - t, a);
        assert(a0 != b0.spec_opposite()) by {
            if a0 == b0.spec_opposite() {
                lemma_rot_inverse(f, t, b.spec_opposite());
                assert(spec_rot(a0, f, t) == spec_rot(spec_rot(b.spec_opposite(), f, 4 - t), f, t));
                assert(a == b.spec_opposite());
            }
        }
        assert(b0 != a0.spec_opposite()) by {
            if b0 == a0.spec_opposite() {
                lemma_rot_inverse(f, t, a.spec_opposite());
                assert(b == a.spec_opposite());
            }
        }
        let s0 = seq![a0, b0];
        assert(valid_edge_slot(s0));
        assert(has_edge_slot(c, s0));
        let i = choose|i: int| 0 <= i < c.edges.len() && sort2((#[trigger] c.edges[i]).pos)
            == sort2(s0);
        let pos = c.edges[i].pos;
        assert(pos.len() == 2);
        crate::position::lemma_sort2_cases(pos, s0);
        assert(a0 == f || b0 == f) by {
            if a == f {
                assert(spec_rot(f, f, 4 - t) == f);
            } else {
                assert(spec_rot(f, f, 4 - t) == f);
            }
        }
        assert(pos.contains(f)) by {
            if pos =~= s0 {
                if a0 == f {
                    assert(pos[0] == f);
                } else {
                    assert(pos[1] == f);
                }
            } else {
                if a0 == f {
                    assert(pos[1] == f);
                } else {
                    assert(pos[0] == f);
                }
            }
        }
        let pos2 = c2.edges[i].pos;
        assert(pos2 == spec_rot_seq(pos, f, t));
        assert(pos2.len() == 2);
        if pos =~= s0 {
            assert(pos2 =~= seq![a, b]);
            assert(sort2(pos2) == sort2(s));
        } else {
            assert(pos2 =~= seq![b, a]);
            crate::position::lemma_sort2_swap(s);
            assert(sort2(seq![b, a]) == sort2(s));
        }
        assert(has_edge_slot(c2, s));
    } else {
        assert(has_edge_slot(c, s));
        let i = choose|i: int| 0 <= i < c.edges.len() && sort2((#[trigger] c.edges[i]).pos)
            == sort2(s);
        let pos = c.edges[i].pos;
        crate::position::lemma_sort2_cases(pos, s);
        assert(!pos.contains(f)) by {
            if pos.contains(f) {
                let k = choose|k: int| 0 <= k < 2 && pos[k] == f;
                assert(pos[k] == a || pos[k] == b);
            }
        }
        assert(c2.edges[i] == c.edges[i]);
        assert(has_edge_slot(c2, s));
    }
}

/// One face turn keeps every real corner slot occupied.
#[verifier::rlimit(100)]
#[verifier::spinoff_prover]
proof fn lemma_move_keeps_corner_slots(c: CubeV, f: Face, t: int, s: Seq<Face>)
    requires
        c.wf(),
        f.wf(),
        1 <= t <= 3,
        slots_complete(c),
        valid_corner_slot(s),
    ensures
        has_corner_slot(spec_move_cube(c, f, t), s),
{
    let c2 = spec_move_cube(c, f, t);
    let a = s[0];
    let b = s[1];
    let d = s[2];
    if a == f || b == f || d == f {
        let a0 = spec_rot(a, f, 4 - t);
        let b0 = spec_rot(b, f, 4 - t);
        let d0 = spec_rot(d, f, 4 - t);
        lemma_rot_inverse(f, t, a);
        lemma_rot_inverse(f, t, b);
        lemma_rot_inverse(f, t, d);
        let s0 = seq![a0, b0, d0];
        assert(valid_corner_slot(s0)) by {
            assert forall|i: int, j: int|
                #![trigger s0[i], s0[j]]
                0 <= i < 3 && 0 <= j < 3 && i != j implies s0[i] != s0[j] && s0[i]
                != s0[j].spec_opposite() by {
                if s0[i] == s0[j] {
                    assert(spec_rot(s0[i], f, t) == spec_rot(s0[j], f, t));
                    assert(s[i] == s[j]);
                }
                if s0[i] == s0[j].spec_opposite() {
                    lemma_rot_opposite(f, 4 - t, s[j]);
                    lemma_rot_inverse(f, t, s[j].spec_opposite());
                    assert(spec_rot(s0[i], f, t) == spec_rot(
                        spec_rot(s[j].spec_opposite(), f, 4 - t),
                        f,
                        t,
                    ));
                    assert(s[i] == s[j].spec_opposite());
                }
            }
            assert(forall|i: int| 0 <= i < 3 ==> (#[trigger] s0[i]).wf());
        }
        assert(has_corner_slot(c, s0));
        let i = choose|i: int| 0 <= i < c.corners.len() && sort3((#[trigger] c.corners[i]).pos)
            == sort3(s0);
        let pos = c.corners[i].pos;
        assert(pos.len() == 3);
        crate::position::lemma_sort3_cases(pos, s0);
        assert(a0 == f || b0 == f || d0 == f) by {
            assert(spec_rot(f, f, 4 - t) == f);
        }
        assert(pos.contains(f)) by {
            assert(s0.contains(f));
            let k = choose|k: int| 0 <= k < 3 && s0[k] == f;
            assert(pos[0] == f || pos[1] == f || pos[2] == f);
        }
        let pos2 = c2.corners[i].pos;
        assert(pos2 == spec_rot_seq(pos, f, t));
        assert(pos2.len() == 3);
        // whichever ordering of `s0` the piece stores, the rotated
        // tuple is the same ordering of `s`, and sorting forgets it
        assert(sort3(pos2) == sort3(s)) by {
            if pos =~= s0 {
                assert(pos2 =~= seq![a, b, d]);
                assert(pos2 =~= s);
            } else if pos =~= seq![s0[0], s0[2], s0[1]] {
                assert(pos2 =~= seq![a, d, b]);
                crate::position::lemma_sort3_swap12(s);
            } else if pos =~= seq![s0[1], s0[0], s0[2]] {
                assert(pos2 =~= seq![b, a, d]);
                crate::position::lemma_sort3_swap01(s);
            } else if pos =~= seq![s0[1], s0[2], s0[0]] {
                assert(pos2 =~= seq![b, d, a]);
                let u = seq![b, a, d];
                crate::position::lemma_sort3_swap01(s);
                assert(u =~= seq![s[1], s[0], s[2]]);
                crate::position::lemma_sort3_swap12(u);
                assert(seq![u[0], u[2], u[1]] =~= seq![b, d, a]);
            } else if pos =~= seq![s0[2], s0[0], s0[1]] {
                assert(pos2 =~= seq![d, a, b]);
                let u = seq![a, d, b];
                crate::position::lemma_sort3_swap12(s);
                assert(u =~= seq![s[0], s[2], s[1]]);
                crate::position::lemma_sort3_swap01(u);
                assert(seq![u[1], u[0], u[2]] =~= seq![d, a, b]);
            } else {
                assert(pos =~= seq![s0[2], s0[1], s0[0]]);
                assert(pos2 =~= seq![d, b, a]);
                let u = seq![a, d, b];
                crate::position::lemma_sort3_swap12(s);
                assert(u =~= seq![s[0], s[2], s[1]]);
                let v = seq![d, a, b];
                crate::position::lemma_sort3_swap01(u);
                assert(v =~= seq![u[1], u[0], u[2]]);
                crate::position::lemma_sort3_swap12(v);
                assert(seq![v[0], v[2], v[1]] =~= seq![d, b, a]);
            }
        }
        assert(has_corner_slot(c2, s));
    } else {
        assert(has_corner_slot(c, s));
        let i = choose|i: int| 0 <= i < c.corners.len() && sort3((#[trigger] c.corners[i]).pos)
            == sort3(s);
        let pos = c.corners[i].pos;
        crate::position::lemma_sort3_cases(pos, s);
        assert(!pos.contains(f)) by {
            if pos.contains(f) {
                let k = choose|k: int| 0 <= k < 3 && pos[k] == f;
                assert(pos[k] == a || pos[k] == b || pos[k] == d);
            }
        }
        assert(c2.corners[i] == c.corners[i]);
        assert(has_corner_slot(c2, s));
    }
}

/// Moves permute the occupied slots but never free one: after any
/// algorithm, every real slot still holds a piece.
pub proof fn lemma_apply_keeps_slots(c: CubeV, s: Seq<Move>)
    requires
        c.wf(),
        moves_wf(s),
        slots_complete(c),
    ensures
        slots_complete(spec_apply(c, s)),
    decreases s.len(),
{
    if s.len() > 0 {
        let m = s[0];
        let c1 = spec_move_cube(c, m.spec_face(), m.1 as int);
        assert(m.wf());
        assert forall|t: Seq<Face>| valid_edge_slot(t) implies #[trigger] has_edge_slot(
            c1,
            t,
        ) by {
            lemma_move_keeps_edge_slots(c, m.spec_face(), m.1 as int, t);
        }
        assert forall|t: Seq<Face>| valid_corner_slot(t) implies #[trigger] has_corner_slot(
            c1,
            t,
        ) by {
            lemma_move_keeps_corner_slots(c, m.spec_face(), m.1 as int, t);
        }
        lemma_move_cube_wf(c, m.spec_face(), m.1 as int);
        assert(moves_wf(s.skip(1)));
        lemma_apply_keeps_slots(c1, s.skip(1));
    }
}

/// On the solved cube every real slot is occupied by the piece whose
/// colours name it.
#[verifier::rlimit(100)]
#[verifier::spinoff_prover]
pub proof fn lemma_solved_slots_complete()
    ensures
        slots_complete(spec_solved()),
{
    let c = spec_solved();
    assert forall|s: Seq<Face>| valid_edge_slot(s) implies #[trigger] has_edge_slot(c, s) by {
        let a = s[0];
        let b = s[1];
        assert(sort2(s) == seq![a, b] || sort2(s) == seq![b, a]);
        assert(sort2(c.edges[0].pos) =~= seq![Face(0), Face(1)]);
        assert(sort2(c.edges[1].pos) =~= seq![Face(0), Face(2)]);
        assert(sort2(c.edges[2].pos) =~= seq![Face(0), Face(4)]);
        assert(sort2(c.edges[3].pos) =~= seq![Face(0), Face(5)]);
        assert(sort2(c.edges[4].pos) =~= seq![Face(1), Face(3)]);
        assert(sort2(c.edges[5].pos) =~= seq![Face(2), Face(3)]);
        assert(sort2(c.edges[6].pos) =~= seq![Face(3), Face(4)]);
        assert(sort2(c.edges[7].pos) =~= seq![Face(3), Face(5)]);
        assert(sort2(c.edges[8].pos) =~= seq![Face(1), Face(2)]);
        assert(sort2(c.edges[9].pos) =~= seq![Face(2), Face(4)]);
        assert(sort2(c.edges[10].pos) =~= seq![Face(4), Face(5)]);
        assert(sort2(c.edges[11].pos) =~= seq![Face(1), Face(5)]);
        assert(a == Face(a.0) && b == Face(b.0));
        assert(sort2(s) =~= if a.0 <= b.0 {
            seq![Face(a.0), Face(b.0)]
        } else {
            seq![Face(b.0), Face(a.0)]
        });
    }
    assert forall|s: Seq<Face>| valid_corner_slot(s) implies #[trigger] has_corner_slot(c, s) by {
        let a = s[0];
        let b = s[1];
        let d = s[2];
        assert(sort3(c.corners[0].pos) =~= seq![Face(0), Face(1), Face(2)]);
        assert(sort3(c.corners[1].pos) =~= seq![Face(0), Face(2), Face(4)]);
        assert(sort3(c.corners[2].pos) =~= seq![Face(0), Face(4), Face(5)]);
        assert(sort3(c.corners[3].pos) =~= seq![Face(0), Face(1), Face(5)]);
        assert(sort3(c.corners[4].pos) =~= seq![Face(1), Face(2), Face(3)]);
        assert(sort3(c.corners[5].pos) =~= seq![Face(2), Face(3), Face(4)]);
        assert(sort3(c.corners[6].pos) =~= seq![Face(3), Face(4), Face(5)]);
        assert(sort3(c.corners[7].pos) =~= seq![Face(1), Face(3), Face(5)]);
        assert(a == Face(a.0) && b == Face(b.0) && d == Face(d.0));
        assert(sort3(s) =~= sort3(seq![Face(a.0), Face(b.0), Face(d.0)]));
    }
}


/// Extra turns wrap: a turn count is read modulo four.
proof fn lemma_move_cube_mod(c: CubeV, f: Face, u: int)
    requires
        c.wf(),
        f.wf(),
        0 <= u < 8,
    ensures
        spec_move_cube(c, f, u) == spec_move_cube(c, f, u % 4),
{
    if u >= 4 {
        lemma_move_cube_full_turn(c, f, 4);
        lemma_move_cube_compose(c, f, 4, u - 4);
    }
}

/// A turn of one face never brings a piece onto the opposite face.
proof fn lemma_move_piece_avoids_opposite(p: PieceV, f: Face, t: int, n: int)
    requires
        f.wf(),
        p.wf(n),
        0 <= t < 4,
        !p.pos.contains(f.spec_opposite()),
    ensures
        !spec_move_piece(p, f, t).pos.contains(f.spec_opposite()),
{
    lemma_ring_members(f);
    let q = spec_move_piece(p, f, t);
    if p.pos.contains(f) {
        assert forall|k: int| 0 <= k < q.pos.len() implies q.pos[k] != f.spec_opposite() by {
            let g = p.pos[k];
            assert(g != f.spec_opposite());
            if g != f {
                lemma_adjacent_complete(f, g);
                lemma_ring_index(f, g);
                assert(0 <= (f.spec_ring_index(g) + t) % 4 < 4);
            }
        }
        if q.pos.contains(f.spec_opposite()) {
            let k = choose|k: int| 0 <= k < q.pos.len() && q.pos[k] == f.spec_opposite();
        }
    }
}

/// Turns of opposite faces act on disjoint pieces, so they commute.
proof fn lemma_move_piece_opp_commute(p: PieceV, f: Face, t1: int, t2: int, n: int)
    requires
        p.wf(n),
        f.wf(),
        0 <= t1 < 4,
        0 <= t2 < 4,
    ensures
        spec_move_piece(spec_move_piece(p, f, t1), f.spec_opposite(), t2) == spec_move_piece(
            spec_move_piece(p, f.spec_opposite(), t2),
            f,
            t1,
        ),
{
    let g = f.spec_opposite();
    assert(g.spec_opposite() == f);
    assert(f != g);
    if p.pos.contains(f) && p.pos.contains(g) {
        let i = choose|i: int| 0 <= i < p.pos.len() && p.pos[i] == f;
        let j = choose|j: int| 0 <= j < p.pos.len() && p.pos[j] == g;
        assert(p.pos[i] != p.pos[j].spec_opposite());
        assert(false);
    }
    if p.pos.contains(f) {
        lemma_move_piece_avoids_opposite(p, f, t1, n);
        assert(spec_move_piece(spec_move_piece(p, f, t1), g, t2) == spec_move_piece(p, f, t1));
        assert(spec_move_piece(p, g, t2) == p);
    } else if p.pos.contains(g) {
        lemma_move_piece_avoids_opposite(p, g, t2, n);
        assert(spec_move_piece(spec_move_piece(p, g, t2), f, t1) == spec_move_piece(p, g, t2));
        assert(spec_move_piece(p, f, t1) == p);
    }
}

/// Turns of opposite faces commute on the whole cube.
proof fn lemma_move_cube_opp_commute(c: CubeV, f: Face, t1: int, t2: int)
    requires
        c.wf(),
        f.wf(),
        0 <= t1 < 4,
        0 <= t2 < 4,
    ensures
        spec_move_cube(spec_move_cube(c, f, t1), f.spec_opposite(), t2) == spec_move_cube(
            spec_move_cube(c, f.spec_opposite(), t2),
            f,
            t1,
        ),
{
    let g = f.spec_opposite();
    let lhs = spec_move_cube(spec_move_cube(c, f, t1), g, t2);
    let rhs = spec_move_cube(spec_move_cube(c, g, t2), f, t1);
    assert forall|i: int| 0 <= i < 12 implies lhs.edges[i] == rhs.edges[i] by {
        lemma_move_piece_opp_commute(c.edges[i], f, t1, t2, 2);
    }
    assert forall|i: int| 0 <= i < 8 implies lhs.corners[i] == rhs.corners[i] by {
        lemma_move_piece_opp_commute(c.corners[i], f, t1, t2, 3);
    }
    assert(lhs.edges =~= rhs.edges);
    assert(lhs.corners =~= rhs.corners);
    assert(lhs =~= rhs);
}

/// The two letters of an axis pair turn opposite faces.
proof fn lemma_base_faces(b: MoveType)
    ensures
        Move(b.spec_opposite(), 1).spec_face() == Move(b, 1).spec_face().spec_opposite(),
        Move(b, 1).spec_face().wf(),
        Move(b.spec_opposite(), 1).spec_face().wf(),
{
}

/// A run over one axis pair acts as its two quantifier sums: first the
/// pair's representative face, then the opposite face, each by its sum
/// of quarters modulo four.
proof fn lemma_run_apply(c: CubeV, g: Seq<Move>, b: MoveType)
    requires
        c.wf(),
        moves_wf(g),
        forall|k: int| 0 <= k < g.len() ==> (#[trigger] g[k]).0.spec_base() == b,
        b.spec_base() == b,
    ensures
        spec_apply(c, g) == spec_move_cube(
            spec_move_cube(c, Move(b, 1).spec_face(), axis_sum(g, b) % 4),
            Move(b.spec_opposite(), 1).spec_face(),
            axis_sum(g, b.spec_opposite()) % 4,
        ),
    decreases g.len(),
{
    let fb = Move(b, 1).spec_face();
    let fo = Move(b.spec_opposite(), 1).spec_face();
    lemma_base_faces(b);
    assert(fo == fb.spec_opposite());
    lemma_axis_sum_nonneg(g, b);
    lemma_axis_sum_nonneg(g, b.spec_opposite());
    if g.len() == 0 {
        lemma_move_cube_full_turn(c, fb, 0);
        lemma_move_cube_full_turn(c, fo, 0);
    } else {
        let m = g[0];
        let rest = g.skip(1);
        assert(m.wf());
        assert(m.0.spec_base() == b);
        assert(m.0 == b || m.0 == b.spec_opposite());
        let c1 = spec_move_cube(c, m.spec_face(), m.1 as int);
        lemma_move_cube_wf(c, m.spec_face(), m.1 as int);
        assert(moves_wf(rest));
        assert(forall|k: int| 0 <= k < rest.len() ==> (#[trigger] rest[k]).0.spec_base() == b);
        lemma_run_apply(c1, rest, b);
        lemma_axis_sum_nonneg(rest, b);
        lemma_axis_sum_nonneg(rest, b.spec_opposite());
        let sb = axis_sum(rest, b) % 4;
        let so = axis_sum(rest, b.spec_opposite()) % 4;
        if m.0 == b {
            assert(m.spec_face() == fb);
            assert(axis_sum(g, b) == m.1 + axis_sum(rest, b));
            assert(axis_sum(g, b.spec_opposite()) == axis_sum(rest, b.spec_opposite()));
            lemma_move_cube_compose(c, fb, m.1 as int, sb);
            lemma_move_cube_mod(c, fb, m.1 as int + sb);
            assert((m.1 as int + sb) % 4 == axis_sum(g, b) % 4);
        } else {
            assert(m.spec_face() == fo);
            assert(axis_sum(g, b) == axis_sum(rest, b));
            assert(axis_sum(g, b.spec_opposite()) == m.1 + axis_sum(rest, b.spec_opposite()));
            // slide the leading opposite-face turn past the
            // representative-face turn, then merge it with its own kind
            lemma_move_cube_opp_commute(c, fb, sb, m.1 as int);
            assert(spec_move_cube(spec_move_cube(c, fo, m.1 as int), fb, sb) == spec_move_cube(
                spec_move_cube(c, fb, sb),
                fo,
                m.1 as int,
            ));
            let c2 = spec_move_cube(c, fb, sb);
            lemma_move_cube_wf(c, fb, sb);
            lemma_move_cube_compose(c2, fo, m.1 as int, so);
            lemma_move_cube_mod(c2, fo, m.1 as int + so);
            assert((m.1 as int + so) % 4 == axis_sum(g, b.spec_opposite()) % 4);
        }
    }
}

/// Collapsing a run to its two summed turns does not change what it
/// does to any cube.
proof fn lemma_reduce_apply(c: CubeV, g: Seq<Move>, b: MoveType)
    requires
        c.wf(),
        moves_wf(g),
        forall|k: int| 0 <= k < g.len() ==> (#[trigger] g[k]).0.spec_base() == b,
        b.spec_base() == b,
    ensures
        spec_apply(c, reduce_group(g, b)) == spec_apply(c, g),
{
    reveal_with_fuel(spec_apply, 4);
    let fb = Move(b, 1).spec_face();
    let fo = Move(b.spec_opposite(), 1).spec_face();
    lemma_base_faces(b);
    lemma_axis_sum_nonneg(g, b);
    lemma_axis_sum_nonneg(g, b.spec_opposite());
    let bs = axis_sum(g, b) % 4;
    let os = axis_sum(g, b.spec_opposite()) % 4;
    let red = reduce_group(g, b);
    lemma_run_apply(c, g, b);
    lemma_move_cube_wf(c, fb, bs);
    if bs != 0 && os != 0 {
        assert(red =~= seq![Move(b, bs as u8), Move(b.spec_opposite(), os as u8)]);
        assert(red.skip(1) =~= seq![Move(b.spec_opposite(), os as u8)]);
        assert(seq![Move(b.spec_opposite(), os as u8)].skip(1) =~= Seq::<Move>::empty());
    } else if bs != 0 {
        assert(red =~= seq![Move(b, bs as u8)]);
        assert(red.skip(1) =~= Seq::<Move>::empty());
        lemma_move_cube_full_turn(spec_move_cube(c, fb, bs), fo, 0);
    } else if os != 0 {
        assert(red =~= seq![Move(b.spec_opposite(), os as u8)]);
        assert(red.skip(1) =~= Seq::<Move>::empty());
        lemma_move_cube_full_turn(c, fb, 0);
    } else {
        assert(red =~= Seq::<Move>::empty());
        lemma_move_cube_full_turn(c, fb, 0);
        lemma_move_cube_full_turn(c, fo, 0);
    }
}

/// The moves a pass emits all carry meaningful quantifiers.
proof fn lemma_pass_moves_wf(s: Seq<Move>, i: int)
    requires
        0 <= i <= s.len(),
    ensures
        moves_wf(spec_pass_from(s, i).0),
    decreases s.len() - i,
{
    if i < s.len() {
        let b = s[i].0.spec_base();
        let j = run_end(s, b, i);
        lemma_run_end_bounds(s, b, i);
        lemma_reduce_members(s.subrange(i, j), b);
        lemma_pass_moves_wf(s, j);
        let red = reduce_group(s.subrange(i, j), b);
        let rest = spec_pass_from(s, j).0;
        assert forall|k: int| 0 <= k < spec_pass_from(s, i).0.len() implies (#[trigger] spec_pass_from(
            s,
            i,
        ).0[k]).wf() by {
            if k < red.len() {
                assert(spec_pass_from(s, i).0[k] == red[k]);
            } else {
                assert(spec_pass_from(s, i).0[k] == rest[k - red.len()]);
            }
        }
    }
}

/// One simplification pass does not change what the sequence does to
/// any cube.
proof fn lemma_pass_apply(c: CubeV, s: Seq<Move>, i: int)
    requires
        c.wf(),
        moves_wf(s),
        0 <= i <= s.len(),
    ensures
        spec_apply(c, spec_pass_from(s, i).0) == spec_apply(c, s.skip(i)),
    decreases s.len() - i,
{
    if i >= s.len() {
        assert(s.skip(i) =~= Seq::<Move>::empty());
        assert(spec_pass_from(s, i).0 =~= Seq::<Move>::empty());
    } else {
        let b = s[i].0.spec_base();
        let j = run_end(s, b, i);
        lemma_run_end_bounds(s, b, i);
        lemma_run_end_members(s, b, i);
        let sub = s.subrange(i, j);
        assert(moves_wf(sub));
        assert(forall|k: int| 0 <= k < sub.len() ==> (#[trigger] sub[k]).0.spec_base() == b);
        assert(b.spec_base() == b);
        let red = reduce_group(sub, b);
        let rest = spec_pass_from(s, j).0;
        lemma_apply_append(c, red, rest);
        lemma_reduce_apply(c, sub, b);
        let c1 = spec_apply(c, sub);
        lemma_apply_wf(c, sub);
        lemma_pass_apply(c1, s, j);
        assert(s.skip(i) =~= sub + s.skip(j));
        lemma_apply_append(c, sub, s.skip(j));
    }
}

/// Simplifying an algorithm does not change what it does to any cube:
/// the passes only merge turns of one axis pair and drop whole turns.
pub proof fn lemma_simplified_preserves_apply(c: CubeV, s: Seq<Move>)
    requires
        c.wf(),
        moves_wf(s),
    ensures
        spec_apply(c, spec_simplified(s)) == spec_apply(c, s),
    decreases s.len(),
{
    let (r, again) = spec_pass_from(s, 0);
    lemma_pass_apply(c, s, 0);
    assert(s.skip(0) =~= s);
    if again {
        lemma_pass_len(s, 0);
        lemma_pass_moves_wf(s, 0);
        lemma_simplified_preserves_apply(c, r);
    }
}

} // verus!
