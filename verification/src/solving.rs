//! The table-driven cross-stage solver.
//!
//! For the cross anchored at a face, the solver tries every ordering of
//! that face's four neighbours.  For each neighbour in turn it re-reads
//! the cross pieces in the canonical orientation (cross face in front,
//! the neighbour down), looks the reference edge's position up in the
//! stage table, evaluates the entry's decision list against which other
//! cross edges already sit at home, remaps the chosen algorithm back,
//! applies it to a simulated cube and appends it to the running
//! algorithm.  The shortest simplified result over all orderings wins.

use vstd::prelude::*;
use crate::face::Face;
use crate::face::lemma_adjacent_members;
use crate::position::Pos;
use crate::position::sort2;
use crate::position::spec_projection;
use crate::position::spec_remap_seq;
use crate::position::lemma_remap_props;
use crate::position::lemma_remap_injective;
use crate::position::lemma_remap_pair;
use crate::piece::PieceV;
use crate::piece::Edge;
use crate::piece::edge_transposed_v;
use crate::algorithm::Alg;
use crate::algorithm::Move;
use crate::algorithm::moves_wf;
use crate::algorithm::spec_alg_transposed;
use crate::algorithm::spec_simplified;
use crate::cube::Cube;
use crate::cube::CubeV;
use crate::cube::spec_apply;
use crate::cube::ids_canonical;
use crate::cube::lemma_apply_keeps_ids;
use crate::cube::lemma_apply_wf;
use crate::cube::lemma_apply_append;
use crate::cube::lemma_simplified_preserves_apply;
use crate::support::Tern;
use crate::tables::StageTable;
use crate::tables::CrossTern;
use crate::tables::tern_wf;
use crate::tables::spec_lookup;
use crate::tables::spec_cross_complete;

verus! {

broadcast use vstd::array::group_array_axioms;

/// The colour identity of the reference edge in the canonical
/// orientation: cross face in front, working side down.
pub open spec fn canonical_ref_id() -> Seq<Face> {
    seq![Face(0), Face(5)]
}

/// The pieces of an edge list, read mathematically.
pub open spec fn edge_views(edges: Seq<Edge>) -> Seq<PieceV> {
    edges.map_values(|e: Edge| e@)
}

/// The cross pieces of the cube — the edges whose identity mentions the
/// cross face — re-read in the canonical orientation, in storage order.
pub open spec fn spec_cross_edges(
    edges: Seq<PieceV>,
    face: Face,
    from: Seq<Face>,
    to: Seq<Face>,
) -> Seq<PieceV>
    decreases edges.len(),
{
    if edges.len() == 0 {
        Seq::empty()
    } else {
        let rest = spec_cross_edges(edges.skip(1), face, from, to);
        if edges[0].id.contains(face) {
            seq![edge_transposed_v(edges[0], from, to)] + rest
        } else {
            rest
        }
    }
}

proof fn lemma_cross_edges_push(
    edges: Seq<PieceV>,
    face: Face,
    from: Seq<Face>,
    to: Seq<Face>,
    e: PieceV,
)
    ensures
        spec_cross_edges(edges.push(e), face, from, to) == spec_cross_edges(
            edges,
            face,
            from,
            to,
        ) + if e.id.contains(face) {
            seq![edge_transposed_v(e, from, to)]
        } else {
            Seq::<PieceV>::empty()
        },
    decreases edges.len(),
{
    reveal_with_fuel(spec_cross_edges, 3);
    let tail = if e.id.contains(face) {
        seq![edge_transposed_v(e, from, to)]
    } else {
        Seq::<PieceV>::empty()
    };
    if edges.len() == 0 {
        assert(edges.push(e)[0] == e);
        assert(edges.push(e).skip(1) =~= Seq::<PieceV>::empty());
        assert(spec_cross_edges(edges, face, from, to) + tail =~= tail);
        if e.id.contains(face) {
            assert(seq![edge_transposed_v(e, from, to)] + Seq::<PieceV>::empty() =~= tail);
        }
    } else {
        assert(edges.push(e)[0] == edges[0]);
        assert(edges.push(e).skip(1) =~= edges.skip(1).push(e));
        lemma_cross_edges_push(edges.skip(1), face, from, to, e);
        if edges[0].id.contains(face) {
            assert(seq![edge_transposed_v(edges[0], from, to)] + (spec_cross_edges(
                edges.skip(1),
                face,
                from,
                to,
            ) + tail) =~= (seq![edge_transposed_v(edges[0], from, to)] + spec_cross_edges(
                edges.skip(1),
                face,
                from,
                to,
            )) + tail);
        }
    }
}

proof fn lemma_cross_edges_member(
    edges: Seq<PieceV>,
    face: Face,
    from: Seq<Face>,
    to: Seq<Face>,
    i: int,
)
    requires
        0 <= i < edges.len(),
        edges[i].id.contains(face),
    ensures
        spec_cross_edges(edges, face, from, to).contains(edge_transposed_v(edges[i], from, to)),
    decreases edges.len(),
{
    let r = spec_cross_edges(edges, face, from, to);
    if i == 0 {
        assert(r[0] == edge_transposed_v(edges[0], from, to));
    } else {
        assert(edges.skip(1)[i - 1] == edges[i]);
        lemma_cross_edges_member(edges.skip(1), face, from, to, i - 1);
        let rest = spec_cross_edges(edges.skip(1), face, from, to);
        let k = choose|k: int| 0 <= k < rest.len() && rest[k] == edge_transposed_v(
            edges[i],
            from,
            to,
        );
        if edges[0].id.contains(face) {
            assert(r[k + 1] == rest[k]);
        }
    }
}

/// The first edge of the list with the given identity.
pub open spec fn spec_find_ref(edges: Seq<PieceV>, id: Seq<Face>) -> Option<PieceV>
    decreases edges.len(),
{
    if edges.len() == 0 {
        None
    } else if edges[0].id == id {
        Some(edges[0])
    } else {
        spec_find_ref(edges.skip(1), id)
    }
}

proof fn lemma_find_ref_skip(edges: Seq<PieceV>, id: Seq<Face>, i: int)
    requires
        0 <= i <= edges.len(),
        forall|k: int| 0 <= k < i ==> (#[trigger] edges[k]).id != id,
    ensures
        spec_find_ref(edges, id) == spec_find_ref(edges.skip(i), id),
    decreases i,
{
    if i > 0 {
        lemma_find_ref_skip(edges, id, i - 1);
        assert(edges.skip(i - 1)[0] == edges[i - 1]);
        assert(edges.skip(i - 1).skip(1) =~= edges.skip(i));
    } else {
        assert(edges.skip(0) =~= edges);
    }
}

proof fn lemma_find_ref_some(edges: Seq<PieceV>, id: Seq<Face>, i: int)
    requires
        0 <= i < edges.len(),
        edges[i].id == id,
    ensures
        spec_find_ref(edges, id) is Some,
    decreases i,
{
    if edges[0].id != id {
        assert(edges.skip(1)[i - 1] == edges[i]);
        lemma_find_ref_some(edges.skip(1), id, i - 1);
    }
}

/// Whether the first edge with this identity, if any, sits at home.
pub open spec fn cond_entry_solved(p: Pos<2>, edges: Seq<PieceV>) -> bool {
    match spec_find_ref(edges, p@) {
        Some(e) => e.id == e.pos,
        None => false,
    }
}

/// A condition holds when any of the reference positions it lists is
/// already solved in the given edge list.
pub open spec fn spec_cond_holds(cond: Seq<Pos<2>>, edges: Seq<PieceV>) -> bool {
    exists|k: int| 0 <= k < cond.len() && cond_entry_solved(#[trigger] cond[k], edges)
}

/// The decision list walked against the solved state of the listed
/// reference edges: the first clause whose condition holds wins, the
/// default standing otherwise.
pub open spec fn spec_eval_cross(t: CrossTern, edges: Seq<PieceV>) -> Alg
    decreases t,
{
    match t {
        Tern::End(r) => r,
        Tern::Con(c, r, rest) => if spec_cond_holds(c@, edges) {
            r
        } else {
            spec_eval_cross(*rest, edges)
        },
    }
}

proof fn lemma_eval_cross_wf(t: CrossTern, edges: Seq<PieceV>)
    requires
        tern_wf(t),
    ensures
        moves_wf(spec_eval_cross(t, edges)@),
    decreases t,
{
    match t {
        Tern::End(r) => {},
        Tern::Con(c, r, rest) => {
            assert(t.spec_clauses()[0] == (c, r));
            assert(moves_wf(r@));
            assert(rest.spec_default() == t.spec_default());
            assert forall|i: int| 0 <= i < rest.spec_clauses().len() implies moves_wf(
                (#[trigger] rest.spec_clauses()[i]).1@,
            ) by {
                assert(t.spec_clauses()[i + 1] == rest.spec_clauses()[i]);
            }
            lemma_eval_cross_wf(*rest, edges);
        },
    }
}

proof fn lemma_lookup_result_wf(entries: Seq<(Pos<2>, CrossTern)>, key: Seq<Face>)
    requires
        forall|i: int| 0 <= i < entries.len() ==> tern_wf((#[trigger] entries[i]).1),
        spec_lookup(entries, key) is Some,
    ensures
        tern_wf(spec_lookup(entries, key)->0),
    decreases entries.len(),
{
    if entries.len() > 0 && entries[0].0@ != key {
        assert(forall|i: int|
            0 <= i < entries.skip(1).len() ==> entries.skip(1)[i] == (#[trigger] entries[i + 1]));
        lemma_lookup_result_wf(entries.skip(1), key);
    }
}

/// One neighbour handled: the cross pieces re-read canonically, the
/// reference edge's position looked up, the decision list evaluated,
/// and the chosen algorithm remapped back into real labels.
pub open spec fn spec_stage_step(
    c: CubeV,
    face: Face,
    other: Face,
    entries: Seq<(Pos<2>, CrossTern)>,
) -> Seq<Move> {
    let pf = spec_projection(face, other);
    let pt = spec_projection(Face(0), Face(5));
    let edges = spec_cross_edges(c.edges, face, pf, pt);
    let refe = spec_find_ref(edges, canonical_ref_id())->0;
    let tern = spec_lookup(entries, refe.pos)->0;
    let alg = spec_eval_cross(tern, edges);
    spec_alg_transposed(alg@, pt, pf)
}

/// The neighbours of one ordering handled in turn, each step applied
/// to the simulation before the next is chosen.
pub open spec fn spec_stage_run(
    c: CubeV,
    face: Face,
    others: Seq<Face>,
    entries: Seq<(Pos<2>, CrossTern)>,
) -> Seq<Move>
    decreases others.len(),
{
    if others.len() == 0 {
        Seq::empty()
    } else {
        let a = spec_stage_step(c, face, others[0], entries);
        a + spec_stage_run(spec_apply(c, a), face, others.skip(1), entries)
    }
}

/// The 24 orderings of four neighbours, as index quadruples.
pub open spec fn spec_ordering_indices(p: int) -> (int, int, int, int) {
    if p == 0 {
        (0, 1, 2, 3)
    } else if p == 1 {
        (0, 1, 3, 2)
    } else if p == 2 {
        (0, 2, 1, 3)
    } else if p == 3 {
        (0, 2, 3, 1)
    } else if p == 4 {
        (0, 3, 1, 2)
    } else if p == 5 {
        (0, 3, 2, 1)
    } else if p == 6 {
        (1, 0, 2, 3)
    } else if p == 7 {
        (1, 0, 3, 2)
    } else if p == 8 {
        (1, 2, 0, 3)
    } else if p == 9 {
        (1, 2, 3, 0)
    } else if p == 10 {
        (1, 3, 0, 2)
    } else if p == 11 {
        (1, 3, 2, 0)
    } else if p == 12 {
        (2, 0, 1, 3)
    } else if p == 13 {
        (2, 0, 3, 1)
    } else if p == 14 {
        (2, 1, 0, 3)
    } else if p == 15 {
        (2, 1, 3, 0)
    } else if p == 16 {
        (2, 3, 0, 1)
    } else if p == 17 {
        (2, 3, 1, 0)
    } else if p == 18 {
        (3, 0, 1, 2)
    } else if p == 19 {
        (3, 0, 2, 1)
    } else if p == 20 {
        (3, 1, 0, 2)
    } else if p == 21 {
        (3, 1, 2, 0)
    } else if p == 22 {
        (3, 2, 0, 1)
    } else {
        (3, 2, 1, 0)
    }
}

/// The neighbours of `face` arranged by the ordering numbered `p`.
pub open spec fn spec_ordering(adj: Seq<Face>, p: int) -> Seq<Face> {
    let t = spec_ordering_indices(p);
    seq![adj[t.0], adj[t.1], adj[t.2], adj[t.3]]
}

/// The finished candidate of one ordering: its run, simplified.
pub open spec fn spec_candidate(
    c: CubeV,
    face: Face,
    entries: Seq<(Pos<2>, CrossTern)>,
    p: int,
) -> Seq<Move> {
    spec_simplified(spec_stage_run(c, face, spec_ordering(face.spec_adjacent(), p), entries))
}

/// The best candidate among the first `n` orderings: fewest moves,
/// earliest ordering winning ties.
pub open spec fn spec_best_upto(c: CubeV, face: Face, entries: Seq<(Pos<2>, CrossTern)>, n: int) -> Seq<
    Move,
>
    decreases n,
{
    if n <= 1 {
        spec_candidate(c, face, entries, 0)
    } else {
        let prev = spec_best_upto(c, face, entries, n - 1);
        let cand = spec_candidate(c, face, entries, n - 1);
        if cand.len() < prev.len() {
            cand
        } else {
            prev
        }
    }
}

/// The cross solution: the best candidate over all 24 orderings.
pub open spec fn spec_cross_solution(c: CubeV, face: Face, entries: Seq<(Pos<2>, CrossTern)>) -> Seq<
    Move,
> {
    spec_best_upto(c, face, entries, 24)
}

/// For every neighbour of `face`, some edge of the cube carries the
/// cross colours of that side.
pub open spec fn spec_has_cross_edges(c: CubeV, face: Face) -> bool {
    forall|other: Face|
        #[trigger] face.spec_adjacent().contains(other) ==> exists|i: int|
            0 <= i < c.edges.len() && (#[trigger] c.edges[i]).id == sort2(seq![face, other])
}

/// Moves keep the cross identities present, since they keep every
/// identity.
pub proof fn lemma_apply_keeps_cross(c: CubeV, s: Seq<Move>, face: Face)
    requires
        spec_has_cross_edges(c, face),
    ensures
        spec_has_cross_edges(spec_apply(c, s), face),
{
    lemma_apply_keeps_ids(c, s);
    assert forall|other: Face| #[trigger] face.spec_adjacent().contains(other) implies exists|
        i: int,
    |
        0 <= i < spec_apply(c, s).edges.len() && (#[trigger] spec_apply(c, s).edges[i]).id == sort2(
            seq![face, other],
        ) by {
        let i = choose|i: int|
            0 <= i < c.edges.len() && (#[trigger] c.edges[i]).id == sort2(seq![face, other]);
        assert(spec_apply(c, s).edges[i].id == sort2(seq![face, other]));
    }
}

/// A cube whose identities are canonical carries all four cross edges
/// of the down face.
pub proof fn lemma_canonical_has_cross_edges(c: CubeV)
    requires
        ids_canonical(c),
    ensures
        spec_has_cross_edges(c, Face(0)),
{
    assert forall|other: Face| #[trigger] Face(0).spec_adjacent().contains(other) implies exists|
        i: int,
    | 0 <= i < c.edges.len() && (#[trigger] c.edges[i]).id == sort2(seq![Face(0), other]) by {
        let j = choose|j: int| 0 <= j < 4 && Face(0).spec_adjacent()[j] == other;
        if other == Face(1) {
            assert(c.edges[0].id == sort2(seq![Face(0), other]));
        } else if other == Face(2) {
            assert(c.edges[1].id == sort2(seq![Face(0), other]));
        } else if other == Face(4) {
            assert(c.edges[2].id == sort2(seq![Face(0), other]));
        } else {
            assert(other == Face(5));
            assert(c.edges[3].id == sort2(seq![Face(0), other]));
        }
    }
}

/// A remapped well-formed face tuple is still well-formed.
proof fn lemma_remap_tuple_wf(s: Seq<Face>, f1: Face, d1: Face, f2: Face, d2: Face)
    requires
        crate::piece::faces_wf(s),
        f1.wf(),
        f1.spec_adjacent().contains(d1),
        f2.wf(),
        f2.spec_adjacent().contains(d2),
    ensures
        crate::piece::faces_wf(spec_remap_seq(s, spec_projection(f1, d1), spec_projection(f2, d2))),
{
    let from = spec_projection(f1, d1);
    let to = spec_projection(f2, d2);
    let r = spec_remap_seq(s, from, to);
    assert forall|i: int| 0 <= i < r.len() implies (#[trigger] r[i]).wf() by {
        lemma_remap_props(f1, d1, f2, d2, s[i]);
    }
    assert forall|i: int, j: int|
        #![trigger r[i], r[j]]
        0 <= i < r.len() && 0 <= j < r.len() && i != j implies r[i] != r[j] && r[i]
        != r[j].spec_opposite() by {
        lemma_remap_props(f1, d1, f2, d2, s[i]);
        lemma_remap_props(f1, d1, f2, d2, s[j]);
        lemma_remap_injective(f1, d1, f2, d2, s[i], s[j]);
        lemma_remap_injective(f1, d1, f2, d2, s[i], s[j].spec_opposite());
    }
}

/// A re-read edge is still a well-formed edge.
proof fn lemma_edge_transposed_wf(p: PieceV, f1: Face, d1: Face, f2: Face, d2: Face)
    requires
        p.wf(2),
        f1.wf(),
        f1.spec_adjacent().contains(d1),
        f2.wf(),
        f2.spec_adjacent().contains(d2),
    ensures
        edge_transposed_v(p, spec_projection(f1, d1), spec_projection(f2, d2)).wf(2),
{
    lemma_remap_tuple_wf(p.id, f1, d1, f2, d2);
    lemma_remap_tuple_wf(p.pos, f1, d1, f2, d2);
}

/// The elements of the canonically re-read cross-edge list are
/// well-formed edges.
proof fn lemma_cross_edges_wf(edges: Seq<PieceV>, face: Face, f1: Face, d1: Face, f2: Face, d2: Face)
    requires
        forall|i: int| 0 <= i < edges.len() ==> (#[trigger] edges[i]).wf(2),
        f1.wf(),
        f1.spec_adjacent().contains(d1),
        f2.wf(),
        f2.spec_adjacent().contains(d2),
    ensures
        forall|k: int|
            0 <= k < spec_cross_edges(
                edges,
                face,
                spec_projection(f1, d1),
                spec_projection(f2, d2),
            ).len() ==> (#[trigger] spec_cross_edges(
                edges,
                face,
                spec_projection(f1, d1),
                spec_projection(f2, d2),
            )[k]).wf(2),
    decreases edges.len(),
{
    if edges.len() > 0 {
        assert(forall|i: int|
            0 <= i < edges.skip(1).len() ==> edges.skip(1)[i] == (#[trigger] edges[i + 1]));
        lemma_cross_edges_wf(edges.skip(1), face, f1, d1, f2, d2);
        lemma_edge_transposed_wf(edges[0], f1, d1, f2, d2);
        let r = spec_cross_edges(edges, face, spec_projection(f1, d1), spec_projection(f2, d2));
        let rest = spec_cross_edges(
            edges.skip(1),
            face,
            spec_projection(f1, d1),
            spec_projection(f2, d2),
        );
        assert forall|k: int| 0 <= k < r.len() implies (#[trigger] r[k]).wf(2) by {
            if edges[0].id.contains(face) {
                if k == 0 {
                    assert(r[0] == edge_transposed_v(
                        edges[0],
                        spec_projection(f1, d1),
                        spec_projection(f2, d2),
                    ));
                } else {
                    assert(r[k] == rest[k - 1]);
                }
            } else {
                assert(r[k] == rest[k]);
            }
        }
    }
}

/// The cross edge of side `other` reads as the canonical reference
/// identity once re-read canonically.
proof fn lemma_transposed_ref_id(p: PieceV, face: Face, other: Face)
    requires
        p.id.len() == 2,
        p.id == sort2(seq![face, other]),
        face.wf(),
        face.spec_adjacent().contains(other),
    ensures
        edge_transposed_v(
            p,
            spec_projection(face, other),
            spec_projection(Face(0), Face(5)),
        ).id == canonical_ref_id(),
{
    assert(Face(0).spec_adjacent()[3] == Face(5));
    assert(Face(0).spec_adjacent().contains(Face(5)));
    lemma_remap_pair(face, other, Face(0), Face(5));
    let from = spec_projection(face, other);
    let to = spec_projection(Face(0), Face(5));
    lemma_adjacent_members(face);
    if face.0 <= other.0 {
        assert(p.id == seq![face, other]);
        assert(spec_remap_seq(p.id, from, to) =~= seq![Face(0), Face(5)]);
        assert(edge_transposed_v(p, from, to).id =~= canonical_ref_id());
    } else {
        assert(p.id == seq![other, face]);
        assert(spec_remap_seq(p.id, from, to) =~= seq![Face(5), Face(0)]);
        assert(edge_transposed_v(p, from, to).id =~= canonical_ref_id());
    }
}

/// Whether the first edge with identity `p`, if any, sits at home.
fn entry_solved(p: Pos<2>, edges: &Vec<Edge>) -> (r: bool)
    ensures
        r == cond_entry_solved(p, edge_views(edges@)),
{
    let ghost views = edge_views(edges@);
    let n = edges.len();
    let mut i: usize = 0;
    while i < n
        invariant
            0 <= i <= n,
            n == edges@.len(),
            views == edge_views(edges@),
            forall|j: int| 0 <= j < i ==> (#[trigger] views[j]).id != p@,
        decreases n - i,
    {
        let e = edges[i];
        if e.id == p {
            proof {
                lemma_find_ref_skip(views, p@, i as int);
                assert(views.skip(i as int)[0] == views[i as int]);
            }
            let solved = e.is_solved();
            proof {
                if e.id@ == e.pos@ {
                    assert(e.id.0 =~= e.pos.0);
                }
            }
            return solved;
        }
        proof {
            if views[i as int].id == p@ {
                assert(edges@[i as int].id.0 =~= p.0);
            }
        }
        i += 1;
    }
    proof {
        lemma_find_ref_skip(views, p@, n as int);
        assert(views.skip(n as int) =~= Seq::<PieceV>::empty());
    }
    false
}

/// Whether any listed reference position is already solved.
fn cond_holds(cond: &Vec<Pos<2>>, edges: &Vec<Edge>) -> (r: bool)
    ensures
        r == spec_cond_holds(cond@, edge_views(edges@)),
{
    let n = cond.len();
    let mut k: usize = 0;
    while k < n
        invariant
            0 <= k <= n,
            n == cond@.len(),
            forall|j: int| 0 <= j < k ==> !cond_entry_solved(#[trigger] cond@[j], edge_views(edges@)),
        decreases n - k,
    {
        if entry_solved(cond[k], edges) {
            return true;
        }
        k += 1;
    }
    false
}

/// Walks the decision list; the first clause whose condition holds
/// wins, the default standing otherwise.
fn eval_cross<'a>(t: &'a CrossTern, edges: &Vec<Edge>) -> (r: &'a Alg)
    ensures
        *r == spec_eval_cross(*t, edge_views(edges@)),
    decreases *t,
{
    match t {
        Tern::End(r) => r,
        Tern::Con(c, r, rest) => {
            if cond_holds(c, edges) {
                r
            } else {
                eval_cross(rest, edges)
            }
        },
    }
}

/// Index of the first canonical reference edge in the list, if any.
fn find_ref_index(edges: &Vec<Edge>) -> (r: Option<usize>)
    ensures
        match r {
            Some(i) => i < edges@.len() && Some(edge_views(edges@)[i as int]) == spec_find_ref(
                edge_views(edges@),
                canonical_ref_id(),
            ),
            None => spec_find_ref(edge_views(edges@), canonical_ref_id()) is None,
        },
{
    let ghost views = edge_views(edges@);
    let target = Pos([Face::new(0), Face::new(5)]);
    proof {
        assert(target@ =~= canonical_ref_id());
    }
    let n = edges.len();
    let mut i: usize = 0;
    while i < n
        invariant
            0 <= i <= n,
            n == edges@.len(),
            views == edge_views(edges@),
            target@ == canonical_ref_id(),
            forall|j: int| 0 <= j < i ==> (#[trigger] views[j]).id != canonical_ref_id(),
        decreases n - i,
    {
        if edges[i].id == target {
            proof {
                lemma_find_ref_skip(views, canonical_ref_id(), i as int);
                assert(views.skip(i as int)[0] == views[i as int]);
            }
            return Some(i);
        }
        proof {
            if views[i as int].id == canonical_ref_id() {
                assert(edges@[i as int].id.0 =~= target.0);
            }
        }
        i += 1;
    }
    proof {
        lemma_find_ref_skip(views, canonical_ref_id(), n as int);
        assert(views.skip(n as int) =~= Seq::<PieceV>::empty());
    }
    None
}

/// One neighbour of one ordering handled, as `spec_stage_step` says.
fn cross_step(cube: &Cube, face: Face, other: Face, table: &StageTable) -> (r: Alg)
    requires
        cube@.wf(),
        face.wf(),
        face.spec_adjacent().contains(other),
        table.wf(),
        spec_cross_complete(table.entries@),
        spec_has_cross_edges(cube@, face),
    ensures
        r@ == spec_stage_step(cube@, face, other, table.entries@),
        r.wf(),
{
    proof {
        lemma_adjacent_members(face);
    }
    let from_pair = Pos([face, other]);
    let to_pair = Pos([Face::new(0), Face::new(5)]);
    let ghost pf = spec_projection(face, other);
    let ghost pt = spec_projection(Face(0), Face(5));
    proof {
        assert(from_pair@ =~= seq![face, other]);
        assert(to_pair@ =~= seq![Face(0), Face(5)]);
        assert(other != face && other != face.spec_opposite());
        assert(face != other.spec_opposite());
        assert(from_pair.wf());
        assert(to_pair.wf());
        assert(Face(0).spec_adjacent()[3] == Face(5));
        assert(Face(0).spec_adjacent().contains(Face(5)));
    }
    let ghost all = cube@.edges;
    let mut edges: Vec<Edge> = Vec::new();
    let mut i: usize = 0;
    while i < 12
        invariant
            0 <= i <= 12,
            all == cube@.edges,
            all.len() == 12,
            cube@.wf(),
            from_pair@ == seq![face, other],
            to_pair@ == seq![Face(0), Face(5)],
            from_pair.wf(),
            to_pair.wf(),
            pf == spec_projection(face, other),
            pt == spec_projection(Face(0), Face(5)),
            edge_views(edges@) == spec_cross_edges(all.take(i as int), face, pf, pt),
        decreases 12 - i,
    {
        let e = cube.edges[i];
        proof {
            assert(e@ == all[i as int]);
            assert(all.take(i + 1) =~= all.take(i as int).push(all[i as int]));
            lemma_cross_edges_push(all.take(i as int), face, pf, pt, all[i as int]);
        }
        let ghost prev = edges@;
        if e.id.has(face) {
            let te = e.transposed(from_pair, to_pair);
            proof {
                assert(from_pair@[0] == face && from_pair@[1] == other);
                assert(to_pair@[0] == Face(0) && to_pair@[1] == Face(5));
                assert(te@ =~= edge_transposed_v(all[i as int], pf, pt));
            }
            edges.push(te);
            proof {
                assert(edge_views(edges@) =~= edge_views(prev) + seq![
                    edge_transposed_v(all[i as int], pf, pt),
                ]);
            }
        } else {
            proof {
                assert(spec_cross_edges(all.take(i + 1), face, pf, pt) == spec_cross_edges(
                    all.take(i as int),
                    face,
                    pf,
                    pt,
                ) + Seq::<PieceV>::empty());
                assert(edge_views(edges@) =~= edge_views(prev) + Seq::<PieceV>::empty());
            }
        }
        i += 1;
    }
    let ghost cedges = spec_cross_edges(cube@.edges, face, pf, pt);
    proof {
        assert(all.take(12) =~= all);
        assert(edge_views(edges@) == cedges);
        // the reference edge exists
        assert(face.spec_adjacent().contains(other));
        let wi = choose|wi: int|
            0 <= wi < cube@.edges.len() && (#[trigger] cube@.edges[wi]).id == sort2(
                seq![face, other],
            );
        assert(cube@.edges[wi].wf(2));
        assert(sort2(seq![face, other]).len() == 2);
        assert(cube@.edges[wi].id.contains(face)) by {
            if face.0 <= other.0 {
                assert(sort2(seq![face, other])[0] == face);
            } else {
                assert(sort2(seq![face, other])[1] == face);
            }
        }
        lemma_transposed_ref_id(cube@.edges[wi], face, other);
        lemma_cross_edges_member(cube@.edges, face, pf, pt, wi);
        let wk = choose|wk: int|
            0 <= wk < cedges.len() && cedges[wk] == edge_transposed_v(cube@.edges[wi], pf, pt);
        lemma_find_ref_some(cedges, canonical_ref_id(), wk);
    }
    let ri = match find_ref_index(&edges) {
        Some(ri) => ri,
        None => {
            proof {
                assert(false);
            }
            return Alg::new();
        },
    };
    let key = edges[ri].pos;
    proof {
        // the key is a well-formed reference position, so the table answers it
        lemma_cross_edges_wf(cube@.edges, face, face, other, Face(0), Face(5));
        let ghost refe = spec_find_ref(cedges, canonical_ref_id())->0;
        assert(refe == cedges[ri as int]);
        assert(refe.wf(2));
        assert(key@ == refe.pos);
        assert(key@.len() == 2 && key@[0].wf() && key@[1].wf() && key@[0] != key@[1] && key@[1]
            != key@[0].spec_opposite());
        assert(spec_lookup(table.entries@, key@) is Some);
    }
    let tern = match table.lookup(key) {
        Some(t) => t,
        None => {
            proof {
                assert(false);
            }
            return Alg::new();
        },
    };
    proof {
        lemma_lookup_result_wf(table.entries@, key@);
        lemma_eval_cross_wf(*tern, edge_views(edges@));
    }
    let alg = eval_cross(tern, &edges);
    let mut out = alg.duplicate();
    out.transpose(to_pair, from_pair);
    out
}

impl Cube {
    /// The whole cross stage for the cross anchored at `face`: all 24
    /// neighbour orderings are tried on simulated copies and the
    /// shortest simplified algorithm wins, earliest ordering first.
    pub fn get_cross_alg(&self, face: Face, table: &StageTable) -> (r: Alg)
        requires
            self@.wf(),
            face.wf(),
            table.wf(),
            spec_cross_complete(table.entries@),
            spec_has_cross_edges(self@, face),
        ensures
            r@ == spec_cross_solution(self@, face, table.entries@),
            r.wf(),
            spec_table_solves(table.entries@) ==> forall|other: Face|
                face.spec_adjacent().contains(other) ==> cross_edge_solved(
                    spec_apply(self@, r@),
                    face,
                    other,
                ),
    {
        let adjacent = face.adjacent();
        let mut best: Alg = Alg::new();
        let mut p: usize = 0;
        while p < 24
            invariant
                0 <= p <= 24,
                self@.wf(),
                face.wf(),
                table.wf(),
                spec_cross_complete(table.entries@),
                spec_has_cross_edges(self@, face),
                adjacent@ == face.spec_adjacent(),
                p > 0 ==> best@ == spec_best_upto(self@, face, table.entries@, p as int)
                    && best.wf(),
            decreases 24 - p,
        {
            let (i0, i1, i2, i3) = ordering_indices(p);
            let others: [Face; 4] = [adjacent[i0], adjacent[i1], adjacent[i2], adjacent[i3]];
            let ghost others_seq = spec_ordering(face.spec_adjacent(), p as int);
            proof {
                assert(others@ =~= others_seq);
            }
            let mut sim: Cube = *self;
            let mut acc: Alg = Alg::new();
            let mut k: usize = 0;
            proof {
                assert(others_seq.skip(0) =~= others_seq);
                assert(acc@ + spec_stage_run(sim@, face, others_seq, table.entries@)
                    =~= spec_stage_run(self@, face, others_seq, table.entries@));
            }
            while k < 4
                invariant
                    0 <= k <= 4,
                    self@.wf(),
                    face.wf(),
                    table.wf(),
                    spec_cross_complete(table.entries@),
                    spec_has_cross_edges(self@, face),
                    others@ == others_seq,
                    others_seq.len() == 4,
                    sim@.wf(),
                    spec_has_cross_edges(sim@, face),
                    acc.wf(),
                    forall|j: int| 0 <= j < 4 ==> face.spec_adjacent().contains(#[trigger] others@[j]),
                    spec_stage_run(self@, face, others_seq, table.entries@) == acc@
                        + spec_stage_run(sim@, face, others_seq.skip(k as int), table.entries@),
                decreases 4 - k,
            {
                let other = others[k];
                let ghost sim0 = sim@;
                let ghost acc0 = acc@;
                let stepalg = cross_step(&sim, face, other, table);
                sim.apply(&stepalg);
                proof {
                    crate::cube::lemma_apply_keeps_ids(sim0, stepalg@);
                    lemma_apply_keeps_cross(sim0, stepalg@, face);
                }
                acc.push(stepalg);
                proof {
                    assert(others_seq.skip(k as int)[0] == others_seq[k as int]);
                    assert(others_seq.skip(k as int).skip(1) =~= others_seq.skip(k + 1));
                    assert(spec_stage_run(sim0, face, others_seq.skip(k as int), table.entries@)
                        == stepalg@ + spec_stage_run(
                        sim@,
                        face,
                        others_seq.skip(k + 1),
                        table.entries@,
                    ));
                    assert(acc0 + (stepalg@ + spec_stage_run(
                        sim@,
                        face,
                        others_seq.skip(k + 1),
                        table.entries@,
                    )) =~= (acc0 + stepalg@) + spec_stage_run(
                        sim@,
                        face,
                        others_seq.skip(k + 1),
                        table.entries@,
                    ));
                }
                k += 1;
            }
            proof {
                assert(others_seq.skip(4) =~= Seq::<Face>::empty());
                assert(acc@ + Seq::<Move>::empty() =~= acc@);
                assert(acc@ == spec_stage_run(self@, face, others_seq, table.entries@));
            }
            let cand = acc.simplified();
            proof {
                assert(cand@ == spec_candidate(self@, face, table.entries@, p as int));
            }
            if p == 0 {
                best = cand;
            } else if cand.len() < best.len() {
                best = cand;
            }
            proof {
                assert(best@ == spec_best_upto(self@, face, table.entries@, p + 1));
            }
            p += 1;
        }
        proof {
            if spec_table_solves(table.entries@) {
                lemma_cross_solution_solves(self@, face, table.entries@);
            }
        }
        best
    }

    /// The first solving stage: the cross on the down face.
    pub fn solution(&self, table: &StageTable) -> (r: Alg)
        requires
            self@.wf(),
            ids_canonical(self@),
            table.wf(),
            spec_cross_complete(table.entries@),
        ensures
            r@ == spec_cross_solution(self@, Face(0), table.entries@),
            r.wf(),
            spec_table_solves(table.entries@) ==> forall|other: Face|
                Face(0).spec_adjacent().contains(other) ==> cross_edge_solved(
                    spec_apply(self@, r@),
                    Face(0),
                    other,
                ),
    {
        proof {
            lemma_canonical_has_cross_edges(self@);
        }
        self.get_cross_alg(Face::new(0), table)
    }
}

/// The index quadruple of ordering `p`.
fn ordering_indices(p: usize) -> (r: (usize, usize, usize, usize))
    requires
        p < 24,
    ensures
        r.0 < 4 && r.1 < 4 && r.2 < 4 && r.3 < 4,
        (r.0 as int, r.1 as int, r.2 as int, r.3 as int) == spec_ordering_indices(p as int),
{
    if p == 0 {
        (0, 1, 2, 3)
    } else if p == 1 {
        (0, 1, 3, 2)
    } else if p == 2 {
        (0, 2, 1, 3)
    } else if p == 3 {
        (0, 2, 3, 1)
    } else if p == 4 {
        (0, 3, 1, 2)
    } else if p == 5 {
        (0, 3, 2, 1)
    } else if p == 6 {
        (1, 0, 2, 3)
    } else if p == 7 {
        (1, 0, 3, 2)
    } else if p == 8 {
        (1, 2, 0, 3)
    } else if p == 9 {
        (1, 2, 3, 0)
    } else if p == 10 {
        (1, 3, 0, 2)
    } else if p == 11 {
        (1, 3, 2, 0)
    } else if p == 12 {
        (2, 0, 1, 3)
    } else if p == 13 {
        (2, 0, 3, 1)
    } else if p == 14 {
        (2, 1, 0, 3)
    } else if p == 15 {
        (2, 1, 3, 0)
    } else if p == 16 {
        (2, 3, 0, 1)
    } else if p == 17 {
        (2, 3, 1, 0)
    } else if p == 18 {
        (3, 0, 1, 2)
    } else if p == 19 {
        (3, 0, 2, 1)
    } else if p == 20 {
        (3, 1, 0, 2)
    } else if p == 21 {
        (3, 1, 2, 0)
    } else if p == 22 {
        (3, 2, 0, 1)
    } else {
        (3, 2, 1, 0)
    }
}


/// The cross edge of side `other` rests at home: every edge whose
/// colours are the cross face and `other` occupies exactly the slot
/// its colours name.
pub open spec fn cross_edge_solved(c: CubeV, face: Face, other: Face) -> bool {
    forall|i: int|
        0 <= i < c.edges.len() && (#[trigger] c.edges[i]).id == sort2(seq![face, other])
            ==> c.edges[i].pos == c.edges[i].id
}

/// What makes stage data fit to solve with: for every cube state and
/// working side, the algorithm the table yields — the decision list
/// under the reference edge's canonical position, evaluated against
/// the already-home cross edges and remapped back from the canonical
/// orientation — is well-formed notation, brings that side's cross
/// edge home, and keeps every already-home cross edge home.
pub open spec fn spec_table_solves(entries: Seq<(Pos<2>, CrossTern)>) -> bool {
    forall|c: CubeV, face: Face, other: Face|
        #![trigger spec_stage_step(c, face, other, entries)]
        c.wf() && face.wf() && spec_has_cross_edges(c, face) && face.spec_adjacent().contains(
            other,
        ) ==> {
            let a = spec_stage_step(c, face, other, entries);
            &&& moves_wf(a)
            &&& cross_edge_solved(spec_apply(c, a), face, other)
            &&& forall|o2: Face|
                face.spec_adjacent().contains(o2) && cross_edge_solved(c, face, o2)
                    ==> cross_edge_solved(spec_apply(c, a), face, o2)
        }
}

/// Running a stage ordering over fit data solves the cross edge of
/// every side the ordering visits and keeps every already-home cross
/// edge home.
proof fn lemma_stage_run_solves(
    c: CubeV,
    face: Face,
    others: Seq<Face>,
    entries: Seq<(Pos<2>, CrossTern)>,
)
    requires
        c.wf(),
        face.wf(),
        spec_has_cross_edges(c, face),
        spec_table_solves(entries),
        forall|k: int| 0 <= k < others.len() ==> face.spec_adjacent().contains(#[trigger] others[k]),
    ensures
        moves_wf(spec_stage_run(c, face, others, entries)),
        forall|o: Face|
            others.contains(o) ==> cross_edge_solved(
                spec_apply(c, spec_stage_run(c, face, others, entries)),
                face,
                o,
            ),
        forall|o: Face|
            face.spec_adjacent().contains(o) && cross_edge_solved(c, face, o)
                ==> cross_edge_solved(
                spec_apply(c, spec_stage_run(c, face, others, entries)),
                face,
                o,
            ),
    decreases others.len(),
{
    let r = spec_stage_run(c, face, others, entries);
    if others.len() == 0 {
        assert(spec_apply(c, r) == c);
        assert(forall|o: Face| !others.contains(o));
    } else {
        let o0 = others[0];
        assert(others.contains(o0));
        assert(face.spec_adjacent().contains(o0));
        let a = spec_stage_step(c, face, o0, entries);
        assert(moves_wf(a) && cross_edge_solved(spec_apply(c, a), face, o0));
        let c1 = spec_apply(c, a);
        lemma_apply_wf(c, a);
        lemma_apply_keeps_cross(c, a, face);
        let rest = others.skip(1);
        assert(forall|k: int|
            0 <= k < rest.len() ==> face.spec_adjacent().contains(#[trigger] rest[k]));
        lemma_stage_run_solves(c1, face, rest, entries);
        let rr = spec_stage_run(c1, face, rest, entries);
        assert(r == a + rr);
        lemma_apply_append(c, a, rr);
        assert(spec_apply(c, r) == spec_apply(c1, rr));
        assert forall|o: Face| others.contains(o) implies cross_edge_solved(
            spec_apply(c, r),
            face,
            o,
        ) by {
            let k = choose|k: int| 0 <= k < others.len() && others[k] == o;
            if k == 0 {
                assert(cross_edge_solved(c1, face, o));
                assert(cross_edge_solved(spec_apply(c1, rr), face, o));
            } else {
                assert(rest[k - 1] == o);
                assert(rest.contains(o));
            }
        }
    }
}

/// The chosen cross solution is one of the candidates.
proof fn lemma_best_is_candidate(
    c: CubeV,
    face: Face,
    entries: Seq<(Pos<2>, CrossTern)>,
    n: int,
)
    requires
        1 <= n,
    ensures
        exists|p: int|
            0 <= p < n && spec_best_upto(c, face, entries, n) == spec_candidate(
                c,
                face,
                entries,
                p,
            ),
    decreases n,
{
    if n == 1 {
        assert(spec_best_upto(c, face, entries, 1) == spec_candidate(c, face, entries, 0));
    } else {
        lemma_best_is_candidate(c, face, entries, n - 1);
    }
}

/// Every ordering visits every neighbour of the cross face.
proof fn lemma_ordering_covers(adj: Seq<Face>, p: int, j: int)
    requires
        0 <= p < 24,
        adj.len() == 4,
        0 <= j < 4,
    ensures
        spec_ordering(adj, p).contains(adj[j]),
        forall|k: int| 0 <= k < 4 ==> adj.contains(#[trigger] spec_ordering(adj, p)[k]),
{
    let t = spec_ordering_indices(p);
    assert(0 <= t.0 < 4 && 0 <= t.1 < 4 && 0 <= t.2 < 4 && 0 <= t.3 < 4);
    assert(t.0 == j || t.1 == j || t.2 == j || t.3 == j);
    if t.0 == j {
        assert(spec_ordering(adj, p)[0] == adj[j]);
    } else if t.1 == j {
        assert(spec_ordering(adj, p)[1] == adj[j]);
    } else if t.2 == j {
        assert(spec_ordering(adj, p)[2] == adj[j]);
    } else {
        assert(spec_ordering(adj, p)[3] == adj[j]);
    }
    assert forall|k: int| 0 <= k < 4 implies adj.contains(#[trigger] spec_ordering(adj, p)[k]) by {
        if k == 0 {
            assert(spec_ordering(adj, p)[0] == adj[t.0]);
        } else if k == 1 {
            assert(spec_ordering(adj, p)[1] == adj[t.1]);
        } else if k == 2 {
            assert(spec_ordering(adj, p)[2] == adj[t.2]);
        } else {
            assert(spec_ordering(adj, p)[3] == adj[t.3]);
        }
    }
}

/// The conditional solving theorem: over stage data that is fit to
/// solve with, applying the chosen cross solution to the cube brings
/// every cross edge of the cross face home.
pub proof fn lemma_cross_solution_solves(c: CubeV, face: Face, entries: Seq<(Pos<2>, CrossTern)>)
    requires
        c.wf(),
        face.wf(),
        spec_has_cross_edges(c, face),
        spec_table_solves(entries),
    ensures
        forall|other: Face|
            face.spec_adjacent().contains(other) ==> cross_edge_solved(
                spec_apply(c, spec_cross_solution(c, face, entries)),
                face,
                other,
            ),
{
    lemma_best_is_candidate(c, face, entries, 24);
    let p = choose|p: int|
        0 <= p < 24 && spec_cross_solution(c, face, entries) == spec_candidate(c, face, entries, p);
    let adj = face.spec_adjacent();
    let others = spec_ordering(adj, p);
    lemma_adjacent_members(face);
    lemma_ordering_covers(adj, p, 0);
    let run = spec_stage_run(c, face, others, entries);
    lemma_stage_run_solves(c, face, others, entries);
    lemma_simplified_preserves_apply(c, run);
    assert(spec_apply(c, spec_cross_solution(c, face, entries)) == spec_apply(c, run));
    assert forall|other: Face| face.spec_adjacent().contains(other) implies cross_edge_solved(
        spec_apply(c, spec_cross_solution(c, face, entries)),
        face,
        other,
    ) by {
        let j = choose|j: int| 0 <= j < 4 && adj[j] == other;
        lemma_ordering_covers(adj, p, j);
        assert(others.contains(other));
    }
}

/// The same theorem anchored at the down face, as `solution` uses it.
pub proof fn lemma_solution_solves_cross(c: CubeV, entries: Seq<(Pos<2>, CrossTern)>)
    requires
        c.wf(),
        ids_canonical(c),
        spec_table_solves(entries),
    ensures
        forall|other: Face|
            Face(0).spec_adjacent().contains(other) ==> cross_edge_solved(
                spec_apply(c, spec_cross_solution(c, Face(0), entries)),
                Face(0),
                other,
            ),
{
    lemma_canonical_has_cross_edges(c);
    lemma_cross_solution_solves(c, Face(0), entries);
}

} // verus!
