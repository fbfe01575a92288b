use rubiks::algorithm::Alg;
use rubiks::cube::Cube;
use rubiks::face::Face;
use rubiks::position::Pos;

fn alg(s: &str) -> Alg {
    Alg::parse(s.as_bytes()).expect("notation must parse")
}

#[test]
fn test_solved_cube_is_solved() {
    assert!(Cube::new_solved().is_solved());
}

#[test]
fn test_move_changes_state() {
    let mut cube = Cube::new_solved();
    cube.apply(&alg("R"));
    assert!(!cube.is_solved());
    cube.apply(&alg("R'"));
    assert!(cube.is_solved());
}

#[test]
fn test_quarter_turn_order_four() {
    // applying one quarter turn four times restores any state
    let letters = ["U", "D", "F", "B", "L", "R"];
    let mut cube = Cube::new_solved();
    cube.apply(&alg("D R2 F L U F D' B2"));
    for letter in letters.iter() {
        let before = cube;
        for _ in 0..4 {
            cube.apply(&alg(letter));
        }
        assert_eq!(cube, before);
    }
}

#[test]
fn test_apply_reversed_restores() {
    let cases = [
        "R' D L R2 U' B'",
        "D R2 F L U F D' F L D F' L2 D' B' D' R B L' U B' L2 B2 L B U",
        "U",
        "",
    ];
    for scramble in cases.iter() {
        let mut cube = Cube::new_solved();
        cube.apply(&alg("F2 U L"));
        let before = cube;
        let a = alg(scramble);
        cube.apply(&a);
        cube.apply(&a.reversed());
        assert_eq!(cube, before);
    }
}

#[test]
fn test_half_turn_is_two_quarters() {
    let mut a = Cube::new_solved();
    let mut b = Cube::new_solved();
    a.apply(&alg("F2"));
    b.apply(&alg("F F"));
    assert_eq!(a, b);
}

#[test]
fn test_edge_and_corner_lookup() {
    let cube = Cube::new_solved();
    let edge = cube.edge_at(Pos([Face::new(2), Face::new(0)]));
    assert!(edge.is_solved());
    assert_eq!(edge.id_on(Face::new(0)), Face::new(0));
    let corner = cube.corner_at(Pos([Face::new(4), Face::new(0), Face::new(5)]));
    assert!(corner.is_solved());
    assert_eq!(corner.id_on(Face::new(5)), Face::new(5));
    assert_eq!(cube.iter_edges().len(), 12);
    assert_eq!(cube.iter_corners().len(), 8);
}

#[test]
fn test_turn_permutes_touched_edges() {
    let mut cube = Cube::new_solved();
    cube.apply(&alg("U"));
    // the edge whose colours read (0, 1) has moved to the slot that
    // was holding (0, 5): face 1 advances one step on the clockwise
    // ring of face 0, which runs 5, 4, 2, 1
    for e in cube.iter_edges().iter() {
        if e.has_id(Pos([Face::new(0), Face::new(1)])) {
            assert!(e.is_at(Pos([Face::new(0), Face::new(5)])));
        }
        if !e.id_contains(Face::new(0)) {
            assert!(e.is_solved());
        }
    }
}

#[test]
fn test_cube_transpose_round_trip() {
    let mut cube = Cube::new_solved();
    cube.apply(&alg("R U F' D2"));
    let before = cube;
    cube.transpose(
        Pos([Face::new(0), Face::new(5)]),
        Pos([Face::new(2), Face::new(1)]),
    );
    cube.transpose(
        Pos([Face::new(2), Face::new(1)]),
        Pos([Face::new(0), Face::new(5)]),
    );
    assert_eq!(cube, before);
}

#[test]
fn test_cube_transpose_keeps_solvedness() {
    // remapping a solved cube renames every piece's colours and slot
    // alike, so each piece still rests on its own colours
    let mut cube = Cube::new_solved();
    cube.transpose(
        Pos([Face::new(1), Face::new(3)]),
        Pos([Face::new(4), Face::new(0)]),
    );
    for e in cube.iter_edges().iter() {
        assert!(e.is_solved());
    }
    for c in cube.iter_corners().iter() {
        assert!(c.is_solved());
    }
}

#[test]
fn test_simplified_same_effect() {
    // the simplified form of an algorithm does the same thing to a cube
    let cases = ["F U U2 R2 B' F2", "D2 B2 B2 D L' D'", "R L2 U' D F2 B R R2 R B' F2 D' U L L R'"];
    for text in cases.iter() {
        let a = alg(text);
        let mut plain = Cube::new_solved();
        plain.apply(&alg("D R2 F L"));
        let mut short = plain;
        plain.apply(&a);
        short.apply(&a.simplified());
        assert_eq!(plain, short);
    }
}
