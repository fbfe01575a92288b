use rubiks::algorithm::Alg;
use rubiks::position::Pos;
use rubiks::algorithm::Move;
use rubiks::algorithm::MoveType;
use rubiks::algorithm::parse_move;
use rubiks::face::Face;

fn alg(s: &str) -> Alg {
    Alg::parse(s.as_bytes()).expect("notation must parse")
}

#[test]
fn test_algorithm_reversed() {
    let cases = [
        ("R' D L R2 U' B'", "B U R2 L' D' R"),
        ("U2 F D U2 L' R F2", "F2 R' L U2 D' F' U2"),
        ("R' F' D2 L B2 L2 R2 U F'", "F U' R2 L2 B2 L' D2 F R"),
        ("R2 B' U' F2 D B F'", "F B' D' F2 U B R2"),
        ("R F L2 R B2 F U' L2 R'", "R L2 U F' B2 R' L2 F' R'"),
        ("D2 F R2 F U R D' L2 B", "B' L2 D R' U' F' R2 F' D2"),
        ("F D U' B U' L B2 F L2", "L2 F' B2 L' U B' U D' F'"),
        ("U B' D2 U2 L", "L' U2 D2 B U'"),
        ("B' U2 L' U B2 L2 B' D", "D' B L2 B2 U' L U2 B"),
        ("D' B' D R2 U2 L2 F", "F' L2 U2 R2 D' B D"),
    ];
    for (a, rev) in cases.iter() {
        assert_eq!(alg(a).reversed(), alg(rev));
    }
}

#[test]
fn test_algorithm_simplified() {
    let cases = [
        ("F U U2 R2 B' F2", "F U' R2 B' F2"),
        ("R2 F2 D' B B' L'", "R2 F2 D' L'"),
        ("R2 D2 D' L' F U", "R2 D L' F U"),
        ("B2 L2 D U' R' U", "B2 L2 D U' R' U"),
        ("R2 B L U L' L2", "R2 B L U L"),
        ("B2 U2 B2 U2 U F'", "B2 U2 B2 U' F'"),
        ("U2 F2 F' B D' U2", "U2 B F D' U2"),
        ("D2 L' R B' F D'", "D2 L' R B' F D'"),
        ("D' R B D2 R D", "D' R B D2 R D"),
        ("D2 B2 B2 D L' D'", "D' L' D'"),
        ("R L2 U' D F2 B R R2 R B' F2 D' U L L R'", ""),
    ];
    for (a, simplified) in cases.iter() {
        assert_eq!(alg(a).simplified(), alg(simplified));
    }
}

#[test]
fn test_simplified_idempotent_examples() {
    let cases = ["F U U2 R2 B' F2", "D2 B2 B2 D L' D'", "R L2 U' D F2 B R R2 R B' F2 D' U L L R'"];
    for a in cases.iter() {
        let once = alg(a).simplified();
        let twice = once.simplified();
        assert_eq!(once, twice);
    }
}

#[test]
fn test_parse_moves() {
    assert_eq!(parse_move(b"U"), Some(Move(MoveType::U, 1)));
    assert_eq!(parse_move(b"R2"), Some(Move(MoveType::R, 2)));
    assert_eq!(parse_move(b"L'"), Some(Move(MoveType::L, 3)));
    assert_eq!(parse_move(b"X"), None);
    assert_eq!(parse_move(b"U3"), None);
    assert_eq!(parse_move(b""), None);
    assert_eq!(parse_move(b"U2'"), None);
}

#[test]
fn test_parse_alg() {
    let a = alg("F U' B2");
    assert_eq!(a.len(), 3);
    assert!(Alg::parse(b"F X").is_none());
    assert!(Alg::parse(b"").is_some());
    assert_eq!(alg("").len(), 0);
    assert_eq!(alg("  F   U'  "), alg("F U'"));
}

#[test]
fn test_move_face_and_times() {
    assert_eq!(Move(MoveType::U, 1).face(), Face::new(0));
    assert_eq!(Move(MoveType::F, 1).face(), Face::new(1));
    assert_eq!(Move(MoveType::R, 1).face(), Face::new(2));
    assert_eq!(Move(MoveType::D, 1).face(), Face::new(3));
    assert_eq!(Move(MoveType::B, 1).face(), Face::new(4));
    assert_eq!(Move(MoveType::L, 1).face(), Face::new(5));
    assert_eq!(Move(MoveType::R, 2).times(), 2);
    assert_eq!(Move(MoveType::R, 2).base_move(), MoveType::L);
    assert_eq!(MoveType::U.base_move(), MoveType::D);
    assert_eq!(MoveType::F.opposite(), MoveType::B);
}

#[test]
fn test_alg_push_and_len() {
    let mut a = Alg::new();
    assert_eq!(a.len(), 0);
    a.push(alg("F U"));
    a.push(alg("R'"));
    assert_eq!(a, alg("F U R'"));
    assert_eq!(a.len(), 3);
    assert_eq!(a.duplicate(), a);
}

#[test]
fn test_alg_transpose() {
    // re-reading with front 0 / down 5 turned into front 0 / down 1
    // rotates every side face one step around face 0
    let mut a = alg("F R B L U D");
    a.transpose(
        Pos([Face::new(0), Face::new(5)]),
        Pos([Face::new(0), Face::new(1)]),
    );
    assert_eq!(a, alg("R B L F U D"));
}

#[test]
fn test_notation_round_trip() {
    let cases = ["", "F", "R' D2 F", "R L2 U' D F2 B R R2 R B' F2 D' U L L R'"];
    for text in cases.iter() {
        let a = alg(text);
        assert_eq!(a.notation(), *text);
        assert_eq!(Alg::parse(a.notation().as_bytes()).unwrap(), a);
    }
}
