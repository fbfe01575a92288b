use rubiks::algorithm::Alg;
use rubiks::cube::Cube;
use rubiks::face::Face;
use rubiks::position::Pos;
use rubiks::tables::load1;
use rubiks::tables::StageTable;

/// The cross-stage data: for every position the reference edge can
/// occupy in the canonical orientation, an algorithm that brings it
/// home while leaving the other three cross edges' home slots exactly
/// where they were.
fn cross_lines() -> Vec<Vec<u8>> {
    let text = [
        "// cross stage: reference edge (0,5), canonical orientation",
        "01:\"F2 D' L2\"",
        "02:\"R2 D2 L2\"",
        "04:\"B2 D L2\"",
        "05:\"\"",
        "10:\"F' L'\"",
        "12:\"U2 R U2\"",
        "13:\"F L' F'\"",
        "15:\"L'\"",
        "20:\"U F' U' L'\"",
        "21:\"U' F' U\"",
        "23:\"F' D' F L'\"",
        "24:\"U B U'\"",
        "31:\"D' L2\"",
        "32:\"D2 L2\"",
        "34:\"D L2\"",
        "35:\"L2\"",
        "40:\"B L\"",
        "42:\"U2 R' U2\"",
        "43:\"B' L B\"",
        "45:\"L\"",
        "50:\"U B U' L\"",
        "51:\"U' F U\"",
        "53:\"F' D F L'\"",
        "54:\"U B' U'\"",
    ];
    text.iter().map(|l| l.as_bytes().to_vec()).collect()
}

fn cross_table() -> StageTable {
    let table = load1(&cross_lines()).expect("cross data must load");
    assert!(table.is_complete());
    table
}

fn alg(s: &str) -> Alg {
    Alg::parse(s.as_bytes()).expect("notation must parse")
}

fn assert_cross_solved(cube: &Cube) {
    for other in [1u8, 2, 4, 5].iter() {
        let id = Pos([Face::new(0), Face::new(*other)]);
        let mut found = false;
        for e in cube.iter_edges().iter() {
            if e.has_id(id) {
                found = true;
                assert!(e.is_solved(), "cross edge (0, {}) is not solved", other);
            }
        }
        assert!(found);
    }
}

#[test]
fn test_cross_solution_end_to_end() {
    let table = cross_table();
    let mut cube = Cube::new_solved();
    cube.apply(&alg(
        "D R2 F L U F D' F L D F' L2 D' B' D' R B L' U B' L2 B2 L B U",
    ));
    let solution = cube.solution(&table);
    cube.apply(&solution);
    assert_cross_solved(&cube);
}

#[test]
fn test_cross_solution_more_scrambles() {
    let table = cross_table();
    let scrambles = [
        "R' D L R2 U' B'",
        "U2 F D U2 L' R F2",
        "B' U2 L' U B2 L2 B' D",
        "F",
        "L2",
        "D'",
    ];
    for scramble in scrambles.iter() {
        let mut cube = Cube::new_solved();
        cube.apply(&alg(scramble));
        let solution = cube.solution(&table);
        cube.apply(&solution);
        assert_cross_solved(&cube);
    }
}

#[test]
fn test_cross_solution_of_solved_cube_is_empty() {
    let table = cross_table();
    let cube = Cube::new_solved();
    let solution = cube.solution(&table);
    assert_eq!(solution.len(), 0);
}

#[test]
fn test_get_cross_alg_matches_solution() {
    let table = cross_table();
    let mut cube = Cube::new_solved();
    cube.apply(&alg("R' D L R2 U' B'"));
    let a = cube.get_cross_alg(Face::new(0), &table);
    let b = cube.solution(&table);
    assert_eq!(a, b);
}
