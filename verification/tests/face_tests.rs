use rubiks::face::Face;

fn f(n: u8) -> Face {
    Face::new(n)
}

#[test]
fn test_adjacent() {
    assert_eq!(f(0).adjacent(), [f(1), f(2), f(4), f(5)]);
    assert_eq!(f(1).adjacent(), [f(0), f(2), f(3), f(5)]);
    assert_eq!(f(2).adjacent(), [f(0), f(1), f(3), f(4)]);
    assert_eq!(f(3).adjacent(), [f(1), f(2), f(4), f(5)]);
    assert_eq!(f(4).adjacent(), [f(0), f(2), f(3), f(5)]);
    assert_eq!(f(5).adjacent(), [f(0), f(1), f(3), f(4)]);

    assert_eq!(f(0).adjacent_clockwise(), [f(5), f(4), f(2), f(1)]);
    assert_eq!(f(1).adjacent_clockwise(), [f(0), f(2), f(3), f(5)]);
    assert_eq!(f(2).adjacent_clockwise(), [f(4), f(3), f(1), f(0)]);
    assert_eq!(f(3).adjacent_clockwise(), [f(1), f(2), f(4), f(5)]);
    assert_eq!(f(4).adjacent_clockwise(), [f(5), f(3), f(2), f(0)]);
    assert_eq!(f(5).adjacent_clockwise(), [f(0), f(1), f(3), f(4)]);
}

#[test]
fn test_opposite_involution() {
    for n in 0..6u8 {
        let face = f(n);
        assert_eq!(face.opposite().opposite(), face);
        assert_eq!(face.opposite(), f((n + 3) % 6));
    }
}

#[test]
fn test_adjacent_excludes_self_and_opposite() {
    for n in 0..6u8 {
        let face = f(n);
        let adjacent = face.adjacent();
        assert_eq!(adjacent.len(), 4);
        for a in adjacent.iter() {
            assert_ne!(*a, face);
            assert_ne!(*a, face.opposite());
        }
        for i in 0..4 {
            for j in 0..4 {
                if i != j {
                    assert_ne!(adjacent[i], adjacent[j]);
                }
            }
        }
    }
}

#[test]
fn test_adjacent_edges() {
    let expected: [(u8, [[u8; 2]; 4]); 6] = [
        (0, [[0, 1], [0, 2], [0, 4], [0, 5]]),
        (1, [[0, 1], [1, 2], [1, 3], [1, 5]]),
        (2, [[0, 2], [1, 2], [2, 3], [2, 4]]),
        (3, [[1, 3], [2, 3], [3, 4], [3, 5]]),
        (4, [[0, 4], [2, 4], [3, 4], [4, 5]]),
        (5, [[0, 5], [1, 5], [3, 5], [4, 5]]),
    ];
    for (face, edges) in expected.iter() {
        for (e, c) in f(*face).adjacent_edges().iter().zip(edges.iter()) {
            let faces = e.as_ruby()[0];
            assert_eq!(faces, [f(c[0]), f(c[1])]);
        }
    }
}

#[test]
fn test_adjacent_corners() {
    let expected: [(u8, [[u8; 3]; 4]); 6] = [
        (0, [[0, 1, 2], [0, 2, 4], [0, 4, 5], [0, 1, 5]]),
        (1, [[0, 1, 2], [1, 2, 3], [1, 3, 5], [0, 1, 5]]),
        (2, [[0, 1, 2], [1, 2, 3], [2, 3, 4], [0, 2, 4]]),
        (3, [[1, 2, 3], [2, 3, 4], [3, 4, 5], [1, 3, 5]]),
        (4, [[0, 2, 4], [2, 3, 4], [3, 4, 5], [0, 4, 5]]),
        (5, [[0, 1, 5], [1, 3, 5], [3, 4, 5], [0, 4, 5]]),
    ];
    for (face, corners) in expected.iter() {
        for (e, c) in f(*face).adjacent_corners().iter().zip(corners.iter()) {
            let faces = e.as_ruby()[0];
            assert_eq!(faces, [f(c[0]), f(c[1]), f(c[2])]);
        }
    }
}
