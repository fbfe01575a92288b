use rubiks::face::Face;
use rubiks::position::Pos;
use rubiks::position::projection;
use rubiks::piece::Piece;

fn f(n: u8) -> Face {
    Face::new(n)
}

fn p2(a: u8, b: u8) -> Pos<2> {
    Pos([f(a), f(b)])
}

fn proj(a: u8, b: u8) -> [Face; 6] {
    projection(p2(a, b))
}

fn faces6(v: [u8; 6]) -> [Face; 6] {
    [f(v[0]), f(v[1]), f(v[2]), f(v[3]), f(v[4]), f(v[5])]
}

#[test]
fn test_projection() {
    assert_eq!(proj(0, 1), faces6([0, 2, 1, 5, 4, 3]));
    assert_eq!(proj(0, 2), faces6([0, 4, 2, 1, 5, 3]));
    assert_eq!(proj(0, 4), faces6([0, 5, 4, 2, 1, 3]));
    assert_eq!(proj(0, 5), faces6([0, 1, 5, 4, 2, 3]));
    assert_eq!(proj(1, 0), faces6([1, 5, 0, 2, 3, 4]));
    assert_eq!(proj(1, 2), faces6([1, 0, 2, 3, 5, 4]));
    assert_eq!(proj(1, 3), faces6([1, 2, 3, 5, 0, 4]));
    assert_eq!(proj(1, 5), faces6([1, 3, 5, 0, 2, 4]));
    assert_eq!(proj(2, 0), faces6([2, 1, 0, 4, 3, 5]));
    assert_eq!(proj(2, 1), faces6([2, 3, 1, 0, 4, 5]));
    assert_eq!(proj(2, 3), faces6([2, 4, 3, 1, 0, 5]));
    assert_eq!(proj(2, 4), faces6([2, 0, 4, 3, 1, 5]));
    assert_eq!(proj(3, 1), faces6([3, 5, 1, 2, 4, 0]));
    assert_eq!(proj(3, 2), faces6([3, 1, 2, 4, 5, 0]));
    assert_eq!(proj(3, 4), faces6([3, 2, 4, 5, 1, 0]));
    assert_eq!(proj(3, 5), faces6([3, 4, 5, 1, 2, 0]));
    assert_eq!(proj(4, 0), faces6([4, 2, 0, 5, 3, 1]));
    assert_eq!(proj(4, 2), faces6([4, 3, 2, 0, 5, 1]));
    assert_eq!(proj(4, 3), faces6([4, 5, 3, 2, 0, 1]));
    assert_eq!(proj(4, 5), faces6([4, 0, 5, 3, 2, 1]));
    assert_eq!(proj(5, 0), faces6([5, 4, 0, 1, 3, 2]));
    assert_eq!(proj(5, 1), faces6([5, 0, 1, 3, 4, 2]));
    assert_eq!(proj(5, 3), faces6([5, 1, 3, 4, 0, 2]));
    assert_eq!(proj(5, 4), faces6([5, 3, 4, 0, 1, 2]));
}

#[test]
fn test_projection_ends() {
    for front in 0..6u8 {
        for down in f(front).adjacent().iter() {
            let pr = projection(Pos([f(front), *down]));
            assert_eq!(pr[0], f(front));
            assert_eq!(pr[2], *down);
            assert_eq!(pr[5], f(front).opposite());
        }
    }
}

#[test]
fn test_transpose() {
    let edge = Piece::<2>::new(p2(0, 1), p2(3, 4));
    let moved = edge.transposed(p2(2, 1), p2(1, 2));
    assert_eq!(moved, Piece::<2>::new(p2(2, 3), p2(5, 0)));
}

#[test]
fn test_sorted_and_without() {
    assert_eq!(p2(4, 1).sorted(), p2(1, 4));
    assert_eq!(p2(1, 4).sorted(), p2(1, 4));
    let w = p2(1, 4).without(f(4));
    assert_eq!(w.len(), 1);
    assert_eq!(w[0], f(1));
    let c = Pos([f(3), f(1), f(2)]);
    assert_eq!(c.sorted(), Pos([f(1), f(2), f(3)]));
    let w3 = c.without(f(1));
    assert_eq!(w3.len(), 2);
    assert_eq!(w3[0], f(3));
    assert_eq!(w3[1], f(2));
    assert!(c.has(f(3)));
    assert!(!c.has(f(0)));
}

#[test]
fn test_piece_canonical_form() {
    let a = Piece::<2>::new(p2(1, 0), p2(3, 4));
    let b = Piece::<2>::new(p2(0, 1), p2(4, 3));
    assert_eq!(a, b);
    assert_eq!(*a.id(), p2(0, 1));
    assert_eq!(*a.pos(), p2(4, 3));
    assert!(a.is_on(f(3)));
    assert!(!a.is_on(f(0)));
    assert_eq!(a.id_on(f(4)), f(0));
    assert_eq!(a.id_on(f(3)), f(1));
    assert!(!a.is_solved());
    assert!(Piece::new_edge(f(2), f(0)).is_solved());
    assert!(a.is_at(p2(4, 3)));
    assert!(a.is_at(p2(3, 4)));
    assert!(a.has_id(p2(1, 0)));
    assert!(a.id_contains(f(1)));
    assert!(!a.id_contains(f(4)));
    assert_eq!(a.position_without(f(3)), f(4));
}
