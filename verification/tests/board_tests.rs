use boggler::board::{Board, BoardPosition, Die};

fn row(faces: &[&str]) -> Vec<String> {
    faces.iter().map(|f| String::from(*f)).collect()
}

fn grid3() -> Board {
    Board::new(vec![
        row(&["a", "b", "c"]),
        row(&["d", "e", "f"]),
        row(&["g", "h", "i"]),
    ])
}

fn pos(x: usize, y: usize, c: &str) -> BoardPosition {
    BoardPosition::new(x, y, String::from(c))
}

#[test]
fn test_adjacents_upper_left_corner() {
    let b = grid3();
    let res = b.adjacents(0, 0);
    let expected = vec![pos(1, 0, "b"), pos(0, 1, "d"), pos(1, 1, "e")];
    assert_eq!(res, expected);
}

#[test]
fn test_adjacents_upper_right_corner() {
    let b = grid3();
    let res = b.adjacents(0, 2);
    let expected = vec![pos(1, 0, "b"), pos(1, 1, "e"), pos(2, 1, "f")];
    assert_eq!(res, expected);
}

#[test]
fn test_adjacents_top() {
    let b = grid3();
    let res = b.adjacents(0, 1);
    let expected = vec![
        pos(0, 0, "a"),
        pos(2, 0, "c"),
        pos(0, 1, "d"),
        pos(1, 1, "e"),
        pos(2, 1, "f"),
    ];
    assert_eq!(res, expected);
}

#[test]
fn test_adjacents_bottom() {
    let b = grid3();
    let res = b.adjacents(2, 1);
    let expected = vec![
        pos(0, 1, "d"),
        pos(1, 1, "e"),
        pos(2, 1, "f"),
        pos(0, 2, "g"),
        pos(2, 2, "i"),
    ];
    assert_eq!(res, expected);
}

#[test]
fn test_adjacents_left_side() {
    let b = grid3();
    let res = b.adjacents(1, 0);
    let expected = vec![
        pos(0, 0, "a"),
        pos(1, 0, "b"),
        pos(1, 1, "e"),
        pos(0, 2, "g"),
        pos(1, 2, "h"),
    ];
    assert_eq!(res, expected);
}

#[test]
fn test_adjacents_right_side() {
    let b = grid3();
    let res = b.adjacents(1, 2);
    let expected = vec![
        pos(1, 0, "b"),
        pos(2, 0, "c"),
        pos(1, 1, "e"),
        pos(1, 2, "h"),
        pos(2, 2, "i"),
    ];
    assert_eq!(res, expected);
}

#[test]
fn test_adjacents_middle() {
    let b = grid3();
    let res = b.adjacents(1, 1);
    let expected = vec![
        pos(0, 0, "a"),
        pos(1, 0, "b"),
        pos(2, 0, "c"),
        pos(0, 1, "d"),
        pos(2, 1, "f"),
        pos(0, 2, "g"),
        pos(1, 2, "h"),
        pos(2, 2, "i"),
    ];
    assert_eq!(res, expected);
}

#[test]
fn no_wraparound_at_edges() {
    let b = grid3();
    for p in b.adjacents(0, 0) {
        assert!(p.y != 2, "row 0 must not see the far row");
        assert!(p.x != 2, "column 0 must not see the far column");
    }
    for p in b.adjacents(0, 1) {
        assert!(p.y != 2, "row 0 must not see the far row");
    }
    for p in b.adjacents(1, 0) {
        assert!(p.x != 2, "column 0 must not see the far column");
    }
}

#[test]
fn adjacents_out_of_bounds_is_quiet() {
    let b = grid3();
    assert!(b.adjacents(7, 7).is_empty());
    let res = b.adjacents(3, 1);
    let expected = vec![pos(0, 2, "g"), pos(1, 2, "h"), pos(2, 2, "i")];
    assert_eq!(res, expected);
}

#[test]
fn die_roll_returns_a_face() {
    let d = Die {
        letters: row(&["a", "b", "c", "d", "e", "qu"]),
    };
    for _ in 0..32 {
        let f = d.roll();
        assert!(d.letters.contains(&f));
    }
}
