use minesweeper_solver::Posn;

#[test]
fn test_posn_creation() {
    let pos = Posn::new(2, 3);
    assert_eq!(pos.row, 2);
    assert_eq!(pos.col, 3);
}

#[test]
fn test_to_string() {
    let pos = Posn::new(1, 4);
    assert_eq!(pos.to_string(), "Posn(row = 1, col = 4)");
}

#[test]
fn test_coordinates() {
    let pos = Posn::new(1, 4);
    assert_eq!(pos.coords(), "(5, 2)"); // col + 1, row + 1
}

#[test]
fn test_in_range() {
    let pos = Posn::new(2, 3);
    assert!(pos.in_range(5, 5));
    assert!(!pos.in_range(2, 3));
}

#[test]
fn test_surrounding() {
    let pos = Posn::new(1, 1);
    let surrounding = pos.surrounding();
    assert_eq!(surrounding.len(), 8); // 8 surrounding positions
    assert!(surrounding.contains(&Posn::new(0, 0)));
    assert!(surrounding.contains(&Posn::new(2, 2)));
}

#[test]
fn test_surrounding_in_range() {
    let pos = Posn::new(0, 0);
    let surrounding = pos.surrounding_in_range(3, 3);
    assert_eq!(surrounding.len(), 3); // Only (0,1), (1,0), (1,1) are valid
    assert!(surrounding.contains(&Posn::new(1, 1)));
    assert!(!surrounding.contains(&Posn::new(-1, -1))); // Out of bounds
}

#[test]
fn negative_coordinates_render_with_sign() {
    assert_eq!(Posn::new(-3, 120).to_string(), "Posn(row = -3, col = 120)");
    assert_eq!(Posn::new(9, 19).coords(), "(20, 10)");
}

#[test]
fn surrounding_keeps_row_major_order() {
    let s = Posn::new(5, 7).surrounding();
    let expected = vec![
        Posn::new(4, 6),
        Posn::new(4, 7),
        Posn::new(4, 8),
        Posn::new(5, 6),
        Posn::new(5, 8),
        Posn::new(6, 6),
        Posn::new(6, 7),
        Posn::new(6, 8),
    ];
    assert_eq!(s, expected);
}

#[test]
fn surrounding_in_range_counts_corner_edge_inside() {
    assert_eq!(Posn::new(0, 0).surrounding_in_range(4, 5).len(), 3);
    assert_eq!(Posn::new(3, 4).surrounding_in_range(4, 5).len(), 3);
    assert_eq!(Posn::new(0, 2).surrounding_in_range(4, 5).len(), 5);
    assert_eq!(Posn::new(2, 0).surrounding_in_range(4, 5).len(), 5);
    assert_eq!(Posn::new(2, 2).surrounding_in_range(4, 5).len(), 8);
}
