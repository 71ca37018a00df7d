use shogi_rules::position::Position;

#[test]
fn roundtrip_all_coordinates() {
    for i in 0..9usize {
        for j in 0..9usize {
            let p = Position::from_ij(i, j).unwrap();
            assert_eq!(p.to_i(), i);
            assert_eq!(p.to_j(), j);
            assert_eq!(p.to_ij(), (i, j));
            assert_eq!(p.index(), i * 9 + j);
        }
    }
}

#[test]
fn from_ij_rejects_off_board() {
    assert!(Position::from_ij(9, 0).is_none());
    assert!(Position::from_ij(0, 9).is_none());
    assert!(Position::from_ij(9, 9).is_none());
    assert!(Position::from_ij(100, 3).is_none());
}

#[test]
fn new_and_index() {
    let p = Position::new(80);
    assert_eq!(p.index(), 80);
    assert_eq!(p.to_ij(), (8, 8));
    let q = Position::new(0);
    assert_eq!(q.to_ij(), (0, 0));
    assert_eq!(Position::new(10).to_ij(), (1, 1));
}

#[test]
fn add_shifts_within_the_board() {
    let p = Position::from_ij(4, 4).unwrap();
    assert_eq!(p.add(-2, 3).unwrap().to_ij(), (2, 7));
    assert_eq!(p.add(4, -4).unwrap().to_ij(), (8, 0));
    assert_eq!(p.add(0, 0).unwrap().to_ij(), (4, 4));
}

#[test]
fn add_yields_nothing_off_board() {
    let p = Position::from_ij(4, 4).unwrap();
    assert!(p.add(5, 0).is_none());
    assert!(p.add(-5, 0).is_none());
    assert!(p.add(0, 5).is_none());
    assert!(p.add(0, -5).is_none());
    let corner = Position::from_ij(0, 0).unwrap();
    assert!(corner.add(-1, 0).is_none());
    assert!(corner.add(0, -1).is_none());
    assert_eq!(corner.add(8, 8).unwrap().index(), 80);
}

#[test]
fn add_does_not_wrap_on_extreme_offsets() {
    let corner = Position::from_ij(0, 0).unwrap();
    assert!(corner.add(isize::MAX, 0).is_none());
    assert!(corner.add(isize::MIN, 0).is_none());
    assert!(corner.add(0, isize::MAX).is_none());
    assert!(corner.add(0, isize::MIN).is_none());
}

#[test]
fn on_kaku_checks_diagonals() {
    let c = Position::from_ij(4, 4).unwrap();
    assert!(c.on_kaku(Position::from_ij(1, 1).unwrap()));
    assert!(c.on_kaku(Position::from_ij(6, 2).unwrap()));
    assert!(c.on_kaku(Position::from_ij(0, 8).unwrap()));
    assert!(!c.on_kaku(Position::from_ij(4, 5).unwrap()));
    assert!(!c.on_kaku(Position::from_ij(2, 3).unwrap()));
    assert!(c.on_kaku(c));
}

#[test]
fn on_hisha_checks_lines() {
    let c = Position::from_ij(4, 4).unwrap();
    assert!(c.on_hisha(Position::from_ij(4, 8).unwrap()));
    assert!(c.on_hisha(Position::from_ij(0, 4).unwrap()));
    assert!(!c.on_hisha(Position::from_ij(5, 5).unwrap()));
    assert!(c.on_hisha(c));
}
