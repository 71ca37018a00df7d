use shogi_rules::piece::PieceKind;
use shogi_rules::position::Position;

fn pos(i: usize, j: usize) -> Position {
    Position::from_ij(i, j).unwrap()
}

fn destinations(kind: PieceKind, pid: usize, origin: Position) -> Vec<(usize, usize)> {
    let mut out = Vec::new();
    for i in 0..9 {
        for j in 0..9 {
            if kind.is_movable(pid, origin, pos(i, j)) {
                out.push((i, j));
            }
        }
    }
    out
}

#[test]
fn lance_reaches_strictly_forward() {
    let origin = pos(5, 3);
    let ahead_of_first = destinations(PieceKind::Ky, 0, origin);
    assert_eq!(ahead_of_first, vec![(0, 3), (1, 3), (2, 3), (3, 3), (4, 3)]);
    let ahead_of_second = destinations(PieceKind::Ky, 1, origin);
    assert_eq!(ahead_of_second, vec![(6, 3), (7, 3), (8, 3)]);
}

#[test]
fn lance_on_the_last_rank_is_stuck() {
    assert!(destinations(PieceKind::Ky, 0, pos(0, 4)).is_empty());
    assert!(destinations(PieceKind::Ky, 1, pos(8, 4)).is_empty());
    assert_eq!(destinations(PieceKind::Ky, 1, pos(0, 4)).len(), 8);
    assert_eq!(destinations(PieceKind::Ky, 0, pos(8, 4)).len(), 8);
}

#[test]
fn king_has_eight_neighbors_centrally() {
    let d = destinations(PieceKind::Ou, 0, pos(4, 4));
    assert_eq!(d.len(), 8);
    for c in [(3, 3), (3, 4), (3, 5), (4, 3), (4, 5), (5, 3), (5, 4), (5, 5)] {
        assert!(d.contains(&c));
    }
}

#[test]
fn king_in_the_corner_has_three() {
    let d = destinations(PieceKind::Ou, 0, pos(0, 0));
    assert_eq!(d.len(), 3);
    for c in [(0, 1), (1, 0), (1, 1)] {
        assert!(d.contains(&c));
    }
}

#[test]
fn bishop_cells_are_the_diagonal_rays() {
    let origin = pos(4, 4);
    let cells = PieceKind::Ka.movable_cells(0, origin);
    let mut seen: Vec<(usize, usize)> = Vec::new();
    for c in &cells {
        let ij = c.to_ij();
        assert!(!seen.contains(&ij));
        seen.push(ij);
        let (i, j) = ij;
        let di = (i as isize - 4).abs();
        let dj = (j as isize - 4).abs();
        assert_eq!(di, dj);
        assert_ne!(di, 0);
    }
    assert_eq!(cells.len(), 16);
    for d in 1..5usize {
        assert!(seen.contains(&(4 - d, 4 - d)));
        assert!(seen.contains(&(4 + d, 4 + d)));
        assert!(seen.contains(&(4 - d, 4 + d)));
        assert!(seen.contains(&(4 + d, 4 - d)));
    }
}

#[test]
fn staying_in_place_is_illegal_for_every_kind() {
    let kinds = [
        PieceKind::Fu,
        PieceKind::Ky,
        PieceKind::Ke,
        PieceKind::Gi,
        PieceKind::Ki,
        PieceKind::Ka,
        PieceKind::Hi,
        PieceKind::Ou,
        PieceKind::PFu,
        PieceKind::PKy,
        PieceKind::PKe,
        PieceKind::PGi,
        PieceKind::PKa,
        PieceKind::PHi,
    ];
    let origin = pos(4, 4);
    for k in kinds {
        assert!(!k.is_movable(0, origin, origin));
        assert!(!k.is_movable(1, origin, origin));
    }
}

#[test]
fn pawn_moves_one_step_toward_its_side() {
    assert_eq!(destinations(PieceKind::Fu, 0, pos(4, 4)), vec![(3, 4)]);
    assert_eq!(destinations(PieceKind::Fu, 1, pos(4, 4)), vec![(5, 4)]);
    assert!(destinations(PieceKind::Fu, 0, pos(0, 4)).is_empty());
    assert!(destinations(PieceKind::Fu, 1, pos(8, 4)).is_empty());
}

#[test]
fn knight_jumps_two_forward_one_aside() {
    assert_eq!(destinations(PieceKind::Ke, 0, pos(4, 4)), vec![(2, 3), (2, 5)]);
    assert_eq!(destinations(PieceKind::Ke, 1, pos(4, 4)), vec![(6, 3), (6, 5)]);
    assert_eq!(destinations(PieceKind::Ke, 0, pos(4, 0)), vec![(2, 1)]);
}

#[test]
fn silver_moves_forward_and_to_the_back_diagonals() {
    assert_eq!(
        destinations(PieceKind::Gi, 0, pos(4, 4)),
        vec![(3, 3), (3, 4), (3, 5), (5, 3), (5, 5)]
    );
    assert_eq!(
        destinations(PieceKind::Gi, 1, pos(4, 4)),
        vec![(3, 3), (3, 5), (5, 3), (5, 4), (5, 5)]
    );
}

#[test]
fn gold_moves_everywhere_but_the_back_diagonals() {
    assert_eq!(
        destinations(PieceKind::Ki, 0, pos(4, 4)),
        vec![(3, 3), (3, 4), (3, 5), (4, 3), (4, 5), (5, 4)]
    );
}

#[test]
fn promoted_gold_movers_follow_the_gold() {
    let origin = pos(4, 4);
    let gold_first = destinations(PieceKind::Ki, 0, origin);
    let gold_second = destinations(PieceKind::Ki, 1, origin);
    for k in [PieceKind::PFu, PieceKind::PKy, PieceKind::PKe, PieceKind::PGi] {
        assert_eq!(destinations(k, 0, origin), gold_first);
        assert_eq!(destinations(k, 1, origin), gold_second);
    }
}

#[test]
fn rook_moves_on_rows_and_columns() {
    let origin = pos(4, 4);
    let d = destinations(PieceKind::Hi, 0, origin);
    assert_eq!(d.len(), 16);
    for (i, j) in d {
        assert!((i == 4) != (j == 4));
    }
    assert_eq!(
        destinations(PieceKind::Hi, 0, origin),
        destinations(PieceKind::Hi, 1, origin)
    );
}

#[test]
fn promoted_sliders_gain_the_king_step() {
    let origin = pos(4, 4);
    for c in [(3, 4), (5, 4), (4, 3), (4, 5)] {
        let t = pos(c.0, c.1);
        assert!(!PieceKind::Ka.is_movable(0, origin, t));
        assert!(PieceKind::PKa.is_movable(0, origin, t));
    }
    for c in [(3, 3), (3, 5), (5, 3), (5, 5)] {
        let t = pos(c.0, c.1);
        assert!(!PieceKind::Hi.is_movable(0, origin, t));
        assert!(PieceKind::PHi.is_movable(0, origin, t));
    }
    assert!(PieceKind::PKa.is_movable(0, origin, pos(0, 0)));
    assert!(!PieceKind::PKa.is_movable(0, origin, pos(0, 4)));
    assert!(PieceKind::PHi.is_movable(0, origin, pos(4, 0)));
    assert!(!PieceKind::PHi.is_movable(0, origin, pos(6, 6)));
}

#[test]
fn is_movable_agrees_with_movable_cells() {
    let origin = pos(0, 8);
    let cells = PieceKind::Gi.movable_cells(1, origin);
    let listed: Vec<(usize, usize)> = cells.iter().map(|p| p.to_ij()).collect();
    for i in 0..9 {
        for j in 0..9 {
            assert_eq!(
                PieceKind::Gi.is_movable(1, origin, pos(i, j)),
                listed.contains(&(i, j))
            );
        }
    }
}

#[test]
fn sliders_agree_with_their_tables() {
    // the analytic shortcut and the direction table of each sliding kind
    // name the same destinations, from every origin
    let kinds = [
        PieceKind::Ky,
        PieceKind::Ka,
        PieceKind::Hi,
        PieceKind::Ou,
        PieceKind::PKa,
        PieceKind::PHi,
    ];
    for kind in kinds {
        for pid in 0..2 {
            for oi in 0..9 {
                for oj in 0..9 {
                    let origin = pos(oi, oj);
                    let cells = kind.movable_cells(pid, origin);
                    let listed: Vec<usize> = cells.iter().map(|p| p.index()).collect();
                    for ti in 0..9 {
                        for tj in 0..9 {
                            let t = pos(ti, tj);
                            assert_eq!(
                                kind.is_movable(pid, origin, t),
                                listed.contains(&t.index())
                            );
                        }
                    }
                }
            }
        }
    }
}
