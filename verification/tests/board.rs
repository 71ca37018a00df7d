use shogi_rules::board::{Board, Cell, Game};
use shogi_rules::piece::PieceKind;
use shogi_rules::position::Position;

fn pos(i: usize, j: usize) -> Position {
    Position::from_ij(i, j).unwrap()
}

#[test]
fn legality_needs_an_occupied_origin() {
    let mut board = Board::new();
    let orig = pos(4, 4);
    let target = pos(3, 4);
    assert!(!board.is_movable(0, orig, target));
    board.put(orig, Some(Cell { piece: PieceKind::Ou, pid: 0 }));
    assert!(board.is_movable(0, orig, target));
}

#[test]
fn legality_needs_the_movers_own_piece() {
    let mut board = Board::new();
    let orig = pos(4, 4);
    let target = pos(3, 4);
    // a king's step is shape-legal for either player, so only ownership decides
    board.put(orig, Some(Cell { piece: PieceKind::Ou, pid: 0 }));
    assert!(board.is_movable(0, orig, target));
    assert!(!board.is_movable(1, orig, target));
}

#[test]
fn legality_rejects_landing_on_an_own_piece() {
    let mut board = Board::new();
    let orig = pos(4, 4);
    let target = pos(3, 4);
    board.put(orig, Some(Cell { piece: PieceKind::Ou, pid: 0 }));
    board.put(target, Some(Cell { piece: PieceKind::Fu, pid: 0 }));
    assert!(!board.is_movable(0, orig, target));
    // the same square occupied by the opponent is a legal capture target
    board.put(target, Some(Cell { piece: PieceKind::Fu, pid: 1 }));
    assert!(board.is_movable(0, orig, target));
}

#[test]
fn legality_rejects_a_shape_violation() {
    let mut board = Board::new();
    let orig = pos(4, 4);
    board.put(orig, Some(Cell { piece: PieceKind::Ou, pid: 0 }));
    // two rows away: ownership and occupancy pass, the king's shape does not
    assert!(!board.is_movable(0, orig, pos(6, 4)));
    // backward step: illegal for a pawn, legal for the king standing there
    board.put(orig, Some(Cell { piece: PieceKind::Fu, pid: 0 }));
    assert!(!board.is_movable(0, orig, pos(5, 4)));
}

#[test]
fn capture_moves_the_piece_and_pools_the_kind() {
    let mut board = Board::new();
    let orig = pos(4, 4);
    let target = pos(3, 4);
    board.put(orig, Some(Cell { piece: PieceKind::Fu, pid: 0 }));
    board.put(target, Some(Cell { piece: PieceKind::Gi, pid: 1 }));
    assert!(board.is_movable(0, orig, target));
    board.do_move(0, orig, target);
    assert_eq!(board.usable(0).len(), 1);
    assert_eq!(board.usable(0)[0], PieceKind::Gi);
    assert!(board.usable(1).is_empty());
    let landed = board.get(target).unwrap();
    assert_eq!(landed.piece, PieceKind::Fu);
    assert_eq!(landed.pid, 0);
    assert!(board.get(orig).is_none());
}

#[test]
fn plain_move_pools_nothing() {
    let mut board = Board::new();
    let orig = pos(5, 2);
    let target = pos(4, 2);
    board.put(orig, Some(Cell { piece: PieceKind::Fu, pid: 0 }));
    board.do_move(0, orig, target);
    assert!(board.usable(0).is_empty());
    assert!(board.usable(1).is_empty());
    assert_eq!(board.get(target).unwrap().piece, PieceKind::Fu);
    assert!(board.get(orig).is_none());
}

#[test]
fn second_player_captures_into_own_pool() {
    let mut board = Board::new();
    let orig = pos(3, 6);
    let target = pos(4, 6);
    board.put(orig, Some(Cell { piece: PieceKind::Fu, pid: 1 }));
    board.put(target, Some(Cell { piece: PieceKind::Hi, pid: 0 }));
    board.do_move(1, orig, target);
    assert!(board.usable(0).is_empty());
    assert_eq!(board.usable(1).len(), 1);
    assert_eq!(board.usable(1)[0], PieceKind::Hi);
    assert_eq!(board.get(target).unwrap().pid, 1);
}

#[test]
fn fresh_board_is_empty() {
    let board = Board::new();
    for i in 0..9 {
        for j in 0..9 {
            assert!(board.get(pos(i, j)).is_none());
        }
    }
    assert!(board.usable(0).is_empty());
    assert!(board.usable(1).is_empty());
    assert_eq!(board, Board::default());
}

#[test]
fn game_rejects_moves_on_an_empty_board() {
    let mut game = Game::new();
    assert_eq!(game.turn(), 0);
    assert!(!game.do_move(0, pos(4, 4), pos(3, 4)));
    assert_eq!(game.turn(), 0);
}

#[test]
fn game_applies_legal_moves_and_alternates() {
    let mut game = Game::new();
    game.board_mut().put(pos(4, 4), Some(Cell { piece: PieceKind::Ou, pid: 0 }));
    game.board_mut().put(pos(0, 0), Some(Cell { piece: PieceKind::Ou, pid: 1 }));
    // not the second player's turn yet
    assert!(!game.do_move(1, pos(0, 0), pos(0, 1)));
    assert_eq!(game.turn(), 0);
    assert!(game.do_move(0, pos(4, 4), pos(3, 4)));
    assert_eq!(game.turn(), 1);
    assert!(game.board().get(pos(3, 4)).is_some());
    assert!(game.board().get(pos(4, 4)).is_none());
    assert!(game.do_move(1, pos(0, 0), pos(0, 1)));
    assert_eq!(game.turn(), 0);
    // a shape violation is rejected and changes nothing
    assert!(!game.do_move(0, pos(3, 4), pos(0, 8)));
    assert_eq!(game.turn(), 0);
    assert!(game.board().get(pos(3, 4)).is_some());
}

#[test]
fn game_capture_reaches_the_movers_pool() {
    let mut game = Game::new();
    game.board_mut().put(pos(4, 4), Some(Cell { piece: PieceKind::Ki, pid: 0 }));
    game.board_mut().put(pos(3, 4), Some(Cell { piece: PieceKind::Ke, pid: 1 }));
    assert!(game.do_move(0, pos(4, 4), pos(3, 4)));
    assert_eq!(game.board().usable(0).len(), 1);
    assert_eq!(game.board().usable(0)[0], PieceKind::Ke);
    assert!(game.board().usable(1).is_empty());
    assert_eq!(Game::default().turn(), 0);
}
