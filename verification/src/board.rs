use crate::piece::PieceKind;
use crate::position::Position;
use vstd::prelude::*;

verus! {

/// A piece standing on a square: its kind and its owner, one of the two
/// player ids 0 and 1.
#[derive(Debug, Clone, Copy, PartialEq, Eq, Hash, Structural)]
pub struct Cell {
    pub piece: PieceKind,
    pub pid: usize,
}

/// The 81 squares of the board, each optionally occupied, together with
/// each player's pool of captured, reusable piece kinds.
#[derive(Debug, Clone, PartialEq, Eq, Hash)]
pub struct Board {
    cells: Vec<Option<Cell>>,
    usable_first: Vec<PieceKind>,
    usable_second: Vec<PieceKind>,
}

/// Relation between a board and its state after the capture-aware transfer
/// of the piece at `orig` to `target` by the player `pid`: the moved cell
/// lands on `target`, `orig` is cleared, a captured piece's kind joins the
/// mover's pool, and everything else stays as it was.
pub open spec fn moved(pre: Board, post: Board, pid: int, orig: Position, target: Position) -> bool {
    &&& post.grid() == pre.grid().update(target.idx(), pre.grid()[orig.idx()]).update(
        orig.idx(),
        None,
    )
    &&& (pre.grid()[target.idx()] matches Some(c) ==> post.pool(pid) == pre.pool(pid).push(
        c.piece,
    ))
    &&& (pre.grid()[target.idx()] is None ==> post.pool(pid) == pre.pool(pid))
    &&& post.pool(1 - pid) == pre.pool(1 - pid)
}

impl Board {
    /// The 81 squares, indexed by `Position::idx`.
    pub closed spec fn grid(self) -> Seq<Option<Cell>> {
        self.cells@
    }

    /// The capture pool of the given player.
    pub closed spec fn pool(self, pid: int) -> Seq<PieceKind> {
        if pid == 0 {
            self.usable_first@
        } else {
            self.usable_second@
        }
    }

    /// A board always has exactly 81 squares.
    pub open spec fn wf(self) -> bool {
        self.grid().len() == 81
    }

    /// Move legality for the player `pid`: the origin square holds a piece
    /// of the mover's, the destination square is empty or holds an
    /// opponent's piece, and the occupying kind's shape admits the move.
    pub open spec fn movable(self, pid: int, orig: Position, target: Position) -> bool {
        &&& (self.grid()[orig.idx()] matches Some(c) && c.pid as int == pid && c.piece.shape_ok(
            pid,
            orig,
            target,
        ))
        &&& !(self.grid()[target.idx()] matches Some(c) && c.pid as int == pid)
    }

    /// An empty board: no square occupied, both pools empty.
    pub fn new() -> (r: Self)
        ensures
            r.wf(),
            forall|k: int| 0 <= k < 81 ==> r.grid()[k] is None,
            r.pool(0) == Seq::<PieceKind>::empty(),
            r.pool(1) == Seq::<PieceKind>::empty(),
    {
        let mut cells: Vec<Option<Cell>> = Vec::new();
        let mut k: usize = 0;
        while k < 81
            invariant
                k <= 81,
                cells@.len() == k,
                forall|m: int| 0 <= m < k ==> cells@[m] is None,
            decreases 81 - k,
        {
            cells.push(None);
            k += 1;
        }
        Self { cells, usable_first: Vec::new(), usable_second: Vec::new() }
    }

    /// The cell standing on the given square.
    pub fn get(&self, pos: Position) -> (r: Option<Cell>)
        requires
            self.wf(),
        ensures
            r == self.grid()[pos.idx()],
    {
        proof {
            use_type_invariant(pos);
        }
        self.cells[pos.index()]
    }

    /// Place a cell on a square, or clear the square; the rest of the board
    /// and both pools stay as they were. This is the setup primitive: the
    /// starting layout is the caller's concern.
    pub fn put(&mut self, pos: Position, cell: Option<Cell>)
        requires
            old(self).wf(),
        ensures
            final(self).wf(),
            final(self).grid() == old(self).grid().update(pos.idx(), cell),
            final(self).pool(0) == old(self).pool(0),
            final(self).pool(1) == old(self).pool(1),
    {
        proof {
            use_type_invariant(pos);
        }
        let i = pos.index();
        self.cells.set(i, cell);
    }

    /// The capture pool of the given player.
    pub fn usable(&self, pid: usize) -> (r: &Vec<PieceKind>)
        requires
            pid < 2,
        ensures
            r@ == self.pool(pid as int),
    {
        if pid == 0 {
            &self.usable_first
        } else {
            &self.usable_second
        }
    }

    /// Whether the player `pid` may move the piece at `orig` to `target`:
    /// the mover owns the origin piece, the destination is empty or an
    /// opponent's piece, and the piece's shape admits the move.
    pub fn is_movable(&self, pid: usize, orig: Position, target: Position) -> (r: bool)
        requires
            self.wf(),
            pid < 2,
        ensures
            r == self.movable(pid as int, orig, target),
    {
        proof {
            use_type_invariant(orig);
            use_type_invariant(target);
        }
        match self.cells[orig.index()] {
            None => false,
            Some(cell) => {
                if cell.pid != pid {
                    return false;
                }
                let target_free = match self.cells[target.index()] {
                    None => true,
                    Some(other) => other.pid != pid,
                };
                target_free && cell.piece.is_movable(pid, orig, target)
            },
        }
    }

    /// The capture-aware transfer, the one board mutation: the caller must
    /// have established legality. A piece standing on the destination is
    /// necessarily the opponent's; its kind joins the mover's pool while its
    /// owner tag is discarded. The origin cell is then copied onto the
    /// destination and the origin square is cleared.
    pub fn do_move(&mut self, pid: usize, orig: Position, target: Position)
        requires
            old(self).wf(),
            pid < 2,
            old(self).movable(pid as int, orig, target),
        ensures
            final(self).wf(),
            moved(*old(self), *final(self), pid as int, orig, target),
    {
        proof {
            use_type_invariant(orig);
            use_type_invariant(target);
        }
        let oi = orig.index();
        let ti = target.index();
        match self.cells[ti] {
            Some(captured) => {
                if pid == 0 {
                    self.usable_first.push(captured.piece);
                } else {
                    self.usable_second.push(captured.piece);
                }
            },
            None => {},
        }
        let moving = self.cells[oi];
        self.cells.set(ti, moving);
        self.cells.set(oi, None);
    }
}

impl Default for Board {
    /// The empty board.
    fn default() -> (r: Self)
        ensures
            r.wf(),
            forall|k: int| 0 <= k < 81 ==> r.grid()[k] is None,
            r.pool(0) == Seq::<PieceKind>::empty(),
            r.pool(1) == Seq::<PieceKind>::empty(),
    {
        Self::new()
    }
}

/// One board and the id of the player to move, alternating between the two
/// players; move application goes through the board's legality predicate.
#[derive(Debug, Clone, PartialEq, Eq, Hash)]
pub struct Game {
    board: Board,
    turn: usize,
}

impl Game {
    /// The board being played on.
    pub closed spec fn board_spec(self) -> Board {
        self.board
    }

    /// The player to move.
    pub closed spec fn turn_spec(self) -> int {
        self.turn as int
    }

    /// The board is well formed and the turn marker names a player.
    pub open spec fn wf(self) -> bool {
        self.board_spec().wf() && 0 <= self.turn_spec() < 2
    }

    /// A fresh game: empty board, first player to move.
    pub fn new() -> (r: Self)
        ensures
            r.wf(),
            r.turn_spec() == 0,
            forall|k: int| 0 <= k < 81 ==> r.board_spec().grid()[k] is None,
            r.board_spec().pool(0) == Seq::<PieceKind>::empty(),
            r.board_spec().pool(1) == Seq::<PieceKind>::empty(),
    {
        Self { board: Board::new(), turn: 0 }
    }

    /// The board being played on.
    pub fn board(&self) -> (r: &Board)
        ensures
            r == self.board_spec(),
    {
        &self.board
    }

    /// Mutable access to the board, for setting a position up; the turn
    /// marker is untouched.
    pub fn board_mut(&mut self) -> (r: &mut Board)
        ensures
            *r == old(self).board_spec(),
            final(self).board_spec() == *final(r),
            final(self).turn_spec() == old(self).turn_spec(),
    {
        &mut self.board
    }

    /// The player to move.
    pub fn turn(&self) -> (r: usize)
        ensures
            r as int == self.turn_spec(),
    {
        self.turn
    }

    /// Apply a move for the player `pid` from `from` to `to`. The move is
    /// accepted exactly when it is `pid`'s turn and the board finds it
    /// legal; then the transfer is carried out and the turn passes to the
    /// other player. A rejected move leaves the game unchanged.
    pub fn do_move(&mut self, pid: usize, from: Position, to: Position) -> (accepted: bool)
        requires
            old(self).wf(),
        ensures
            final(self).wf(),
            accepted == (pid as int == old(self).turn_spec() && old(self).board_spec().movable(
                pid as int,
                from,
                to,
            )),
            !accepted ==> *final(self) == *old(self),
            accepted ==> moved(
                old(self).board_spec(),
                final(self).board_spec(),
                pid as int,
                from,
                to,
            ),
            accepted ==> final(self).turn_spec() == 1 - old(self).turn_spec(),
    {
        if pid != self.turn {
            return false;
        }
        if !self.board.is_movable(pid, from, to) {
            return false;
        }
        self.board.do_move(pid, from, to);
        self.turn = 1 - self.turn;
        true
    }
}

impl Default for Game {
    /// A fresh game.
    fn default() -> (r: Self)
        ensures
            r.wf(),
            r.turn_spec() == 0,
            forall|k: int| 0 <= k < 81 ==> r.board_spec().grid()[k] is None,
            r.board_spec().pool(0) == Seq::<PieceKind>::empty(),
            r.board_spec().pool(1) == Seq::<PieceKind>::empty(),
    {
        Self::new()
    }
}

} // verus!
