use vstd::prelude::*;

verus! {

/// Absolute difference of two integers.
pub open spec fn abs_diff(a: int, b: int) -> int {
    if a >= b {
        a - b
    } else {
        b - a
    }
}

/// A square of the 9x9 grid, encoded as a single row-major index:
/// row = index / 9, column = index % 9.
#[derive(Debug, Clone, Copy, PartialEq, Eq, Hash, Structural)]
pub struct Position(usize);

impl Position {
    /// The raw row-major index of this square.
    pub closed spec fn idx(self) -> int {
        self.0 as int
    }

    /// Every position denotes a square of the board: its index is in [0, 81).
    #[verifier::type_invariant]
    pub closed spec fn wf(self) -> bool {
        0 <= self.idx() < 81
    }

    /// Row of the square.
    pub open spec fn row(self) -> int {
        self.idx() / 9
    }

    /// Column of the square.
    pub open spec fn col(self) -> int {
        self.idx() % 9
    }

    /// The position holding the given row and column.
    pub closed spec fn spec_from_ij(i: int, j: int) -> Position {
        Position((i * 9 + j) as usize)
    }

    /// A position built from on-board coordinates reads those coordinates back.
    pub proof fn lemma_from_coords(i: int, j: int)
        requires
            0 <= i < 9,
            0 <= j < 9,
        ensures
            Self::spec_from_ij(i, j).wf(),
            Self::spec_from_ij(i, j).idx() == i * 9 + j,
            Self::spec_from_ij(i, j).row() == i,
            Self::spec_from_ij(i, j).col() == j,
    {
        vstd::arithmetic::div_mod::lemma_fundamental_div_mod_converse(i * 9 + j, 9, i, j);
    }

    /// A position's coordinates are on the board and identify it: rebuilding
    /// from them yields the same position.
    pub proof fn lemma_to_coords(self)
        requires
            self.wf(),
        ensures
            0 <= self.row() < 9,
            0 <= self.col() < 9,
            self.idx() == self.row() * 9 + self.col(),
            Self::spec_from_ij(self.row(), self.col()) == self,
    {
        vstd::arithmetic::div_mod::lemma_fundamental_div_mod(self.idx(), 9);
    }

    /// Positions holding the same index are the same position.
    pub proof fn lemma_idx_injective(a: Position, b: Position)
        requires
            a.idx() == b.idx(),
        ensures
            a == b,
    {
    }

    /// A position from a raw index; the index must denote a square.
    pub fn new(index: usize) -> (r: Position)
        requires
            index < 81,
        ensures
            r.idx() == index,
    {
        Position(index)
    }

    /// The raw row-major index.
    pub fn index(self) -> (r: usize)
        ensures
            r == self.idx(),
            r < 81,
    {
        proof {
            use_type_invariant(self);
        }
        self.0
    }

    /// The position at the given row and column, if both are on the board.
    pub fn from_ij(i: usize, j: usize) -> (r: Option<Position>)
        ensures
            r is Some <==> (i < 9 && j < 9),
            r matches Some(p) ==> p == Self::spec_from_ij(i as int, j as int),
            r matches Some(p) ==> p.row() == i && p.col() == j,
    {
        if i < 9 && j < 9 {
            proof {
                Self::lemma_from_coords(i as int, j as int);
            }
            Some(Position(i * 9 + j))
        } else {
            None
        }
    }

    /// The row of this square.
    pub fn to_i(self) -> (r: usize)
        ensures
            r == self.row(),
            r < 9,
    {
        proof {
            use_type_invariant(self);
        }
        self.0 / 9
    }

    /// The column of this square.
    pub fn to_j(self) -> (r: usize)
        ensures
            r == self.col(),
            r < 9,
    {
        proof {
            use_type_invariant(self);
        }
        self.0 % 9
    }

    /// Both coordinates of this square.
    pub fn to_ij(self) -> (r: (usize, usize))
        ensures
            r.0 == self.row(),
            r.1 == self.col(),
            r.0 < 9,
            r.1 < 9,
    {
        (self.to_i(), self.to_j())
    }

    /// Move by a signed offset. Yields a position exactly when the shifted
    /// row and column both stay on the board; the arithmetic is done in
    /// signed space, so no wraparound can fake an in-range result.
    pub fn add(self, di: isize, dj: isize) -> (r: Option<Position>)
        ensures
            r is Some <==> (0 <= self.row() + di && self.row() + di < 9 && 0 <= self.col() + dj
                && self.col() + dj < 9),
            r matches Some(q) ==> q == Self::spec_from_ij(self.row() + di, self.col() + dj),
            r matches Some(q) ==> q.row() == self.row() + di && q.col() == self.col() + dj,
    {
        let (i, j) = self.to_ij();
        let ni: i128 = i as i128 + di as i128;
        let nj: i128 = j as i128 + dj as i128;
        if 0 <= ni && ni < 9 && 0 <= nj && nj < 9 {
            Self::from_ij(ni as usize, nj as usize)
        } else {
            None
        }
    }

    /// Both squares lie on a common diagonal.
    pub open spec fn same_diagonal(self, other: Position) -> bool {
        abs_diff(self.row(), other.row()) == abs_diff(self.col(), other.col())
    }

    /// Both squares lie on a common row or column.
    pub open spec fn same_line(self, other: Position) -> bool {
        self.row() == other.row() || self.col() == other.col()
    }

    /// Whether a diagonal slider standing here could reach `other`.
    pub fn on_kaku(self, other: Self) -> (r: bool)
        ensures
            r == self.same_diagonal(other),
    {
        let (ai, aj) = self.to_ij();
        let (bi, bj) = other.to_ij();
        let di = if ai >= bi {
            ai - bi
        } else {
            bi - ai
        };
        let dj = if aj >= bj {
            aj - bj
        } else {
            bj - aj
        };
        di == dj
    }

    /// Whether an orthogonal slider standing here could reach `other`.
    pub fn on_hisha(self, other: Self) -> (r: bool)
        ensures
            r == self.same_line(other),
    {
        let (ai, aj) = self.to_ij();
        let (bi, bj) = other.to_ij();
        ai == bi || aj == bj
    }
}

} // verus!
