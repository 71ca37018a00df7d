use crate::position::abs_diff;
use crate::position::Position;
use vstd::prelude::*;

verus! {

/// The kinds of pieces: six base pieces, the two sliders, and the promoted
/// forms. Promoted pawn, lance, knight and silver all move as the gold;
/// the promoted sliders gain the king's single step.
#[derive(Debug, Clone, Copy, PartialEq, Eq, Hash, Structural)]
pub enum PieceKind {
    Fu,
    Ky,
    Ke,
    Gi,
    Ki,
    Ka,
    Hi,
    Ou,
    PFu,
    PKy,
    PKe,
    PGi,
    PKa,
    PHi,
}

/// Pawn: one step forward.
pub open spec fn fu_offsets() -> Seq<(i8, i8)> {
    seq![(-1i8, 0i8)]
}

/// Lance: any number of steps straight forward.
pub open spec fn ky_offsets() -> Seq<(i8, i8)> {
    seq![
        (-1i8, 0i8),
        (-2i8, 0i8),
        (-3i8, 0i8),
        (-4i8, 0i8),
        (-5i8, 0i8),
        (-6i8, 0i8),
        (-7i8, 0i8),
        (-8i8, 0i8),
    ]
}

/// Knight: the two forward jumps.
pub open spec fn ke_offsets() -> Seq<(i8, i8)> {
    seq![(-2i8, -1i8), (-2i8, 1i8)]
}

/// Silver: the forward three steps and the two backward diagonals.
pub open spec fn gi_offsets() -> Seq<(i8, i8)> {
    seq![(-1i8, -1i8), (-1i8, 0i8), (-1i8, 1i8), (1i8, -1i8), (1i8, 1i8)]
}

/// Gold: one step anywhere but the backward diagonals.
pub open spec fn ki_offsets() -> Seq<(i8, i8)> {
    seq![(-1i8, -1i8), (-1i8, 0i8), (-1i8, 1i8), (0i8, -1i8), (0i8, 1i8), (1i8, 0i8)]
}

/// Bishop: any number of steps along a diagonal.
pub open spec fn ka_offsets() -> Seq<(i8, i8)> {
    seq![
        (-8i8, -8i8),
        (-7i8, -7i8),
        (-6i8, -6i8),
        (-5i8, -5i8),
        (-4i8, -4i8),
        (-3i8, -3i8),
        (-2i8, -2i8),
        (-1i8, -1i8),
        (1i8, 1i8),
        (2i8, 2i8),
        (3i8, 3i8),
        (4i8, 4i8),
        (5i8, 5i8),
        (6i8, 6i8),
        (7i8, 7i8),
        (8i8, 8i8),
        (-8i8, 8i8),
        (-7i8, 7i8),
        (-6i8, 6i8),
        (-5i8, 5i8),
        (-4i8, 4i8),
        (-3i8, 3i8),
        (-2i8, 2i8),
        (-1i8, 1i8),
        (1i8, -1i8),
        (2i8, -2i8),
        (3i8, -3i8),
        (4i8, -4i8),
        (5i8, -5i8),
        (6i8, -6i8),
        (7i8, -7i8),
        (8i8, -8i8),
    ]
}

/// Rook: any number of steps along a row or column.
pub open spec fn hi_offsets() -> Seq<(i8, i8)> {
    seq![
        (-8i8, 0i8),
        (-7i8, 0i8),
        (-6i8, 0i8),
        (-5i8, 0i8),
        (-4i8, 0i8),
        (-3i8, 0i8),
        (-2i8, 0i8),
        (-1i8, 0i8),
        (1i8, 0i8),
        (2i8, 0i8),
        (3i8, 0i8),
        (4i8, 0i8),
        (5i8, 0i8),
        (6i8, 0i8),
        (7i8, 0i8),
        (8i8, 0i8),
        (0i8, -8i8),
        (0i8, -7i8),
        (0i8, -6i8),
        (0i8, -5i8),
        (0i8, -4i8),
        (0i8, -3i8),
        (0i8, -2i8),
        (0i8, -1i8),
        (0i8, 1i8),
        (0i8, 2i8),
        (0i8, 3i8),
        (0i8, 4i8),
        (0i8, 5i8),
        (0i8, 6i8),
        (0i8, 7i8),
        (0i8, 8i8),
    ]
}

/// King: one step in any of the eight directions.
pub open spec fn ou_offsets() -> Seq<(i8, i8)> {
    seq![
        (-1i8, -1i8),
        (-1i8, 0i8),
        (-1i8, 1i8),
        (0i8, -1i8),
        (0i8, 1i8),
        (1i8, -1i8),
        (1i8, 0i8),
        (1i8, 1i8),
    ]
}

/// The four single orthogonal steps.
pub open spec fn orth_step_offsets() -> Seq<(i8, i8)> {
    seq![(-1i8, 0i8), (0i8, -1i8), (0i8, 1i8), (1i8, 0i8)]
}

/// The four single diagonal steps.
pub open spec fn diag_step_offsets() -> Seq<(i8, i8)> {
    seq![(-1i8, -1i8), (-1i8, 1i8), (1i8, -1i8), (1i8, 1i8)]
}

/// Promoted bishop: the bishop's table extended by the orthogonal steps.
pub open spec fn pka_offsets() -> Seq<(i8, i8)> {
    ka_offsets() + orth_step_offsets()
}

/// Promoted rook: the rook's table extended by the diagonal steps.
pub open spec fn phi_offsets() -> Seq<(i8, i8)> {
    hi_offsets() + diag_step_offsets()
}

/// Mirroring of the row component of every offset: the first player moves
/// toward row 0, the second toward row 8.
pub open spec fn forward_sign(pid: int) -> int {
    if pid == 0 {
        1
    } else {
        -1
    }
}

/// Some offset of `offs`, its row component scaled by `mul`, carries `p`
/// exactly onto `t`.
pub open spec fn hits(offs: Seq<(i8, i8)>, mul: int, p: Position, t: Position) -> bool {
    exists|k: int|
        0 <= k < offs.len() && t.row() == p.row() + mul * (#[trigger] offs[k]).0 as int && t.col()
            == p.col() + offs[k].1 as int
}

/// The destinations given by the first `n` table entries, each row
/// component scaled by `mul` and added to `p`; entries that fall off
/// the board are discarded and table order is kept.
pub open spec fn reach_upto(offs: Seq<(i8, i8)>, mul: int, p: Position, n: int) -> Seq<Position>
    decreases n,
{
    if n <= 0 {
        Seq::empty()
    } else {
        let prev = reach_upto(offs, mul, p, n - 1);
        let ni = p.row() + mul * offs[n - 1].0 as int;
        let nj = p.col() + offs[n - 1].1 as int;
        if 0 <= ni && ni < 9 && 0 <= nj && nj < 9 {
            prev.push(Position::spec_from_ij(ni, nj))
        } else {
            prev
        }
    }
}

/// The squares are a single king's step apart: Chebyshev distance one.
pub open spec fn king_step(p: Position, t: Position) -> bool {
    let a = abs_diff(t.row(), p.row());
    let b = abs_diff(t.col(), p.col());
    (if a >= b {
        a
    } else {
        b
    }) == 1
}

fn fu_table() -> (r: Vec<(i8, i8)>)
    ensures
        r@ == fu_offsets(),
{
    vstd::slice::slice_to_vec(vstd::array::array_as_slice(&[(-1i8, 0i8)]))
}

fn ky_table() -> (r: Vec<(i8, i8)>)
    ensures
        r@ == ky_offsets(),
{
    vstd::slice::slice_to_vec(
        vstd::array::array_as_slice(
            &[
                (-1i8, 0i8),
                (-2i8, 0i8),
                (-3i8, 0i8),
                (-4i8, 0i8),
                (-5i8, 0i8),
                (-6i8, 0i8),
                (-7i8, 0i8),
                (-8i8, 0i8),
            ],
        ),
    )
}

fn ke_table() -> (r: Vec<(i8, i8)>)
    ensures
        r@ == ke_offsets(),
{
    vstd::slice::slice_to_vec(vstd::array::array_as_slice(&[(-2i8, -1i8), (-2i8, 1i8)]))
}

fn gi_table() -> (r: Vec<(i8, i8)>)
    ensures
        r@ == gi_offsets(),
{
    vstd::slice::slice_to_vec(
        vstd::array::array_as_slice(
            &[(-1i8, -1i8), (-1i8, 0i8), (-1i8, 1i8), (1i8, -1i8), (1i8, 1i8)],
        ),
    )
}

fn ki_table() -> (r: Vec<(i8, i8)>)
    ensures
        r@ == ki_offsets(),
{
    vstd::slice::slice_to_vec(
        vstd::array::array_as_slice(
            &[(-1i8, -1i8), (-1i8, 0i8), (-1i8, 1i8), (0i8, -1i8), (0i8, 1i8), (1i8, 0i8)],
        ),
    )
}

fn ka_table() -> (r: Vec<(i8, i8)>)
    ensures
        r@ == ka_offsets(),
{
    vstd::slice::slice_to_vec(
        vstd::array::array_as_slice(
            &[
                (-8i8, -8i8),
                (-7i8, -7i8),
                (-6i8, -6i8),
                (-5i8, -5i8),
                (-4i8, -4i8),
                (-3i8, -3i8),
                (-2i8, -2i8),
                (-1i8, -1i8),
                (1i8, 1i8),
                (2i8, 2i8),
                (3i8, 3i8),
                (4i8, 4i8),
                (5i8, 5i8),
                (6i8, 6i8),
                (7i8, 7i8),
                (8i8, 8i8),
                (-8i8, 8i8),
                (-7i8, 7i8),
                (-6i8, 6i8),
                (-5i8, 5i8),
                (-4i8, 4i8),
                (-3i8, 3i8),
                (-2i8, 2i8),
                (-1i8, 1i8),
                (1i8, -1i8),
                (2i8, -2i8),
                (3i8, -3i8),
                (4i8, -4i8),
                (5i8, -5i8),
                (6i8, -6i8),
                (7i8, -7i8),
                (8i8, -8i8),
            ],
        ),
    )
}

fn hi_table() -> (r: Vec<(i8, i8)>)
    ensures
        r@ == hi_offsets(),
{
    vstd::slice::slice_to_vec(
        vstd::array::array_as_slice(
            &[
                (-8i8, 0i8),
                (-7i8, 0i8),
                (-6i8, 0i8),
                (-5i8, 0i8),
                (-4i8, 0i8),
                (-3i8, 0i8),
                (-2i8, 0i8),
                (-1i8, 0i8),
                (1i8, 0i8),
                (2i8, 0i8),
                (3i8, 0i8),
                (4i8, 0i8),
                (5i8, 0i8),
                (6i8, 0i8),
                (7i8, 0i8),
                (8i8, 0i8),
                (0i8, -8i8),
                (0i8, -7i8),
                (0i8, -6i8),
                (0i8, -5i8),
                (0i8, -4i8),
                (0i8, -3i8),
                (0i8, -2i8),
                (0i8, -1i8),
                (0i8, 1i8),
                (0i8, 2i8),
                (0i8, 3i8),
                (0i8, 4i8),
                (0i8, 5i8),
                (0i8, 6i8),
                (0i8, 7i8),
                (0i8, 8i8),
            ],
        ),
    )
}

fn ou_table() -> (r: Vec<(i8, i8)>)
    ensures
        r@ == ou_offsets(),
{
    vstd::slice::slice_to_vec(
        vstd::array::array_as_slice(
            &[
                (-1i8, -1i8),
                (-1i8, 0i8),
                (-1i8, 1i8),
                (0i8, -1i8),
                (0i8, 1i8),
                (1i8, -1i8),
                (1i8, 0i8),
                (1i8, 1i8),
            ],
        ),
    )
}

fn pka_table() -> (r: Vec<(i8, i8)>)
    ensures
        r@ == pka_offsets(),
{
    let mut v = ka_table();
    v.push((-1, 0));
    v.push((0, -1));
    v.push((0, 1));
    v.push((1, 0));
    proof {
        assert(v@ =~= pka_offsets());
    }
    v
}

fn phi_table() -> (r: Vec<(i8, i8)>)
    ensures
        r@ == phi_offsets(),
{
    let mut v = hi_table();
    v.push((-1, -1));
    v.push((-1, 1));
    v.push((1, -1));
    v.push((1, 1));
    proof {
        assert(v@ =~= phi_offsets());
    }
    v
}

impl PieceKind {
    /// The direction table of this kind, as the first player sees it.
    /// The four promoted gold-movers share the gold's table.
    pub open spec fn offsets(self) -> Seq<(i8, i8)> {
        match self {
            PieceKind::Fu => fu_offsets(),
            PieceKind::Ky => ky_offsets(),
            PieceKind::Ke => ke_offsets(),
            PieceKind::Gi => gi_offsets(),
            PieceKind::Ki => ki_offsets(),
            PieceKind::Ka => ka_offsets(),
            PieceKind::Hi => hi_offsets(),
            PieceKind::Ou => ou_offsets(),
            PieceKind::PFu => ki_offsets(),
            PieceKind::PKy => ki_offsets(),
            PieceKind::PKe => ki_offsets(),
            PieceKind::PGi => ki_offsets(),
            PieceKind::PKa => pka_offsets(),
            PieceKind::PHi => phi_offsets(),
        }
    }

    fn table(self) -> (r: Vec<(i8, i8)>)
        ensures
            r@ == self.offsets(),
    {
        match self {
            PieceKind::Fu => fu_table(),
            PieceKind::Ky => ky_table(),
            PieceKind::Ke => ke_table(),
            PieceKind::Gi => gi_table(),
            PieceKind::Ki => ki_table(),
            PieceKind::Ka => ka_table(),
            PieceKind::Hi => hi_table(),
            PieceKind::Ou => ou_table(),
            PieceKind::PFu => ki_table(),
            PieceKind::PKy => ki_table(),
            PieceKind::PKe => ki_table(),
            PieceKind::PGi => ki_table(),
            PieceKind::PKa => pka_table(),
            PieceKind::PHi => phi_table(),
        }
    }

    /// All destinations this kind can reach for the given player from `p`,
    /// in table order.
    pub open spec fn reach(self, pid: int, p: Position) -> Seq<Position> {
        reach_upto(self.offsets(), forward_sign(pid), p, self.offsets().len() as int)
    }

    /// Some table offset, mirrored for the player, carries `p` exactly
    /// onto `t`.
    pub open spec fn table_hit(self, pid: int, p: Position, t: Position) -> bool {
        hits(self.offsets(), forward_sign(pid), p, t)
    }

    /// Shape legality of a move from `p` to `t` for the player `pid`:
    /// moving in place is never legal; the sliding kinds follow their
    /// closed-form rule, every other kind follows its direction table.
    /// Occupancy of intermediate squares plays no part here.
    pub open spec fn shape_ok(self, pid: int, p: Position, t: Position) -> bool {
        p.idx() != t.idx() && match self {
            PieceKind::Ky => t.col() == p.col() && (if pid == 0 {
                t.row() < p.row()
            } else {
                t.row() > p.row()
            }),
            PieceKind::Ka => p.same_diagonal(t),
            PieceKind::Hi => p.same_line(t),
            PieceKind::Ou => king_step(p, t),
            PieceKind::PKa => p.same_diagonal(t) || king_step(p, t),
            PieceKind::PHi => p.same_line(t) || king_step(p, t),
            _ => self.table_hit(pid, p, t),
        }
    }

    /// Membership in the destination list coincides with some
    /// mirrored table offset carrying the origin onto the destination.
    pub proof fn lemma_reach_characterizes(self, pid: int, p: Position, t: Position)
        requires
            t.wf(),
        ensures
            self.reach(pid, p).contains(t) <==> self.table_hit(pid, p, t),
    {
        lemma_reach_upto_contains(
            self.offsets(),
            forward_sign(pid),
            p,
            self.offsets().len() as int,
            t,
        );
    }

    /// The two levels of the movement model agree for every kind: a move is
    /// shape-legal exactly when its destination stands among the movable
    /// cells of the origin.
    pub proof fn lemma_shape_matches_cells(self, pid: int, p: Position, t: Position)
        requires
            0 <= pid < 2,
            p.wf(),
            t.wf(),
        ensures
            self.shape_ok(pid, p, t) <==> self.reach(pid, p).contains(t),
    {
        self.lemma_reach_characterizes(pid, p, t);
        let mul = forward_sign(pid);
        p.lemma_to_coords();
        t.lemma_to_coords();
        match self {
            PieceKind::Ky => {
                lemma_ky_hits(mul, p, t);
            },
            PieceKind::Ka => {
                lemma_ka_hits(mul, p, t);
            },
            PieceKind::Hi => {
                lemma_hi_hits(mul, p, t);
            },
            PieceKind::Ou => {
                lemma_ou_hits(mul, p, t);
            },
            PieceKind::PKa => {
                lemma_hits_concat(ka_offsets(), orth_step_offsets(), mul, p, t);
                lemma_ka_hits(mul, p, t);
                lemma_orth_step_hits(mul, p, t);
            },
            PieceKind::PHi => {
                lemma_hits_concat(hi_offsets(), diag_step_offsets(), mul, p, t);
                lemma_hi_hits(mul, p, t);
                lemma_diag_step_hits(mul, p, t);
            },
            _ => {
                assert forall|k: int| 0 <= k < self.offsets().len() implies !((
                #[trigger] self.offsets()[k]).0 as int == 0 && self.offsets()[k].1 as int
                    == 0) by {}
                if self.table_hit(pid, p, t) {
                    lemma_hits_moves(self.offsets(), mul, p, t);
                }
            },
        }
    }

    /// No kind's destination list names a square twice: distinct table
    /// entries land on distinct squares.
    pub proof fn lemma_reach_no_duplicates(self, pid: int, p: Position)
        requires
            0 <= pid < 2,
            p.wf(),
        ensures
            self.reach(pid, p).no_duplicates(),
    {
        lemma_offsets_distinct(self);
        lemma_reach_upto_no_duplicates(
            self.offsets(),
            forward_sign(pid),
            p,
            self.offsets().len() as int,
        );
    }

    /// Whether the move from `p` to `t` fits this kind's shape for the
    /// player `pid`.
    pub fn is_movable(self, pid: usize, p: Position, t: Position) -> (r: bool)
        requires
            pid < 2,
        ensures
            r == self.shape_ok(pid as int, p, t),
    {
        if p.index() == t.index() {
            return false;
        }
        let (pi, pj) = p.to_ij();
        let (ti, tj) = t.to_ij();
        let di = if ti >= pi {
            ti - pi
        } else {
            pi - ti
        };
        let dj = if tj >= pj {
            tj - pj
        } else {
            pj - tj
        };
        let step = (if di >= dj {
            di
        } else {
            dj
        }) == 1;
        match self {
            PieceKind::Ky => tj == pj && (if pid == 0 {
                ti < pi
            } else {
                ti > pi
            }),
            PieceKind::Ka => di == dj,
            PieceKind::Hi => ti == pi || tj == pj,
            PieceKind::Ou => step,
            PieceKind::PKa => di == dj || step,
            PieceKind::PHi => (ti == pi || tj == pj) || step,
            _ => {
                let cells = self.movable_cells(pid, p);
                let tindex = t.index();
                let n = cells.len();
                let mut k: usize = 0;
                let mut found = false;
                while k < n
                    invariant
                        n == cells@.len(),
                        cells@ == self.reach(pid as int, p),
                        k <= n,
                        found <==> exists|m: int| 0 <= m < k && cells@[m] == t,
                        tindex == t.idx(),
                    decreases n - k,
                {
                    let c = cells[k];
                    if c.index() == tindex {
                        found = true;
                        proof {
                            Position::lemma_idx_injective(c, t);
                        }
                        assert(cells@[k as int] == t);
                    }
                    k += 1;
                }
                proof {
                    use_type_invariant(t);
                    self.lemma_reach_characterizes(pid as int, p, t);
                    assert(found <==> self.reach(pid as int, p).contains(t));
                }
                found
            },
        }
    }

    /// Every destination this kind can reach for the player `pid` from `p`,
    /// as a list in table order; offsets that fall off the board yield
    /// nothing.
    pub fn movable_cells(self, pid: usize, p: Position) -> (r: Vec<Position>)
        requires
            pid < 2,
        ensures
            r@ == self.reach(pid as int, p),
            r@.no_duplicates(),
    {
        proof {
            use_type_invariant(p);
            self.lemma_reach_no_duplicates(pid as int, p);
        }
        let offs = self.table();
        let mut out: Vec<Position> = Vec::new();
        for k in 0..offs.len()
            invariant
                offs@ == self.offsets(),
                pid < 2,
                out@ == reach_upto(self.offsets(), forward_sign(pid as int), p, k as int),
        {
            let (di, dj) = offs[k];
            let sdi: isize = if pid == 0 {
                di as isize
            } else {
                -(di as isize)
            };
            match p.add(sdi, dj as isize) {
                Some(q) => {
                    out.push(q);
                },
                None => {},
            }
        }
        out
    }
}

/// Splitting a table splits what it hits.
proof fn lemma_hits_concat(a: Seq<(i8, i8)>, b: Seq<(i8, i8)>, mul: int, p: Position, t: Position)
    ensures
        hits(a + b, mul, p, t) <==> (hits(a, mul, p, t) || hits(b, mul, p, t)),
{
    if hits(a + b, mul, p, t) {
        let k = choose|k: int|
            0 <= k < (a + b).len() && t.row() == p.row() + mul * (#[trigger] (a + b)[k]).0 as int
                && t.col() == p.col() + (a + b)[k].1 as int;
        if k < a.len() {
            assert((a + b)[k] == a[k]);
            assert(hits(a, mul, p, t));
        } else {
            assert((a + b)[k] == b[k - a.len()]);
            assert(hits(b, mul, p, t));
        }
    }
    if hits(a, mul, p, t) {
        let k = choose|k: int|
            0 <= k < a.len() && t.row() == p.row() + mul * (#[trigger] a[k]).0 as int && t.col()
                == p.col() + a[k].1 as int;
        assert((a + b)[k] == a[k]);
        assert(hits(a + b, mul, p, t));
    }
    if hits(b, mul, p, t) {
        let k = choose|k: int|
            0 <= k < b.len() && t.row() == p.row() + mul * (#[trigger] b[k]).0 as int && t.col()
                == p.col() + b[k].1 as int;
        assert((a + b)[k + a.len()] == b[k]);
        assert(hits(a + b, mul, p, t));
    }
}

/// A table without the zero offset never lands where it started.
proof fn lemma_hits_moves(offs: Seq<(i8, i8)>, mul: int, p: Position, t: Position)
    requires
        mul == 1 || mul == -1,
        hits(offs, mul, p, t),
        forall|k: int|
            0 <= k < offs.len() ==> !((#[trigger] offs[k]).0 as int == 0 && offs[k].1 as int == 0),
    ensures
        p.idx() != t.idx(),
{
    let k = choose|k: int|
        0 <= k < offs.len() && t.row() == p.row() + mul * (#[trigger] offs[k]).0 as int && t.col()
            == p.col() + offs[k].1 as int;
    if offs[k].0 as int == 0 {
        assert(t.col() != p.col());
    } else {
        assert(t.row() != p.row());
    }
}

/// The bishop's table entries, by index: the four diagonal rays, each of
/// eight steps.
proof fn lemma_ka_entries()
    ensures
        forall|k: int|
            0 <= k < 32 ==> {
                let o = #[trigger] ka_offsets()[k];
                &&& (0 <= k < 8 ==> o.0 as int == k - 8 && o.1 as int == k - 8)
                &&& (8 <= k < 16 ==> o.0 as int == k - 7 && o.1 as int == k - 7)
                &&& (16 <= k < 24 ==> o.0 as int == k - 24 && o.1 as int == 24 - k)
                &&& (24 <= k < 32 ==> o.0 as int == k - 23 && o.1 as int == 23 - k)
            },
{
    assert forall|k: int| 0 <= k < 32 implies {
        let o = #[trigger] ka_offsets()[k];
        &&& (0 <= k < 8 ==> o.0 as int == k - 8 && o.1 as int == k - 8)
        &&& (8 <= k < 16 ==> o.0 as int == k - 7 && o.1 as int == k - 7)
        &&& (16 <= k < 24 ==> o.0 as int == k - 24 && o.1 as int == 24 - k)
        &&& (24 <= k < 32 ==> o.0 as int == k - 23 && o.1 as int == 23 - k)
    } by {}
}

/// The rook's table entries, by index: the four orthogonal rays, each of
/// eight steps.
proof fn lemma_hi_entries()
    ensures
        forall|k: int|
            0 <= k < 32 ==> {
                let o = #[trigger] hi_offsets()[k];
                &&& (0 <= k < 8 ==> o.0 as int == k - 8 && o.1 as int == 0)
                &&& (8 <= k < 16 ==> o.0 as int == k - 7 && o.1 as int == 0)
                &&& (16 <= k < 24 ==> o.0 as int == 0 && o.1 as int == k - 24)
                &&& (24 <= k < 32 ==> o.0 as int == 0 && o.1 as int == k - 23)
            },
{
    assert forall|k: int| 0 <= k < 32 implies {
        let o = #[trigger] hi_offsets()[k];
        &&& (0 <= k < 8 ==> o.0 as int == k - 8 && o.1 as int == 0)
        &&& (8 <= k < 16 ==> o.0 as int == k - 7 && o.1 as int == 0)
        &&& (16 <= k < 24 ==> o.0 as int == 0 && o.1 as int == k - 24)
        &&& (24 <= k < 32 ==> o.0 as int == 0 && o.1 as int == k - 23)
    } by {}
}

/// The lance's table hits exactly the squares of the same column strictly
/// in the mirrored forward direction.
proof fn lemma_ky_hits(mul: int, p: Position, t: Position)
    requires
        mul == 1 || mul == -1,
        p.wf(),
        t.wf(),
    ensures
        hits(ky_offsets(), mul, p, t) <==> (t.col() == p.col() && mul * t.row() < mul * p.row()),
{
    p.lemma_to_coords();
    t.lemma_to_coords();
    assert forall|k: int| 0 <= k < 8 implies (#[trigger] ky_offsets()[k]).0 as int == -(k + 1)
        && ky_offsets()[k].1 as int == 0 by {}
    if t.col() == p.col() && mul * t.row() < mul * p.row() {
        let d = mul * p.row() - mul * t.row();
        assert(1 <= d <= 8);
        assert(ky_offsets()[d - 1].0 as int == -d && ky_offsets()[d - 1].1 as int == 0);
        assert(t.row() == p.row() + mul * (ky_offsets()[d - 1].0 as int));
        assert(hits(ky_offsets(), mul, p, t));
    }
    if hits(ky_offsets(), mul, p, t) {
        let k = choose|k: int|
            0 <= k < ky_offsets().len() && t.row() == p.row() + mul * (
            #[trigger] ky_offsets()[k]).0 as int && t.col() == p.col() + ky_offsets()[k].1 as int;
        assert(t.row() == p.row() + mul * (-(k + 1)));
        assert(mul * t.row() == mul * p.row() - (k + 1));
    }
}

/// The bishop's table hits exactly the other squares of a common diagonal.
proof fn lemma_ka_hits(mul: int, p: Position, t: Position)
    requires
        mul == 1 || mul == -1,
        p.wf(),
        t.wf(),
    ensures
        hits(ka_offsets(), mul, p, t) <==> (p.idx() != t.idx() && p.same_diagonal(t)),
{
    p.lemma_to_coords();
    t.lemma_to_coords();
    lemma_ka_entries();
    if p.idx() != t.idx() && p.same_diagonal(t) {
        let x = if mul == 1 {
            t.row() - p.row()
        } else {
            p.row() - t.row()
        };
        let y = t.col() - p.col();
        assert(x != 0 && (x == y || x == -y) && -8 <= x <= 8);
        let kw = if x < 0 && y < 0 {
            x + 8
        } else if x > 0 && y > 0 {
            x + 7
        } else if x < 0 {
            x + 24
        } else {
            x + 23
        };
        assert(0 <= kw < 32 && ka_offsets()[kw].0 as int == x && ka_offsets()[kw].1 as int == y);
        assert(t.row() == p.row() + mul * (ka_offsets()[kw].0 as int));
        assert(hits(ka_offsets(), mul, p, t));
    }
    if hits(ka_offsets(), mul, p, t) {
        let k = choose|k: int|
            0 <= k < ka_offsets().len() && t.row() == p.row() + mul * (
            #[trigger] ka_offsets()[k]).0 as int && t.col() == p.col() + ka_offsets()[k].1 as int;
        let o = ka_offsets()[k];
        assert(o.0 as int != 0 && (o.0 as int == o.1 as int || o.0 as int == -(o.1 as int)));
        assert(t.row() != p.row());
        assert(p.same_diagonal(t));
    }
}

/// The rook's table hits exactly the other squares of a common row or
/// column.
proof fn lemma_hi_hits(mul: int, p: Position, t: Position)
    requires
        mul == 1 || mul == -1,
        p.wf(),
        t.wf(),
    ensures
        hits(hi_offsets(), mul, p, t) <==> (p.idx() != t.idx() && p.same_line(t)),
{
    p.lemma_to_coords();
    t.lemma_to_coords();
    lemma_hi_entries();
    if p.idx() != t.idx() && p.same_line(t) {
        if t.col() == p.col() {
            let x = if mul == 1 {
                t.row() - p.row()
            } else {
                p.row() - t.row()
            };
            assert(x != 0 && -8 <= x <= 8);
            let kw = if x < 0 {
                x + 8
            } else {
                x + 7
            };
            assert(0 <= kw < 32 && hi_offsets()[kw].0 as int == x && hi_offsets()[kw].1 as int
                == 0);
            assert(t.row() == p.row() + mul * (hi_offsets()[kw].0 as int));
            assert(hits(hi_offsets(), mul, p, t));
        } else {
            let y = t.col() - p.col();
            assert(y != 0 && -8 <= y <= 8);
            let kw = if y < 0 {
                y + 24
            } else {
                y + 23
            };
            assert(0 <= kw < 32 && hi_offsets()[kw].0 as int == 0 && hi_offsets()[kw].1 as int
                == y);
            assert(t.row() == p.row() + mul * (hi_offsets()[kw].0 as int));
            assert(hits(hi_offsets(), mul, p, t));
        }
    }
    if hits(hi_offsets(), mul, p, t) {
        let k = choose|k: int|
            0 <= k < hi_offsets().len() && t.row() == p.row() + mul * (
            #[trigger] hi_offsets()[k]).0 as int && t.col() == p.col() + hi_offsets()[k].1 as int;
        let o = hi_offsets()[k];
        assert((o.0 as int != 0 && o.1 as int == 0) || (o.0 as int == 0 && o.1 as int != 0));
        assert(p.same_line(t) && p.idx() != t.idx());
    }
}

/// The king's table hits exactly the squares one step away.
proof fn lemma_ou_hits(mul: int, p: Position, t: Position)
    requires
        mul == 1 || mul == -1,
        p.wf(),
        t.wf(),
    ensures
        hits(ou_offsets(), mul, p, t) <==> king_step(p, t),
{
    p.lemma_to_coords();
    t.lemma_to_coords();
    assert(ou_offsets()[0].0 as int == -1 && ou_offsets()[0].1 as int == -1);
    assert(ou_offsets()[1].0 as int == -1 && ou_offsets()[1].1 as int == 0);
    assert(ou_offsets()[2].0 as int == -1 && ou_offsets()[2].1 as int == 1);
    assert(ou_offsets()[3].0 as int == 0 && ou_offsets()[3].1 as int == -1);
    assert(ou_offsets()[4].0 as int == 0 && ou_offsets()[4].1 as int == 1);
    assert(ou_offsets()[5].0 as int == 1 && ou_offsets()[5].1 as int == -1);
    assert(ou_offsets()[6].0 as int == 1 && ou_offsets()[6].1 as int == 0);
    assert(ou_offsets()[7].0 as int == 1 && ou_offsets()[7].1 as int == 1);
    if king_step(p, t) {
        let x = if mul == 1 {
            t.row() - p.row()
        } else {
            p.row() - t.row()
        };
        let y = t.col() - p.col();
        assert(-1 <= x <= 1 && -1 <= y <= 1 && !(x == 0 && y == 0));
        let kw: int = if x == -1 {
            y + 1
        } else if x == 0 {
            if y < 0 {
                3
            } else {
                4
            }
        } else {
            y + 6
        };
        assert(0 <= kw < 8 && ou_offsets()[kw].0 as int == x && ou_offsets()[kw].1 as int == y);
        assert(t.row() == p.row() + mul * (ou_offsets()[kw].0 as int));
        assert(hits(ou_offsets(), mul, p, t));
    }
    if hits(ou_offsets(), mul, p, t) {
        let k = choose|k: int|
            0 <= k < ou_offsets().len() && t.row() == p.row() + mul * (
            #[trigger] ou_offsets()[k]).0 as int && t.col() == p.col() + ou_offsets()[k].1 as int;
        assert forall|m: int| 0 <= m < 8 implies {
            let o = #[trigger] ou_offsets()[m];
            -1 <= o.0 as int <= 1 && -1 <= o.1 as int <= 1 && !(o.0 as int == 0 && o.1 as int
                == 0)
        } by {}
        assert(king_step(p, t));
    }
}

/// The four orthogonal steps hit exactly the row and column neighbors.
proof fn lemma_orth_step_hits(mul: int, p: Position, t: Position)
    requires
        mul == 1 || mul == -1,
        p.wf(),
        t.wf(),
    ensures
        hits(orth_step_offsets(), mul, p, t) <==> ((t.row() == p.row() && abs_diff(
            t.col(),
            p.col(),
        ) == 1) || (t.col() == p.col() && abs_diff(t.row(), p.row()) == 1)),
{
    p.lemma_to_coords();
    t.lemma_to_coords();
    assert(orth_step_offsets()[0].0 as int == -1 && orth_step_offsets()[0].1 as int == 0);
    assert(orth_step_offsets()[1].0 as int == 0 && orth_step_offsets()[1].1 as int == -1);
    assert(orth_step_offsets()[2].0 as int == 0 && orth_step_offsets()[2].1 as int == 1);
    assert(orth_step_offsets()[3].0 as int == 1 && orth_step_offsets()[3].1 as int == 0);
    if t.row() == p.row() && abs_diff(t.col(), p.col()) == 1 {
        let kw: int = if t.col() < p.col() {
            1
        } else {
            2
        };
        assert(t.row() == p.row() + mul * (orth_step_offsets()[kw].0 as int));
        assert(hits(orth_step_offsets(), mul, p, t));
    }
    if t.col() == p.col() && abs_diff(t.row(), p.row()) == 1 {
        let kw: int = if mul * t.row() < mul * p.row() {
            0
        } else {
            3
        };
        assert(t.row() == p.row() + mul * (orth_step_offsets()[kw].0 as int));
        assert(hits(orth_step_offsets(), mul, p, t));
    }
    if hits(orth_step_offsets(), mul, p, t) {
        let k = choose|k: int|
            0 <= k < orth_step_offsets().len() && t.row() == p.row() + mul * (
            #[trigger] orth_step_offsets()[k]).0 as int && t.col() == p.col()
                + orth_step_offsets()[k].1 as int;
        assert forall|m: int| 0 <= m < 4 implies {
            let o = #[trigger] orth_step_offsets()[m];
            (o.0 as int == 0 && (o.1 as int == -1 || o.1 as int == 1)) || (o.1 as int == 0 && (o.0
                as int == -1 || o.0 as int == 1))
        } by {}
    }
}

/// The four diagonal steps hit exactly the diagonal neighbors.
proof fn lemma_diag_step_hits(mul: int, p: Position, t: Position)
    requires
        mul == 1 || mul == -1,
        p.wf(),
        t.wf(),
    ensures
        hits(diag_step_offsets(), mul, p, t) <==> (abs_diff(t.row(), p.row()) == 1 && abs_diff(
            t.col(),
            p.col(),
        ) == 1),
{
    p.lemma_to_coords();
    t.lemma_to_coords();
    assert(diag_step_offsets()[0].0 as int == -1 && diag_step_offsets()[0].1 as int == -1);
    assert(diag_step_offsets()[1].0 as int == -1 && diag_step_offsets()[1].1 as int == 1);
    assert(diag_step_offsets()[2].0 as int == 1 && diag_step_offsets()[2].1 as int == -1);
    assert(diag_step_offsets()[3].0 as int == 1 && diag_step_offsets()[3].1 as int == 1);
    if abs_diff(t.row(), p.row()) == 1 && abs_diff(t.col(), p.col()) == 1 {
        let forward: bool = mul * t.row() < mul * p.row();
        let kw: int = if forward && t.col() < p.col() {
            0
        } else if forward {
            1
        } else if t.col() < p.col() {
            2
        } else {
            3
        };
        assert(t.row() == p.row() + mul * (diag_step_offsets()[kw].0 as int));
        assert(hits(diag_step_offsets(), mul, p, t));
    }
    if hits(diag_step_offsets(), mul, p, t) {
        let k = choose|k: int|
            0 <= k < diag_step_offsets().len() && t.row() == p.row() + mul * (
            #[trigger] diag_step_offsets()[k]).0 as int && t.col() == p.col()
                + diag_step_offsets()[k].1 as int;
        assert forall|m: int| 0 <= m < 4 implies {
            let o = #[trigger] diag_step_offsets()[m];
            (o.0 as int == -1 || o.0 as int == 1) && (o.1 as int == -1 || o.1 as int == 1)
        } by {}
    }
}

/// Any two entries of a kind's direction table differ.
proof fn lemma_offsets_distinct(kind: PieceKind)
    ensures
        forall|k1: int, k2: int|
            0 <= k1 < k2 < kind.offsets().len() ==> #[trigger] kind.offsets()[k1] != #[trigger] kind.offsets()[k2],
{
    match kind {
        PieceKind::Ka => {
            lemma_ka_entries();
        },
        PieceKind::Hi => {
            lemma_hi_entries();
        },
        PieceKind::PKa => {
            lemma_ka_entries();
            assert forall|k1: int, k2: int| 0 <= k1 < k2 < 36 implies (#[trigger] pka_offsets()[k1])
                != (#[trigger] pka_offsets()[k2]) by {
                if k1 < 32 {
                    assert(pka_offsets()[k1] == ka_offsets()[k1]);
                } else {
                    assert(pka_offsets()[k1] == orth_step_offsets()[k1 - 32]);
                }
                if k2 < 32 {
                    assert(pka_offsets()[k2] == ka_offsets()[k2]);
                } else {
                    assert(pka_offsets()[k2] == orth_step_offsets()[k2 - 32]);
                }
            }
        },
        PieceKind::PHi => {
            lemma_hi_entries();
            assert forall|k1: int, k2: int| 0 <= k1 < k2 < 36 implies (#[trigger] phi_offsets()[k1])
                != (#[trigger] phi_offsets()[k2]) by {
                if k1 < 32 {
                    assert(phi_offsets()[k1] == hi_offsets()[k1]);
                } else {
                    assert(phi_offsets()[k1] == diag_step_offsets()[k1 - 32]);
                }
                if k2 < 32 {
                    assert(phi_offsets()[k2] == hi_offsets()[k2]);
                } else {
                    assert(phi_offsets()[k2] == diag_step_offsets()[k2 - 32]);
                }
            }
        },
        _ => {
            assert forall|k1: int, k2: int| 0 <= k1 < k2 < kind.offsets().len() implies (
            #[trigger] kind.offsets()[k1]) != (#[trigger] kind.offsets()[k2]) by {}
        },
    }
}

/// A list built from pairwise distinct table entries names no square twice:
/// distinct offsets land on distinct squares.
proof fn lemma_reach_upto_no_duplicates(offs: Seq<(i8, i8)>, mul: int, p: Position, n: int)
    requires
        mul == 1 || mul == -1,
        p.wf(),
        0 <= n <= offs.len(),
        forall|k1: int, k2: int|
            0 <= k1 < k2 < offs.len() ==> #[trigger] offs[k1] != #[trigger] offs[k2],
    ensures
        reach_upto(offs, mul, p, n).no_duplicates(),
    decreases n,
{
    if n > 0 {
        lemma_reach_upto_no_duplicates(offs, mul, p, n - 1);
        let prev = reach_upto(offs, mul, p, n - 1);
        let cur = reach_upto(offs, mul, p, n);
        let ni = p.row() + mul * offs[n - 1].0 as int;
        let nj = p.col() + offs[n - 1].1 as int;
        if 0 <= ni && ni < 9 && 0 <= nj && nj < 9 {
            let q = Position::spec_from_ij(ni, nj);
            Position::lemma_from_coords(ni, nj);
            lemma_reach_upto_contains(offs, mul, p, n - 1, q);
            if prev.contains(q) {
                let k = choose|k: int|
                    0 <= k < n - 1 && q.row() == p.row() + mul * (#[trigger] offs[k]).0 as int
                        && q.col() == p.col() + offs[k].1 as int;
                assert(mul * (offs[k].0 as int) == mul * (offs[n - 1].0 as int));
                assert(offs[k].0 == offs[n - 1].0 && offs[k].1 == offs[n - 1].1);
                assert(offs[k] == offs[n - 1]);
                assert(false);
            }
            assert forall|i: int, j: int|
                0 <= i < cur.len() && 0 <= j < cur.len() && i != j implies cur[i] != cur[j] by {
                if i < prev.len() && j < prev.len() {
                    assert(prev[i] == cur[i] && prev[j] == cur[j]);
                } else if j == prev.len() {
                    assert(cur[i] == prev[i] && cur[j] == q);
                    assert(!prev.contains(q));
                } else {
                    assert(cur[j] == prev[j] && cur[i] == q);
                    assert(!prev.contains(q));
                }
            }
        }
    }
}

/// Membership in the list built from the first `n` table entries matches
/// some entry among those `n` whose mirrored offset carries `p` onto `t`.
proof fn lemma_reach_upto_contains(offs: Seq<(i8, i8)>, mul: int, p: Position, n: int, t: Position)
    requires
        0 <= n <= offs.len(),
        t.wf(),
    ensures
        reach_upto(offs, mul, p, n).contains(t) <==> exists|k: int|
            0 <= k < n && t.row() == p.row() + mul * (#[trigger] offs[k]).0 as int && t.col()
                == p.col() + offs[k].1 as int,
    decreases n,
{
    t.lemma_to_coords();
    if n <= 0 {
        assert(!reach_upto(offs, mul, p, n).contains(t));
    } else {
        lemma_reach_upto_contains(offs, mul, p, n - 1, t);
        let prev = reach_upto(offs, mul, p, n - 1);
        let cur = reach_upto(offs, mul, p, n);
        let ni = p.row() + mul * offs[n - 1].0 as int;
        let nj = p.col() + offs[n - 1].1 as int;
        if 0 <= ni && ni < 9 && 0 <= nj && nj < 9 {
            let q = Position::spec_from_ij(ni, nj);
            Position::lemma_from_coords(ni, nj);
            assert(cur == prev.push(q));
            if cur.contains(t) {
                let i = choose|i: int| 0 <= i < cur.len() && cur[i] == t;
                if i < prev.len() {
                    assert(prev[i] == t);
                    assert(prev.contains(t));
                } else {
                    assert(t == q);
                    assert(t.row() == p.row() + mul * offs[n - 1].0 as int && t.col() == p.col()
                        + offs[n - 1].1 as int);
                }
            }
            if prev.contains(t) {
                let i = choose|i: int| 0 <= i < prev.len() && prev[i] == t;
                assert(cur[i] == t);
                assert(cur.contains(t));
            }
            if t.row() == ni && t.col() == nj {
                assert(t == q);
                assert(cur[prev.len() as int] == t);
                assert(cur.contains(t));
            }
        } else {
            assert(cur == prev);
            if exists|k: int|
                0 <= k < n && t.row() == p.row() + mul * (#[trigger] offs[k]).0 as int && t.col()
                    == p.col() + offs[k].1 as int {
                let k = choose|k: int|
                    0 <= k < n && t.row() == p.row() + mul * (#[trigger] offs[k]).0 as int
                        && t.col() == p.col() + offs[k].1 as int;
                if k == n - 1 {
                    assert(t.row() == ni && t.col() == nj);
                    assert(false);
                }
            }
        }
    }
}

} // verus!
