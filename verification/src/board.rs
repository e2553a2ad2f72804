//! The position model and the legality engine: pseudo-legal movement,
//! attack and check detection, castling, full move application, move
//! enumeration and end-of-game detection.

use vstd::prelude::*;
use crate::piece::{grid_set, Piece, PieceColor, PieceRole, Pieces, BOARD_SIZE_I, BOARD_SIZE_J};

verus! {

/// The outcome of a finished game.
#[derive(PartialEq, Eq, Structural, Clone, Copy, Debug)]
pub enum BoardResult {
    Winner(PieceColor),
    Draw,
}

/// A candidate move: an origin square and a destination square.
#[derive(Clone, Copy, Debug)]
pub struct Step {
    pub from: (usize, usize),
    pub to: (usize, usize),
}

impl PartialEq for Step {
    fn eq(&self, other: &Step) -> (r: bool)
        ensures
            r == (self == other),
    {
        let r = self.from.0 == other.from.0 && self.from.1 == other.from.1 && self.to.0
            == other.to.0 && self.to.1 == other.to.1;
        proof {
            if r {
                assert(self.from == other.from);
                assert(self.to == other.to);
                assert(*self == *other);
            }
        }
        r
    }
}

impl vstd::std_specs::cmp::PartialEqSpecImpl for Step {
    open spec fn obeys_eq_spec() -> bool {
        true
    }

    open spec fn eq_spec(&self, other: &Step) -> bool {
        *self == *other
    }
}

/// A full position: the grid, the side to move, the four castling
/// rights (white king-side, white queen-side, black king-side, black
/// queen-side), the en-passant target, and the move counters.
pub struct Board {
    pub pieces: Pieces,
    pub active_color: PieceColor,
    pub castling_availability: (bool, bool, bool, bool),
    pub en_passant_target: Option<(usize, usize)>,
    pub halfmove: usize,
    pub fullmove: usize,
}

/// The mathematical model of a position.
#[verifier::ext_equal]
pub struct BoardView {
    pub grid: Seq<Seq<Option<Piece>>>,
    pub active: PieceColor,
    pub castling: (bool, bool, bool, bool),
    pub en_passant: Option<(usize, usize)>,
    pub halfmove: usize,
    pub fullmove: usize,
}

impl View for Board {
    type V = BoardView;

    open spec fn view(&self) -> BoardView {
        BoardView {
            grid: self.pieces@,
            active: self.active_color,
            castling: self.castling_availability,
            en_passant: self.en_passant_target,
            halfmove: self.halfmove,
            fullmove: self.fullmove,
        }
    }
}

impl Clone for Board {
    /// A structural copy: the clone models the same position.
    fn clone(&self) -> (r: Self)
        ensures
            r@ == self@,
    {
        Board {
            pieces: self.pieces.clone(),
            active_color: self.active_color,
            castling_availability: self.castling_availability,
            en_passant_target: self.en_passant_target,
            halfmove: self.halfmove,
            fullmove: self.fullmove,
        }
    }
}

/// Both coordinates name a square on the board.
pub open spec fn sq_in_range(x: int, y: int) -> bool {
    0 <= x < 8 && 0 <= y < 8
}

/// Both squares of the step are on the board.
pub open spec fn step_in_range(s: Step) -> bool {
    s.from.0 < 8 && s.from.1 < 8 && s.to.0 < 8 && s.to.1 < 8
}

impl BoardView {
    /// The square at file `x`, rank `y`.
    pub open spec fn at(self, x: int, y: int) -> Option<Piece> {
        self.grid[x][y]
    }

    /// An 8x8 grid, and an in-range en-passant target if one is set.
    pub open spec fn grid_wf(self) -> bool {
        &&& self.grid.len() == 8
        &&& forall|x: int| 0 <= x < 8 ==> (#[trigger] self.grid[x]).len() == 8
        &&& match self.en_passant {
            Some(t) => t.0 < 8 && t.1 < 8,
            None => true,
        }
    }

    /// The move counters can be incremented once without overflow.
    pub open spec fn move_room(self) -> bool {
        self.halfmove < usize::MAX && self.fullmove < usize::MAX
    }

    /// The move counters can be incremented twice without overflow:
    /// needed where a position reached by one move is examined further.
    pub open spec fn san_room(self) -> bool {
        self.halfmove + 1 < usize::MAX && self.fullmove + 1 < usize::MAX
    }

    /// A position fit for every operation of the engine.
    pub open spec fn wf(self) -> bool {
        self.grid_wf() && self.san_room()
    }
}

/// The sign of a coordinate difference.
pub open spec fn sgn(d: int) -> int {
    if d > 0 {
        1
    } else if d < 0 {
        -1
    } else {
        0
    }
}

/// The magnitude of a coordinate difference.
pub open spec fn abs_val(d: int) -> int {
    if d >= 0 {
        d
    } else {
        -d
    }
}

/// `base` advanced `k` squares in direction `s` (`s` is -1, 0 or 1).
pub open spec fn off(base: int, s: int, k: int) -> int {
    if s == 1 {
        base + k
    } else if s == -1 {
        base - k
    } else {
        base
    }
}

/// Every square strictly between the origin and a destination `dist`
/// squares away in direction `(sx, sy)` is empty.
pub open spec fn path_clear(v: BoardView, fx: int, fy: int, sx: int, sy: int, dist: int) -> bool {
    forall|k: int| 1 <= k < dist ==> v.at(#[trigger] off(fx, sx, k), off(fy, sy, k)) is None
}

/// The pseudo-legal movement test: obeys the piece's movement shape and
/// blocking rules, ignoring whose turn it is, castling, and whether the
/// mover's king is left in check. A destination held by a friendly
/// piece always fails.
pub open spec fn can_move_pre_spec(v: BoardView, s: Step) -> bool {
    let fx = s.from.0 as int;
    let fy = s.from.1 as int;
    let tx = s.to.0 as int;
    let ty = s.to.1 as int;
    let dx = tx - fx;
    let dy = ty - fy;
    match v.at(fx, fy) {
        None => false,
        Some(piece) => {
            if v.at(tx, ty) matches Some(tp) && tp.piece_color == piece.piece_color {
                false
            } else {
                match piece.piece_role {
                    PieceRole::Bishop => abs_val(dx) == abs_val(dy) && path_clear(
                        v,
                        fx,
                        fy,
                        sgn(dx),
                        sgn(dy),
                        abs_val(dx),
                    ),
                    PieceRole::Rook => (dx == 0 || dy == 0) && path_clear(
                        v,
                        fx,
                        fy,
                        sgn(dx),
                        sgn(dy),
                        abs_val(dx) + abs_val(dy),
                    ),
                    PieceRole::Queen => (abs_val(dx) == abs_val(dy) || dx == 0 || dy == 0)
                        && path_clear(
                        v,
                        fx,
                        fy,
                        sgn(dx),
                        sgn(dy),
                        if abs_val(dx) >= abs_val(dy) {
                            abs_val(dx)
                        } else {
                            abs_val(dy)
                        },
                    ),
                    PieceRole::Knight => 0 < abs_val(dx) < 3 && abs_val(dx) + abs_val(dy) == 3,
                    PieceRole::King => abs_val(dx) <= 1 && abs_val(dy) <= 1,
                    PieceRole::Pawn => pawn_can_pre(v, s, piece.piece_color),
                }
            }
        },
    }
}

/// The pawn movement rule: a one-square push onto an empty square, a
/// two-square push from the starting rank over empty squares, or a
/// one-square diagonal step onto an occupied square or the en-passant
/// target.
pub open spec fn pawn_can_pre(v: BoardView, s: Step, c: PieceColor) -> bool {
    let fx = s.from.0 as int;
    let fy = s.from.1 as int;
    let tx = s.to.0 as int;
    let ty = s.to.1 as int;
    let dx = tx - fx;
    let dy = ty - fy;
    let fwd: int = if c == PieceColor::White {
        1
    } else {
        -1
    };
    let start_row: int = if c == PieceColor::White {
        1
    } else {
        6
    };
    if dx == 0 {
        (dy == fwd && v.at(tx, ty) is None) || (fy == start_row && dy == fwd + fwd && v.at(
            tx,
            fy + fwd,
        ) is None && v.at(tx, ty) is None)
    } else {
        dy == fwd && abs_val(dx) == 1 && (v.at(tx, ty) is Some || v.en_passant == Some(s.to))
    }
}

/// The piece at `(i, j)` can pseudo-legally move onto `(x, y)`.
pub open spec fn attacks(v: BoardView, i: int, j: int, x: int, y: int) -> bool {
    can_move_pre_spec(
        v,
        Step { from: (i as usize, j as usize), to: (x as usize, y as usize) },
    )
}

/// No piece of either side can pseudo-legally move onto `(x, y)`.
pub open spec fn square_safe(v: BoardView, x: int, y: int) -> bool {
    forall|i: int, j: int| 0 <= i < 8 && 0 <= j < 8 ==> !#[trigger] attacks(v, i, j, x, y)
}

/// The square holds a king of color `c`.
pub open spec fn king_at(v: BoardView, c: PieceColor, x: int, y: int) -> bool {
    v.at(x, y) matches Some(p) && p.piece_role == PieceRole::King && p.piece_color == c
}

/// The first square, scanning files outward and ranks inward, at or
/// after `(x, y)` that holds a king of color `c`.
pub open spec fn king_pos_from(v: BoardView, c: PieceColor, x: int, y: int) -> Option<
    (usize, usize),
>
    decreases 8 - x, 8 - y,
{
    if x < 0 || y < 0 || x >= 8 {
        None
    } else if y >= 8 {
        king_pos_from(v, c, x + 1, 0)
    } else if king_at(v, c, x, y) {
        Some((x as usize, y as usize))
    } else {
        king_pos_from(v, c, x, y + 1)
    }
}

/// The first king of color `c` in scan order, if any.
pub open spec fn king_square(v: BoardView, c: PieceColor) -> Option<(usize, usize)> {
    king_pos_from(v, c, 0, 0)
}

/// A color's king is safe: there is no king, or its square is safe.
pub open spec fn king_safe_spec(v: BoardView, c: PieceColor) -> bool {
    match king_square(v, c) {
        None => true,
        Some(kp) => square_safe(v, kp.0 as int, kp.1 as int),
    }
}

/// The result of moving the piece on `from` to `to` and doing the
/// shared bookkeeping: flip the side to move, count the move, and clear
/// the en-passant target. Castling rights are untouched here.
pub open spec fn act_move_spec(v: BoardView, s: Step) -> BoardView {
    let fx = s.from.0 as int;
    let fy = s.from.1 as int;
    let tx = s.to.0 as int;
    let ty = s.to.1 as int;
    BoardView {
        grid: grid_set(grid_set(v.grid, fx, fy, None), tx, ty, v.grid[fx][fy]),
        active: v.active.flip_spec(),
        castling: v.castling,
        en_passant: None,
        halfmove: (v.halfmove + 1) as usize,
        fullmove: if v.active.flip_spec() == PieceColor::White {
            (v.fullmove + 1) as usize
        } else {
            v.fullmove
        },
    }
}

/// The castling rights `c` with the flag belonging to rook home square
/// `sq` cleared: h1 for white king-side, a1 for white queen-side, h8
/// for black king-side, a8 for black queen-side.
pub open spec fn clear_rook_home(c: (bool, bool, bool, bool), sq: (usize, usize)) -> (
    bool,
    bool,
    bool,
    bool,
) {
    if sq.0 == 7 && sq.1 == 0 {
        (false, c.1, c.2, c.3)
    } else if sq.0 == 0 && sq.1 == 0 {
        (c.0, false, c.2, c.3)
    } else if sq.0 == 7 && sq.1 == 7 {
        (c.0, c.1, false, c.3)
    } else if sq.0 == 0 && sq.1 == 7 {
        (c.0, c.1, c.2, false)
    } else {
        c
    }
}

/// The castling rights `c` with both flags of the mover `mover`
/// cleared.
pub open spec fn clear_side_rights(c: (bool, bool, bool, bool), mover: PieceColor) -> (
    bool,
    bool,
    bool,
    bool,
) {
    match mover {
        PieceColor::White => (false, false, c.2, c.3),
        PieceColor::Black => (c.0, c.1, false, false),
    }
}

/// The pawn-specific effects of an applied move: removing the pawn
/// bypassed by an en-passant capture, recording a fresh en-passant
/// target after a double push, and promoting (always to a queen) on the
/// last rank.
pub open spec fn pawn_effects_spec(v: BoardView, s: Step, b: BoardView) -> BoardView {
    let fy = s.from.1 as int;
    let tx = s.to.0 as int;
    let ty = s.to.1 as int;
    let b_ep = if v.en_passant == Some(s.to) {
        match v.active {
            PieceColor::White => BoardView { grid: grid_set(b.grid, tx, ty - 1, None), ..b },
            PieceColor::Black => BoardView { grid: grid_set(b.grid, tx, ty + 1, None), ..b },
        }
    } else {
        b
    };
    let b_dp = if ty == fy + 2 {
        BoardView { en_passant: Some((s.to.0, (fy + 1) as usize)), ..b_ep }
    } else if fy == ty + 2 {
        BoardView { en_passant: Some((s.to.0, (ty + 1) as usize)), ..b_ep }
    } else {
        b_ep
    };
    if ty == 0 || ty == 7 {
        match b_dp.grid[tx][ty] {
            Some(p) => BoardView {
                grid: grid_set(
                    b_dp.grid,
                    tx,
                    ty,
                    Some(Piece { piece_role: PieceRole::Queen, piece_color: p.piece_color }),
                ),
                ..b_dp
            },
            None => b_dp,
        }
    } else {
        b_dp
    }
}

/// The full effect of applying a pseudo-legal (non-castling) move by
/// `piece`: the shared bookkeeping, the pawn effects, and the
/// castling-rights bookkeeping for king moves, rook moves leaving a
/// rook home square, and captures landing on one.
pub open spec fn apply_normal_spec(v: BoardView, s: Step, piece: Piece) -> BoardView {
    let b1 = act_move_spec(v, s);
    let b2 = if piece.piece_role == PieceRole::Pawn {
        pawn_effects_spec(v, s, b1)
    } else {
        b1
    };
    let c1 = if piece.piece_role == PieceRole::King {
        clear_side_rights(b2.castling, v.active)
    } else {
        b2.castling
    };
    let c2 = if piece.piece_role == PieceRole::Rook {
        clear_rook_home(c1, s.from)
    } else {
        c1
    };
    let c3 = clear_rook_home(c2, s.to);
    BoardView { castling: c3, ..b2 }
}

/// The position with the king hypothetically moved from `from` onto
/// `to`, and that destination square safe.
pub open spec fn king_transit_safe(v: BoardView, from: (usize, usize), to: (usize, usize)) -> bool {
    let fx = from.0 as int;
    let fy = from.1 as int;
    let bp = BoardView {
        grid: grid_set(grid_set(v.grid, fx, fy, None), to.0 as int, to.1 as int, v.grid[fx][fy]),
        ..v
    };
    square_safe(bp, to.0 as int, to.1 as int)
}

/// One castling pattern: refused if the king's square is attacked, a
/// square between king and rook is occupied, or a square the king
/// transits (destination included) is attacked. On success the king and
/// rook are relocated and the mover's two rights are cleared.
pub open spec fn castle_single_spec(
    v: BoardView,
    s: Step,
    passby: Seq<(usize, usize)>,
    king_passby: Seq<(usize, usize)>,
    rook_step: Step,
) -> Option<BoardView> {
    if !square_safe(v, s.from.0 as int, s.from.1 as int) {
        None
    } else if exists|k: int|
        0 <= k < passby.len() && v.at(
            (#[trigger] passby[k]).0 as int,
            passby[k].1 as int,
        ) is Some {
        None
    } else if exists|k: int|
        0 <= k < king_passby.len() && !king_transit_safe(v, s.from, #[trigger] king_passby[k]) {
        None
    } else {
        let b = act_move_spec(v, s);
        let rfx = rook_step.from.0 as int;
        let rfy = rook_step.from.1 as int;
        let b2 = BoardView {
            grid: grid_set(
                grid_set(b.grid, rfx, rfy, None),
                rook_step.to.0 as int,
                rook_step.to.1 as int,
                b.grid[rfx][rfy],
            ),
            ..b
        };
        Some(BoardView { castling: clear_side_rights(v.castling, v.active), ..b2 })
    }
}

/// The four fixed castling patterns, each gated on its availability
/// flag; any other step is no castling attempt.
pub open spec fn try_castle_spec(v: BoardView, s: Step) -> Option<BoardView> {
    if s.from.0 == 4 && s.to.0 == 6 && s.from.1 == 0 && s.to.1 == 0 && v.castling.0 {
        castle_single_spec(
            v,
            s,
            seq![(5usize, 0usize), (6usize, 0usize)],
            seq![(5usize, 0usize), (6usize, 0usize)],
            Step { from: (7, 0), to: (5, 0) },
        )
    } else if s.from.0 == 4 && s.to.0 == 2 && s.from.1 == 0 && s.to.1 == 0 && v.castling.1 {
        castle_single_spec(
            v,
            s,
            seq![(3usize, 0usize), (2usize, 0usize), (1usize, 0usize)],
            seq![(3usize, 0usize), (2usize, 0usize)],
            Step { from: (0, 0), to: (3, 0) },
        )
    } else if s.from.0 == 4 && s.to.0 == 6 && s.from.1 == 7 && s.to.1 == 7 && v.castling.2 {
        castle_single_spec(
            v,
            s,
            seq![(5usize, 7usize), (6usize, 7usize)],
            seq![(5usize, 7usize), (6usize, 7usize)],
            Step { from: (7, 7), to: (5, 7) },
        )
    } else if s.from.0 == 4 && s.to.0 == 2 && s.from.1 == 7 && s.to.1 == 7 && v.castling.3 {
        castle_single_spec(
            v,
            s,
            seq![(3usize, 7usize), (2usize, 7usize), (1usize, 7usize)],
            seq![(3usize, 7usize), (2usize, 7usize)],
            Step { from: (0, 7), to: (3, 7) },
        )
    } else {
        None
    }
}

/// Full move application. Rejects when the origin is empty, the piece
/// is not the mover's, or the destination holds a friendly piece; then
/// tries pseudo-legal movement, else castling; and finally rejects any
/// result that leaves the mover's own king missing or attacked.
pub open spec fn try_move_spec(v: BoardView, s: Step) -> Option<BoardView> {
    let fx = s.from.0 as int;
    let fy = s.from.1 as int;
    let tx = s.to.0 as int;
    let ty = s.to.1 as int;
    match v.at(fx, fy) {
        None => None,
        Some(piece) => {
            if piece.piece_color != v.active {
                None
            } else if v.at(tx, ty) matches Some(tp) && tp.piece_color == piece.piece_color {
                None
            } else {
                let cand = if can_move_pre_spec(v, s) {
                    Some(apply_normal_spec(v, s, piece))
                } else {
                    try_castle_spec(v, s)
                };
                match cand {
                    None => None,
                    Some(b) => match king_square(b, b.active.flip_spec()) {
                        Some(kp) => if square_safe(b, kp.0 as int, kp.1 as int) {
                            Some(b)
                        } else {
                            None
                        },
                        None => None,
                    },
                }
            }
        },
    }
}

/// A step is legal exactly when move application succeeds on it.
pub open spec fn step_legal(v: BoardView, s: Step) -> bool {
    try_move_spec(v, s) is Some
}

/// Walks the squares strictly between the origin and the destination
/// and reports whether all of them are empty.
#[verifier::loop_isolation(false)]
fn path_clear_exec(board: &Board, fx: usize, fy: usize, sx: isize, sy: isize, dist: usize) -> (r:
    bool)
    requires
        board@.grid_wf(),
        fx < 8,
        fy < 8,
        -1 <= sx <= 1,
        -1 <= sy <= 1,
        sq_in_range(off(fx as int, sx as int, dist as int), off(fy as int, sy as int, dist as int)),
    ensures
        r == path_clear(board@, fx as int, fy as int, sx as int, sy as int, dist as int),
{
    let mut k: usize = 1;
    while k < dist
        invariant
            1 <= k,
            k <= dist || dist == 0,
            forall|m: int|
                1 <= m < k ==> board@.at(
                    #[trigger] off(fx as int, sx as int, m),
                    off(fy as int, sy as int, m),
                ) is None,
        decreases dist - k,
    {
        let x: usize = if sx == 1 {
            fx + k
        } else if sx == -1 {
            fx - k
        } else {
            fx
        };
        let y: usize = if sy == 1 {
            fy + k
        } else if sy == -1 {
            fy - k
        } else {
            fy
        };
        if board.pieces.at(x, y).is_some() {
            proof {
                assert(board@.at(
                    off(fx as int, sx as int, k as int),
                    off(fy as int, sy as int, k as int),
                ) is Some);
            }
            return false;
        }
        k = k + 1;
    }
    true
}

/// The pseudo-legal movement test, per role. Ignores whose turn it is,
/// castling, and self-check; see `can_move_pre_spec`.
pub fn can_move_pre(board: &Board, step: Step) -> (r: bool)
    requires
        board@.grid_wf(),
        step_in_range(step),
    ensures
        r == can_move_pre_spec(board@, step),
{
    let (from_x, from_y) = step.from;
    let (to_x, to_y) = step.to;
    let piece = match board.pieces.at(from_x, from_y) {
        Some(p) => p,
        None => {
            return false;
        },
    };
    if let Some(to_piece) = board.pieces.at(to_x, to_y) {
        if to_piece.piece_color == piece.piece_color {
            return false;
        }
    }
    let dx: isize = to_x as isize - from_x as isize;
    let dy: isize = to_y as isize - from_y as isize;
    let dx_val: usize = if dx >= 0 {
        dx as usize
    } else {
        (-dx) as usize
    };
    let dy_val: usize = if dy >= 0 {
        dy as usize
    } else {
        (-dy) as usize
    };
    let dx_sig: isize = if dx > 0 {
        1
    } else if dx < 0 {
        -1
    } else {
        0
    };
    let dy_sig: isize = if dy > 0 {
        1
    } else if dy < 0 {
        -1
    } else {
        0
    };
    match piece.piece_role {
        PieceRole::Bishop => {
            if dx_val == dy_val {
                path_clear_exec(board, from_x, from_y, dx_sig, dy_sig, dx_val)
            } else {
                false
            }
        },
        PieceRole::Rook => {
            if dx_val == 0 || dy_val == 0 {
                path_clear_exec(board, from_x, from_y, dx_sig, dy_sig, dx_val + dy_val)
            } else {
                false
            }
        },
        PieceRole::Queen => {
            if dx_val == dy_val || dx_val == 0 || dy_val == 0 {
                let dist: usize = if dx_val >= dy_val {
                    dx_val
                } else {
                    dy_val
                };
                path_clear_exec(board, from_x, from_y, dx_sig, dy_sig, dist)
            } else {
                false
            }
        },
        PieceRole::Knight => dx_val > 0 && dx_val < 3 && dx_val + dy_val == 3,
        PieceRole::King => dx_val <= 1 && dy_val <= 1,
        PieceRole::Pawn => {
            let forward: isize = match piece.piece_color {
                PieceColor::White => 1,
                PieceColor::Black => -1,
            };
            if dx == 0 {
                if dy == forward && board.pieces.at(to_x, to_y).is_none() {
                    return true;
                }
                let start_row: usize = match piece.piece_color {
                    PieceColor::White => 1,
                    PieceColor::Black => 6,
                };
                if from_y == start_row && dy == 2 * forward {
                    let intermediate_y: usize = if forward == 1 {
                        from_y + 1
                    } else {
                        from_y - 1
                    };
                    if board.pieces.at(to_x, intermediate_y).is_none() && board.pieces.at(
                        to_x,
                        to_y,
                    ).is_none() {
                        return true;
                    }
                }
                false
            } else if dy == forward && dx_val == 1 {
                let ep_hit = match board.en_passant_target {
                    Some(t) => t.0 == to_x && t.1 == to_y,
                    None => false,
                };
                board.pieces.at(to_x, to_y).is_some() || ep_hit
            } else {
                false
            }
        },
    }
}

/// Scans all 64 origin squares and reports whether the square `sq` is
/// safe: no piece of either side can pseudo-legally move onto it.
#[verifier::loop_isolation(false)]
fn piece_safe(board: &Board, sq: (usize, usize)) -> (r: bool)
    requires
        board@.grid_wf(),
        sq.0 < 8,
        sq.1 < 8,
    ensures
        r == square_safe(board@, sq.0 as int, sq.1 as int),
{
    let (x, y) = sq;
    let mut i: usize = 0;
    while i < BOARD_SIZE_I
        invariant
            i <= 8,
            forall|a: int, b: int|
                0 <= a < i && 0 <= b < 8 ==> !#[trigger] attacks(board@, a, b, x as int, y as int),
        decreases 8 - i,
    {
        let mut j: usize = 0;
        while j < BOARD_SIZE_J
            invariant
                i < 8,
                j <= 8,
                forall|a: int, b: int|
                    0 <= a < i && 0 <= b < 8 ==> !#[trigger] attacks(
                        board@,
                        a,
                        b,
                        x as int,
                        y as int,
                    ),
                forall|b: int|
                    0 <= b < j ==> !#[trigger] attacks(board@, i as int, b, x as int, y as int),
            decreases 8 - j,
        {
            if can_move_pre(board, Step { from: (i, j), to: (x, y) }) {
                proof {
                    assert(attacks(board@, i as int, j as int, x as int, y as int));
                }
                return false;
            }
            j = j + 1;
        }
        i = i + 1;
    }
    true
}

/// Scans the board for a king of color `c`; returns the first found in
/// scan order, or nothing if that color has no king.
#[verifier::loop_isolation(false)]
fn king_pos(board: &Board, c: PieceColor) -> (r: Option<(usize, usize)>)
    requires
        board@.grid_wf(),
    ensures
        r == king_square(board@, c),
        r matches Some(kp) ==> kp.0 < 8 && kp.1 < 8,
{
    let mut i: usize = 0;
    while i < BOARD_SIZE_I
        invariant
            i <= 8,
            king_square(board@, c) == king_pos_from(board@, c, i as int, 0),
        decreases 8 - i,
    {
        let mut j: usize = 0;
        while j < BOARD_SIZE_J
            invariant
                i < 8,
                j <= 8,
                king_square(board@, c) == king_pos_from(board@, c, i as int, j as int),
            decreases 8 - j,
        {
            if let Some(piece) = board.pieces.at(i, j) {
                if piece.piece_role == PieceRole::King && piece.piece_color == c {
                    return Some((i, j));
                }
            }
            j = j + 1;
        }
        i = i + 1;
    }
    None
}

/// Whether the king of color `c` is safe: vacuously true when that
/// color has no king, else true when the king's square is unattacked.
pub fn king_safe(board: &Board, c: PieceColor) -> (r: bool)
    requires
        board@.grid_wf(),
    ensures
        r == king_safe_spec(board@, c),
{
    let kp = match king_pos(board, c) {
        Some(kp) => kp,
        None => {
            return true;
        },
    };
    piece_safe(board, kp)
}

/// A position is acceptable only when the side that just moved did not
/// leave its own king capturable.
fn board_valid(board: &Board) -> (r: bool)
    requires
        board@.grid_wf(),
    ensures
        r == king_safe_spec(board@, board@.active.flip_spec()),
{
    king_safe(board, board.active_color.flip())
}

/// Performs the shared part of every move: relocates the piece, flips
/// the side to move, counts the move, clears the en-passant target.
fn act_move_pre(board: &Board, step: Step) -> (r: Board)
    requires
        board@.grid_wf(),
        step_in_range(step),
        board@.move_room(),
    ensures
        r@ == act_move_spec(board@, step),
        r@.grid_wf(),
{
    let mut b = board.clone();
    let moving = b.pieces.at(step.from.0, step.from.1);
    b.pieces.set_at(step.from.0, step.from.1, None);
    b.pieces.set_at(step.to.0, step.to.1, moving);
    b.active_color = b.active_color.flip();
    b.halfmove = b.halfmove + 1;
    if b.active_color == PieceColor::White {
        b.fullmove = b.fullmove + 1;
    }
    b.en_passant_target = None;
    proof {
        assert(b@ =~= act_move_spec(board@, step));
    }
    b
}

/// Tries one castling pattern: the king's step, the squares that must
/// be empty, the squares the king transits (which must be safe), and
/// the rook's relocation.
#[verifier::loop_isolation(false)]
fn try_castle_single(
    board: &Board,
    step: Step,
    passby: Vec<(usize, usize)>,
    king_passby: Vec<(usize, usize)>,
    rook_step: Step,
) -> (r: Option<Board>)
    requires
        board@.grid_wf(),
        board@.move_room(),
        step_in_range(step),
        step_in_range(rook_step),
        forall|k: int| 0 <= k < passby@.len() ==> (#[trigger] passby@[k]).0 < 8 && passby@[k].1 < 8,
        forall|k: int|
            0 <= k < king_passby@.len() ==> (#[trigger] king_passby@[k]).0 < 8
                && king_passby@[k].1 < 8,
    ensures
        match r {
            Some(b) => castle_single_spec(board@, step, passby@, king_passby@, rook_step) == Some(
                b@,
            ) && b@.grid_wf() && b@.halfmove == board@.halfmove + 1 && b@.fullmove
                <= board@.fullmove + 1,
            None => castle_single_spec(board@, step, passby@, king_passby@, rook_step) is None,
        },
{
    if !piece_safe(board, step.from) {
        return None;
    }
    let mut k: usize = 0;
    while k < passby.len()
        invariant
            k <= passby@.len(),
            forall|m: int|
                0 <= m < k ==> board@.at((#[trigger] passby@[m]).0 as int, passby@[m].1 as int)
                    is None,
        decreases passby@.len() - k,
    {
        let (i, j) = passby[k];
        if board.pieces.at(i, j).is_some() {
            proof {
                assert(board@.at((passby@[k as int]).0 as int, passby@[k as int].1 as int)
                    is Some);
            }
            return None;
        }
        k = k + 1;
    }
    let mut k: usize = 0;
    while k < king_passby.len()
        invariant
            k <= king_passby@.len(),
            forall|m: int|
                0 <= m < k ==> king_transit_safe(board@, step.from, #[trigger] king_passby@[m]),
        decreases king_passby@.len() - k,
    {
        let (i, j) = king_passby[k];
        let mut bp = board.clone();
        let king = bp.pieces.at(step.from.0, step.from.1);
        bp.pieces.set_at(step.from.0, step.from.1, None);
        bp.pieces.set_at(i, j, king);
        if !piece_safe(&bp, (i, j)) {
            proof {
                assert(!king_transit_safe(board@, step.from, king_passby@[k as int]));
            }
            return None;
        }
        proof {
            assert(king_transit_safe(board@, step.from, king_passby@[k as int]));
        }
        k = k + 1;
    }
    let mut b = act_move_pre(board, step);
    let rook = b.pieces.at(rook_step.from.0, rook_step.from.1);
    b.pieces.set_at(rook_step.from.0, rook_step.from.1, None);
    b.pieces.set_at(rook_step.to.0, rook_step.to.1, rook);
    b.castling_availability = match board.active_color {
        PieceColor::White => (false, false, b.castling_availability.2, b.castling_availability.3),
        PieceColor::Black => (b.castling_availability.0, b.castling_availability.1, false, false),
    };
    proof {
        assert(castle_single_spec(board@, step, passby@, king_passby@, rook_step) matches Some(sb)
            && sb =~= b@);
    }
    Some(b)
}

/// Attempts castling: recognizes the four fixed king steps, checks the
/// corresponding availability flag, and delegates to the pattern test.
pub fn try_castle(board: &Board, step: Step) -> (r: Option<Board>)
    requires
        board@.grid_wf(),
        board@.move_room(),
        step_in_range(step),
    ensures
        match r {
            Some(b) => try_castle_spec(board@, step) == Some(b@) && b@.grid_wf() && b@.halfmove
                == board@.halfmove + 1 && b@.fullmove <= board@.fullmove + 1,
            None => try_castle_spec(board@, step) is None,
        },
{
    let (from_x, from_y) = step.from;
    let (to_x, to_y) = step.to;
    let (wk, wq, bk, bq) = board.castling_availability;
    if from_x == 4 && to_x == 6 && from_y == 0 && to_y == 0 && wk {
        try_castle_single(
            board,
            step,
            vec![(5, 0), (6, 0)],
            vec![(5, 0), (6, 0)],
            Step { from: (7, 0), to: (5, 0) },
        )
    } else if from_x == 4 && to_x == 2 && from_y == 0 && to_y == 0 && wq {
        try_castle_single(
            board,
            step,
            vec![(3, 0), (2, 0), (1, 0)],
            vec![(3, 0), (2, 0)],
            Step { from: (0, 0), to: (3, 0) },
        )
    } else if from_x == 4 && to_x == 6 && from_y == 7 && to_y == 7 && bk {
        try_castle_single(
            board,
            step,
            vec![(5, 7), (6, 7)],
            vec![(5, 7), (6, 7)],
            Step { from: (7, 7), to: (5, 7) },
        )
    } else if from_x == 4 && to_x == 2 && from_y == 7 && to_y == 7 && bq {
        try_castle_single(
            board,
            step,
            vec![(3, 7), (2, 7), (1, 7)],
            vec![(3, 7), (2, 7)],
            Step { from: (0, 7), to: (3, 7) },
        )
    } else {
        None
    }
}

/// Attempts a move: pseudo-legal movement or castling, with all
/// special effects (en passant, promotion to queen, castling-rights
/// bookkeeping), refused if it would leave the mover in check.
pub fn try_move(board: &Board, step: Step) -> (r: Option<Board>)
    requires
        board@.grid_wf(),
        board@.move_room(),
        step_in_range(step),
    ensures
        match r {
            Some(b) => try_move_spec(board@, step) == Some(b@) && b@.grid_wf() && b@.halfmove
                == board@.halfmove + 1 && b@.fullmove <= board@.fullmove + 1,
            None => try_move_spec(board@, step) is None,
        },
{
    let (from_x, from_y) = step.from;
    let (to_x, to_y) = step.to;
    let piece = match board.pieces.at(from_x, from_y) {
        Some(p) => p,
        None => {
            return None;
        },
    };
    if piece.piece_color != board.active_color {
        return None;
    }
    if let Some(to_piece) = board.pieces.at(to_x, to_y) {
        if to_piece.piece_color == piece.piece_color {
            return None;
        }
    }
    let cand: Option<Board> = if can_move_pre(board, step) {
        let mut b = act_move_pre(board, step);
        let role = piece.piece_role;
        if role == PieceRole::Pawn {
            let ep_hit = match board.en_passant_target {
                Some(t) => t.0 == to_x && t.1 == to_y,
                None => false,
            };
            if ep_hit {
                proof {
                    assert(pawn_can_pre(board@, step, piece.piece_color));
                }
                match board.active_color {
                    PieceColor::White => b.pieces.set_at(to_x, to_y - 1, None),
                    PieceColor::Black => b.pieces.set_at(to_x, to_y + 1, None),
                }
            }
            if to_y == from_y + 2 {
                b.en_passant_target = Some((to_x, from_y + 1));
            } else if from_y == to_y + 2 {
                b.en_passant_target = Some((to_x, to_y + 1));
            }
            if to_y == 0 || to_y == 7 {
                if let Some(p) = b.pieces.at(to_x, to_y) {
                    b.pieces.set_at(
                        to_x,
                        to_y,
                        Some(Piece { piece_role: PieceRole::Queen, piece_color: p.piece_color }),
                    );
                }
            }
            proof {
                assert(b@ =~= pawn_effects_spec(board@, step, act_move_spec(board@, step)));
            }
        }
        if role == PieceRole::King {
            b.castling_availability = match board.active_color {
                PieceColor::White => (
                    false,
                    false,
                    b.castling_availability.2,
                    b.castling_availability.3,
                ),
                PieceColor::Black => (
                    b.castling_availability.0,
                    b.castling_availability.1,
                    false,
                    false,
                ),
            };
        }
        if role == PieceRole::Rook {
            b.castling_availability = clear_rook_home_exec(b.castling_availability, step.from);
        }
        b.castling_availability = clear_rook_home_exec(b.castling_availability, step.to);
        proof {
            assert(b@ =~= apply_normal_spec(board@, step, piece));
        }
        Some(b)
    } else {
        try_castle(board, step)
    };
    match cand {
        None => None,
        Some(b) => {
            let kp = match king_pos(&b, b.active_color.flip()) {
                Some(kp) => kp,
                None => {
                    return None;
                },
            };
            if piece_safe(&b, kp) {
                Some(b)
            } else {
                None
            }
        },
    }
}

/// The legal destinations from `from`, scanning squares at or after
/// `(tx, ty)` in file-major order.
pub open spec fn targets_from(v: BoardView, from: (usize, usize), tx: int, ty: int) -> Seq<
    (usize, usize),
>
    decreases 8 - tx, 8 - ty,
{
    if tx < 0 || ty < 0 || tx >= 8 {
        Seq::empty()
    } else if ty >= 8 {
        targets_from(v, from, tx + 1, 0)
    } else {
        (if step_legal(v, Step { from, to: (tx as usize, ty as usize) }) {
            seq![(tx as usize, ty as usize)]
        } else {
            Seq::empty()
        }) + targets_from(v, from, tx, ty + 1)
    }
}

/// All legal destinations from `from`, in file-major scan order.
pub open spec fn all_targets_spec(v: BoardView, from: (usize, usize)) -> Seq<(usize, usize)> {
    targets_from(v, from, 0, 0)
}

/// All legal moves whose origin is at or after `(fx, fy)` in file-major
/// order.
pub open spec fn moves_from(v: BoardView, fx: int, fy: int) -> Seq<Step>
    decreases 8 - fx, 8 - fy,
{
    if fx < 0 || fy < 0 || fx >= 8 {
        Seq::empty()
    } else if fy >= 8 {
        moves_from(v, fx + 1, 0)
    } else {
        (if v.at(fx, fy) matches Some(p) && p.piece_color == v.active {
            all_targets_spec(v, (fx as usize, fy as usize)).map_values(
                |t: (usize, usize)| Step { from: (fx as usize, fy as usize), to: t },
            )
        } else {
            Seq::empty()
        }) + moves_from(v, fx, fy + 1)
    }
}

/// Every legal move of the side to move, in file-major scan order of
/// origins and destinations.
pub open spec fn all_move_spec(v: BoardView) -> Seq<Step> {
    moves_from(v, 0, 0)
}

/// The end-of-game rule: with no legal move left, the opponent wins if
/// the mover's king is attacked, else the game is drawn (stalemate, or
/// no king at all).
pub open spec fn end_game_spec(v: BoardView) -> Option<BoardResult> {
    if all_move_spec(v).len() == 0 {
        match king_square(v, v.active) {
            Some(kp) => if square_safe(v, kp.0 as int, kp.1 as int) {
                Some(BoardResult::Draw)
            } else {
                Some(BoardResult::Winner(v.active.flip_spec()))
            },
            None => Some(BoardResult::Draw),
        }
    } else {
        None
    }
}

/// Every destination square a move from `from` can legally reach, found
/// by trying all 64 squares.
#[verifier::loop_isolation(false)]
pub fn all_targets(board: &Board, from: (usize, usize)) -> (r: Vec<(usize, usize)>)
    requires
        board@.grid_wf(),
        board@.move_room(),
        from.0 < 8,
        from.1 < 8,
    ensures
        r@ == all_targets_spec(board@, from),
{
    let mut res: Vec<(usize, usize)> = Vec::new();
    let mut i: usize = 0;
    while i < BOARD_SIZE_I
        invariant
            i <= 8,
            res@ + targets_from(board@, from, i as int, 0) == all_targets_spec(board@, from),
        decreases 8 - i,
    {
        let mut j: usize = 0;
        while j < BOARD_SIZE_J
            invariant
                i < 8,
                j <= 8,
                res@ + targets_from(board@, from, i as int, j as int) == all_targets_spec(
                    board@,
                    from,
                ),
            decreases 8 - j,
        {
            if try_move(board, Step { from, to: (i, j) }).is_some() {
                res.push((i, j));
                proof {
                    assert(res@ + targets_from(board@, from, i as int, j + 1) =~= all_targets_spec(
                        board@,
                        from,
                    ));
                }
            } else {
                proof {
                    assert(res@ + targets_from(board@, from, i as int, j + 1) =~= all_targets_spec(
                        board@,
                        from,
                    ));
                }
            }
            j = j + 1;
        }
        i = i + 1;
    }
    proof {
        assert(res@ =~= all_targets_spec(board@, from));
    }
    res
}

/// Every legal move of the side to move, found by trying every origin
/// square holding one of the mover's pieces.
#[verifier::loop_isolation(false)]
pub fn all_move(board: &Board) -> (r: Vec<Step>)
    requires
        board@.grid_wf(),
        board@.move_room(),
    ensures
        r@ == all_move_spec(board@),
{
    let mut res: Vec<Step> = Vec::new();
    let mut i: usize = 0;
    while i < BOARD_SIZE_I
        invariant
            i <= 8,
            res@ + moves_from(board@, i as int, 0) == all_move_spec(board@),
        decreases 8 - i,
    {
        let mut j: usize = 0;
        while j < BOARD_SIZE_J
            invariant
                i < 8,
                j <= 8,
                res@ + moves_from(board@, i as int, j as int) == all_move_spec(board@),
            decreases 8 - j,
        {
            let from = (i, j);
            let mover = match board.pieces.at(i, j) {
                Some(p) => p.piece_color == board.active_color,
                None => false,
            };
            if mover {
                let ghost f = |t: (usize, usize)| Step { from: (i as usize, j as usize), to: t };
                let targets = all_targets(board, from);
                let mut k: usize = 0;
                while k < targets.len()
                    invariant
                        i < 8,
                        j < 8,
                        k <= targets@.len(),
                        targets@ == all_targets_spec(board@, (i as usize, j as usize)),
                        res@ + targets@.skip(k as int).map_values(f) + moves_from(
                            board@,
                            i as int,
                            j + 1,
                        ) == all_move_spec(board@),
                    decreases targets@.len() - k,
                {
                    let t = targets[k];
                    res.push(Step { from, to: t });
                    proof {
                        assert(targets@.skip(k as int).map_values(f) =~= seq![
                            f(targets@[k as int]),
                        ] + targets@.skip(k + 1).map_values(f));
                        assert(res@ + targets@.skip(k + 1).map_values(f) + moves_from(
                            board@,
                            i as int,
                            j + 1,
                        ) =~= all_move_spec(board@));
                    }
                    k = k + 1;
                }
                proof {
                    assert(targets@.skip(targets@.len() as int).map_values(f) =~= Seq::<
                        Step,
                    >::empty());
                    assert(res@ + moves_from(board@, i as int, j + 1) =~= all_move_spec(board@));
                }
            } else {
                proof {
                    assert(res@ + moves_from(board@, i as int, j + 1) =~= all_move_spec(board@));
                }
            }
            j = j + 1;
        }
        i = i + 1;
    }
    proof {
        assert(res@ =~= all_move_spec(board@));
    }
    res
}

/// Decides whether the position is over: with no legal move, a win for
/// the opponent under check, else a draw.
pub fn end_game(board: &Board) -> (r: Option<BoardResult>)
    requires
        board@.grid_wf(),
        board@.move_room(),
    ensures
        r == end_game_spec(board@),
{
    let moves = all_move(board);
    if moves.is_empty() {
        let kp = match king_pos(board, board.active_color) {
            Some(kp) => kp,
            None => {
                return Some(BoardResult::Draw);
            },
        };
        if piece_safe(board, kp) {
            Some(BoardResult::Draw)
        } else {
            Some(BoardResult::Winner(board.active_color.flip()))
        }
    } else {
        None
    }
}

/// The displayed summary of a position: the result if the game is over,
/// else whose turn it is.
pub open spec fn game_info_spec(v: BoardView) -> Seq<char> {
    match end_game_spec(v) {
        Some(BoardResult::Winner(c)) => if c == PieceColor::White {
            "White win"@
        } else {
            "Black win"@
        },
        Some(BoardResult::Draw) => "Draw"@,
        None => if v.active == PieceColor::White {
            "White play"@
        } else {
            "Black play"@
        },
    }
}

/// Returns the position summary: the result if the game is over, else
/// whose turn it is.
pub fn game_info(board: &Board) -> (r: String)
    requires
        board@.grid_wf(),
        board@.move_room(),
    ensures
        r@ == game_info_spec(board@),
{
    match end_game(board) {
        Some(res) => match res {
            BoardResult::Winner(piece_color) => match piece_color {
                PieceColor::White => String::from_str("White win"),
                PieceColor::Black => String::from_str("Black win"),
            },
            BoardResult::Draw => String::from_str("Draw"),
        },
        None => match board.active_color {
            PieceColor::White => String::from_str("White play"),
            PieceColor::Black => String::from_str("Black play"),
        },
    }
}

/// Clears the castling flag owned by rook home square `sq`, if `sq` is
/// one of the four rook home squares.
fn clear_rook_home_exec(c: (bool, bool, bool, bool), sq: (usize, usize)) -> (r: (
    bool,
    bool,
    bool,
    bool,
))
    ensures
        r == clear_rook_home(c, sq),
{
    if sq.0 == 7 && sq.1 == 0 {
        (false, c.1, c.2, c.3)
    } else if sq.0 == 0 && sq.1 == 0 {
        (c.0, false, c.2, c.3)
    } else if sq.0 == 7 && sq.1 == 7 {
        (c.0, c.1, false, c.3)
    } else if sq.0 == 0 && sq.1 == 7 {
        (c.0, c.1, c.2, false)
    } else {
        c
    }
}

} // verus!
