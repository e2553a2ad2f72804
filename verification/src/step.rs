//! The SAN codec: serializing a legal move relative to its position
//! (with disambiguation and check/mate annotation) and parsing SAN text
//! back into a move by searching for the move the encoder would have
//! written identically.

use vstd::prelude::*;
use vstd::string::StrSliceExecFns;
use crate::board::{
    end_game_spec, king_safe_spec, step_in_range, step_legal, try_castle,
    try_castle_spec, try_move, try_move_spec, Board, BoardResult, BoardView, Step,
};
use crate::fen::{file_char, is_file_char, is_rank_char, rank_char};
use crate::piece::{Piece, PieceColor, PieceRole, BOARD_SIZE_I, BOARD_SIZE_J};
use crate::text::{push_char, str_chars};

verus! {

/// The SAN letter of a role; pawns have none.
pub open spec fn role_name(role: PieceRole) -> Seq<char> {
    match role {
        PieceRole::Pawn => Seq::<char>::empty(),
        PieceRole::Rook => seq!['R'],
        PieceRole::Knight => seq!['N'],
        PieceRole::Bishop => seq!['B'],
        PieceRole::Queen => seq!['Q'],
        PieceRole::King => seq!['K'],
    }
}

/// The origin squares at or after `(fx, fy)` in scan order, other than
/// `exclude`, holding a piece identical to `piece` that can legally
/// reach `to_sq`.
pub open spec fn ambig_from(
    v: BoardView,
    piece: Piece,
    exclude: (usize, usize),
    to_sq: (usize, usize),
    fx: int,
    fy: int,
) -> Seq<(usize, usize)>
    decreases 8 - fx, 8 - fy,
{
    if fx < 0 || fy < 0 || fx >= 8 {
        Seq::empty()
    } else if fy >= 8 {
        ambig_from(v, piece, exclude, to_sq, fx + 1, 0)
    } else {
        (if ((fx as usize, fy as usize) != exclude && v.grid[fx][fy] == Some(piece) && step_legal(
            v,
            Step { from: (fx as usize, fy as usize), to: to_sq },
        )) {
            seq![(fx as usize, fy as usize)]
        } else {
            Seq::empty()
        }) + ambig_from(v, piece, exclude, to_sq, fx, fy + 1)
    }
}

/// The mover's origin followed by every other origin of an identical
/// piece that can legally reach the same destination.
pub open spec fn ambiguous_spec(v: BoardView, piece: Piece, from: (usize, usize), to_sq: (
    usize,
    usize,
)) -> Seq<(usize, usize)> {
    seq![from] + ambig_from(v, piece, from, to_sq, 0, 0)
}

/// How many of the squares share file `x`.
pub open spec fn count_file(s: Seq<(usize, usize)>, x: usize) -> int
    decreases s.len(),
{
    if s.len() == 0 {
        0
    } else {
        count_file(s.drop_last(), x) + if s.last().0 == x {
            1int
        } else {
            0int
        }
    }
}

/// How many of the squares share rank `y`.
pub open spec fn count_rank(s: Seq<(usize, usize)>, y: usize) -> int
    decreases s.len(),
{
    if s.len() == 0 {
        0
    } else {
        count_rank(s.drop_last(), y) + if s.last().1 == y {
            1int
        } else {
            0int
        }
    }
}

/// The disambiguation token: nothing when the mover is the only
/// candidate (unless it is a capturing pawn, which names its file);
/// else the origin file if unique among the candidates, else the origin
/// rank if unique, else both.
pub open spec fn disambig_spec(v: BoardView, piece: Piece, s: Step, capture: bool) -> Seq<char> {
    let amb = ambiguous_spec(v, piece, s.from, s.to);
    if amb.len() == 1 {
        if capture && piece.piece_role == PieceRole::Pawn {
            seq![file_char(s.from.0 as int)]
        } else {
            Seq::<char>::empty()
        }
    } else if count_file(amb, s.from.0) == 1 {
        seq![file_char(s.from.0 as int)]
    } else if count_rank(amb, s.from.1) == 1 {
        seq![rank_char(s.from.1 as int)]
    } else {
        seq![file_char(s.from.0 as int), rank_char(s.from.1 as int)]
    }
}

/// The check annotation of the position after the move: `#` for
/// checkmate, `+` for check, nothing otherwise.
pub open spec fn check_suffix(nb: BoardView) -> Seq<char> {
    let check = !king_safe_spec(nb, nb.active);
    let checkmate = end_game_spec(nb) matches Some(BoardResult::Winner(_));
    if checkmate {
        seq!['#']
    } else if check {
        seq!['+']
    } else {
        Seq::<char>::empty()
    }
}

/// The SAN text of a move: nothing if the move is illegal; castling
/// texts for castling moves; else role letter, disambiguation, capture
/// marker, destination, promotion marker and check annotation.
pub open spec fn san_of(v: BoardView, s: Step) -> Option<Seq<char>> {
    match try_move_spec(v, s) {
        None => None,
        Some(nb) => match v.at(s.from.0 as int, s.from.1 as int) {
            None => None,
            Some(piece) => {
                let role = piece.piece_role;
                let suffix = check_suffix(nb);
                if role == PieceRole::King && try_castle_spec(v, s) is Some {
                    Some(
                        (if s.to.0 == 6 {
                            seq!['O', '-', 'O']
                        } else {
                            seq!['O', '-', 'O', '-', 'O']
                        }) + suffix,
                    )
                } else {
                    let capture = v.at(s.to.0 as int, s.to.1 as int) is Some || (role
                        == PieceRole::Pawn && v.en_passant == Some(s.to));
                    let promo = if role == PieceRole::Pawn && (s.to.1 == 0 || s.to.1 == 7) {
                        seq!['=', 'Q']
                    } else {
                        Seq::<char>::empty()
                    };
                    Some(
                        role_name(role) + disambig_spec(v, piece, s, capture) + (if capture {
                            seq!['x']
                        } else {
                            Seq::<char>::empty()
                        }) + seq![file_char(s.to.0 as int), rank_char(s.to.1 as int)] + promo
                            + suffix,
                    )
                }
            },
        },
    }
}

/// `p` is a prefix of `s`.
pub open spec fn starts_with(s: Seq<char>, p: Seq<char>) -> bool {
    s.len() >= p.len() && s.take(p.len() as int) == p
}

/// `c` is a SAN role letter.
pub open spec fn is_role_letter(c: char) -> bool {
    c == 'K' || c == 'Q' || c == 'R' || c == 'B' || c == 'N'
}

/// The role a SAN letter names.
pub open spec fn letter_role(c: char) -> PieceRole {
    if c == 'K' {
        PieceRole::King
    } else if c == 'Q' {
        PieceRole::Queen
    } else if c == 'R' {
        PieceRole::Rook
    } else if c == 'B' {
        PieceRole::Bishop
    } else {
        PieceRole::Knight
    }
}

/// The middle of an ordinary SAN token is an optional disambiguation
/// (file, rank, or file then rank) and an optional capture marker.
pub open spec fn mid_ok(mid: Seq<char>) -> bool {
    let m = if mid.len() > 0 && mid.last() == 'x' {
        mid.drop_last()
    } else {
        mid
    };
    ||| m.len() == 0
    ||| (m.len() == 1 && (is_file_char(m[0]) || is_rank_char(m[0])))
    ||| (m.len() == 2 && is_file_char(m[0]) && is_rank_char(m[1]))
}

/// The role and destination an ordinary SAN token names, by the fixed
/// grammar: optional role letter, optional disambiguation, optional
/// capture marker, destination square, optional promotion, optional
/// check marker.
pub open spec fn san_parse_spec(s: Seq<char>) -> Option<(PieceRole, (usize, usize))> {
    let core = if s.len() > 0 && (s.last() == '+' || s.last() == '#') {
        s.drop_last()
    } else {
        s
    };
    let core2 = if core.len() >= 2 && core[core.len() - 2] == '=' && (core.last() == 'Q'
        || core.last() == 'R' || core.last() == 'B' || core.last() == 'N') {
        core.take(core.len() - 2)
    } else {
        core
    };
    if core2.len() < 2 {
        None
    } else {
        let tf = core2[core2.len() - 2];
        let tr = core2.last();
        if !(is_file_char(tf) && is_rank_char(tr)) {
            None
        } else {
            let rest = core2.take(core2.len() - 2);
            let role = if rest.len() > 0 && is_role_letter(rest[0]) {
                letter_role(rest[0])
            } else {
                PieceRole::Pawn
            };
            let mid = if rest.len() > 0 && is_role_letter(rest[0]) {
                rest.skip(1)
            } else {
                rest
            };
            if mid_ok(mid) {
                Some((role, ((tf as int - 97) as usize, (tr as int - 49) as usize)))
            } else {
                None
            }
        }
    }
}

/// The first origin square at or after `(fx, fy)` in scan order whose
/// piece matches the parsed role and mover color and whose re-encoded
/// SAN reproduces the input exactly.
pub open spec fn decode_scan(
    v: BoardView,
    role: PieceRole,
    target: (usize, usize),
    s: Seq<char>,
    fx: int,
    fy: int,
) -> Option<Step>
    decreases 8 - fx, 8 - fy,
{
    if fx < 0 || fy < 0 || fx >= 8 {
        None
    } else if fy >= 8 {
        decode_scan(v, role, target, s, fx + 1, 0)
    } else {
        let stp = Step { from: (fx as usize, fy as usize), to: target };
        if v.grid[fx][fy] matches Some(p) && p.piece_color == v.active && p.piece_role == role
            && san_of(v, stp) == Some(s) {
            Some(stp)
        } else {
            decode_scan(v, role, target, s, fx, fy + 1)
        }
    }
}

/// The move a SAN text denotes: for castling text, the fixed king step
/// of the side to move, gated on the right and on exact re-encoding;
/// for ordinary text, the first piece of the parsed role whose
/// re-encoding reproduces the input.
pub open spec fn read_step_spec(v: BoardView, s: Seq<char>) -> Option<Step> {
    if starts_with(s, seq!['O', '-', 'O']) {
        let cand = if starts_with(s, seq!['O', '-', 'O', '-', 'O']) {
            match v.active {
                PieceColor::White => if v.castling.1 {
                    Some(Step { from: (4, 0), to: (2, 0) })
                } else {
                    None
                },
                PieceColor::Black => if v.castling.3 {
                    Some(Step { from: (4, 7), to: (2, 7) })
                } else {
                    None
                },
            }
        } else {
            match v.active {
                PieceColor::White => if v.castling.0 {
                    Some(Step { from: (4, 0), to: (6, 0) })
                } else {
                    None
                },
                PieceColor::Black => if v.castling.2 {
                    Some(Step { from: (4, 7), to: (6, 7) })
                } else {
                    None
                },
            }
        };
        match cand {
            None => None,
            Some(stp) => if san_of(v, stp) == Some(s) {
                Some(stp)
            } else {
                None
            },
        }
    } else {
        match san_parse_spec(s) {
            None => None,
            Some((role, target)) => decode_scan(v, role, target, s, 0, 0),
        }
    }
}

/// A destination parsed from SAN text lies on the board.
pub proof fn lemma_san_parse_in_range(s: Seq<char>)
    ensures
        san_parse_spec(s) matches Some(rt) ==> rt.1.0 < 8 && rt.1.1 < 8,
{
}

/// A move found by the decoder's scan lies on the board.
proof fn lemma_decode_scan_in_range(
    v: BoardView,
    role: PieceRole,
    target: (usize, usize),
    s: Seq<char>,
    fx: int,
    fy: int,
)
    requires
        target.0 < 8,
        target.1 < 8,
    ensures
        decode_scan(v, role, target, s, fx, fy) matches Some(stp) ==> step_in_range(stp),
    decreases 8 - fx, 8 - fy,
{
    if 0 <= fx < 8 && 0 <= fy {
        if fy >= 8 {
            lemma_decode_scan_in_range(v, role, target, s, fx + 1, 0);
        } else {
            lemma_decode_scan_in_range(v, role, target, s, fx, fy + 1);
        }
    }
}

/// A move the SAN decoder yields lies on the board.
pub proof fn lemma_read_step_in_range(v: BoardView, s: Seq<char>)
    ensures
        read_step_spec(v, s) matches Some(stp) ==> step_in_range(stp),
{
    if !starts_with(s, seq!['O', '-', 'O']) {
        match san_parse_spec(s) {
            Some((role, target)) => {
                lemma_san_parse_in_range(s);
                lemma_decode_scan_in_range(v, role, target, s, 0, 0);
            },
            None => {},
        }
    }
}

/// The SAN letter of a role, as a string; empty for a pawn.
pub fn piece_name(piecerole: PieceRole) -> (r: String)
    ensures
        r@ == role_name(piecerole),
{
    let mut s = String::new();
    match piecerole {
        PieceRole::Pawn => {},
        PieceRole::Rook => push_char(&mut s, 'R'),
        PieceRole::Knight => push_char(&mut s, 'N'),
        PieceRole::Bishop => push_char(&mut s, 'B'),
        PieceRole::Queen => push_char(&mut s, 'Q'),
        PieceRole::King => push_char(&mut s, 'K'),
    }
    proof {
        assert(s@ =~= role_name(piecerole));
    }
    s
}

/// The role a SAN name letter stands for; the empty name is the pawn.
pub fn name_to_role(name: String) -> (r: PieceRole)
    requires
        name@.len() == 0 || (name@.len() == 1 && is_role_letter(name@[0])),
    ensures
        role_name(r) == name@,
{
    let n = name.as_str();
    if n.unicode_len() == 0 {
        proof {
            assert(name@ =~= role_name(PieceRole::Pawn));
        }
        PieceRole::Pawn
    } else {
        let c = n.get_char(0);
        let r = if c == 'K' {
            PieceRole::King
        } else if c == 'Q' {
            PieceRole::Queen
        } else if c == 'R' {
            PieceRole::Rook
        } else if c == 'B' {
            PieceRole::Bishop
        } else {
            PieceRole::Knight
        };
        proof {
            assert(role_name(r) =~= name@);
        }
        r
    }
}

/// Reads a square name such as `e4` into file and rank coordinates.
pub fn coordinate(s: String) -> (r: (usize, usize))
    requires
        s@.len() >= 2,
        is_file_char(s@[0]),
        is_rank_char(s@[1]),
    ensures
        r.0 == s@[0] as int - 97,
        r.1 == s@[1] as int - 49,
        r.0 < 8,
        r.1 < 8,
{
    let n = s.as_str();
    let c0 = n.get_char(0);
    let c1 = n.get_char(1);
    ((c0 as u32 - 97) as usize, (c1 as u32 - 49) as usize)
}

/// Collects the origins of pieces identical to `piece` that can legally
/// reach `to_sq`: the mover's own origin first, then every other in
/// scan order.
#[verifier::loop_isolation(false)]
fn collect_ambiguous(board: &Board, piece: Piece, from: (usize, usize), to_sq: (usize, usize)) -> (r:
    Vec<(usize, usize)>)
    requires
        board@.grid_wf(),
        board@.move_room(),
        from.0 < 8,
        from.1 < 8,
        to_sq.0 < 8,
        to_sq.1 < 8,
    ensures
        r@ == ambiguous_spec(board@, piece, from, to_sq),
        r@.len() >= 1,
{
    let ghost v = board@;
    let mut ambiguous: Vec<(usize, usize)> = Vec::new();
    ambiguous.push(from);
    let mut fx: usize = 0;
    while fx < BOARD_SIZE_I
        invariant
            fx <= 8,
            ambiguous@.len() >= 1,
            ambiguous@ + ambig_from(v, piece, from, to_sq, fx as int, 0) == ambiguous_spec(
                v,
                piece,
                from,
                to_sq,
            ),
        decreases 8 - fx,
    {
        let mut fy: usize = 0;
        while fy < BOARD_SIZE_J
            invariant
                fx < 8,
                fy <= 8,
                ambiguous@.len() >= 1,
                ambiguous@ + ambig_from(v, piece, from, to_sq, fx as int, fy as int)
                    == ambiguous_spec(v, piece, from, to_sq),
            decreases 8 - fy,
        {
            let mut hit = false;
            if !(fx == from.0 && fy == from.1) {
                if let Some(p) = board.pieces.at(fx, fy) {
                    if p == piece {
                        if try_move(board, Step { from: (fx, fy), to: to_sq }).is_some() {
                            hit = true;
                        }
                    }
                }
            }
            if hit {
                ambiguous.push((fx, fy));
                proof {
                    assert(ambiguous@ + ambig_from(v, piece, from, to_sq, fx as int, fy + 1)
                        =~= ambiguous_spec(v, piece, from, to_sq));
                }
            } else {
                proof {
                    assert(ambig_from(v, piece, from, to_sq, fx as int, fy as int) == ambig_from(
                        v,
                        piece,
                        from,
                        to_sq,
                        fx as int,
                        fy + 1,
                    ));
                }
            }
            fy = fy + 1;
        }
        fx = fx + 1;
    }
    proof {
        assert(ambiguous@ =~= ambiguous_spec(v, piece, from, to_sq));
    }
    ambiguous
}

/// Counts the squares in the list sharing file `x`.
#[verifier::loop_isolation(false)]
fn count_file_exec(list: &Vec<(usize, usize)>, x: usize) -> (r: usize)
    ensures
        r as int == count_file(list@, x),
{
    let mut c: usize = 0;
    let mut k: usize = 0;
    while k < list.len()
        invariant
            k <= list@.len(),
            c <= k,
            c as int == count_file(list@.take(k as int), x),
        decreases list@.len() - k,
    {
        proof {
            assert(list@.take(k + 1).drop_last() =~= list@.take(k as int));
            assert(list@.take(k + 1).last() == list@[k as int]);
        }
        if list[k].0 == x {
            c = c + 1;
        }
        k = k + 1;
    }
    proof {
        assert(list@.take(list@.len() as int) =~= list@);
    }
    c
}

/// Counts the squares in the list sharing rank `y`.
#[verifier::loop_isolation(false)]
fn count_rank_exec(list: &Vec<(usize, usize)>, y: usize) -> (r: usize)
    ensures
        r as int == count_rank(list@, y),
{
    let mut c: usize = 0;
    let mut k: usize = 0;
    while k < list.len()
        invariant
            k <= list@.len(),
            c <= k,
            c as int == count_rank(list@.take(k as int), y),
        decreases list@.len() - k,
    {
        proof {
            assert(list@.take(k + 1).drop_last() =~= list@.take(k as int));
            assert(list@.take(k + 1).last() == list@[k as int]);
        }
        if list[k].1 == y {
            c = c + 1;
        }
        k = k + 1;
    }
    proof {
        assert(list@.take(list@.len() as int) =~= list@);
    }
    c
}

/// Builds the disambiguation token for a move.
fn disambig_exec(board: &Board, piece: Piece, step: Step, capture: bool) -> (r: String)
    requires
        board@.grid_wf(),
        board@.move_room(),
        step_in_range(step),
    ensures
        r@ == disambig_spec(board@, piece, step, capture),
{
    let ghost v = board@;
    let ambiguous = collect_ambiguous(board, piece, step.from, step.to);
    let mut dis = String::new();
    if ambiguous.len() == 1 {
        if capture && matches!(piece.piece_role, PieceRole::Pawn) {
            push_char(&mut dis, crate::fen::file_to_char(step.from.0));
        }
    } else {
        let cf = count_file_exec(&ambiguous, step.from.0);
        if cf == 1 {
            push_char(&mut dis, crate::fen::file_to_char(step.from.0));
        } else {
            let cr = count_rank_exec(&ambiguous, step.from.1);
            if cr == 1 {
                push_char(&mut dis, crate::fen::rank_to_char(step.from.1));
            } else {
                push_char(&mut dis, crate::fen::file_to_char(step.from.0));
                push_char(&mut dis, crate::fen::rank_to_char(step.from.1));
            }
        }
    }
    proof {
        assert(dis@ =~= disambig_spec(v, piece, step, capture));
    }
    dis
}

/// Parses SAN text into a move relative to the position: castling text
/// rebuilds the fixed king step of the side to move, ordinary text is
/// matched against the grammar and every candidate origin re-encoded;
/// either way the re-encoding must reproduce the input exactly.
#[verifier::loop_isolation(false)]
#[verifier::rlimit(100)]
#[verifier::spinoff_prover]
pub fn read_step(board: &Board, s: String) -> (r: Option<Step>)
    requires
        board@.grid_wf(),
        board@.san_room(),
    ensures
        r == read_step_spec(board@, s@),
{
    let ghost v = board@;
    let chars = str_chars(s.as_str());
    let n = chars.len();
    let castle_prefix = n >= 3 && chars[0] == 'O' && chars[1] == '-' && chars[2] == 'O';
    proof {
        if castle_prefix {
            assert(s@.take(3) =~= seq!['O', '-', 'O']);
        } else if starts_with(s@, seq!['O', '-', 'O']) {
            assert(s@[0] == s@.take(3)[0] && s@[1] == s@.take(3)[1] && s@[2] == s@.take(3)[2]);
            assert(false);
        }
    }
    if castle_prefix {
        let long = n >= 5 && chars[3] == '-' && chars[4] == 'O';
        proof {
            if long {
                assert(s@.take(5) =~= seq!['O', '-', 'O', '-', 'O']);
            } else if starts_with(s@, seq!['O', '-', 'O', '-', 'O']) {
                assert(s@[3] == s@.take(5)[3] && s@[4] == s@.take(5)[4]);
                assert(false);
            }
        }
        let (wk, wq, bk, bq) = board.castling_availability;
        let cand: Option<Step> = if long {
            match board.active_color {
                PieceColor::White => if wq {
                    Some(Step { from: (4, 0), to: (2, 0) })
                } else {
                    None
                },
                PieceColor::Black => if bq {
                    Some(Step { from: (4, 7), to: (2, 7) })
                } else {
                    None
                },
            }
        } else {
            match board.active_color {
                PieceColor::White => if wk {
                    Some(Step { from: (4, 0), to: (6, 0) })
                } else {
                    None
                },
                PieceColor::Black => if bk {
                    Some(Step { from: (4, 7), to: (6, 7) })
                } else {
                    None
                },
            }
        };
        match cand {
            None => None,
            Some(stp) => {
                match write_step(board, stp) {
                    Some(t) => if t == s {
                        Some(stp)
                    } else {
                        None
                    },
                    None => None,
                }
            },
        }
    } else {
        let ghost g_core: Seq<char> = if s@.len() > 0 && (s@.last() == '+' || s@.last() == '#') {
            s@.drop_last()
        } else {
            s@
        };
        let mut core_end: usize = n;
        if core_end > 0 && (chars[core_end - 1] == '+' || chars[core_end - 1] == '#') {
            core_end = core_end - 1;
        }
        proof {
            assert(chars@.take(core_end as int) =~= g_core);
        }
        let ghost g_core2: Seq<char> = if g_core.len() >= 2 && g_core[g_core.len() - 2] == '='
            && (g_core.last() == 'Q' || g_core.last() == 'R' || g_core.last() == 'B'
            || g_core.last() == 'N') {
            g_core.take(g_core.len() - 2)
        } else {
            g_core
        };
        if core_end >= 2 && chars[core_end - 2] == '=' && (chars[core_end - 1] == 'Q' || chars[
            core_end - 1] == 'R' || chars[core_end - 1] == 'B' || chars[core_end - 1] == 'N') {
            core_end = core_end - 2;
        }
        proof {
            assert(chars@.take(core_end as int) =~= g_core2);
        }
        if core_end < 2 {
            return None;
        }
        let tf = chars[core_end - 2];
        let tr = chars[core_end - 1];
        proof {
            assert(tf == g_core2[g_core2.len() - 2] && tr == g_core2.last());
        }
        if !(tf >= 'a' && tf <= 'h' && tr >= '1' && tr <= '8') {
            return None;
        }
        let rest_len = core_end - 2;
        let ghost g_rest = g_core2.take(g_core2.len() - 2);
        proof {
            assert(g_rest =~= chars@.take(rest_len as int));
        }
        let has_role = rest_len > 0 && (chars[0] == 'K' || chars[0] == 'Q' || chars[0] == 'R'
            || chars[0] == 'B' || chars[0] == 'N');
        let role = if has_role {
            let c0 = chars[0];
            if c0 == 'K' {
                PieceRole::King
            } else if c0 == 'Q' {
                PieceRole::Queen
            } else if c0 == 'R' {
                PieceRole::Rook
            } else if c0 == 'B' {
                PieceRole::Bishop
            } else {
                PieceRole::Knight
            }
        } else {
            PieceRole::Pawn
        };
        let mid_start: usize = if has_role {
            1
        } else {
            0
        };
        let ghost g_mid = if g_rest.len() > 0 && is_role_letter(g_rest[0]) {
            g_rest.skip(1)
        } else {
            g_rest
        };
        proof {
            assert(g_mid =~= chars@.subrange(mid_start as int, rest_len as int));
        }
        let mut mid_end: usize = rest_len;
        if mid_end > mid_start && chars[mid_end - 1] == 'x' {
            mid_end = mid_end - 1;
        }
        let ghost g_m = if g_mid.len() > 0 && g_mid.last() == 'x' {
            g_mid.drop_last()
        } else {
            g_mid
        };
        proof {
            assert(g_m =~= chars@.subrange(mid_start as int, mid_end as int));
        }
        let mid_len = mid_end - mid_start;
        let ok = if mid_len == 0 {
            true
        } else if mid_len == 1 {
            let c = chars[mid_start];
            (c >= 'a' && c <= 'h') || (c >= '1' && c <= '8')
        } else if mid_len == 2 {
            let c0 = chars[mid_start];
            let c1 = chars[mid_start + 1];
            c0 >= 'a' && c0 <= 'h' && c1 >= '1' && c1 <= '8'
        } else {
            false
        };
        proof {
            assert(g_m.len() == mid_len);
            if mid_len == 1 {
                assert(g_m[0] == chars@[mid_start as int]);
            }
            if mid_len == 2 {
                assert(g_m[0] == chars@[mid_start as int] && g_m[1] == chars@[mid_start + 1]);
            }
            assert(ok == mid_ok(g_mid));
        }
        if !ok {
            return None;
        }
        let target = ((tf as u32 - 97) as usize, (tr as u32 - 49) as usize);
        proof {
            assert(target.0 < 8 && target.1 < 8);
            assert(san_parse_spec(s@) == Some((role, target)));
        }
        let mut fx: usize = 0;
        while fx < BOARD_SIZE_I
            invariant
                fx <= 8,
                decode_scan(v, role, target, s@, 0, 0) == decode_scan(
                    v,
                    role,
                    target,
                    s@,
                    fx as int,
                    0,
                ),
            decreases 8 - fx,
        {
            let mut fy: usize = 0;
            while fy < BOARD_SIZE_J
                invariant
                    fx < 8,
                    fy <= 8,
                    decode_scan(v, role, target, s@, 0, 0) == decode_scan(
                        v,
                        role,
                        target,
                        s@,
                        fx as int,
                        fy as int,
                    ),
                decreases 8 - fy,
            {
                let mut matched = false;
                if let Some(p) = board.pieces.at(fx, fy) {
                    if p.piece_color == board.active_color && p.piece_role == role {
                        match write_step(board, Step { from: (fx, fy), to: target }) {
                            Some(t) => {
                                if t == s {
                                    matched = true;
                                }
                            },
                            None => {},
                        }
                    }
                }
                if matched {
                    return Some(Step { from: (fx, fy), to: target });
                }
                fy = fy + 1;
            }
            fx = fx + 1;
        }
        None
    }
}

/// Writes the check annotation of the position reached by a move.
fn check_suffix_exec(new_board: &Board) -> (r: String)
    requires
        new_board@.grid_wf(),
        new_board@.move_room(),
    ensures
        r@ == check_suffix(new_board@),
{
    let check = !crate::board::king_safe(new_board, new_board.active_color);
    let checkmate = match crate::board::end_game(new_board) {
        Some(BoardResult::Winner(_)) => true,
        _ => false,
    };
    let mut out = String::new();
    if checkmate {
        push_char(&mut out, '#');
    } else if check {
        push_char(&mut out, '+');
    }
    proof {
        assert(out@ =~= check_suffix(new_board@));
    }
    out
}

/// Writes the SAN text of a move relative to its position, or nothing
/// when the move is illegal.
#[verifier::rlimit(100)]
pub fn write_step(board: &Board, step: Step) -> (r: Option<String>)
    requires
        board@.grid_wf(),
        board@.san_room(),
        step_in_range(step),
    ensures
        match r {
            Some(t) => san_of(board@, step) == Some(t@),
            None => san_of(board@, step) is None,
        },
{
    let ghost v = board@;
    let new_board = match try_move(board, step) {
        Some(b) => b,
        None => {
            return None;
        },
    };
    let ghost nb = new_board@;
    let piece = match board.pieces.at(step.from.0, step.from.1) {
        Some(p) => p,
        None => {
            proof {
                assert(false);
            }
            return None;
        },
    };
    let role = piece.piece_role;
    let suffix = check_suffix_exec(&new_board);
    if matches!(role, PieceRole::King) {
        if try_castle(board, step).is_some() {
            let mut out = String::new();
            push_char(&mut out, 'O');
            push_char(&mut out, '-');
            push_char(&mut out, 'O');
            if step.to.0 != 6 {
                push_char(&mut out, '-');
                push_char(&mut out, 'O');
            }
            proof {
                assert(out@ =~= (if step.to.0 == 6 {
                    seq!['O', '-', 'O']
                } else {
                    seq!['O', '-', 'O', '-', 'O']
                }));
            }
            out.append(suffix.as_str());
            return Some(out);
        }
    }
    let mut capture = board.pieces.at(step.to.0, step.to.1).is_some();
    let mut promotion = false;
    if matches!(role, PieceRole::Pawn) {
        let ep_hit = match board.en_passant_target {
            Some(t) => t.0 == step.to.0 && t.1 == step.to.1,
            None => false,
        };
        if ep_hit {
            capture = true;
        }
        if step.to.1 == 0 || step.to.1 == 7 {
            promotion = true;
        }
    }
    proof {
        assert(capture == (v.at(step.to.0 as int, step.to.1 as int) is Some || (role
            == PieceRole::Pawn && v.en_passant == Some(step.to))));
    }
    let dis = disambig_exec(board, piece, step, capture);
    let mut out = piece_name(role);
    out.append(dis.as_str());
    let ghost s1 = out@;
    if capture {
        push_char(&mut out, 'x');
    }
    proof {
        assert(out@ =~= s1 + (if capture {
            seq!['x']
        } else {
            Seq::<char>::empty()
        }));
    }
    let ghost s2 = out@;
    push_char(&mut out, crate::fen::file_to_char(step.to.0));
    push_char(&mut out, crate::fen::rank_to_char(step.to.1));
    proof {
        assert(out@ =~= s2 + seq![file_char(step.to.0 as int), rank_char(step.to.1 as int)]);
    }
    let ghost s3 = out@;
    if promotion {
        push_char(&mut out, '=');
        push_char(&mut out, 'Q');
    }
    proof {
        assert(out@ =~= s3 + (if promotion {
            seq!['=', 'Q']
        } else {
            Seq::<char>::empty()
        }));
    }
    out.append(suffix.as_str());
    proof {
        assert(out@ =~= role_name(role) + disambig_spec(v, piece, step, capture) + (if capture {
            seq!['x']
        } else {
            Seq::<char>::empty()
        }) + seq![file_char(step.to.0 as int), rank_char(step.to.1 as int)] + (if promotion {
            seq!['=', 'Q']
        } else {
            Seq::<char>::empty()
        }) + check_suffix(nb));
        assert(promotion == (role == PieceRole::Pawn && (step.to.1 == 0 || step.to.1 == 7)));
    }
    Some(out)
}

} // verus!
