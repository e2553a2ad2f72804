//! Laws of the engine, stated and proved over the specification model:
//! the move enumeration is sound and complete, stalemate is a draw,
//! double pawn pushes record the en-passant target, the en-passant
//! capture removes the bypassed pawn, and castling is refused in check,
//! through blockers, or across attacked squares.

use vstd::prelude::*;
use crate::board::{
    all_move_spec, all_targets_spec, can_move_pre_spec, castle_single_spec, end_game_spec,
    king_safe_spec, king_square, king_transit_safe, moves_from, square_safe,
    step_in_range, step_legal, targets_from, try_castle_spec, try_move_spec, BoardResult,
    BoardView, Step,
};
use crate::piece::{Piece, PieceColor, PieceRole};
use crate::step::{decode_scan, read_step_spec, san_of, san_parse_spec, starts_with};

verus! {

/// Every destination the target scan yields is a legal destination.
proof fn lemma_targets_sound(v: BoardView, from: (usize, usize), tx: int, ty: int)
    ensures
        forall|j: int|
            0 <= j < targets_from(v, from, tx, ty).len() ==> step_legal(
                v,
                Step { from, to: #[trigger] targets_from(v, from, tx, ty)[j] },
            ) && targets_from(v, from, tx, ty)[j].0 < 8 && targets_from(v, from, tx, ty)[j].1 < 8,
    decreases 8 - tx, 8 - ty,
{
    if 0 <= tx < 8 && 0 <= ty {
        if ty >= 8 {
            lemma_targets_sound(v, from, tx + 1, 0);
        } else {
            lemma_targets_sound(v, from, tx, ty + 1);
            let head = if step_legal(v, Step { from, to: (tx as usize, ty as usize) }) {
                seq![(tx as usize, ty as usize)]
            } else {
                Seq::<(usize, usize)>::empty()
            };
            let rest = targets_from(v, from, tx, ty + 1);
            assert forall|j: int|
                0 <= j < targets_from(v, from, tx, ty).len() implies step_legal(
                v,
                Step { from, to: #[trigger] targets_from(v, from, tx, ty)[j] },
            ) && targets_from(v, from, tx, ty)[j].0 < 8 && targets_from(v, from, tx, ty)[j].1
                < 8 by {
                if j < head.len() {
                    assert(targets_from(v, from, tx, ty)[j] == head[j]);
                } else {
                    assert(targets_from(v, from, tx, ty)[j] == rest[j - head.len()]);
                }
            }
        }
    }
}

/// Every move the enumeration yields is a legal move of the side to
/// move.
proof fn lemma_moves_sound(v: BoardView, fx: int, fy: int)
    ensures
        forall|j: int|
            0 <= j < moves_from(v, fx, fy).len() ==> step_legal(
                v,
                #[trigger] moves_from(v, fx, fy)[j],
            ) && step_in_range(moves_from(v, fx, fy)[j]),
    decreases 8 - fx, 8 - fy,
{
    if 0 <= fx < 8 && 0 <= fy {
        if fy >= 8 {
            lemma_moves_sound(v, fx + 1, 0);
            assert forall|j: int|
                0 <= j < moves_from(v, fx, fy).len() implies step_legal(
                v,
                #[trigger] moves_from(v, fx, fy)[j],
            ) && step_in_range(moves_from(v, fx, fy)[j]) by {
                assert(moves_from(v, fx, fy)[j] == moves_from(v, fx + 1, 0)[j]);
            }
        } else {
            lemma_moves_sound(v, fx, fy + 1);
            lemma_targets_sound(v, (fx as usize, fy as usize), 0, 0);
            let f = |t: (usize, usize)| Step { from: (fx as usize, fy as usize), to: t };
            let block = if v.at(fx, fy) matches Some(p) && p.piece_color == v.active {
                all_targets_spec(v, (fx as usize, fy as usize)).map_values(f)
            } else {
                Seq::<Step>::empty()
            };
            let rest = moves_from(v, fx, fy + 1);
            assert forall|j: int|
                0 <= j < moves_from(v, fx, fy).len() implies step_legal(
                v,
                #[trigger] moves_from(v, fx, fy)[j],
            ) && step_in_range(moves_from(v, fx, fy)[j]) by {
                if j < block.len() {
                    assert(moves_from(v, fx, fy)[j] == block[j]);
                    assert(block[j] == f(all_targets_spec(v, (fx as usize, fy as usize))[j]));
                } else {
                    assert(moves_from(v, fx, fy)[j] == rest[j - block.len()]);
                }
            }
        }
    }
}

/// The target scan finds every legal destination at or after its scan
/// position.
proof fn lemma_targets_complete(v: BoardView, s: Step, tx: int, ty: int)
    requires
        step_legal(v, s),
        step_in_range(s),
        0 <= tx < 8,
        0 <= ty <= 8,
        tx < s.to.0 as int || (tx == s.to.0 as int && ty <= s.to.1 as int),
    ensures
        targets_from(v, s.from, tx, ty).contains(s.to),
    decreases 8 - tx, 8 - ty,
{
    if ty >= 8 {
        lemma_targets_complete(v, s, tx + 1, 0);
        assert(targets_from(v, s.from, tx, ty) == targets_from(v, s.from, tx + 1, 0));
    } else if tx == s.to.0 as int && ty == s.to.1 as int {
        let head = seq![(tx as usize, ty as usize)];
        let rest = targets_from(v, s.from, tx, ty + 1);
        assert((head + rest)[0] == s.to);
    } else {
        lemma_targets_complete(v, s, tx, ty + 1);
        let head = if step_legal(v, Step { from: s.from, to: (tx as usize, ty as usize) }) {
            seq![(tx as usize, ty as usize)]
        } else {
            Seq::<(usize, usize)>::empty()
        };
        let rest = targets_from(v, s.from, tx, ty + 1);
        let j = choose|j: int| 0 <= j < rest.len() && rest[j] == s.to;
        assert((head + rest)[head.len() + j] == s.to);
    }
}

/// The move enumeration finds every legal move whose origin is at or
/// after its scan position.
proof fn lemma_moves_complete(v: BoardView, s: Step, fx: int, fy: int)
    requires
        step_legal(v, s),
        step_in_range(s),
        0 <= fx < 8,
        0 <= fy <= 8,
        fx < s.from.0 as int || (fx == s.from.0 as int && fy <= s.from.1 as int),
    ensures
        moves_from(v, fx, fy).contains(s),
    decreases 8 - fx, 8 - fy,
{
    let f = |t: (usize, usize)| Step { from: (fx as usize, fy as usize), to: t };
    if fy >= 8 {
        lemma_moves_complete(v, s, fx + 1, 0);
        assert(moves_from(v, fx, fy) == moves_from(v, fx + 1, 0));
    } else if fx == s.from.0 as int && fy == s.from.1 as int {
        assert(v.at(fx, fy) matches Some(p) && p.piece_color == v.active);
        lemma_targets_complete(v, s, 0, 0);
        let targets = all_targets_spec(v, s.from);
        let j = choose|j: int| 0 <= j < targets.len() && targets[j] == s.to;
        let block = targets.map_values(f);
        assert(block[j] == f(targets[j]));
        assert(block[j] == s);
        let rest = moves_from(v, fx, fy + 1);
        assert((block + rest)[j] == s);
    } else {
        lemma_moves_complete(v, s, fx, fy + 1);
        let block = if v.at(fx, fy) matches Some(p) && p.piece_color == v.active {
            all_targets_spec(v, (fx as usize, fy as usize)).map_values(f)
        } else {
            Seq::<Step>::empty()
        };
        let rest = moves_from(v, fx, fy + 1);
        let j = choose|j: int| 0 <= j < rest.len() && rest[j] == s;
        assert((block + rest)[block.len() + j] == s);
    }
}

/// The move enumeration is empty exactly when no legal move exists.
pub proof fn lemma_no_move_iff_empty(v: BoardView)
    ensures
        all_move_spec(v).len() == 0 <==> (forall|s: Step|
            step_in_range(s) ==> !step_legal(v, s)),
{
    if all_move_spec(v).len() == 0 {
        assert forall|s: Step| step_in_range(s) implies !step_legal(v, s) by {
            if step_legal(v, s) {
                lemma_moves_complete(v, s, 0, 0);
            }
        }
    } else {
        lemma_moves_sound(v, 0, 0);
        assert(step_legal(v, all_move_spec(v)[0]) && step_in_range(all_move_spec(v)[0]));
    }
}

/// A position whose side to move has no legal move but a safe king is
/// drawn: stalemate (or no king at all) is a draw, not a loss.
pub proof fn lemma_stalemate_is_draw(v: BoardView)
    requires
        forall|s: Step| step_in_range(s) ==> !step_legal(v, s),
        king_safe_spec(v, v.active),
    ensures
        end_game_spec(v) == Some(BoardResult::Draw),
{
    lemma_no_move_iff_empty(v);
}

/// A position whose side to move has no legal move and an attacked king
/// is a win for the opponent: checkmate.
pub proof fn lemma_checkmate_is_loss(v: BoardView)
    requires
        forall|s: Step| step_in_range(s) ==> !step_legal(v, s),
        !king_safe_spec(v, v.active),
    ensures
        end_game_spec(v) == Some(BoardResult::Winner(v.active.flip_spec())),
{
    lemma_no_move_iff_empty(v);
    assert(king_square(v, v.active) is Some);
}

/// Castling, by any pattern, is refused while the king's own square is
/// attacked, whatever the availability flags say.
pub proof fn lemma_castle_refused_in_check(v: BoardView, s: Step)
    requires
        !square_safe(v, s.from.0 as int, s.from.1 as int),
    ensures
        try_castle_spec(v, s) is None,
{
}

/// A castling pattern is refused when one of the squares between king
/// and rook is occupied, whatever the availability flags say.
pub proof fn lemma_castle_refused_blocked(
    v: BoardView,
    s: Step,
    passby: Seq<(usize, usize)>,
    king_passby: Seq<(usize, usize)>,
    rook_step: Step,
    k: int,
)
    requires
        0 <= k < passby.len(),
        v.at(passby[k].0 as int, passby[k].1 as int) is Some,
    ensures
        castle_single_spec(v, s, passby, king_passby, rook_step) is None,
{
    assert(v.at((passby[k]).0 as int, (passby[k]).1 as int) is Some);
}

/// A castling pattern is refused when a square the king transits is
/// attacked, whatever the availability flags say.
pub proof fn lemma_castle_refused_transit(
    v: BoardView,
    s: Step,
    passby: Seq<(usize, usize)>,
    king_passby: Seq<(usize, usize)>,
    rook_step: Step,
    k: int,
)
    requires
        0 <= k < king_passby.len(),
        !king_transit_safe(v, s.from, king_passby[k]),
    ensures
        castle_single_spec(v, s, passby, king_passby, rook_step) is None,
{
    assert(!king_transit_safe(v, s.from, king_passby[k]));
}

/// White king-side castling in particular is refused whenever the king
/// stands in check, a square between king and rook is occupied, or a
/// transit square is attacked, even with the right still available.
pub proof fn lemma_white_kingside_castle_refused(v: BoardView)
    requires
        !square_safe(v, 4, 0) || v.at(5, 0) is Some || v.at(6, 0) is Some || !king_transit_safe(
            v,
            (4, 0),
            (5, 0),
        ) || !king_transit_safe(v, (4, 0), (6, 0)),
    ensures
        try_castle_spec(v, Step { from: (4, 0), to: (6, 0) }) is None,
{
    let s = Step { from: (4, 0), to: (6, 0) };
    let passby = seq![(5usize, 0usize), (6usize, 0usize)];
    let king_passby = seq![(5usize, 0usize), (6usize, 0usize)];
    let rook_step = Step { from: (7, 0), to: (5, 0) };
    if v.castling.0 {
        if !square_safe(v, 4, 0) {
            lemma_castle_refused_in_check(v, s);
        } else if v.at(5, 0) is Some {
            lemma_castle_refused_blocked(v, s, passby, king_passby, rook_step, 0);
        } else if v.at(6, 0) is Some {
            lemma_castle_refused_blocked(v, s, passby, king_passby, rook_step, 1);
        } else if !king_transit_safe(v, (4, 0), (5, 0)) {
            lemma_castle_refused_transit(v, s, passby, king_passby, rook_step, 0);
        } else {
            lemma_castle_refused_transit(v, s, passby, king_passby, rook_step, 1);
        }
    }
}

/// A double pawn push from the player's starting rank records the
/// skipped square as the fresh en-passant target: a white pawn pushed
/// from rank 2 to rank 4 on file `f` leaves the target on `(f, 2)`.
pub proof fn lemma_double_push_sets_ep(v: BoardView, f: usize)
    requires
        v.at(f as int, 1) matches Some(p) && p == (Piece {
            piece_role: PieceRole::Pawn,
            piece_color: PieceColor::White,
        }),
        f < 8,
        try_move_spec(v, Step { from: (f, 1), to: (f, 3) }) is Some,
    ensures
        try_move_spec(v, Step { from: (f, 1), to: (f, 3) })->0.en_passant == Some((f, 2usize)),
{
    let s = Step { from: (f, 1), to: (f, 3) };
    assert(try_castle_spec(v, s) is None);
    assert(can_move_pre_spec(v, s));
}

/// The en-passant capture removes the bypassed pawn from the rank it
/// stopped on, not from the target square: a white pawn capturing onto
/// the recorded target empties the square just below it.
pub proof fn lemma_ep_capture_removes_bypassed(v: BoardView, s: Step)
    requires
        v.grid_wf(),
        v.active == PieceColor::White,
        v.at(s.from.0 as int, s.from.1 as int) matches Some(p) && p == (Piece {
            piece_role: PieceRole::Pawn,
            piece_color: PieceColor::White,
        }),
        v.en_passant == Some(s.to),
        s.to.1 == s.from.1 + 1,
        step_in_range(s),
        try_move_spec(v, s) is Some,
    ensures
        try_move_spec(v, s)->0.at(s.to.0 as int, s.to.1 - 1) is None,
{
    let nb = try_move_spec(v, s)->0;
    assert(try_castle_spec(v, s) is None);
    assert(can_move_pre_spec(v, s));
}

/// A move the decoder's scan yields re-encodes to the scanned text.
proof fn lemma_decode_scan_sound(
    v: BoardView,
    role: PieceRole,
    target: (usize, usize),
    s: Seq<char>,
    fx: int,
    fy: int,
)
    ensures
        decode_scan(v, role, target, s, fx, fy) matches Some(m) ==> san_of(v, m) == Some(s),
    decreases 8 - fx, 8 - fy,
{
    if 0 <= fx < 8 && 0 <= fy {
        if fy >= 8 {
            lemma_decode_scan_sound(v, role, target, s, fx + 1, 0);
        } else {
            lemma_decode_scan_sound(v, role, target, s, fx, fy + 1);
        }
    }
}

/// The decoder is sound with respect to the encoder: whatever move it
/// returns is legal and re-encodes to the decoded text exactly.
pub proof fn lemma_read_step_sound(v: BoardView, s: Seq<char>)
    ensures
        read_step_spec(v, s) matches Some(m) ==> san_of(v, m) == Some(s) && step_legal(v, m),
{
    if !starts_with(s, seq!['O', '-', 'O']) {
        match san_parse_spec(s) {
            Some((role, target)) => {
                lemma_decode_scan_sound(v, role, target, s, 0, 0);
            },
            None => {},
        }
    }
}

/// The encoder-independent half of the SAN round trip: every legal move
/// has a notation, and if decoding that notation yields a move, the
/// yielded move is legal and carries exactly the same notation.
pub proof fn lemma_san_round_trip_notation(v: BoardView, m: Step)
    requires
        step_legal(v, m),
    ensures
        san_of(v, m) is Some,
        read_step_spec(v, san_of(v, m)->0) matches Some(m2) ==> step_legal(v, m2) && san_of(v, m2)
            == san_of(v, m),
{
    assert(san_of(v, m) is Some);
    lemma_read_step_sound(v, san_of(v, m)->0);
}

} // verus!
