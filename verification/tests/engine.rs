//! End-to-end tests of the position model, the legality engine, and
//! the FEN and SAN codecs.

use chess_core::board::{all_move, all_targets, end_game, game_info, king_safe, try_castle,
    try_move, Board, BoardResult, Step};
use chess_core::fen::{read_fen, write_fen, INITIAL_FEN};
use chess_core::piece::{Piece, PieceColor, PieceRole};
use chess_core::step::{coordinate, piece_name, read_step, write_step};

fn start() -> Board {
    read_fen(INITIAL_FEN.to_string())
}

fn step(fx: usize, fy: usize, tx: usize, ty: usize) -> Step {
    Step { from: (fx, fy), to: (tx, ty) }
}

#[test]
fn initial_fen_round_trip() {
    let board = start();
    assert_eq!(write_fen(board), INITIAL_FEN.to_string());
}

#[test]
fn initial_position_fields() {
    let board = start();
    assert!(matches!(board.active_color, PieceColor::White));
    assert_eq!(board.castling_availability, (true, true, true, true));
    assert_eq!(board.en_passant_target, None);
    assert_eq!(board.halfmove, 0);
    assert_eq!(board.fullmove, 1);
    let pawn = board.pieces.at(4, 1).unwrap();
    assert!(matches!(pawn.piece_role, PieceRole::Pawn));
    assert!(matches!(pawn.piece_color, PieceColor::White));
    let king = board.pieces.at(4, 0).unwrap();
    assert!(matches!(king.piece_role, PieceRole::King));
}

#[test]
fn empty_fen_gives_documented_defaults() {
    let board = read_fen(String::new());
    assert!(matches!(board.active_color, PieceColor::White));
    assert_eq!(board.castling_availability, (true, true, true, true));
    assert_eq!(board.en_passant_target, None);
    assert_eq!(board.halfmove, 0);
    assert_eq!(board.fullmove, 1);
    assert_eq!(write_fen(board), "8/8/8/8/8/8/8/8 w KQkq - 0 1".to_string());
}

#[test]
fn malformed_fields_fall_back() {
    let board = read_fen("8/8/8/8/8/8/8/8 x ? zz four five".to_string());
    assert!(matches!(board.active_color, PieceColor::White));
    assert_eq!(board.castling_availability, (false, false, false, false));
    assert_eq!(board.en_passant_target, None);
    assert_eq!(board.halfmove, 0);
    assert_eq!(board.fullmove, 1);
}

#[test]
fn custom_fen_round_trip() {
    let text = "r3k2r/pp3ppp/8/4N3/8/8/PPP2PPP/R3K2R b Kq e3 11 24";
    let board = read_fen(text.to_string());
    assert_eq!(write_fen(board), text.to_string());
}

#[test]
fn pawn_moves_from_start() {
    let board = start();
    let targets = all_targets(&board, (4, 1));
    assert_eq!(targets, vec![(4, 2), (4, 3)]);
}

#[test]
fn knight_moves_from_start() {
    let board = start();
    let targets = all_targets(&board, (6, 0));
    assert_eq!(targets, vec![(5, 2), (7, 2)]);
}

#[test]
fn twenty_legal_moves_at_start() {
    let board = start();
    assert_eq!(all_move(&board).len(), 20);
}

#[test]
fn wrong_side_cannot_move() {
    let board = start();
    assert!(try_move(&board, step(4, 6, 4, 4)).is_none());
}

#[test]
fn blocked_slider_cannot_move() {
    let board = start();
    assert!(try_move(&board, step(0, 0, 0, 3)).is_none());
    assert!(try_move(&board, step(2, 0, 4, 2)).is_none());
}

#[test]
fn double_push_sets_en_passant_target() {
    let board = start();
    let next = try_move(&board, step(4, 1, 4, 3)).unwrap();
    assert_eq!(next.en_passant_target, Some((4, 2)));
    assert!(matches!(next.active_color, PieceColor::Black));
    assert_eq!(next.halfmove, 1);
    assert_eq!(next.fullmove, 1);
}

#[test]
fn en_passant_capture_removes_bypassed_pawn() {
    // 1. e4 a6 2. e5 d5 3. exd6: the black pawn that stopped on d5 is
    // removed, and the capturing pawn stands on d6.
    let board = start();
    let board = try_move(&board, step(4, 1, 4, 3)).unwrap();
    let board = try_move(&board, step(0, 6, 0, 5)).unwrap();
    let board = try_move(&board, step(4, 3, 4, 4)).unwrap();
    let board = try_move(&board, step(3, 6, 3, 4)).unwrap();
    assert_eq!(board.en_passant_target, Some((3, 5)));
    let san = write_step(&board, step(4, 4, 3, 5)).unwrap();
    assert_eq!(san, "exd6".to_string());
    let board = try_move(&board, step(4, 4, 3, 5)).unwrap();
    assert!(board.pieces.at(3, 4).is_none());
    let pawn = board.pieces.at(3, 5).unwrap();
    assert!(matches!(pawn.piece_role, PieceRole::Pawn));
    assert!(matches!(pawn.piece_color, PieceColor::White));
}

#[test]
fn fools_mate_is_checkmate() {
    // 1. f3 e5 2. g4 Qh4#
    let board = start();
    let board = try_move(&board, step(5, 1, 5, 2)).unwrap();
    let board = try_move(&board, step(4, 6, 4, 4)).unwrap();
    let board = try_move(&board, step(6, 1, 6, 3)).unwrap();
    let san = write_step(&board, step(3, 7, 7, 3)).unwrap();
    assert!(san.ends_with('#'));
    assert_eq!(san, "Qh4#".to_string());
    let board = try_move(&board, step(3, 7, 7, 3)).unwrap();
    assert!(matches!(end_game(&board), Some(BoardResult::Winner(PieceColor::Black))));
    assert!(!king_safe(&board, PieceColor::White));
    assert_eq!(game_info(&board), "Black win".to_string());
}

#[test]
fn stalemate_is_draw() {
    let board = read_fen("7k/5Q2/6K1/8/8/8/8/8 b - - 0 1".to_string());
    assert!(matches!(end_game(&board), Some(BoardResult::Draw)));
    assert_eq!(game_info(&board), "Draw".to_string());
}

#[test]
fn game_info_reports_turn() {
    let board = start();
    assert_eq!(game_info(&board), "White play".to_string());
    let board = try_move(&board, step(4, 1, 4, 3)).unwrap();
    assert_eq!(game_info(&board), "Black play".to_string());
}

#[test]
fn promotion_is_forced_to_queen() {
    let board = read_fen("8/P6k/8/8/8/8/8/K7 w - - 0 1".to_string());
    let board = try_move(&board, step(0, 6, 0, 7)).unwrap();
    let piece = board.pieces.at(0, 7).unwrap();
    assert!(matches!(piece.piece_role, PieceRole::Queen));
    assert!(matches!(piece.piece_color, PieceColor::White));
}

#[test]
fn promotion_san_marks_queen() {
    let board = read_fen("8/P6k/8/8/8/8/8/K7 w - - 0 1".to_string());
    let san = write_step(&board, step(0, 6, 0, 7)).unwrap();
    assert_eq!(san, "a8=Q".to_string());
}

#[test]
fn self_check_is_illegal() {
    // The white king may not walk into the black rook's file.
    let board = read_fen("4k3/8/8/8/3r4/8/8/4K3 w - - 0 1".to_string());
    assert!(try_move(&board, step(4, 0, 3, 0)).is_none());
    assert!(try_move(&board, step(4, 0, 5, 0)).is_some());
}

#[test]
fn castling_works_when_clear() {
    let board = read_fen("4k3/8/8/8/8/8/8/4K2R w K - 0 1".to_string());
    let san = write_step(&board, step(4, 0, 6, 0)).unwrap();
    assert_eq!(san, "O-O".to_string());
    let after = try_move(&board, step(4, 0, 6, 0)).unwrap();
    assert!(matches!(after.pieces.at(6, 0).unwrap().piece_role, PieceRole::King));
    assert!(matches!(after.pieces.at(5, 0).unwrap().piece_role, PieceRole::Rook));
    assert!(after.pieces.at(4, 0).is_none());
    assert!(after.pieces.at(7, 0).is_none());
    assert_eq!(after.castling_availability, (false, false, false, false));
}

#[test]
fn castling_refused_at_start_through_blockers() {
    let board = start();
    assert!(try_castle(&board, step(4, 0, 6, 0)).is_none());
    assert!(try_move(&board, step(4, 0, 6, 0)).is_none());
}

#[test]
fn castling_refused_in_check() {
    let board = read_fen("4k3/4r3/8/8/8/8/8/4K2R w K - 0 1".to_string());
    assert!(try_castle(&board, step(4, 0, 6, 0)).is_none());
}

#[test]
fn castling_refused_through_attacked_square() {
    // The black rook on f7 attacks f1, which the king must cross.
    let board = read_fen("4k3/5r2/8/8/8/8/8/4K2R w K - 0 1".to_string());
    assert!(try_castle(&board, step(4, 0, 6, 0)).is_none());
}

#[test]
fn castling_refused_without_right() {
    let board = read_fen("4k3/8/8/8/8/8/8/4K2R w - - 0 1".to_string());
    assert!(try_castle(&board, step(4, 0, 6, 0)).is_none());
}

#[test]
fn san_round_trip_for_all_start_moves() {
    let board = start();
    for mv in all_move(&board) {
        let san = write_step(&board, mv).unwrap();
        assert_eq!(read_step(&board, san), Some(mv));
    }
}

#[test]
fn san_round_trip_with_ambiguous_knights() {
    let board = read_fen("k7/8/8/8/8/8/N3N2p/K7 w - - 0 1".to_string());
    for mv in all_move(&board) {
        let san = write_step(&board, mv).unwrap();
        assert_eq!(read_step(&board, san), Some(mv));
    }
}

#[test]
fn knights_disambiguated_by_file() {
    // Knights on a2 and e2 can both reach c3 and c1: files differ.
    let board = read_fen("k7/8/8/8/8/8/N3N3/K7 w - - 0 1".to_string());
    let san = write_step(&board, step(0, 1, 2, 2)).unwrap();
    assert_eq!(san, "Nac3".to_string());
    let san = write_step(&board, step(4, 1, 2, 2)).unwrap();
    assert_eq!(san, "Nec3".to_string());
}

#[test]
fn knights_disambiguated_by_rank() {
    // Knights on a2 and a6 share a file, so the rank disambiguates.
    let board = read_fen("k7/8/N7/8/8/8/N7/K7 w - - 0 1".to_string());
    let san = write_step(&board, step(0, 1, 1, 3)).unwrap();
    assert_eq!(san, "N2b4".to_string());
    let san = write_step(&board, step(0, 5, 1, 3)).unwrap();
    assert_eq!(san, "N6b4".to_string());
}

#[test]
fn pawn_capture_names_its_file() {
    let board = start();
    let board = try_move(&board, step(4, 1, 4, 3)).unwrap();
    let board = try_move(&board, step(3, 6, 3, 4)).unwrap();
    let san = write_step(&board, step(4, 3, 3, 4)).unwrap();
    assert_eq!(san, "exd5".to_string());
}

#[test]
fn check_is_annotated() {
    // 1. e4 f5 2. Qh5+
    let board = start();
    let board = try_move(&board, step(4, 1, 4, 3)).unwrap();
    let board = try_move(&board, step(5, 6, 5, 4)).unwrap();
    let san = write_step(&board, step(3, 0, 7, 4)).unwrap();
    assert_eq!(san, "Qh5+".to_string());
}

#[test]
fn illegal_move_has_no_san() {
    let board = start();
    assert!(write_step(&board, step(0, 0, 0, 4)).is_none());
}

#[test]
fn read_step_rejects_garbage() {
    let board = start();
    assert_eq!(read_step(&board, "xyzzy".to_string()), None);
    assert_eq!(read_step(&board, "e9".to_string()), None);
    assert_eq!(read_step(&board, "Ke4".to_string()), None);
    assert_eq!(read_step(&board, "".to_string()), None);
}

#[test]
fn read_step_plain_moves() {
    let board = start();
    assert_eq!(read_step(&board, "e4".to_string()), Some(step(4, 1, 4, 3)));
    assert_eq!(read_step(&board, "Nf3".to_string()), Some(step(6, 0, 5, 2)));
}

#[test]
fn read_step_castling() {
    let board = read_fen("r3k2r/8/8/8/8/8/8/R3K2R w KQkq - 0 1".to_string());
    assert_eq!(read_step(&board, "O-O".to_string()), Some(step(4, 0, 6, 0)));
    assert_eq!(read_step(&board, "O-O-O".to_string()), Some(step(4, 0, 2, 0)));
    let board = read_fen("r3k2r/8/8/8/8/8/8/R3K2R b KQkq - 0 1".to_string());
    assert_eq!(read_step(&board, "O-O".to_string()), Some(step(4, 7, 6, 7)));
    assert_eq!(read_step(&board, "O-O-O".to_string()), Some(step(4, 7, 2, 7)));
}

#[test]
fn coordinate_reads_square_names() {
    assert_eq!(coordinate("e4".to_string()), (4, 3));
    assert_eq!(coordinate("a1".to_string()), (0, 0));
    assert_eq!(coordinate("h8".to_string()), (7, 7));
}

#[test]
fn piece_name_letters() {
    assert_eq!(piece_name(PieceRole::Pawn), "".to_string());
    assert_eq!(piece_name(PieceRole::Knight), "N".to_string());
    assert_eq!(piece_name(PieceRole::King), "K".to_string());
}

#[test]
fn rook_move_revokes_castling_right() {
    let board = read_fen("4k3/8/8/8/8/8/8/R3K2R w KQ - 0 1".to_string());
    let after = try_move(&board, step(7, 0, 7, 4)).unwrap();
    assert_eq!(after.castling_availability, (false, true, false, false));
}

#[test]
fn king_move_revokes_both_rights() {
    let board = read_fen("4k3/8/8/8/8/8/8/R3K2R w KQ - 0 1".to_string());
    let after = try_move(&board, step(4, 0, 4, 1)).unwrap();
    assert_eq!(after.castling_availability, (false, false, false, false));
}

#[test]
fn capture_on_rook_home_revokes_right() {
    let board = read_fen("4k3/8/8/8/8/8/6p1/R3K2R b KQ - 0 1".to_string());
    let after = try_move(&board, Step { from: (6, 1), to: (7, 0) }).unwrap();
    assert_eq!(after.castling_availability, (false, true, false, false));
}

#[test]
fn default_board_is_initial_position() {
    let board = Board::default();
    assert_eq!(write_fen(board), INITIAL_FEN.to_string());
}

#[test]
fn piece_equality_is_by_role_and_color() {
    let a = Piece { piece_role: PieceRole::Rook, piece_color: PieceColor::White };
    let b = Piece { piece_role: PieceRole::Rook, piece_color: PieceColor::White };
    let c = Piece { piece_role: PieceRole::Rook, piece_color: PieceColor::Black };
    assert_eq!(a, b);
    assert_ne!(a, c);
}
