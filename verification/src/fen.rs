//! The FEN codec: parsing and serializing full positions as
//! whitespace-separated text, with a documented default for every
//! missing or malformed field.

use vstd::prelude::*;
use crate::board::{Board, BoardView};
use crate::piece::{grid_set, Piece, PieceColor, PieceRole, Pieces};
use crate::text::{
    digit_val, is_digit_char, dec_digits, parse_usize, parse_usize_spec, push_char,
    split_ws, split_whitespace_chars, str_chars, usize_to_string, digit_char, digit_to_char,
};

verus! {

/// The standard starting position.
pub const INITIAL_FEN: &'static str = "rnbqkbnr/pppppppp/8/8/8/8/PPPPPPPP/RNBQKBNR w KQkq - 0 1";

/// The role a placement letter stands for, upper or lower case.
pub open spec fn char_to_role_spec(c: char) -> Option<PieceRole> {
    if c == 'k' || c == 'K' {
        Some(PieceRole::King)
    } else if c == 'q' || c == 'Q' {
        Some(PieceRole::Queen)
    } else if c == 'r' || c == 'R' {
        Some(PieceRole::Rook)
    } else if c == 'b' || c == 'B' {
        Some(PieceRole::Bishop)
    } else if c == 'n' || c == 'N' {
        Some(PieceRole::Knight)
    } else if c == 'p' || c == 'P' {
        Some(PieceRole::Pawn)
    } else {
        None
    }
}

/// `c` is an ASCII lower-case letter; placement letters in lower case
/// stand for black pieces.
pub open spec fn is_lower_char(c: char) -> bool {
    'a' <= c && c <= 'z'
}

/// The placement letter of a piece: role letter, upper case for White.
pub open spec fn piece_char(p: Piece) -> char {
    let lower = match p.piece_role {
        PieceRole::Pawn => 'p',
        PieceRole::Rook => 'r',
        PieceRole::Knight => 'n',
        PieceRole::Bishop => 'b',
        PieceRole::Queen => 'q',
        PieceRole::King => 'k',
    };
    let upper = match p.piece_role {
        PieceRole::Pawn => 'P',
        PieceRole::Rook => 'R',
        PieceRole::Knight => 'N',
        PieceRole::Bishop => 'B',
        PieceRole::Queen => 'Q',
        PieceRole::King => 'K',
    };
    match p.piece_color {
        PieceColor::White => upper,
        PieceColor::Black => lower,
    }
}

/// Maps a placement letter to its role, either case.
pub fn char_to_role(c: char) -> (r: Option<PieceRole>)
    ensures
        r == char_to_role_spec(c),
{
    if c == 'k' || c == 'K' {
        Some(PieceRole::King)
    } else if c == 'q' || c == 'Q' {
        Some(PieceRole::Queen)
    } else if c == 'r' || c == 'R' {
        Some(PieceRole::Rook)
    } else if c == 'b' || c == 'B' {
        Some(PieceRole::Bishop)
    } else if c == 'n' || c == 'N' {
        Some(PieceRole::Knight)
    } else if c == 'p' || c == 'P' {
        Some(PieceRole::Pawn)
    } else {
        None
    }
}

/// Maps a square's content to its placement character: the piece's
/// letter, or the one-square empty marker.
pub fn piece_to_char(piece: Option<Piece>) -> (r: char)
    ensures
        match piece {
            Some(p) => r == piece_char(p),
            None => r == '1',
        },
{
    if let Some(p) = piece {
        match (p.piece_role, p.piece_color) {
            (PieceRole::Pawn, PieceColor::White) => 'P',
            (PieceRole::Rook, PieceColor::White) => 'R',
            (PieceRole::Knight, PieceColor::White) => 'N',
            (PieceRole::Bishop, PieceColor::White) => 'B',
            (PieceRole::Queen, PieceColor::White) => 'Q',
            (PieceRole::King, PieceColor::White) => 'K',
            (PieceRole::Pawn, PieceColor::Black) => 'p',
            (PieceRole::Rook, PieceColor::Black) => 'r',
            (PieceRole::Knight, PieceColor::Black) => 'n',
            (PieceRole::Bishop, PieceColor::Black) => 'b',
            (PieceRole::Queen, PieceColor::Black) => 'q',
            (PieceRole::King, PieceColor::Black) => 'k',
        }
    } else {
        '1'
    }
}

/// The file column capped at 9: columns past the board edge behave
/// alike, and the cap keeps the walk bounded.
pub open spec fn col_clamp(c: int) -> int {
    if c > 9 {
        9
    } else {
        c
    }
}

/// The placement walk accepts the text: reading rank `row` from column
/// `col` at position `i`, no letter ever lands past the board edge.
pub open spec fn place_ok(p: Seq<char>, i: int, row: int, col: int) -> bool
    decreases p.len() - i,
{
    if i < 0 || i >= p.len() {
        true
    } else {
        let c = p[i];
        if c == ' ' {
            true
        } else if c == '/' {
            if row == 0 {
                true
            } else {
                place_ok(p, i + 1, row - 1, 0)
            }
        } else if is_digit_char(c) {
            place_ok(p, i + 1, row, col_clamp(col + digit_val(c)))
        } else if char_to_role_spec(c) is Some {
            col < 8 && place_ok(p, i + 1, row, col + 1)
        } else {
            place_ok(p, i + 1, row, col)
        }
    }
}

/// The grid after the placement walk from state `(i, row, col)` over
/// grid `g`: letters drop pieces, digits skip files, `/` steps down one
/// rank, a space or the bottom rank ends the walk.
pub open spec fn place_from(
    g: Seq<Seq<Option<Piece>>>,
    p: Seq<char>,
    i: int,
    row: int,
    col: int,
) -> Seq<Seq<Option<Piece>>>
    decreases p.len() - i,
{
    if i < 0 || i >= p.len() {
        g
    } else {
        let c = p[i];
        if c == ' ' {
            g
        } else if c == '/' {
            if row == 0 {
                g
            } else {
                place_from(g, p, i + 1, row - 1, 0)
            }
        } else if is_digit_char(c) {
            place_from(g, p, i + 1, row, col_clamp(col + digit_val(c)))
        } else {
            match char_to_role_spec(c) {
                Some(role) => {
                    let piece = Piece {
                        piece_role: role,
                        piece_color: if is_lower_char(c) {
                            PieceColor::Black
                        } else {
                            PieceColor::White
                        },
                    };
                    place_from(grid_set(g, col, row, Some(piece)), p, i + 1, row, col + 1)
                },
                None => place_from(g, p, i + 1, row, col),
            }
        }
    }
}

/// An empty 8x8 grid.
pub open spec fn empty_grid() -> Seq<Seq<Option<Piece>>> {
    Seq::new(8, |x: int| Seq::new(8, |y: int| None))
}

/// The grid a placement field denotes: the walk from the top-left
/// corner when it stays on the board, else the empty grid (an
/// unparsable placement falls back to its default).
pub open spec fn placement_grid(p: Seq<char>) -> Seq<Seq<Option<Piece>>> {
    if place_ok(p, 0, 7, 0) {
        place_from(empty_grid(), p, 0, 7, 0)
    } else {
        empty_grid()
    }
}

/// `c` names a file, `a` through `h`.
pub open spec fn is_file_char(c: char) -> bool {
    'a' <= c && c <= 'h'
}

/// `c` names a rank, `1` through `8`.
pub open spec fn is_rank_char(c: char) -> bool {
    '1' <= c && c <= '8'
}

/// The position denoted by a FEN string: six whitespace-separated
/// fields, each falling back to its documented default when missing or
/// malformed (empty placement, White to move, all castling rights, no
/// en-passant target, halfmove 0, fullmove 1).
pub open spec fn parse_fen_spec(s: Seq<char>) -> BoardView {
    let toks = split_ws(s);
    let placement = if toks.len() > 0 {
        toks[0]
    } else {
        Seq::<char>::empty()
    };
    let active = if toks.len() > 1 && toks[1] == seq!['b'] {
        PieceColor::Black
    } else {
        PieceColor::White
    };
    let castling = if toks.len() > 2 {
        toks[2]
    } else {
        seq!['K', 'Q', 'k', 'q']
    };
    let ep_tok = if toks.len() > 3 {
        toks[3]
    } else {
        seq!['-']
    };
    let en_passant = if ep_tok == seq!['-'] {
        None
    } else if ep_tok.len() == 2 && is_file_char(ep_tok[0]) && is_rank_char(ep_tok[1]) {
        Some(((ep_tok[0] as int - 97) as usize, (ep_tok[1] as int - 49) as usize))
    } else {
        None
    };
    let halfmove = if toks.len() > 4 {
        parse_usize_spec(toks[4], 0)
    } else {
        0
    };
    let fullmove = if toks.len() > 5 {
        parse_usize_spec(toks[5], 1)
    } else {
        1
    };
    BoardView {
        grid: placement_grid(placement),
        active,
        castling: (
            castling.contains('K'),
            castling.contains('Q'),
            castling.contains('k'),
            castling.contains('q'),
        ),
        en_passant,
        halfmove,
        fullmove,
    }
}

/// The placement walk stays on the board for this text.
#[verifier::loop_isolation(false)]
fn placement_valid(p: &Vec<char>) -> (r: bool)
    ensures
        r == place_ok(p@, 0, 7, 0),
{
    let mut i: usize = 0;
    let mut row: usize = 7;
    let mut col: usize = 0;
    while i < p.len()
        invariant
            i <= p@.len(),
            row <= 7,
            col <= 9,
            place_ok(p@, 0, 7, 0) == place_ok(p@, i as int, row as int, col as int),
        decreases p@.len() - i,
    {
        let c = p[i];
        if c == ' ' {
            return true;
        } else if c == '/' {
            if row == 0 {
                return true;
            }
            row = row - 1;
            col = 0;
        } else if c >= '0' && c <= '9' {
            let d = (c as u32 - 48) as usize;
            col = col + d;
            if col > 9 {
                col = 9;
            }
        } else if char_to_role(c).is_some() {
            if col >= 8 {
                return false;
            }
            col = col + 1;
        }
        i = i + 1;
    }
    true
}

/// Drops the pieces a valid placement text describes onto the grid.
#[verifier::loop_isolation(false)]
fn placement_fill(pieces: &mut Pieces, p: &Vec<char>)
    requires
        old(pieces).wf(),
        place_ok(p@, 0, 7, 0),
    ensures
        final(pieces).wf(),
        final(pieces)@ == place_from(old(pieces)@, p@, 0, 7, 0),
{
    let mut i: usize = 0;
    let mut row: usize = 7;
    let mut col: usize = 0;
    while i < p.len()
        invariant
            i <= p@.len(),
            row <= 7,
            col <= 9,
            pieces.wf(),
            place_ok(p@, i as int, row as int, col as int),
            place_from(old(pieces)@, p@, 0, 7, 0) == place_from(
                pieces@,
                p@,
                i as int,
                row as int,
                col as int,
            ),
        decreases p@.len() - i,
    {
        let c = p[i];
        if c == ' ' {
            return;
        } else if c == '/' {
            if row == 0 {
                return;
            }
            row = row - 1;
            col = 0;
        } else if c >= '0' && c <= '9' {
            let d = (c as u32 - 48) as usize;
            col = col + d;
            if col > 9 {
                col = 9;
            }
        } else if let Some(role) = char_to_role(c) {
            let color = if c >= 'a' && c <= 'z' {
                PieceColor::Black
            } else {
                PieceColor::White
            };
            pieces.set_at(col, row, Some(Piece { piece_role: role, piece_color: color }));
            col = col + 1;
        }
        i = i + 1;
    }
}

/// Reports whether the token holds the character `c`.
#[verifier::loop_isolation(false)]
fn contains_char(t: &Vec<char>, c: char) -> (r: bool)
    ensures
        r == t@.contains(c),
{
    let mut i: usize = 0;
    while i < t.len()
        invariant
            i <= t@.len(),
            forall|k: int| 0 <= k < i ==> t@[k] != c,
        decreases t@.len() - i,
    {
        if t[i] == c {
            return true;
        }
        i = i + 1;
    }
    false
}

/// Parses a FEN string into a position. Each of the six fields falls
/// back to its documented default when missing or malformed.
#[verifier::loop_isolation(false)]
pub fn read_fen(fen: String) -> (r: Board)
    ensures
        r@ == parse_fen_spec(fen@),
        r@.grid_wf(),
{
    let ghost toks = split_ws(fen@);
    let chars = str_chars(fen.as_str());
    let tokens = split_whitespace_chars(&chars);
    proof {
        assert(tokens@.map_values(|t: Vec<char>| t@) == toks);
    }
    let mut pieces = Pieces::new();
    proof {
        assert(pieces@ =~~= empty_grid());
    }
    if tokens.len() > 0 {
        proof {
            assert(tokens@[0]@ == toks[0]);
        }
        if placement_valid(&tokens[0]) {
            placement_fill(&mut pieces, &tokens[0]);
        }
    }
    let active_color = if tokens.len() > 1 {
        let t = &tokens[1];
        if t.len() == 1 && t[0] == 'b' {
            proof {
                assert(t@ =~= seq!['b']);
            }
            PieceColor::Black
        } else {
            proof {
                if t@ == seq!['b'] {
                    assert(t@.len() == 1 && t@[0] == 'b');
                }
            }
            PieceColor::White
        }
    } else {
        PieceColor::White
    };
    let castling_availability = if tokens.len() > 2 {
        let t = &tokens[2];
        (contains_char(t, 'K'), contains_char(t, 'Q'), contains_char(t, 'k'), contains_char(
            t,
            'q',
        ))
    } else {
        proof {
            let d = seq!['K', 'Q', 'k', 'q'];
            assert(d[0] == 'K' && d[1] == 'Q' && d[2] == 'k' && d[3] == 'q');
            assert(d.contains('K') && d.contains('Q') && d.contains('k') && d.contains('q'));
        }
        (true, true, true, true)
    };
    let en_passant_target: Option<(usize, usize)> = if tokens.len() > 3 {
        let t = &tokens[3];
        if t.len() == 1 && t[0] == '-' {
            proof {
                assert(t@ =~= seq!['-']);
            }
            None
        } else if t.len() == 2 && t[0] >= 'a' && t[0] <= 'h' && t[1] >= '1' && t[1] <= '8' {
            proof {
                if t@ == seq!['-'] {
                    assert(t@.len() == 1);
                }
            }
            let file = (t[0] as u32 - 97) as usize;
            let rank = (t[1] as u32 - 49) as usize;
            Some((file, rank))
        } else {
            proof {
                if t@ == seq!['-'] {
                    assert(t@.len() == 1 && t@[0] == '-');
                }
            }
            None
        }
    } else {
        None
    };
    let halfmove = if tokens.len() > 4 {
        parse_usize(&tokens[4], 0)
    } else {
        0
    };
    let fullmove = if tokens.len() > 5 {
        parse_usize(&tokens[5], 1)
    } else {
        1
    };
    let r = Board {
        pieces,
        active_color,
        castling_availability,
        en_passant_target,
        halfmove,
        fullmove,
    };
    proof {
        assert(r@ =~= parse_fen_spec(fen@));
    }
    r
}

/// The character naming file `f` (0 through 7: `a` through `h`).
pub open spec fn file_char(f: int) -> char {
    ((97 + f) as u8) as char
}

/// The character naming rank `r` (0 through 7: `1` through `8`).
pub open spec fn rank_char(r: int) -> char {
    ((49 + r) as u8) as char
}

/// The character naming file `f`.
pub fn file_to_char(f: usize) -> (c: char)
    requires
        f < 8,
    ensures
        c == file_char(f as int),
{
    (97 + f as u8) as char
}

/// The character naming rank `r`.
pub fn rank_to_char(r: usize) -> (c: char)
    requires
        r < 8,
    ensures
        c == rank_char(r as int),
{
    (49 + r as u8) as char
}

/// One rank of the placement field, from file `x` on, with `run`
/// empty squares already pending: runs of empty squares collapse into
/// their decimal length, pieces print their letter.
pub open spec fn row_fen(v: BoardView, j: int, x: int, run: int) -> Seq<char>
    decreases 8 - x,
{
    if x < 0 || x >= 8 {
        if run > 0 {
            seq![digit_char(run)]
        } else {
            Seq::<char>::empty()
        }
    } else {
        match v.grid[x][j] {
            None => row_fen(v, j, x + 1, run + 1),
            Some(p) => (if run > 0 {
                seq![digit_char(run)]
            } else {
                Seq::<char>::empty()
            }) + seq![piece_char(p)] + row_fen(v, j, x + 1, 0),
        }
    }
}

/// The placement field for ranks `j` down to rank 1, separated by `/`.
pub open spec fn rows_fen_down(v: BoardView, j: int) -> Seq<char>
    decreases j,
{
    if j <= 0 {
        row_fen(v, 0, 0, 0)
    } else {
        row_fen(v, j, 0, 0) + seq!['/'] + rows_fen_down(v, j - 1)
    }
}

/// The whole placement field: rank 8 down to rank 1.
pub open spec fn placement_fen(v: BoardView) -> Seq<char> {
    rows_fen_down(v, 7)
}

/// What remains of the placement field after the ranks above `j` have
/// been written.
pub open spec fn rows_rest(v: BoardView, j: int) -> Seq<char> {
    if j <= 0 {
        Seq::<char>::empty()
    } else {
        seq!['/'] + rows_fen_down(v, j - 1)
    }
}

/// The castling field: the letters of the available rights, or `-`
/// when none is left.
pub open spec fn castling_fen(v: BoardView) -> Seq<char> {
    let s = (if v.castling.0 {
        seq!['K']
    } else {
        Seq::<char>::empty()
    }) + (if v.castling.1 {
        seq!['Q']
    } else {
        Seq::<char>::empty()
    }) + (if v.castling.2 {
        seq!['k']
    } else {
        Seq::<char>::empty()
    }) + (if v.castling.3 {
        seq!['q']
    } else {
        Seq::<char>::empty()
    });
    if s.len() == 0 {
        seq!['-']
    } else {
        s
    }
}

/// The en-passant field: the target square, or `-`.
pub open spec fn ep_fen(v: BoardView) -> Seq<char> {
    match v.en_passant {
        Some(t) => seq![file_char(t.0 as int), rank_char(t.1 as int)],
        None => seq!['-'],
    }
}

/// The side-to-move field.
pub open spec fn side_fen(v: BoardView) -> Seq<char> {
    match v.active {
        PieceColor::White => seq!['w'],
        PieceColor::Black => seq!['b'],
    }
}

/// The full FEN of a position: the six fields joined by single spaces.
pub open spec fn fen_of(v: BoardView) -> Seq<char> {
    placement_fen(v) + seq![' '] + side_fen(v) + seq![' '] + castling_fen(v) + seq![' '] + ep_fen(
        v,
    ) + seq![' '] + dec_digits(v.halfmove as int) + seq![' '] + dec_digits(v.fullmove as int)
}

/// Writes one rank of the placement field.
#[verifier::loop_isolation(false)]
fn row_fen_exec(board: &Board, j: usize) -> (r: String)
    requires
        board@.grid_wf(),
        j < 8,
    ensures
        r@ == row_fen(board@, j as int, 0, 0),
{
    let mut out = String::new();
    let mut x: usize = 0;
    let mut run: usize = 0;
    while x < 8
        invariant
            x <= 8,
            run <= x,
            row_fen(board@, j as int, 0, 0) == out@ + row_fen(board@, j as int, x as int, run as int),
        decreases 8 - x,
    {
        match board.pieces.at(x, j) {
            None => {
                run = run + 1;
            },
            Some(p) => {
                let ghost before = out@;
                if run > 0 {
                    push_char(&mut out, digit_to_char(run));
                }
                push_char(&mut out, piece_to_char(Some(p)));
                proof {
                    assert(out@ =~= before + (if run > 0 {
                        seq![digit_char(run as int)]
                    } else {
                        Seq::<char>::empty()
                    }) + seq![piece_char(p)]);
                    assert(out@ + row_fen(board@, j as int, x + 1, 0) =~= before + row_fen(
                        board@,
                        j as int,
                        x as int,
                        run as int,
                    ));
                }
                run = 0;
            },
        }
        x = x + 1;
    }
    let ghost before = out@;
    if run > 0 {
        push_char(&mut out, digit_to_char(run));
        proof {
            assert(out@ =~= before + seq![digit_char(run as int)]);
        }
    }
    proof {
        assert(out@ =~= row_fen(board@, j as int, 0, 0));
    }
    out
}

/// Writes the whole placement field.
#[verifier::loop_isolation(false)]
fn placement_fen_exec(board: &Board) -> (r: String)
    requires
        board@.grid_wf(),
    ensures
        r@ == placement_fen(board@),
{
    let ghost v = board@;
    let mut out = row_fen_exec(board, 7);
    let mut j: usize = 7;
    while j > 0
        invariant
            j <= 7,
            placement_fen(v) == out@ + rows_rest(v, j as int),
        decreases j,
    {
        j = j - 1;
        let ghost before = out@;
        push_char(&mut out, '/');
        let row = row_fen_exec(board, j);
        out.append(row.as_str());
        proof {
            assert(out@ =~= before + seq!['/'] + row_fen(v, j as int, 0, 0));
            if j == 0 {
                assert(rows_fen_down(v, 0) == row_fen(v, 0, 0, 0));
                assert(out@ + rows_rest(v, 0) =~= before + rows_rest(v, j + 1));
            } else {
                assert(out@ + rows_rest(v, j as int) =~= before + rows_rest(v, j + 1));
            }
        }
    }
    proof {
        assert(out@ =~= placement_fen(v));
    }
    out
}

/// Writes the castling field.
fn castling_fen_exec(board: &Board) -> (r: String)
    ensures
        r@ == castling_fen(board@),
{
    let mut out = String::new();
    let (wk, wq, bk, bq) = board.castling_availability;
    if wk {
        push_char(&mut out, 'K');
    }
    if wq {
        push_char(&mut out, 'Q');
    }
    if bk {
        push_char(&mut out, 'k');
    }
    if bq {
        push_char(&mut out, 'q');
    }
    if !wk && !wq && !bk && !bq {
        push_char(&mut out, '-');
    }
    proof {
        assert(out@ =~= castling_fen(board@));
    }
    out
}

/// Writes the en-passant field.
fn ep_fen_exec(board: &Board) -> (r: String)
    requires
        board@.grid_wf(),
    ensures
        r@ == ep_fen(board@),
{
    let mut out = String::new();
    match board.en_passant_target {
        Some(t) => {
            push_char(&mut out, file_to_char(t.0));
            push_char(&mut out, rank_to_char(t.1));
        },
        None => {
            push_char(&mut out, '-');
        },
    }
    proof {
        assert(out@ =~= ep_fen(board@));
    }
    out
}

/// Serializes a position as FEN text.
#[verifier::rlimit(60)]
pub fn write_fen(board: Board) -> (r: String)
    requires
        board@.grid_wf(),
    ensures
        r@ == fen_of(board@),
{
    let ghost v = board@;
    let mut out = placement_fen_exec(&board);
    push_char(&mut out, ' ');
    push_char(
        &mut out,
        match board.active_color {
            PieceColor::White => 'w',
            PieceColor::Black => 'b',
        },
    );
    push_char(&mut out, ' ');
    let castling = castling_fen_exec(&board);
    out.append(castling.as_str());
    push_char(&mut out, ' ');
    let ep = ep_fen_exec(&board);
    out.append(ep.as_str());
    push_char(&mut out, ' ');
    let half = usize_to_string(board.halfmove);
    out.append(half.as_str());
    push_char(&mut out, ' ');
    let full = usize_to_string(board.fullmove);
    out.append(full.as_str());
    proof {
        assert(out@ =~= fen_of(v));
    }
    out
}

impl Default for Board {
    /// The standard starting position.
    fn default() -> (r: Self)
        ensures
            r@ == parse_fen_spec(INITIAL_FEN@),
            r@.grid_wf(),
    {
        read_fen(String::from_str(INITIAL_FEN))
    }
}

} // verus!
