//! The FEN round-trip law: parsing a written position recovers the
//! position, field by field.

use vstd::prelude::*;
use crate::board::BoardView;
use crate::fen::{
    castling_fen, char_to_role_spec, col_clamp, empty_grid, ep_fen, fen_of, file_char,
    is_file_char, is_lower_char, is_rank_char, parse_fen_spec, piece_char, place_from, place_ok,
    placement_fen, placement_grid, rank_char, row_fen, rows_fen_down, side_fen,
};
use crate::piece::{grid_set, Piece, PieceColor};
use crate::text::{
    all_digits, dec_digits, digit_char, digit_val, digits_val, is_digit_char, is_ws,
    parse_usize_opt_spec, split_ws, split_ws_from,
};

verus! {

/// No character of the sequence is whitespace.
pub open spec fn no_ws(s: Seq<char>) -> bool {
    forall|i: int| 0 <= i < s.len() ==> !is_ws(#[trigger] s[i])
}

/// Splitting walks over a whitespace-free stretch by absorbing it into
/// the pending token.
proof fn lemma_split_consume(s: Seq<char>, i: int, j: int, cur: Seq<char>)
    requires
        0 <= i <= j <= s.len(),
        forall|m: int| i <= m < j ==> !is_ws(#[trigger] s[m]),
    ensures
        split_ws_from(s, i, cur) == split_ws_from(s, j, cur + s.subrange(i, j)),
    decreases j - i,
{
    if i < j {
        lemma_split_consume(s, i + 1, j, cur.push(s[i]));
        assert(cur.push(s[i]) + s.subrange(i + 1, j) =~= cur + s.subrange(i, j));
    } else {
        assert(cur + s.subrange(i, i) =~= cur);
    }
}

/// Splitting a string of six whitespace-free, nonempty tokens joined
/// by single spaces yields exactly those six tokens.
proof fn lemma_split_six(
    p: Seq<char>,
    a: Seq<char>,
    c: Seq<char>,
    e: Seq<char>,
    h: Seq<char>,
    f: Seq<char>,
)
    requires
        no_ws(p) && p.len() > 0,
        no_ws(a) && a.len() > 0,
        no_ws(c) && c.len() > 0,
        no_ws(e) && e.len() > 0,
        no_ws(h) && h.len() > 0,
        no_ws(f) && f.len() > 0,
    ensures
        split_ws(
            p + seq![' '] + a + seq![' '] + c + seq![' '] + e + seq![' '] + h + seq![' '] + f,
        ) == seq![p, a, c, e, h, f],
{
    let s = p + seq![' '] + a + seq![' '] + c + seq![' '] + e + seq![' '] + h + seq![' '] + f;
    let i1 = p.len() as int;
    let i2 = i1 + 1 + a.len();
    let i3 = i2 + 1 + c.len();
    let i4 = i3 + 1 + e.len();
    let i5 = i4 + 1 + h.len();
    let n = s.len() as int;
    assert(s.subrange(0, i1) =~= p);
    assert(s.subrange(i1 + 1, i2) =~= a);
    assert(s.subrange(i2 + 1, i3) =~= c);
    assert(s.subrange(i3 + 1, i4) =~= e);
    assert(s.subrange(i4 + 1, i5) =~= h);
    assert(s.subrange(i5 + 1, n) =~= f);
    assert(s[i1] == ' ' && s[i2] == ' ' && s[i3] == ' ' && s[i4] == ' ' && s[i5] == ' ');
    let empty = Seq::<char>::empty();
    lemma_split_consume(s, 0, i1, empty);
    assert(empty + s.subrange(0, i1) =~= p);
    lemma_split_consume(s, i1 + 1, i2, empty);
    assert(empty + s.subrange(i1 + 1, i2) =~= a);
    lemma_split_consume(s, i2 + 1, i3, empty);
    assert(empty + s.subrange(i2 + 1, i3) =~= c);
    lemma_split_consume(s, i3 + 1, i4, empty);
    assert(empty + s.subrange(i3 + 1, i4) =~= e);
    lemma_split_consume(s, i4 + 1, i5, empty);
    assert(empty + s.subrange(i4 + 1, i5) =~= h);
    lemma_split_consume(s, i5 + 1, n, empty);
    assert(empty + s.subrange(i5 + 1, n) =~= f);
    assert(split_ws_from(s, i1, p) == seq![p] + split_ws_from(s, i1 + 1, empty));
    assert(split_ws_from(s, i2, a) == seq![a] + split_ws_from(s, i2 + 1, empty));
    assert(split_ws_from(s, i3, c) == seq![c] + split_ws_from(s, i3 + 1, empty));
    assert(split_ws_from(s, i4, e) == seq![e] + split_ws_from(s, i4 + 1, empty));
    assert(split_ws_from(s, i5, h) == seq![h] + split_ws_from(s, i5 + 1, empty));
    assert(split_ws_from(s, n, f) == seq![f]);
    assert(split_ws(s) =~= seq![p, a, c, e, h, f]);
}

/// Decimal digits are digits, and never whitespace or a sign.
proof fn lemma_dec_digits_shape(n: int)
    requires
        n >= 0,
    ensures
        dec_digits(n).len() >= 1,
        all_digits(dec_digits(n)),
        no_ws(dec_digits(n)),
        dec_digits(n)[0] != '+',
    decreases n,
{
    if n < 10 {
        assert(dec_digits(n) =~= seq![digit_char(n)]);
        assert(is_digit_char(digit_char(n)));
    } else {
        lemma_dec_digits_shape(n / 10);
        let w = dec_digits(n / 10);
        assert(is_digit_char(digit_char(n % 10)));
        assert forall|i: int| 0 <= i < dec_digits(n).len() implies is_digit_char(
            #[trigger] dec_digits(n)[i],
        ) by {
            if i < w.len() {
                assert(dec_digits(n)[i] == w[i]);
            }
        }
        assert forall|i: int| 0 <= i < dec_digits(n).len() implies !is_ws(
            #[trigger] dec_digits(n)[i],
        ) by {
            assert(is_digit_char(dec_digits(n)[i]));
        }
    }
}

/// Reading back the decimal digits of a number recovers the number.
proof fn lemma_dec_digits_value(n: int)
    requires
        n >= 0,
    ensures
        digits_val(dec_digits(n)) == n,
    decreases n,
{
    if n < 10 {
        assert(dec_digits(n) =~= seq![digit_char(n)]);
        assert(dec_digits(n).drop_last() =~= Seq::<char>::empty());
        assert(dec_digits(n).last() == digit_char(n));
        assert(digits_val(Seq::<char>::empty()) == 0);
    } else {
        lemma_dec_digits_value(n / 10);
        let w = dec_digits(n / 10);
        assert(dec_digits(n).drop_last() =~= w);
        assert(dec_digits(n).last() == digit_char(n % 10));
        assert(digit_val(digit_char(n % 10)) == n % 10);
    }
}

/// Parsing the decimal text of a machine-sized number recovers it.
proof fn lemma_parse_dec_round_trip(n: usize)
    ensures
        parse_usize_opt_spec(dec_digits(n as int)) == Some(n),
{
    lemma_dec_digits_shape(n as int);
    lemma_dec_digits_value(n as int);
}

/// A placement letter is never whitespace.
proof fn lemma_piece_char_no_ws(p: Piece)
    ensures
        !is_ws(piece_char(p)),
{
}

/// One written rank holds no whitespace and at least one character.
proof fn lemma_row_fen_shape(v: BoardView, j: int, x: int, run: int)
    requires
        0 <= run,
        run <= x,
        x <= 8,
    ensures
        no_ws(row_fen(v, j, x, run)),
        run >= 1 || x < 8 ==> row_fen(v, j, x, run).len() >= 1,
    decreases 8 - x,
{
    if x >= 8 {
        if run > 0 {
            assert(is_digit_char(digit_char(run)));
            assert(row_fen(v, j, x, run) =~= seq![digit_char(run)]);
        } else {
            assert(row_fen(v, j, x, run) =~= Seq::<char>::empty());
        }
    } else {
        match v.grid[x][j] {
            None => {
                lemma_row_fen_shape(v, j, x + 1, run + 1);
            },
            Some(p) => {
                lemma_row_fen_shape(v, j, x + 1, 0);
                lemma_piece_char_no_ws(p);
                let head = (if run > 0 {
                    seq![digit_char(run)]
                } else {
                    Seq::<char>::empty()
                }) + seq![piece_char(p)];
                let rest = row_fen(v, j, x + 1, 0);
                assert(is_digit_char(digit_char(run)));
                assert forall|i: int| 0 <= i < row_fen(v, j, x, run).len() implies !is_ws(
                    #[trigger] row_fen(v, j, x, run)[i],
                ) by {
                    if i < head.len() {
                        assert(row_fen(v, j, x, run)[i] == head[i]);
                    } else {
                        assert(row_fen(v, j, x, run)[i] == rest[i - head.len()]);
                    }
                }
                assert(row_fen(v, j, x, run).len() >= 1);
            },
        }
    }
}

/// The written placement field holds no whitespace and is never empty.
proof fn lemma_placement_fen_shape(v: BoardView, j: int)
    requires
        0 <= j <= 7,
    ensures
        no_ws(rows_fen_down(v, j)),
        rows_fen_down(v, j).len() >= 1,
    decreases j,
{
    lemma_row_fen_shape(v, j, 0, 0);
    if j > 0 {
        lemma_placement_fen_shape(v, j - 1);
        let head = row_fen(v, j, 0, 0) + seq!['/'];
        let rest = rows_fen_down(v, j - 1);
        assert forall|i: int| 0 <= i < rows_fen_down(v, j).len() implies !is_ws(
            #[trigger] rows_fen_down(v, j)[i],
        ) by {
            if i < head.len() {
                assert(rows_fen_down(v, j)[i] == head[i]);
                if i < row_fen(v, j, 0, 0).len() {
                    assert(head[i] == row_fen(v, j, 0, 0)[i]);
                } else {
                    assert(head[i] == '/');
                }
            } else {
                assert(rows_fen_down(v, j)[i] == rest[i - head.len()]);
            }
        }
    }
}

/// The written castling field holds no whitespace, is never empty, and
/// holds each right's letter exactly when the right is available.
proof fn lemma_castling_fen_shape(v: BoardView)
    ensures
        no_ws(castling_fen(v)),
        castling_fen(v).len() >= 1,
        castling_fen(v).contains('K') == v.castling.0,
        castling_fen(v).contains('Q') == v.castling.1,
        castling_fen(v).contains('k') == v.castling.2,
        castling_fen(v).contains('q') == v.castling.3,
{
    let s0 = (if v.castling.0 {
        seq!['K']
    } else {
        Seq::<char>::empty()
    }) + (if v.castling.1 {
        seq!['Q']
    } else {
        Seq::<char>::empty()
    }) + (if v.castling.2 {
        seq!['k']
    } else {
        Seq::<char>::empty()
    }) + (if v.castling.3 {
        seq!['q']
    } else {
        Seq::<char>::empty()
    });
    let s = castling_fen(v);
    if s0.len() == 0 {
        assert(s =~= seq!['-']);
        assert(s[0] == '-');
        assert(!v.castling.0 && !v.castling.1 && !v.castling.2 && !v.castling.3);
        assert forall|i: int| 0 <= i < s.len() implies !is_ws(#[trigger] s[i]) by {
            assert(s[i] == '-');
        }
        if s.contains('K') {
            let i = choose|i: int| 0 <= i < s.len() && s[i] == 'K';
            assert(false);
        }
        if s.contains('Q') {
            let i = choose|i: int| 0 <= i < s.len() && s[i] == 'Q';
            assert(false);
        }
        if s.contains('k') {
            let i = choose|i: int| 0 <= i < s.len() && s[i] == 'k';
            assert(false);
        }
        if s.contains('q') {
            let i = choose|i: int| 0 <= i < s.len() && s[i] == 'q';
            assert(false);
        }
    } else {
        assert(s == s0);
        assert forall|i: int|
            0 <= i < s.len() implies (s[i] == 'K' && v.castling.0) || (s[i] == 'Q' && v.castling.1)
            || (#[trigger] s[i] == 'k' && v.castling.2) || (s[i] == 'q' && v.castling.3) by {}
        assert forall|i: int| 0 <= i < s.len() implies !is_ws(#[trigger] s[i]) by {}
        if v.castling.0 {
            assert(s[0] == 'K');
            assert(s.contains('K'));
        } else {
            if s.contains('K') {
                let i = choose|i: int| 0 <= i < s.len() && s[i] == 'K';
                assert(false);
            }
        }
        let qpos = if v.castling.0 {
            1int
        } else {
            0int
        };
        if v.castling.1 {
            assert(s[qpos] == 'Q');
            assert(s.contains('Q'));
        } else {
            if s.contains('Q') {
                let i = choose|i: int| 0 <= i < s.len() && s[i] == 'Q';
                assert(false);
            }
        }
        let kpos = qpos + if v.castling.1 {
            1int
        } else {
            0int
        };
        if v.castling.2 {
            assert(s[kpos] == 'k');
            assert(s.contains('k'));
        } else {
            if s.contains('k') {
                let i = choose|i: int| 0 <= i < s.len() && s[i] == 'k';
                assert(false);
            }
        }
        let smallqpos = kpos + if v.castling.2 {
            1int
        } else {
            0int
        };
        if v.castling.3 {
            assert(s[smallqpos] == 'q');
            assert(s.contains('q'));
        } else {
            if s.contains('q') {
                let i = choose|i: int| 0 <= i < s.len() && s[i] == 'q';
                assert(false);
            }
        }
    }
}

/// The written en-passant field holds no whitespace, is never empty,
/// and parses back to the same target.
proof fn lemma_ep_fen_shape(v: BoardView)
    requires
        v.grid_wf(),
    ensures
        no_ws(ep_fen(v)),
        ep_fen(v).len() >= 1,
        ep_fen(v) == seq!['-'] <==> v.en_passant is None,
        v.en_passant matches Some(t) ==> ep_fen(v).len() == 2 && is_file_char(ep_fen(v)[0])
            && is_rank_char(ep_fen(v)[1]) && (ep_fen(v)[0] as int - 97) == t.0 && (ep_fen(v)[1] as int
            - 49) == t.1,
{
    match v.en_passant {
        None => {
            assert(ep_fen(v) =~= seq!['-']);
            assert(ep_fen(v)[0] == '-');
        },
        Some(t) => {
            let c0 = file_char(t.0 as int);
            let c1 = rank_char(t.1 as int);
            assert(c0 as int == 97 + t.0);
            assert(c1 as int == 49 + t.1);
            assert(ep_fen(v)[0] == c0 && ep_fen(v)[1] == c1);
            if ep_fen(v) == seq!['-'] {
                assert(ep_fen(v).len() == 1);
                assert(false);
            }
        },
    }
}

/// The side field is a single letter and parses back to the same side.
proof fn lemma_side_fen_shape(v: BoardView)
    ensures
        no_ws(side_fen(v)),
        side_fen(v).len() == 1,
        (side_fen(v) == seq!['b']) == (v.active == PieceColor::Black),
{
    match v.active {
        PieceColor::White => {
            assert(side_fen(v)[0] == 'w');
            if side_fen(v) == seq!['b'] {
                assert(side_fen(v)[0] == seq!['b'][0]);
                assert(false);
            }
        },
        PieceColor::Black => {
            assert(side_fen(v)[0] == 'b');
            assert(side_fen(v) =~= seq!['b']);
        },
    }
}

/// The grid with row `j` from column `c` on overwritten by the
/// position's values.
pub open spec fn copy_row_from(
    g: Seq<Seq<Option<Piece>>>,
    v: BoardView,
    j: int,
    c: int,
) -> Seq<Seq<Option<Piece>>>
    decreases 8 - c,
{
    if c < 0 || c >= 8 {
        g
    } else {
        copy_row_from(grid_set(g, c, j, v.grid[c][j]), v, j, c + 1)
    }
}

/// The grid rows `j` down to 0 overwritten by the position's values.
pub open spec fn copy_rows_down(g: Seq<Seq<Option<Piece>>>, v: BoardView, j: int) -> Seq<
    Seq<Option<Piece>>,
>
    decreases j + 1,
{
    if j < 0 {
        g
    } else {
        copy_rows_down(copy_row_from(g, v, j, 0), v, j - 1)
    }
}

/// An 8x8 grid of 8-square columns.
pub open spec fn grid_dims(g: Seq<Seq<Option<Piece>>>) -> bool {
    g.len() == 8 && forall|x: int| 0 <= x < 8 ==> (#[trigger] g[x]).len() == 8
}

/// Overwriting keeps the dimensions, changes only the written squares,
/// and leaves the position's values on them.
proof fn lemma_copy_row_dims(g: Seq<Seq<Option<Piece>>>, v: BoardView, j: int, c: int)
    requires
        grid_dims(g),
        0 <= j < 8,
        0 <= c,
    ensures
        grid_dims(copy_row_from(g, v, j, c)),
        forall|x: int, y: int|
            0 <= x < 8 && 0 <= y < 8 && !(c <= x && y == j) ==> copy_row_from(g, v, j, c)[x][y]
                == #[trigger] g[x][y],
        forall|x: int|
            c <= x < 8 ==> copy_row_from(g, v, j, c)[x][j] == #[trigger] v.grid[x][j],
    decreases 8 - c,
{
    if 0 <= c < 8 {
        let g2 = grid_set(g, c, j, v.grid[c][j]);
        assert(grid_dims(g2)) by {
            assert forall|x: int| 0 <= x < 8 implies (#[trigger] g2[x]).len() == 8 by {
                if x == c {
                    assert(g2[x] == g[x].update(j, v.grid[c][j]));
                } else {
                    assert(g2[x] == g[x]);
                }
            }
        }
        lemma_copy_row_dims(g2, v, j, c + 1);
        assert(g2[c][j] == v.grid[c][j]);
        assert(copy_row_from(g, v, j, c) == copy_row_from(g2, v, j, c + 1));
        assert forall|x: int, y: int|
            0 <= x < 8 && 0 <= y < 8 && !(c <= x && y == j) implies copy_row_from(
            g,
            v,
            j,
            c,
        )[x][y] == #[trigger] g[x][y] by {
            assert(copy_row_from(g2, v, j, c + 1)[x][y] == g2[x][y]);
            if x == c {
                assert(g2[x] == g[x].update(j, v.grid[c][j]));
                assert(g2[x][y] == g[x][y]);
            } else {
                assert(g2[x] == g[x]);
            }
        }
        assert forall|x: int| c <= x < 8 implies copy_row_from(g, v, j, c)[x][j]
            == #[trigger] v.grid[x][j] by {
            if x == c {
                assert(copy_row_from(g2, v, j, c + 1)[c][j] == g2[c][j]);
            } else {
                assert(copy_row_from(g2, v, j, c + 1)[x][j] == v.grid[x][j]);
            }
        }
    }
}

/// Overwriting a row whose values already agree changes nothing.
proof fn lemma_copy_row_noop(g: Seq<Seq<Option<Piece>>>, v: BoardView, j: int, c: int)
    requires
        grid_dims(g),
        0 <= j < 8,
        forall|x: int| c <= x < 8 ==> #[trigger] g[x][j] == v.grid[x][j],
    ensures
        copy_row_from(g, v, j, c) == g,
    decreases 8 - c,
{
    if 0 <= c < 8 {
        assert(grid_set(g, c, j, v.grid[c][j]) =~~= g);
        lemma_copy_row_noop(g, v, j, c + 1);
    }
}

/// A placement letter names its piece back: the role survives, the
/// case gives the color, and the letter is neither a digit nor a
/// separator.
proof fn lemma_piece_char_round(p: Piece)
    ensures
        char_to_role_spec(piece_char(p)) == Some(p.piece_role),
        is_lower_char(piece_char(p)) == (p.piece_color == PieceColor::Black),
        !is_digit_char(piece_char(p)),
        piece_char(p) != ' ',
        piece_char(p) != '/',
{
}

/// An index into a matched stretch reads the matched character.
proof fn lemma_sub_index(s: Seq<char>, i: int, w: Seq<char>, k: int)
    requires
        0 <= i,
        i + w.len() <= s.len(),
        s.subrange(i, i + w.len()) == w,
        0 <= k < w.len(),
    ensures
        s[i + k] == w[k],
{
    assert(s.subrange(i, i + w.len())[k] == w[k]);
}

/// Walking one written rank from a matching parser state validates and
/// fills exactly that rank's remaining squares.
proof fn lemma_place_row(
    s: Seq<char>,
    g: Seq<Seq<Option<Piece>>>,
    v: BoardView,
    i: int,
    j: int,
    x: int,
    run: int,
)
    requires
        v.grid_wf(),
        grid_dims(g),
        0 <= j < 8,
        0 <= run <= x <= 8,
        0 <= i,
        i + row_fen(v, j, x, run).len() <= s.len(),
        s.subrange(i, i + row_fen(v, j, x, run).len()) == row_fen(v, j, x, run),
        forall|c: int| x - run <= c < x ==> #[trigger] v.grid[c][j] is None,
        forall|c: int| x - run <= c < 8 ==> #[trigger] g[c][j] is None,
    ensures
        place_ok(s, i, j, x - run) == place_ok(s, i + row_fen(v, j, x, run).len(), j, 8),
        place_from(g, s, i, j, x - run) == place_from(
            copy_row_from(g, v, j, x - run),
            s,
            i + row_fen(v, j, x, run).len(),
            j,
            8,
        ),
    decreases 8 - x,
{
    let w = row_fen(v, j, x, run);
    if x >= 8 {
        if run > 0 {
            assert(w =~= seq![digit_char(run)]);
            lemma_sub_index(s, i, w, 0);
            assert(s[i] == digit_char(run));
            assert(is_digit_char(digit_char(run)));
            assert(digit_char(run) != ' ' && digit_char(run) != '/');
            assert(digit_val(digit_char(run)) == run);
            assert(col_clamp(x - run + run) == 8);
            assert forall|c: int| x - run <= c < 8 implies #[trigger] g[c][j] == v.grid[c][j] by {}
            lemma_copy_row_noop(g, v, j, x - run);
        } else {
            assert(w =~= Seq::<char>::empty());
            lemma_copy_row_noop(g, v, j, 8);
        }
    } else {
        match v.grid[x][j] {
            None => {
                assert(w == row_fen(v, j, x + 1, run + 1));
                lemma_place_row(s, g, v, i, j, x + 1, run + 1);
            },
            Some(p) => {
                lemma_piece_char_round(p);
                let hp = if run > 0 {
                    seq![digit_char(run)]
                } else {
                    Seq::<char>::empty()
                };
                let rest = row_fen(v, j, x + 1, 0);
                assert(w == hp + seq![piece_char(p)] + rest);
                assert(w.len() - rest.len() == hp.len() + 1);
                let piece = Piece {
                    piece_role: p.piece_role,
                    piece_color: if is_lower_char(piece_char(p)) {
                        PieceColor::Black
                    } else {
                        PieceColor::White
                    },
                };
                assert(piece == p);
                let g2 = grid_set(g, x, j, Some(p));
                assert(grid_dims(g2));
                let iw = i + w.len();
                let off = w.len() - rest.len();
                assert forall|m: int| 0 <= m < rest.len() implies s[i + off + m] == rest[m] by {
                    lemma_sub_index(s, i, w, off + m);
                    assert(w[off + m] == rest[m]);
                }
                assert(s.subrange(i + off, iw) =~= rest);
                if run > 0 {
                    lemma_sub_index(s, i, w, 0);
                    assert(w[0] == digit_char(run));
                    assert(is_digit_char(digit_char(run)));
                    assert(digit_char(run) != ' ' && digit_char(run) != '/');
                    assert(digit_val(digit_char(run)) == run);
                    assert(col_clamp(x - run + run) == x);
                    lemma_sub_index(s, i, w, 1);
                    assert(w[1] == piece_char(p));
                    assert(place_ok(s, i, j, x - run) == place_ok(s, i + 1, j, x));
                    assert(place_from(g, s, i, j, x - run) == place_from(g, s, i + 1, j, x));
                    assert(place_ok(s, i + 1, j, x) == (x < 8 && place_ok(s, i + 2, j, x + 1)));
                    assert(place_from(g, s, i + 1, j, x) == place_from(g2, s, i + 2, j, x + 1));
                    lemma_place_row(s, g2, v, i + 2, j, x + 1, 0);
                } else {
                    lemma_sub_index(s, i, w, 0);
                    assert(w[0] == piece_char(p));
                    assert(place_ok(s, i, j, x - run) == (x < 8 && place_ok(s, i + 1, j, x + 1)));
                    assert(place_from(g, s, i, j, x) == place_from(g2, s, i + 1, j, x + 1));
                    lemma_place_row(s, g2, v, i + 1, j, x + 1, 0);
                }
                assert(copy_row_from(g, v, j, x - run) == copy_row_from(g2, v, j, x + 1)) by {
                    if run > 0 {
                        assert forall|c: int| x - run <= c < x implies #[trigger] g[c][j]
                            == v.grid[c][j] by {}
                        lemma_copy_row_seg(g, v, j, x - run, x);
                        assert(copy_row_from(g, v, j, x - run) == copy_row_from(g, v, j, x));
                    }
                    assert(copy_row_from(g, v, j, x) == copy_row_from(g2, v, j, x + 1));
                }
            },
        }
    }
}

/// Overwriting a stretch that already agrees can start past it.
proof fn lemma_copy_row_seg(g: Seq<Seq<Option<Piece>>>, v: BoardView, j: int, c: int, c2: int)
    requires
        grid_dims(g),
        0 <= j < 8,
        0 <= c <= c2 <= 8,
        forall|x: int| c <= x < c2 ==> #[trigger] g[x][j] == v.grid[x][j],
    ensures
        copy_row_from(g, v, j, c) == copy_row_from(g, v, j, c2),
    decreases c2 - c,
{
    if c < c2 {
        assert(grid_set(g, c, j, v.grid[c][j]) =~~= g);
        lemma_copy_row_seg(g, v, j, c + 1, c2);
    }
}

/// Overwriting rows keeps the dimensions, writes the position's values
/// on the rows walked, and leaves the rest of the grid alone.
proof fn lemma_copy_rows_value(g: Seq<Seq<Option<Piece>>>, v: BoardView, j: int)
    requires
        grid_dims(g),
        j <= 7,
    ensures
        grid_dims(copy_rows_down(g, v, j)),
        forall|x: int, y: int|
            0 <= x < 8 && 0 <= y < 8 && y <= j ==> copy_rows_down(g, v, j)[x][y]
                == #[trigger] v.grid[x][y],
        forall|x: int, y: int|
            0 <= x < 8 && 0 <= y < 8 && y > j ==> copy_rows_down(g, v, j)[x][y]
                == #[trigger] g[x][y],
    decreases j + 1,
{
    if j >= 0 {
        lemma_copy_row_dims(g, v, j, 0);
        lemma_copy_rows_value(copy_row_from(g, v, j, 0), v, j - 1);
    }
}

/// Walking the written ranks from rank `j` down validates the text and
/// fills those ranks with the position's squares.
proof fn lemma_place_rows(s: Seq<char>, g: Seq<Seq<Option<Piece>>>, v: BoardView, i: int, j: int)
    requires
        v.grid_wf(),
        grid_dims(g),
        0 <= j <= 7,
        0 <= i,
        i + rows_fen_down(v, j).len() == s.len(),
        s.subrange(i, s.len() as int) == rows_fen_down(v, j),
        forall|x: int, y: int| 0 <= x < 8 && 0 <= y <= j ==> #[trigger] g[x][y] is None,
    ensures
        place_ok(s, i, j, 0),
        place_from(g, s, i, j, 0) == copy_rows_down(g, v, j),
    decreases j,
{
    let rows = rows_fen_down(v, j);
    let w = row_fen(v, j, 0, 0);
    assert forall|m: int| 0 <= m < w.len() implies s[i + m] == w[m] by {
        lemma_sub_index(s, i, rows, m);
        if j > 0 {
            assert(rows[m] == w[m]);
        }
    }
    assert(s.subrange(i, i + w.len()) =~= w);
    lemma_place_row(s, g, v, i, j, 0, 0);
    let g1 = copy_row_from(g, v, j, 0);
    lemma_copy_row_dims(g, v, j, 0);
    if j == 0 {
        assert(i + w.len() == s.len());
        assert(place_ok(s, i + w.len(), j, 8));
        assert(place_from(g1, s, i + w.len(), j, 8) == g1);
        assert(copy_rows_down(g, v, 0) == copy_rows_down(g1, v, -1));
    } else {
        lemma_sub_index(s, i, rows, w.len() as int);
        assert(rows[w.len() as int] == '/');
        assert(s[i + w.len()] == '/');
        let i2 = i + w.len() + 1;
        let rest = rows_fen_down(v, j - 1);
        assert forall|m: int| 0 <= m < rest.len() implies s[i2 + m] == rest[m] by {
            lemma_sub_index(s, i, rows, w.len() + 1 + m);
            assert(rows[w.len() + 1 + m] == rest[m]);
        }
        assert(s.subrange(i2, s.len() as int) =~= rest);
        assert forall|x: int, y: int|
            0 <= x < 8 && 0 <= y <= j - 1 implies #[trigger] g1[x][y] is None by {
            assert(g1[x][y] == g[x][y]);
        }
        lemma_place_rows(s, g1, v, i2, j - 1);
        assert(place_ok(s, i + w.len(), j, 8) == place_ok(s, i2, j - 1, 0));
        assert(place_from(g1, s, i + w.len(), j, 8) == place_from(g1, s, i2, j - 1, 0));
    }
}

/// The written placement field parses back to the same grid.
proof fn lemma_placement_round_trip(v: BoardView)
    requires
        v.grid_wf(),
    ensures
        placement_grid(placement_fen(v)) == v.grid,
{
    let s = placement_fen(v);
    let g0 = empty_grid();
    assert(grid_dims(g0));
    assert forall|x: int, y: int| 0 <= x < 8 && 0 <= y <= 7 implies #[trigger] g0[x][y]
        is None by {}
    assert(s.subrange(0, s.len() as int) =~= s);
    lemma_place_rows(s, g0, v, 0, 7);
    lemma_copy_rows_value(g0, v, 7);
    assert(copy_rows_down(g0, v, 7) =~~= v.grid);
}

/// Every field of a position but the grid survives the FEN round trip:
/// parsing the written position recovers the side to move, the castling
/// rights, the en-passant target and both move counters.
pub proof fn lemma_fen_fields_round_trip(v: BoardView)
    requires
        v.grid_wf(),
    ensures
        parse_fen_spec(fen_of(v)).active == v.active,
        parse_fen_spec(fen_of(v)).castling == v.castling,
        parse_fen_spec(fen_of(v)).en_passant == v.en_passant,
        parse_fen_spec(fen_of(v)).halfmove == v.halfmove,
        parse_fen_spec(fen_of(v)).fullmove == v.fullmove,
        parse_fen_spec(fen_of(v)).grid == placement_grid(placement_fen(v)),
{
    let p = placement_fen(v);
    let a = side_fen(v);
    let c = castling_fen(v);
    let e = ep_fen(v);
    let h = dec_digits(v.halfmove as int);
    let f = dec_digits(v.fullmove as int);
    lemma_placement_fen_shape(v, 7);
    lemma_side_fen_shape(v);
    lemma_castling_fen_shape(v);
    lemma_ep_fen_shape(v);
    lemma_dec_digits_shape(v.halfmove as int);
    lemma_dec_digits_shape(v.fullmove as int);
    lemma_split_six(p, a, c, e, h, f);
    let toks = split_ws(fen_of(v));
    assert(toks == seq![p, a, c, e, h, f]);
    assert(toks[1] == a && toks[2] == c && toks[3] == e && toks[4] == h && toks[5] == f);
    lemma_parse_dec_round_trip(v.halfmove);
    lemma_parse_dec_round_trip(v.fullmove);
    match v.en_passant {
        None => {},
        Some(t) => {
            assert(e != seq!['-']);
            assert(parse_fen_spec(fen_of(v)).en_passant == Some(
                ((e[0] as int - 97) as usize, (e[1] as int - 49) as usize),
            ));
        },
    }
}

/// The FEN round trip: parsing the written text of any well-formed
/// position recovers exactly that position, grid and all.
pub proof fn lemma_fen_round_trip(v: BoardView)
    requires
        v.grid_wf(),
    ensures
        parse_fen_spec(fen_of(v)) == v,
{
    lemma_fen_fields_round_trip(v);
    lemma_placement_round_trip(v);
    assert(parse_fen_spec(fen_of(v)) =~= v);
}

} // verus!
