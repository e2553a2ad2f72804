//! Pieces and the board grid: roles, colors, and the 8x8 square array.

use vstd::prelude::*;

verus! {

/// The six chess piece kinds.
#[derive(Clone, Copy, PartialEq, Eq, Structural, Debug)]
pub enum PieceRole {
    Pawn,
    Rook,
    Knight,
    Bishop,
    Queen,
    King,
}

/// The two players.
#[derive(Clone, Copy, PartialEq, Eq, Structural, Debug)]
pub enum PieceColor {
    White,
    Black,
}

impl PieceColor {
    /// The opposing color.
    pub open spec fn flip_spec(self) -> PieceColor {
        match self {
            PieceColor::White => PieceColor::Black,
            PieceColor::Black => PieceColor::White,
        }
    }

    /// Returns the opposing color.
    pub fn flip(&self) -> (r: PieceColor)
        ensures
            r == self.flip_spec(),
    {
        match *self {
            PieceColor::White => PieceColor::Black,
            PieceColor::Black => PieceColor::White,
        }
    }
}

/// A piece: a role and a color. Pieces are immutable values compared by
/// equality.
#[derive(Clone, Copy, PartialEq, Eq, Structural, Debug)]
pub struct Piece {
    pub piece_role: PieceRole,
    pub piece_color: PieceColor,
}

/// Number of files on the board.
pub const BOARD_SIZE_I: usize = 8;

/// Number of ranks on the board.
pub const BOARD_SIZE_J: usize = 8;

/// The board grid: an optional piece per square, indexed by file then rank.
pub struct Pieces(pub Vec<Vec<Option<Piece>>>);

impl View for Pieces {
    type V = Seq<Seq<Option<Piece>>>;

    open spec fn view(&self) -> Seq<Seq<Option<Piece>>> {
        self.0@.map_values(|column: Vec<Option<Piece>>| column@)
    }
}

/// The grid `g` with the square at file `x`, rank `y` replaced by `p`.
pub open spec fn grid_set(
    g: Seq<Seq<Option<Piece>>>,
    x: int,
    y: int,
    p: Option<Piece>,
) -> Seq<Seq<Option<Piece>>> {
    g.update(x, g[x].update(y, p))
}

impl Pieces {
    /// A full-size grid: 8 files of 8 ranks each.
    pub open spec fn wf(&self) -> bool {
        &&& self@.len() == 8
        &&& forall|x: int| 0 <= x < 8 ==> (#[trigger] self@[x]).len() == 8
    }

    /// An empty standard-size grid.
    pub fn new() -> (r: Pieces)
        ensures
            r.wf(),
            forall|x: int, y: int| 0 <= x < 8 && 0 <= y < 8 ==> r@[x][y] is None,
    {
        Pieces::with_size(BOARD_SIZE_I, BOARD_SIZE_J)
    }

    /// A grid of `rows` files by `cols` ranks, all squares empty.
    pub fn with_size(rows: usize, cols: usize) -> (r: Pieces)
        ensures
            r@.len() == rows,
            forall|x: int| 0 <= x < rows ==> (#[trigger] r@[x]).len() == cols,
            forall|x: int, y: int| 0 <= x < rows && 0 <= y < cols ==> r@[x][y] is None,
    {
        let mut grid: Vec<Vec<Option<Piece>>> = Vec::new();
        let mut i: usize = 0;
        while i < rows
            invariant
                i <= rows,
                grid@.len() == i,
                forall|x: int| 0 <= x < i ==> (#[trigger] grid@[x])@.len() == cols,
                forall|x: int, y: int| 0 <= x < i && 0 <= y < cols ==> grid@[x]@[y] is None,
            decreases rows - i,
        {
            let mut column: Vec<Option<Piece>> = Vec::new();
            let mut j: usize = 0;
            while j < cols
                invariant
                    j <= cols,
                    column@.len() == j,
                    forall|y: int| 0 <= y < j ==> column@[y] is None,
                decreases cols - j,
            {
                column.push(None);
                j = j + 1;
            }
            grid.push(column);
            i = i + 1;
        }
        Pieces(grid)
    }

    /// Reads the square at file `x`, rank `y`.
    pub fn at(&self, x: usize, y: usize) -> (r: Option<Piece>)
        requires
            self.wf(),
            x < 8,
            y < 8,
        ensures
            r == self@[x as int][y as int],
    {
        proof {
            assert(self@.len() == self.0@.len());
            assert(self@[x as int] == self.0@[x as int]@);
        }
        self.0[x][y]
    }

    /// Replaces the square at file `x`, rank `y` with `p`.
    pub fn set_at(&mut self, x: usize, y: usize, p: Option<Piece>)
        requires
            old(self).wf(),
            x < 8,
            y < 8,
        ensures
            final(self).wf(),
            final(self)@ == grid_set(old(self)@, x as int, y as int, p),
    {
        proof {
            assert(self@.len() == self.0@.len());
            assert(self@[x as int] == self.0@[x as int]@);
        }
        self.0[x][y] = p;
        proof {
            assert(self@ =~= grid_set(old(self)@, x as int, y as int, p));
        }
    }
}

impl Default for Pieces {
    /// An empty standard-size grid.
    fn default() -> (r: Self)
        ensures
            r.wf(),
            forall|x: int, y: int| 0 <= x < 8 && 0 <= y < 8 ==> r@[x][y] is None,
    {
        Pieces::new()
    }
}

impl Clone for Pieces {
    /// A structural copy: the cloned grid holds the same squares.
    fn clone(&self) -> (r: Self)
        ensures
            r@ == self@,
    {
        let mut grid: Vec<Vec<Option<Piece>>> = Vec::new();
        let mut i: usize = 0;
        while i < self.0.len()
            invariant
                i <= self.0@.len(),
                grid@.len() == i,
                forall|x: int| 0 <= x < i ==> (#[trigger] grid@[x])@ == self.0@[x]@,
            decreases self.0@.len() - i,
        {
            let mut column: Vec<Option<Piece>> = Vec::new();
            let mut j: usize = 0;
            while j < self.0[i].len()
                invariant
                    i < self.0@.len(),
                    j <= self.0@[i as int]@.len(),
                    column@.len() == j,
                    forall|y: int| 0 <= y < j ==> column@[y] == self.0@[i as int]@[y],
            decreases self.0@[i as int]@.len() - j,
            {
                column.push(self.0[i][j]);
                j = j + 1;
            }
            proof {
                assert(column@ =~= self.0@[i as int]@);
            }
            grid.push(column);
            i = i + 1;
        }
        let r = Pieces(grid);
        proof {
            assert(r@ =~= self@);
        }
        r
    }
}

} // verus!
