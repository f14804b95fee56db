use vstd::prelude::*;

use crate::piece::Piece;

verus! {

/// Whether `(row, col)` names a cell of the 8x8 grid.
pub open spec fn on_board(row: int, col: int) -> bool {
    0 <= row < 8 && 0 <= col < 8
}

/// A cell of the board, addressed by rank (`row`) and file (`col`).
/// Both components always lie in `[0, 8)`.
#[derive(Clone, Copy, Debug, PartialEq, Eq, Structural)]
pub struct Pos {
    row: usize,
    col: usize,
}

impl View for Pos {
    type V = (int, int);

    closed spec fn view(&self) -> (int, int) {
        (self.row as int, self.col as int)
    }
}

impl Pos {
    #[verifier::type_invariant]
    spec fn inv(self) -> bool {
        self.row < 8 && self.col < 8
    }

    /// Two positions with the same coordinates are the same position.
    pub proof fn lemma_view_injective(self, other: Pos)
        ensures
            self@ == other@ <==> self == other,
    {
    }

    /// The position at `(row, col)`, or `None` when either lies outside `[0, 8)`.
    #[must_use]
    pub fn new(row: isize, col: isize) -> (r: Option<Pos>)
        ensures
            r is Some <==> on_board(row as int, col as int),
            r is Some ==> r->0@ == (row as int, col as int),
    {
        if 0 <= row && row < 8 && 0 <= col && col < 8 {
            Some(Pos { row: row as usize, col: col as usize })
        } else {
            None
        }
    }

    /// The position reached by moving `d.0` ranks and `d.1` files, or `None` when
    /// that leaves the board.
    #[must_use]
    pub fn checked_add(&self, d: (isize, isize)) -> (r: Option<Pos>)
        ensures
            r is Some <==> on_board(self@.0 + d.0, self@.1 + d.1),
            r is Some ==> r->0@ == (self@.0 + d.0, self@.1 + d.1),
    {
        proof {
            use_type_invariant(self);
        }
        let row = self.row as isize;
        let col = self.col as isize;
        if d.0 < -8 || d.0 > 8 || d.1 < -8 || d.1 > 8 {
            return None;
        }
        Pos::new(row + d.0, col + d.1)
    }

    /// The position of the cell at `i` in row-major order.
    pub(crate) fn from_index(i: usize) -> (r: Pos)
        requires
            i < 64,
        ensures
            r@ == ((i / 8) as int, (i % 8) as int),
            r@.0 * 8 + r@.1 == i,
    {
        Pos { row: i / 8, col: i % 8 }
    }

    /// Brings the fact that this position lies on the board into the caller's proof.
    pub(crate) fn on_board_fact(&self)
        ensures
            on_board(self@.0, self@.1),
    {
        proof {
            use_type_invariant(self);
        }
    }

    #[must_use]
    pub fn row(&self) -> (r: usize)
        ensures
            r as int == self@.0,
            r < 8,
    {
        proof {
            use_type_invariant(self);
        }
        self.row
    }

    #[must_use]
    pub fn col(&self) -> (r: usize)
        ensures
            r as int == self@.1,
            r < 8,
    {
        proof {
            use_type_invariant(self);
        }
        self.col
    }
}

} // verus!

verus! {

/// A snapshot of one board cell: where it is and what stood on it.
#[derive(Clone, Copy, Debug, PartialEq, Eq, Structural)]
pub struct Square {
    pub pos: Pos,
    pub content: Option<Piece>,
}

impl Square {
    pub fn pos(&self) -> (r: Pos)
        ensures
            r == self.pos,
    {
        self.pos
    }

    pub fn content(&self) -> (r: Option<Piece>)
        ensures
            r == self.content,
    {
        self.content
    }
}

} // verus!
