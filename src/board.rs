use vstd::prelude::*;

use crate::movement::{LegalMove, Move};
use crate::piece::{abs, enemy, raw_dests, Piece, PieceType, Team};
use crate::square::{on_board, Pos, Square};

verus! {

/// What stands at `(r, c)` in a row-major grid of 64 cells.
pub open spec fn occupant(cells: Seq<Option<Piece>>, r: int, c: int) -> Option<Piece> {
    cells[r * 8 + c]
}

/// `x` lies strictly between `a` and `b`.
pub open spec fn strictly_between(a: int, b: int, x: int) -> bool {
    (a < x && x < b) || (b < x && x < a)
}

/// The two cells lie on one rank, one file or one diagonal.
pub open spec fn aligned(fr: int, fc: int, tr: int, tc: int) -> bool {
    fr == tr || fc == tc || abs(tr - fr) == abs(tc - fc)
}

/// `(r, c)` is a cell strictly between `(fr, fc)` and `(tr, tc)` on the rank,
/// file or diagonal that joins them.
pub open spec fn on_segment(fr: int, fc: int, tr: int, tc: int, r: int, c: int) -> bool {
    if fr == tr {
        r == fr && strictly_between(fc, tc, c)
    } else if fc == tc {
        c == fc && strictly_between(fr, tr, r)
    } else {
        strictly_between(fr, tr, r) && strictly_between(fc, tc, c) && abs(r - fr) == abs(c - fc)
    }
}

/// Every cell strictly between the two is empty.
pub open spec fn clear_between(cells: Seq<Option<Piece>>, fr: int, fc: int, tr: int, tc: int) -> bool {
    forall|r: int, c: int| #[trigger] on_segment(fr, fc, tr, tc, r, c) ==> occupant(cells, r, c) is None
}

/// The piece on `(fr, fc)` may move to `(tr, tc)` by its geometry and the
/// occupancy of the board, before any check is considered.
pub open spec fn pseudo_legal(cells: Seq<Option<Piece>>, fr: int, fc: int, tr: int, tc: int) -> bool {
    &&& on_board(fr, fc)
    &&& on_board(tr, tc)
    &&& occupant(cells, fr, fc) is Some
    &&& {
        let p = occupant(cells, fr, fc)->0;
        let dest = occupant(cells, tr, tc);
        &&& p.reaches(tr - fr, tc - fc)
        &&& !(dest is Some && dest->0.team == p.team)
        &&& p.slides() ==> clear_between(cells, fr, fc, tr, tc)
        &&& p.piece_type == PieceType::Pawn ==> if tc == fc {
            dest is None
        } else {
            dest is Some
        }
    }
}

/// The cells of `ds` to which the piece on `(fr, fc)` may move, in order.
pub open spec fn pseudo_dests(cells: Seq<Option<Piece>>, fr: int, fc: int, ds: Seq<(int, int)>) -> Seq<
    (int, int),
> {
    ds.filter(|d: (int, int)| pseudo_legal(cells, fr, fc, d.0, d.1))
}

/// The destinations of the pseudo-legal moves of the piece on `(fr, fc)`, in
/// generation order; none for an empty cell.
pub open spec fn move_dests(cells: Seq<Option<Piece>>, fr: int, fc: int) -> Seq<(int, int)> {
    match occupant(cells, fr, fc) {
        Some(p) => pseudo_dests(cells, fr, fc, raw_dests(p, fr, fc)),
        None => Seq::empty(),
    }
}

/// Every cell, rank by rank from rank 0, each rank from file 0.
pub open spec fn all_cells() -> Seq<(int, int)> {
    Seq::new(64, |i: int| (i / 8, i % 8))
}

/// The cells of `s` that hold a piece of `team`, in order.
pub open spec fn team_cells(cells: Seq<Option<Piece>>, team: Team, s: Seq<(int, int)>) -> Seq<(int, int)> {
    s.filter(|p: (int, int)| occupant(cells, p.0, p.1) is Some && occupant(cells, p.0, p.1)->0.team == team)
}

/// The cells that hold a piece of `team`, in row-major order.
pub open spec fn piece_cells(cells: Seq<Option<Piece>>, team: Team) -> Seq<(int, int)> {
    team_cells(cells, team, all_cells())
}

/// `acc` followed by the cells of `ds` that are not already listed, in order.
pub open spec fn add_new(acc: Seq<(int, int)>, ds: Seq<(int, int)>) -> Seq<(int, int)>
    decreases ds.len(),
{
    if ds.len() == 0 {
        acc
    } else {
        let a = add_new(acc, ds.drop_last());
        if a.contains(ds.last()) {
            a
        } else {
            a.push(ds.last())
        }
    }
}

/// The destinations of the pieces on `pcs`, taken piece by piece in order,
/// each cell listed once, where it first appears.
pub open spec fn attack_list(cells: Seq<Option<Piece>>, pcs: Seq<(int, int)>) -> Seq<(int, int)>
    decreases pcs.len(),
{
    if pcs.len() == 0 {
        Seq::empty()
    } else {
        add_new(attack_list(cells, pcs.drop_last()), move_dests(cells, pcs.last().0, pcs.last().1))
    }
}

/// The legal moves of `team` from the pieces on `pcs`, as origin and
/// destination, piece by piece in order.
pub open spec fn legal_list(cells: Seq<Option<Piece>>, team: Team, pcs: Seq<(int, int)>) -> Seq<
    ((int, int), (int, int)),
>
    decreases pcs.len(),
{
    if pcs.len() == 0 {
        Seq::empty()
    } else {
        let from = pcs.last();
        legal_list(cells, team, pcs.drop_last()) + legal_dests(cells, team, from.0, from.1).map_values(
            |d: (int, int)| (from, d),
        )
    }
}

/// Some piece of `team` may move to `(tr, tc)`.
pub open spec fn attacked(cells: Seq<Option<Piece>>, team: Team, tr: int, tc: int) -> bool {
    exists|fr: int, fc: int|
        #[trigger] pseudo_legal(cells, fr, fc, tr, tc) && occupant(cells, fr, fc)->0.team == team
}

/// The grid after the piece on `(fr, fc)` is placed, as it is, on `(tr, tc)`.
pub open spec fn shifted(cells: Seq<Option<Piece>>, fr: int, fc: int, tr: int, tc: int) -> Seq<
    Option<Piece>,
> {
    cells.update(tr * 8 + tc, occupant(cells, fr, fc)).update(fr * 8 + fc, None)
}

/// `p` marked as having moved, when there is a piece.
pub open spec fn touched(p: Option<Piece>) -> Option<Piece> {
    match p {
        Some(q) => Some(Piece { has_moved: true, ..q }),
        None => None,
    }
}

/// The grid after the piece on `(fr, fc)` moves to `(tr, tc)` and is marked
/// as having moved.
pub open spec fn applied(cells: Seq<Option<Piece>>, fr: int, fc: int, tr: int, tc: int) -> Seq<
    Option<Piece>,
> {
    cells.update(tr * 8 + tc, touched(occupant(cells, fr, fc))).update(fr * 8 + fc, None)
}

/// No king stands on a cell that `team` attacks.
pub open spec fn no_king_attacked(cells: Seq<Option<Piece>>, team: Team) -> bool {
    forall|r: int, c: int|
        #[trigger] attacked(cells, team, r, c) ==> !(occupant(cells, r, c) is Some && occupant(
            cells,
            r,
            c,
        )->0.piece_type == PieceType::King)
}

/// Moving the piece on `(fr, fc)` to `(tr, tc)` leaves no king that the
/// opponent of `mover` could capture next.
pub open spec fn safe_after(cells: Seq<Option<Piece>>, mover: Team, fr: int, fc: int, tr: int, tc: int) -> bool {
    no_king_attacked(shifted(cells, fr, fc, tr, tc), enemy(mover))
}

/// `team` may move the piece on `(fr, fc)` to `(tr, tc)`: the move is
/// pseudo-legal, the piece belongs to `team`, and the move does not leave a
/// king open to capture.
pub open spec fn legal(cells: Seq<Option<Piece>>, team: Team, fr: int, fc: int, tr: int, tc: int) -> bool {
    &&& pseudo_legal(cells, fr, fc, tr, tc)
    &&& occupant(cells, fr, fc)->0.team == team
    &&& safe_after(cells, team, fr, fc, tr, tc)
}

/// The piece that starts on file `c` of a back rank.
pub open spec fn back_rank(c: int) -> PieceType {
    if c == 0 || c == 7 {
        PieceType::Rook
    } else if c == 1 || c == 6 {
        PieceType::Knight
    } else if c == 2 || c == 5 {
        PieceType::Bishop
    } else if c == 3 {
        PieceType::Queen
    } else {
        PieceType::King
    }
}

/// What stands on `(r, c)` in the standard starting position: black on
/// ranks 0 and 1, white on ranks 6 and 7.
pub open spec fn start_occupant(r: int, c: int) -> Option<Piece> {
    if r == 0 {
        Some(Piece { piece_type: back_rank(c), team: Team::Black, has_moved: false })
    } else if r == 1 {
        Some(Piece { piece_type: PieceType::Pawn, team: Team::Black, has_moved: false })
    } else if r == 6 {
        Some(Piece { piece_type: PieceType::Pawn, team: Team::White, has_moved: false })
    } else if r == 7 {
        Some(Piece { piece_type: back_rank(c), team: Team::White, has_moved: false })
    } else {
        None
    }
}

fn start_cell(r: usize, c: usize) -> (p: Option<Piece>)
    ensures
        p == start_occupant(r as int, c as int),
{
    let kind = if c == 0 || c == 7 {
        PieceType::Rook
    } else if c == 1 || c == 6 {
        PieceType::Knight
    } else if c == 2 || c == 5 {
        PieceType::Bishop
    } else if c == 3 {
        PieceType::Queen
    } else {
        PieceType::King
    };
    if r == 0 {
        Some(Piece::new(kind, Team::Black))
    } else if r == 1 {
        Some(Piece::new(PieceType::Pawn, Team::Black))
    } else if r == 6 {
        Some(Piece::new(PieceType::Pawn, Team::White))
    } else if r == 7 {
        Some(Piece::new(kind, Team::White))
    } else {
        None
    }
}

/// Two grids that differ at most in the moved marks of pieces not of `team`
/// give `team` the same attacks.
pub proof fn lemma_attacks_ignore_marks(c1: Seq<Option<Piece>>, c2: Seq<Option<Piece>>, team: Team)
    requires
        c1.len() == 64,
        c2.len() == 64,
        forall|i: int|
            0 <= i < 64 ==> {
                &&& (#[trigger] c1[i] is Some) == (c2[i] is Some)
                &&& c1[i] is Some ==> c1[i]->0.team == c2[i]->0.team && c1[i]->0.piece_type
                    == c2[i]->0.piece_type
                &&& (c1[i] is Some && c1[i]->0.team == team) ==> c1[i] == c2[i]
            },
    ensures
        forall|r: int, c: int| #[trigger] attacked(c1, team, r, c) == attacked(c2, team, r, c),
{
    assert forall|fr: int, fc: int, tr: int, tc: int|
        occupant(c1, fr, fc) is Some && occupant(c1, fr, fc)->0.team == team implies #[trigger] pseudo_legal(
        c1,
        fr,
        fc,
        tr,
        tc,
    ) == pseudo_legal(c2, fr, fc, tr, tc) by {
        if on_board(fr, fc) && on_board(tr, tc) {
            assert(c1[fr * 8 + fc] == c2[fr * 8 + fc]);
            assert(c1[tr * 8 + tc] is Some == c2[tr * 8 + tc] is Some);
            assert forall|r: int, c: int| #[trigger] on_segment(fr, fc, tr, tc, r, c) implies (occupant(
                c1,
                r,
                c,
            ) is None) == (occupant(c2, r, c) is None) by {
                assert(c1[r * 8 + c] is Some == c2[r * 8 + c] is Some);
            }
            assert(clear_between(c1, fr, fc, tr, tc) == clear_between(c2, fr, fc, tr, tc));
        }
    }
    assert forall|fr: int, fc: int, tr: int, tc: int|
        occupant(c2, fr, fc) is Some && occupant(c2, fr, fc)->0.team == team implies #[trigger] pseudo_legal(
        c1,
        fr,
        fc,
        tr,
        tc,
    ) == pseudo_legal(c2, fr, fc, tr, tc) by {
        if on_board(fr, fc) {
            assert(c1[fr * 8 + fc] is Some);
        }
    }
    assert forall|r: int, c: int| #[trigger] attacked(c1, team, r, c) == attacked(c2, team, r, c) by {
        if attacked(c1, team, r, c) {
            let (fr, fc) = choose|fr: int, fc: int|
                #[trigger] pseudo_legal(c1, fr, fc, r, c) && occupant(c1, fr, fc)->0.team == team;
            assert(pseudo_legal(c2, fr, fc, r, c));
        }
        if attacked(c2, team, r, c) {
            let (fr, fc) = choose|fr: int, fc: int|
                #[trigger] pseudo_legal(c2, fr, fc, r, c) && occupant(c2, fr, fc)->0.team == team;
            assert(pseudo_legal(c1, fr, fc, r, c));
        }
    }
}

/// The cells of `ds` to which moving the piece on `(fr, fc)` leaves no king
/// of `team` open to capture, in order.
pub open spec fn safe_dests(
    cells: Seq<Option<Piece>>,
    team: Team,
    fr: int,
    fc: int,
    ds: Seq<(int, int)>,
) -> Seq<(int, int)> {
    ds.filter(|d: (int, int)| safe_after(cells, team, fr, fc, d.0, d.1))
}

/// The destinations of the legal moves of `team`'s piece on `(fr, fc)`, in
/// generation order; none unless that cell holds a piece of `team`.
pub open spec fn legal_dests(cells: Seq<Option<Piece>>, team: Team, fr: int, fc: int) -> Seq<(int, int)> {
    if occupant(cells, fr, fc) is Some && occupant(cells, fr, fc)->0.team == team {
        safe_dests(cells, team, fr, fc, move_dests(cells, fr, fc))
    } else {
        Seq::empty()
    }
}

/// The two legal moves differ in their origin or in their destination.
pub open spec fn distinct_moves(a: LegalMove, b: LegalMove) -> bool {
    a.movement().from.pos@ != b.movement().from.pos@ || a.movement().to.pos@ != b.movement().to.pos@
}

/// Whether some snapshot in `v` is of the cell `p`.
fn holds_pos(v: &Vec<Square>, p: Pos) -> (r: bool)
    ensures
        r == exists|k: int| 0 <= k < v@.len() && v@[k].pos@ == p@,
{
    let mut i: usize = 0;
    while i < v.len()
        invariant
            i <= v@.len(),
            forall|k: int| 0 <= k < i ==> v@[k].pos@ != p@,
        decreases v@.len() - i,
    {
        proof {
            v@[i as int].pos.lemma_view_injective(p);
        }
        if v[i].pos == p {
            return true;
        }
        i = i + 1;
    }
    false
}

/// The 8x8 grid of optional pieces, together with the side to move.
#[derive(Clone, Copy, Debug, PartialEq, Eq)]
pub struct Board {
    squares: [Option<Piece>; 64],
    team: Team,
}

impl Default for Board {
    /// The standard starting position, white to move.
    fn default() -> (r: Board)
        ensures
            r.side() == Team::White,
            forall|i: int, j: int| on_board(i, j) ==> #[trigger] occupant(r.cells(), i, j) == start_occupant(i, j),
    {
        let mut b = Board::new();
        let mut i: usize = 0;
        while i < 64
            invariant
                i <= 64,
                b.side() == Team::White,
                forall|k: int| 0 <= k < i ==> #[trigger] b.cells()[k] == start_occupant(k / 8, k % 8),
            decreases 64 - i,
        {
            let ghost prev = b.cells();
            b.squares[i] = start_cell(i / 8, i % 8);
            assert(b.cells() == prev.update(i as int, start_occupant(i as int / 8, i as int % 8)));
            i = i + 1;
        }
        assert forall|r: int, c: int| on_board(r, c) implies #[trigger] occupant(b.cells(), r, c) == start_occupant(r, c) by {
            assert((r * 8 + c) / 8 == r && (r * 8 + c) % 8 == c);
        }
        b
    }
}

impl Board {
    /// The cells in row-major order: `(r, c)` is at `r * 8 + c`.
    pub closed spec fn cells(self) -> Seq<Option<Piece>> {
        self.squares@
    }

    /// The side to move.
    pub closed spec fn side(self) -> Team {
        self.team
    }

    /// The board with no pieces, white to move.
    pub fn new() -> (r: Board)
        ensures
            r.cells() == Seq::new(64, |i: int| None::<Piece>),
            r.side() == Team::White,
    {
        let mut squares: [Option<Piece>; 64] = [None; 64];
        let mut i: usize = 0;
        while i < 64
            invariant
                i <= 64,
                forall|k: int| 0 <= k < i ==> #[trigger] squares@[k] == None::<Piece>,
            decreases 64 - i,
        {
            let ghost prev = squares@;
            squares[i] = None;
            assert(squares@ == prev.update(i as int, None));
            i = i + 1;
        }
        let b = Board { squares, team: Team::White };
        assert(b.cells() =~= Seq::new(64, |i: int| None::<Piece>));
        b
    }

    /// The side whose move it is.
    pub fn team(&self) -> (r: Team)
        ensures
            r == self.side(),
    {
        self.team
    }

    /// What stands on `pos`.
    pub fn at(&self, pos: Pos) -> (r: Option<Piece>)
        ensures
            r == occupant(self.cells(), pos@.0, pos@.1),
    {
        self.squares[pos.row() * 8 + pos.col()]
    }

    /// The snapshot of the cell `pos`.
    pub open spec fn square_spec(self, pos: Pos) -> Square {
        Square { pos, content: occupant(self.cells(), pos@.0, pos@.1) }
    }

    /// A snapshot of the cell `pos`.
    pub fn square(&self, pos: Pos) -> (r: Square)
        ensures
            r == self.square_spec(pos),
    {
        Square { pos, content: self.at(pos) }
    }

    /// Whether every cell strictly between `from` and `to`, which must share a
    /// rank, a file or a diagonal, is empty.
    pub fn is_empty_between(&self, from: Pos, to: Pos) -> (r: bool)
        requires
            aligned(from@.0, from@.1, to@.0, to@.1),
        ensures
            r == clear_between(self.cells(), from@.0, from@.1, to@.0, to@.1),
    {
        let fr = from.row() as isize;
        let fc = from.col() as isize;
        let tr = to.row() as isize;
        let tc = to.col() as isize;
        let sr: isize = if tr > fr {
            1
        } else if tr < fr {
            -1
        } else {
            0
        };
        let sc: isize = if tc > fc {
            1
        } else if tc < fc {
            -1
        } else {
            0
        };
        let mut r = fr + sr;
        let mut c = fc + sc;
        while !(r == tr && c == tc)
            invariant
                fr == from@.0 && fc == from@.1 && tr == to@.0 && tc == to@.1,
                on_board(fr as int, fc as int),
                on_board(tr as int, tc as int),
                aligned(fr as int, fc as int, tr as int, tc as int),
                sr == (if tr > fr { 1isize } else if tr < fr { -1isize } else { 0isize }),
                sc == (if tc > fc { 1isize } else if tc < fc { -1isize } else { 0isize }),
                on_segment(fr as int, fc as int, tr as int, tc as int, r as int, c as int) || (r
                    == tr && c == tc),
                forall|x: int, y: int|
                    #[trigger] on_segment(fr as int, fc as int, r as int, c as int, x, y)
                        ==> occupant(self.cells(), x, y) is None,
            decreases abs(tr - r) + abs(tc - c),
        {
            assert(on_segment(fr as int, fc as int, tr as int, tc as int, r as int, c as int));
            if self.squares[(r * 8 + c) as usize].is_some() {
                assert(occupant(self.cells(), r as int, c as int) is Some);
                return false;
            }
            let ghost (pr, pc) = (r as int, c as int);
            r = r + sr;
            c = c + sc;
            assert forall|x: int, y: int|
                #[trigger] on_segment(fr as int, fc as int, r as int, c as int, x, y) implies occupant(
                self.cells(),
                x,
                y,
            ) is None by {
                if !(x == pr && y == pc) {
                    assert(on_segment(fr as int, fc as int, pr, pc, x, y));
                }
            }
        }
        true
    }

    /// Whether the piece `p` standing on `from` may move to `to`, given what
    /// occupies the board; `to` must be one of its geometric destinations.
    fn admits(&self, p: Piece, from: Pos, to: Pos) -> (r: bool)
        requires
            occupant(self.cells(), from@.0, from@.1) == Some(p),
            on_board(from@.0, from@.1),
            on_board(to@.0, to@.1),
            p.reaches(to@.0 - from@.0, to@.1 - from@.1),
        ensures
            r == pseudo_legal(self.cells(), from@.0, from@.1, to@.0, to@.1),
    {
        let dest = self.at(to);
        match dest {
            Some(d) => {
                if d.team == p.team {
                    return false;
                }
            },
            None => {},
        }
        if p.is_slider() && !self.is_empty_between(from, to) {
            return false;
        }
        match p.piece_type {
            PieceType::Pawn => {
                if to.col() == from.col() {
                    dest.is_none()
                } else {
                    dest.is_some()
                }
            },
            _ => true,
        }
    }

    /// The pseudo-legal moves of the piece on `from`: every geometric
    /// destination that is not held by a piece of its own side, is not past a
    /// blocker for a sliding piece, and, for a pawn, is empty straight ahead or
    /// occupied diagonally. Empty when `from` is empty.
    pub fn moves(&self, from: Pos) -> (r: Vec<Move>)
        ensures
            self.lists_moves(from, r@),
    {
        from.on_board_fact();
        let piece = match self.at(from) {
            None => {
                return Vec::new();
            },
            Some(p) => p,
        };
        let raws = piece.raw_moves(from);
        let mut v: Vec<Move> = Vec::new();
        let ghost mut src: Seq<int> = Seq::empty();
        let mut i: usize = 0;
        while i < raws.len()
            invariant
                i <= raws@.len(),
                raws@.len() == raw_dests(piece, from@.0, from@.1).len(),
                forall|k: int| 0 <= k < raws@.len() ==> #[trigger] raws@[k].to@ == raw_dests(piece, from@.0, from@.1)[k],
                v@.len() == pseudo_dests(self.cells(), from@.0, from@.1, raw_dests(piece, from@.0, from@.1).take(i as int)).len(),
                forall|k: int|
                    0 <= k < v@.len() ==> #[trigger] v@[k].to.pos@ == pseudo_dests(
                        self.cells(),
                        from@.0,
                        from@.1,
                        raw_dests(piece, from@.0, from@.1).take(i as int),
                    )[k],
                forall|a: int, b: int| 0 <= a < b < raws@.len() ==> raws@[a].to@ != raws@[b].to@,
                src.len() == v@.len(),
                forall|k: int| 0 <= k < v@.len() ==> 0 <= #[trigger] src[k] < i && v@[k].to.pos == raws@[src[k]].to,
                forall|a: int, b: int| 0 <= a < b < v@.len() ==> v@[a].to.pos@ != v@[b].to.pos@,
                on_board(from@.0, from@.1),
                occupant(self.cells(), from@.0, from@.1) == Some(piece),
                forall|k: int|
                    0 <= k < raws@.len() ==> {
                        let m = #[trigger] raws@[k];
                        &&& m.from == from
                        &&& on_board(m.to@.0, m.to@.1)
                        &&& piece.reaches(m.to@.0 - from@.0, m.to@.1 - from@.1)
                    },
                forall|k: int|
                    0 <= k < v@.len() ==> {
                        let m = #[trigger] v@[k];
                        &&& m.from == self.square_spec(from)
                        &&& m.to.content == occupant(self.cells(), m.to.pos@.0, m.to.pos@.1)
                        &&& pseudo_legal(self.cells(), from@.0, from@.1, m.to.pos@.0, m.to.pos@.1)
                    },
                forall|j: int|
                    0 <= j < i && pseudo_legal(
                        self.cells(),
                        from@.0,
                        from@.1,
                        raws@[j].to@.0,
                        raws@[j].to@.1,
                    ) ==> exists|k: int| 0 <= k < v@.len() && v@[k].to.pos@ == raws@[j].to@,
            decreases raws@.len() - i,
        {
            let to = raws[i].to;
            let ghost prev = v@;
            proof {
                let rd = raw_dests(piece, from@.0, from@.1);
                let g = |d: (int, int)| pseudo_legal(self.cells(), from@.0, from@.1, d.0, d.1);
                assert(rd.take(i + 1) =~= rd.take(i as int).push(rd[i as int]));
                rd.take(i as int).lemma_filter_push(rd[i as int], g);
            }
            if self.admits(piece, from, to) {
                v.push(Move { from: self.square(from), to: self.square(to) });
                proof {
                    src = src.push(i as int);
                }
                assert forall|a: int, b: int| 0 <= a < b < v@.len() implies v@[a].to.pos@ != v@[b].to.pos@ by {
                    if b == v@.len() - 1 {
                        assert(v@[a] == prev[a]);
                        assert(src[a] < i);
                    } else {
                        assert(v@[a] == prev[a] && v@[b] == prev[b]);
                    }
                }
                assert forall|j: int|
                    0 <= j < i + 1 && pseudo_legal(
                        self.cells(),
                        from@.0,
                        from@.1,
                        raws@[j].to@.0,
                        raws@[j].to@.1,
                    ) implies exists|k: int| 0 <= k < v@.len() && v@[k].to.pos@ == raws@[j].to@ by {
                    if j == i {
                        assert(v@[v@.len() - 1].to.pos == to);
                    } else {
                        let k = choose|k: int| 0 <= k < prev.len() && prev[k].to.pos@ == raws@[j].to@;
                        assert(v@[k] == prev[k]);
                    }
                }
            }
            i = i + 1;
        }
        assert(raw_dests(piece, from@.0, from@.1).take(raws@.len() as int) =~= raw_dests(
            piece,
            from@.0,
            from@.1,
        ));
        assert forall|tr: int, tc: int|
            #[trigger] pseudo_legal(self.cells(), from@.0, from@.1, tr, tc) implies exists|k: int|
                0 <= k < v@.len() && v@[k].to.pos@ == (tr, tc) by {
            assert(piece.reaches(tr - from@.0, tc - from@.1));
            let j = choose|j: int| 0 <= j < raws@.len() && raws@[j].to@ == (tr, tc);
        }
        v
    }

    /// Snapshots of every cell that holds a piece of `team`.
    pub fn enumerate_pieces(&self, team: Team) -> (r: Vec<Square>)
        ensures
            forall|k: int|
                0 <= k < r@.len() ==> {
                    let sq = #[trigger] r@[k];
                    &&& sq == self.square_spec(sq.pos)
                    &&& on_board(sq.pos@.0, sq.pos@.1)
                    &&& sq.content is Some
                    &&& sq.content->0.team == team
                },
            forall|fr: int, fc: int|
                on_board(fr, fc) && #[trigger] occupant(self.cells(), fr, fc) is Some && occupant(
                    self.cells(),
                    fr,
                    fc,
                )->0.team == team ==> exists|k: int| 0 <= k < r@.len() && r@[k].pos@ == (fr, fc),
            forall|a: int, b: int| 0 <= a < b < r@.len() ==> r@[a].pos@ != r@[b].pos@,
            r@.len() == piece_cells(self.cells(), team).len(),
            forall|k: int| 0 <= k < r@.len() ==> #[trigger] r@[k].pos@ == piece_cells(self.cells(), team)[k],
    {
        let mut v: Vec<Square> = Vec::new();
        let mut i: usize = 0;
        while i < 64
            invariant
                i <= 64,
                v@.len() == team_cells(self.cells(), team, all_cells().take(i as int)).len(),
                forall|k: int|
                    0 <= k < v@.len() ==> #[trigger] v@[k].pos@ == team_cells(
                        self.cells(),
                        team,
                        all_cells().take(i as int),
                    )[k],
                forall|k: int| 0 <= k < v@.len() ==> (#[trigger] v@[k]).pos@.0 * 8 + v@[k].pos@.1 < i,
                forall|a: int, b: int| 0 <= a < b < v@.len() ==> v@[a].pos@ != v@[b].pos@,
                forall|k: int|
                    0 <= k < v@.len() ==> {
                        let sq = #[trigger] v@[k];
                        &&& sq == self.square_spec(sq.pos)
                        &&& on_board(sq.pos@.0, sq.pos@.1)
                        &&& sq.content is Some
                        &&& sq.content->0.team == team
                    },
                forall|fr: int, fc: int|
                    on_board(fr, fc) && fr * 8 + fc < i && #[trigger] occupant(self.cells(), fr, fc)
                        is Some && occupant(self.cells(), fr, fc)->0.team == team ==> exists|k: int|
                        0 <= k < v@.len() && v@[k].pos@ == (fr, fc),
            decreases 64 - i,
        {
            let pos = Pos::from_index(i);
            pos.on_board_fact();
            let ghost prev = v@;
            proof {
                let ac = all_cells();
                let g = |p: (int, int)| occupant(self.cells(), p.0, p.1) is Some && occupant(self.cells(), p.0, p.1)->0.team == team;
                assert(ac.take(i + 1) =~= ac.take(i as int).push(ac[i as int]));
                ac.take(i as int).lemma_filter_push(ac[i as int], g);
                assert(ac[i as int] == pos@);
            }
            match self.at(pos) {
                Some(p) => {
                    if p.team == team {
                        v.push(self.square(pos));
                        assert(v@[v@.len() - 1].pos == pos);
                        assert forall|k: int| 0 <= k < prev.len() implies v@[k] == prev[k] by {}
                        assert forall|a: int, b: int| 0 <= a < b < v@.len() implies v@[a].pos@ != v@[b].pos@ by {
                            assert(v@[a] == prev[a]);
                        }
                        assert forall|fr: int, fc: int|
                            on_board(fr, fc) && fr * 8 + fc < i + 1 && #[trigger] occupant(
                                self.cells(),
                                fr,
                                fc,
                            ) is Some && occupant(self.cells(), fr, fc)->0.team == team implies exists|
                            k: int,
                        | 0 <= k < v@.len() && v@[k].pos@ == (fr, fc) by {
                            if fr * 8 + fc < i {
                                let k = choose|k: int| 0 <= k < prev.len() && prev[k].pos@ == (fr, fc);
                                assert(v@[k] == prev[k]);
                            }
                        }
                    }
                },
                None => {},
            }
            i = i + 1;
        }
        assert(all_cells().take(64) =~= all_cells());
        v
    }

    /// Snapshots of the cells that some piece of `team` could move onto next:
    /// the union of the destinations of `moves` over every piece of `team`.
    #[verifier::rlimit(40)]
    pub fn attacked_squares(&self, team: Team) -> (r: Vec<Square>)
        ensures
            self.lists_attacks(team, r@),
    {
        let pieces = self.enumerate_pieces(team);
        let mut v: Vec<Square> = Vec::new();
        let mut i: usize = 0;
        while i < pieces.len()
            invariant
                i <= pieces@.len(),
                pieces@.len() == piece_cells(self.cells(), team).len(),
                forall|k: int| 0 <= k < pieces@.len() ==> #[trigger] pieces@[k].pos@ == piece_cells(self.cells(), team)[k],
                v@.len() == attack_list(self.cells(), piece_cells(self.cells(), team).take(i as int)).len(),
                forall|k: int|
                    0 <= k < v@.len() ==> #[trigger] v@[k].pos@ == attack_list(
                        self.cells(),
                        piece_cells(self.cells(), team).take(i as int),
                    )[k],
                forall|k: int|
                    0 <= k < pieces@.len() ==> {
                        let sq = #[trigger] pieces@[k];
                        &&& sq == self.square_spec(sq.pos)
                        &&& on_board(sq.pos@.0, sq.pos@.1)
                        &&& sq.content is Some
                        &&& sq.content->0.team == team
                    },
                forall|k: int|
                    0 <= k < v@.len() ==> {
                        let sq = #[trigger] v@[k];
                        &&& sq == self.square_spec(sq.pos)
                        &&& attacked(self.cells(), team, sq.pos@.0, sq.pos@.1)
                    },
                forall|a: int, b: int| 0 <= a < b < v@.len() ==> v@[a].pos@ != v@[b].pos@,
                forall|j: int, tr: int, tc: int|
                    0 <= j < i && #[trigger] pseudo_legal(
                        self.cells(),
                        pieces@[j].pos@.0,
                        pieces@[j].pos@.1,
                        tr,
                        tc,
                    ) ==> exists|k: int| 0 <= k < v@.len() && v@[k].pos@ == (tr, tc),
            decreases pieces@.len() - i,
        {
            let from = pieces[i].pos;
            let ms = self.moves(from);
            let ghost before = v@;
            let ghost base = attack_list(self.cells(), piece_cells(self.cells(), team).take(i as int));
            let ghost md = move_dests(self.cells(), from@.0, from@.1);
            let mut l: usize = 0;
            while l < ms.len()
                invariant
                    l <= ms@.len(),
                    self.lists_moves(from, ms@),
                    md == move_dests(self.cells(), from@.0, from@.1),
                    v@.len() == add_new(base, md.take(l as int)).len(),
                    forall|k: int| 0 <= k < v@.len() ==> #[trigger] v@[k].pos@ == add_new(base, md.take(l as int))[k],
                    i < pieces@.len(),
                    from == pieces@[i as int].pos,
                    pieces@[i as int] == self.square_spec(from),
                    pieces@[i as int].content is Some,
                    pieces@[i as int].content->0.team == team,
                    forall|k: int|
                        0 <= k < ms@.len() ==> {
                            let m = #[trigger] ms@[k];
                            &&& m.to.content == occupant(self.cells(), m.to.pos@.0, m.to.pos@.1)
                            &&& pseudo_legal(self.cells(), from@.0, from@.1, m.to.pos@.0, m.to.pos@.1)
                        },
                    forall|k: int|
                        0 <= k < v@.len() ==> {
                            let sq = #[trigger] v@[k];
                            &&& sq == self.square_spec(sq.pos)
                            &&& attacked(self.cells(), team, sq.pos@.0, sq.pos@.1)
                        },
                    forall|a: int, b: int| 0 <= a < b < v@.len() ==> v@[a].pos@ != v@[b].pos@,
                    v@.len() >= before.len(),
                    forall|k: int| 0 <= k < before.len() ==> v@[k] == before[k],
                    forall|n: int|
                        0 <= n < l ==> exists|k: int|
                            0 <= k < v@.len() && v@[k].pos@ == (#[trigger] ms@[n]).to.pos@,
                decreases ms@.len() - l,
            {
                let ghost prev = v@;
                let to = ms[l].to;
                assert(pseudo_legal(self.cells(), from@.0, from@.1, to.pos@.0, to.pos@.1));
                assert(attacked(self.cells(), team, to.pos@.0, to.pos@.1));
                proof {
                    let a = add_new(base, md.take(l as int));
                    assert(md.take(l + 1).drop_last() =~= md.take(l as int));
                    assert(md.take(l + 1).last() == md[l as int]);
                    assert(to.pos@ == md[l as int]);
                    if a.contains(to.pos@) {
                        let k = choose|k: int| 0 <= k < a.len() && a[k] == to.pos@;
                        assert(v@[k].pos@ == to.pos@);
                    }
                }
                if !holds_pos(&v, to.pos) {
                    v.push(to);
                    assert(v@[v@.len() - 1] == to);
                    assert forall|a: int, b: int| 0 <= a < b < v@.len() implies v@[a].pos@ != v@[b].pos@ by {
                        assert(v@[a] == prev[a]);
                        if b < v@.len() - 1 {
                            assert(v@[b] == prev[b]);
                        }
                    }
                    assert forall|n: int| 0 <= n < l + 1 implies exists|k: int|
                        0 <= k < v@.len() && v@[k].pos@ == (#[trigger] ms@[n]).to.pos@ by {
                        if n == l {
                            assert(v@[v@.len() - 1] == to);
                        } else {
                            let k = choose|k: int| 0 <= k < prev.len() && prev[k].pos@ == ms@[n].to.pos@;
                            assert(v@[k] == prev[k]);
                        }
                    }
                }
                assert(v@.len() == add_new(base, md.take(l + 1)).len());
                l = l + 1;
            }
            proof {
                let pc = piece_cells(self.cells(), team);
                assert(md.take(ms@.len() as int) =~= md);
                assert(pc.take(i + 1).drop_last() =~= pc.take(i as int));
                assert(pc.take(i + 1).last() == from@);
            }
            assert forall|j: int, tr: int, tc: int|
                0 <= j < i + 1 && #[trigger] pseudo_legal(
                    self.cells(),
                    pieces@[j].pos@.0,
                    pieces@[j].pos@.1,
                    tr,
                    tc,
                ) implies exists|k: int| 0 <= k < v@.len() && v@[k].pos@ == (tr, tc) by {
                if j == i {
                    let n = choose|n: int| 0 <= n < ms@.len() && ms@[n].to.pos@ == (tr, tc);
                    assert(ms@[n].to.pos@ == (tr, tc));
                } else {
                    let k = choose|k: int| 0 <= k < before.len() && before[k].pos@ == (tr, tc);
                    assert(v@[k] == before[k]);
                }
            }
            i = i + 1;
        }
        assert(piece_cells(self.cells(), team).take(pieces@.len() as int) =~= piece_cells(self.cells(), team));
        assert forall|tr: int, tc: int|
            #[trigger] attacked(self.cells(), team, tr, tc) implies exists|k: int|
                0 <= k < v@.len() && v@[k].pos@ == (tr, tc) by {
            let (fr, fc) = choose|fr: int, fc: int|
                #[trigger] pseudo_legal(self.cells(), fr, fc, tr, tc) && occupant(self.cells(), fr, fc)->0.team
                    == team;
            assert(occupant(self.cells(), fr, fc) is Some);
            let j = choose|j: int| 0 <= j < pieces@.len() && pieces@[j].pos@ == (fr, fc);
            assert(pseudo_legal(self.cells(), pieces@[j].pos@.0, pieces@[j].pos@.1, tr, tc));
        }
        v
    }

    /// `lm` is a legal move of this board: it is tagged with the side to move,
    /// its snapshots match the board, and it passes the check filter.
    pub open spec fn is_legal_move(self, lm: LegalMove) -> bool {
        let m = lm.movement();
        &&& lm.side() == self.side()
        &&& m.from == self.square_spec(m.from.pos)
        &&& m.to == self.square_spec(m.to.pos)
        &&& legal(self.cells(), self.side(), m.from.pos@.0, m.from.pos@.1, m.to.pos@.0, m.to.pos@.1)
    }

    /// `ms` lists the pseudo-legal moves of the piece on `from`: each one with
    /// snapshots of the board, and every destination of `pseudo_legal` once at
    /// least.
    pub open spec fn lists_moves(self, from: Pos, ms: Seq<Move>) -> bool {
        &&& forall|k: int|
            0 <= k < ms.len() ==> {
                let m = #[trigger] ms[k];
                &&& m.from == self.square_spec(from)
                &&& m.to.content == occupant(self.cells(), m.to.pos@.0, m.to.pos@.1)
                &&& pseudo_legal(self.cells(), from@.0, from@.1, m.to.pos@.0, m.to.pos@.1)
            }
        &&& forall|tr: int, tc: int|
            #[trigger] pseudo_legal(self.cells(), from@.0, from@.1, tr, tc) ==> exists|k: int|
                0 <= k < ms.len() && ms[k].to.pos@ == (tr, tc)
        &&& forall|i: int, j: int| 0 <= i < j < ms.len() ==> ms[i].to.pos@ != ms[j].to.pos@
        &&& ms.len() == move_dests(self.cells(), from@.0, from@.1).len()
        &&& forall|k: int|
            0 <= k < ms.len() ==> #[trigger] ms[k].to.pos@ == move_dests(self.cells(), from@.0, from@.1)[k]
    }

    /// `sqs` lists snapshots of exactly the cells that `team` attacks.
    pub open spec fn lists_attacks(self, team: Team, sqs: Seq<Square>) -> bool {
        &&& forall|k: int|
            0 <= k < sqs.len() ==> {
                let sq = #[trigger] sqs[k];
                &&& sq == self.square_spec(sq.pos)
                &&& attacked(self.cells(), team, sq.pos@.0, sq.pos@.1)
            }
        &&& forall|tr: int, tc: int|
            #[trigger] attacked(self.cells(), team, tr, tc) ==> exists|k: int|
                0 <= k < sqs.len() && sqs[k].pos@ == (tr, tc)
        &&& forall|a: int, b: int| 0 <= a < b < sqs.len() ==> sqs[a].pos@ != sqs[b].pos@
        &&& sqs.len() == attack_list(self.cells(), piece_cells(self.cells(), team)).len()
        &&& forall|k: int|
            0 <= k < sqs.len() ==> #[trigger] sqs[k].pos@ == attack_list(
                self.cells(),
                piece_cells(self.cells(), team),
            )[k]
    }

    /// `lms` lists exactly the legal moves of the side to move.
    pub open spec fn lists_legal_moves(self, lms: Seq<LegalMove>) -> bool {
        &&& forall|a: int, b: int| 0 <= a < b < lms.len() ==> #[trigger] distinct_moves(lms[a], lms[b])
        &&& lms.len() == legal_list(self.cells(), self.side(), piece_cells(self.cells(), self.side())).len()
        &&& forall|k: int|
            0 <= k < lms.len() ==> (#[trigger] lms[k].movement().from.pos@, lms[k].movement().to.pos@)
                == legal_list(self.cells(), self.side(), piece_cells(self.cells(), self.side()))[k]
        &&& forall|k: int| 0 <= k < lms.len() ==> self.is_legal_move(#[trigger] lms[k])
        &&& forall|fr: int, fc: int, tr: int, tc: int|
            #[trigger] legal(self.cells(), self.side(), fr, fc, tr, tc) ==> exists|k: int|
                0 <= k < lms.len() && lms[k].movement().from.pos@ == (fr, fc)
                    && lms[k].movement().to.pos@ == (tr, tc)
    }

    /// Whether playing `m` on a scratch copy of the board (the piece placed on
    /// the destination as it is) leaves no king on a cell that the opponent
    /// of the side to move could move onto.
    pub fn is_legal(&self, m: &Move) -> (r: bool)
        ensures
            r == safe_after(self.cells(), self.side(), m.from.pos@.0, m.from.pos@.1, m.to.pos@.0, m.to.pos@.1),
    {
        let from = m.from.pos;
        let to = m.to.pos;
        let fi = from.row() * 8 + from.col();
        let ti = to.row() * 8 + to.col();
        let mut sim = *self;
        sim.squares[ti] = self.squares[fi];
        sim.squares[fi] = None;
        let ghost shifted_cells = shifted(self.cells(), from@.0, from@.1, to@.0, to@.1);
        assert(sim.cells() =~= shifted_cells);
        let opp = self.team.opponent();
        let att = sim.attacked_squares(opp);
        let mut i: usize = 0;
        while i < att.len()
            invariant
                i <= att@.len(),
                sim.cells() == shifted_cells,
                shifted_cells == shifted(self.cells(), m.from.pos@.0, m.from.pos@.1, m.to.pos@.0, m.to.pos@.1),
                opp == enemy(self.side()),
                forall|k: int|
                    0 <= k < att@.len() ==> {
                        let sq = #[trigger] att@[k];
                        &&& sq == sim.square_spec(sq.pos)
                        &&& attacked(sim.cells(), opp, sq.pos@.0, sq.pos@.1)
                    },
                forall|k: int|
                    0 <= k < i ==> !((#[trigger] att@[k]).content is Some && att@[k].content->0.piece_type
                        == PieceType::King),
            decreases att@.len() - i,
        {
            match att[i].content {
                Some(p) => {
                    if p.piece_type == PieceType::King {
                        let ghost sq = att@[i as int];
                        assert(sq == sim.square_spec(sq.pos));
                        assert(attacked(shifted_cells, opp, sq.pos@.0, sq.pos@.1));
                        assert(occupant(shifted_cells, sq.pos@.0, sq.pos@.1) == Some(p));
                        return false;
                    }
                },
                None => {},
            }
            i = i + 1;
        }
        assert forall|r: int, c: int| #[trigger] attacked(shifted_cells, opp, r, c) implies !(occupant(
            shifted_cells,
            r,
            c,
        ) is Some && occupant(shifted_cells, r, c)->0.piece_type == PieceType::King) by {
            let k = choose|k: int| 0 <= k < att@.len() && att@[k].pos@ == (r, c);
            assert(att@[k] == sim.square_spec(att@[k].pos));
        }
        true
    }

    /// The legal moves of the piece on `pos`: empty unless it holds a piece of
    /// the side to move, otherwise every move of `moves` that `is_legal` keeps.
    pub fn legal_moves_sq(&self, pos: Pos) -> (r: Vec<LegalMove>)
        ensures
            forall|k: int|
                0 <= k < r@.len() ==> self.is_legal_move(#[trigger] r@[k]) && r@[k].movement().from.pos
                    == pos,
            forall|tr: int, tc: int|
                #[trigger] legal(self.cells(), self.side(), pos@.0, pos@.1, tr, tc) ==> exists|k: int|
                    0 <= k < r@.len() && r@[k].movement().to.pos@ == (tr, tc),
            forall|i: int, j: int|
                0 <= i < j < r@.len() ==> r@[i].movement().to.pos@ != r@[j].movement().to.pos@,
            r@.len() == legal_dests(self.cells(), self.side(), pos@.0, pos@.1).len(),
            forall|k: int|
                0 <= k < r@.len() ==> #[trigger] r@[k].movement().to.pos@ == legal_dests(
                    self.cells(),
                    self.side(),
                    pos@.0,
                    pos@.1,
                )[k],
    {
        let mut v: Vec<LegalMove> = Vec::new();
        let ghost mut src: Seq<int> = Seq::empty();
        match self.at(pos) {
            None => {
                return v;
            },
            Some(p) => {
                if p.team != self.team {
                    return v;
                }
            },
        }
        let ms = self.moves(pos);
        let mut i: usize = 0;
        while i < ms.len()
            invariant
                i <= ms@.len(),
                self.lists_moves(pos, ms@),
                v@.len() == safe_dests(self.cells(), self.side(), pos@.0, pos@.1, move_dests(self.cells(), pos@.0, pos@.1).take(i as int)).len(),
                forall|k: int|
                    0 <= k < v@.len() ==> #[trigger] v@[k].movement().to.pos@ == safe_dests(
                        self.cells(),
                        self.side(),
                        pos@.0,
                        pos@.1,
                        move_dests(self.cells(), pos@.0, pos@.1).take(i as int),
                    )[k],
                forall|a: int, b: int| 0 <= a < b < ms@.len() ==> ms@[a].to.pos@ != ms@[b].to.pos@,
                src.len() == v@.len(),
                forall|k: int|
                    0 <= k < v@.len() ==> 0 <= #[trigger] src[k] < i && v@[k].movement() == ms@[src[k]],
                forall|a: int, b: int|
                    0 <= a < b < v@.len() ==> v@[a].movement().to.pos@ != v@[b].movement().to.pos@,
                occupant(self.cells(), pos@.0, pos@.1) is Some,
                occupant(self.cells(), pos@.0, pos@.1)->0.team == self.side(),
                forall|k: int|
                    0 <= k < ms@.len() ==> {
                        let m = #[trigger] ms@[k];
                        &&& m.from == self.square_spec(pos)
                        &&& m.to.content == occupant(self.cells(), m.to.pos@.0, m.to.pos@.1)
                        &&& pseudo_legal(self.cells(), pos@.0, pos@.1, m.to.pos@.0, m.to.pos@.1)
                    },
                forall|k: int|
                    0 <= k < v@.len() ==> self.is_legal_move(#[trigger] v@[k]) && v@[k].movement().from.pos
                        == pos,
                forall|n: int|
                    0 <= n < i && safe_after(
                        self.cells(),
                        self.side(),
                        pos@.0,
                        pos@.1,
                        (#[trigger] ms@[n]).to.pos@.0,
                        ms@[n].to.pos@.1,
                    ) ==> exists|k: int|
                        0 <= k < v@.len() && v@[k].movement().to.pos@ == ms@[n].to.pos@,
            decreases ms@.len() - i,
        {
            let m = ms[i];
            let ghost prev = v@;
            proof {
                let md = move_dests(self.cells(), pos@.0, pos@.1);
                let g = |d: (int, int)| safe_after(self.cells(), self.side(), pos@.0, pos@.1, d.0, d.1);
                assert(md.take(i + 1) =~= md.take(i as int).push(md[i as int]));
                md.take(i as int).lemma_filter_push(md[i as int], g);
                assert(ms@[i as int].to.pos@ == md[i as int]);
            }
            if self.is_legal(&m) {
                let lm = LegalMove::new(m, self.team);
                v.push(lm);
                assert(v@[v@.len() - 1] == lm);
                proof {
                    src = src.push(i as int);
                }
                assert forall|a: int, b: int|
                    0 <= a < b < v@.len() implies v@[a].movement().to.pos@ != v@[b].movement().to.pos@ by {
                    if b == v@.len() - 1 {
                        assert(v@[a] == prev[a]);
                        assert(src[a] < i);
                    } else {
                        assert(v@[a] == prev[a] && v@[b] == prev[b]);
                    }
                }
                assert forall|n: int|
                    0 <= n < i + 1 && safe_after(
                        self.cells(),
                        self.side(),
                        pos@.0,
                        pos@.1,
                        (#[trigger] ms@[n]).to.pos@.0,
                        ms@[n].to.pos@.1,
                    ) implies exists|k: int|
                    0 <= k < v@.len() && v@[k].movement().to.pos@ == ms@[n].to.pos@ by {
                    if n < i {
                        let k = choose|k: int|
                            0 <= k < prev.len() && prev[k].movement().to.pos@ == ms@[n].to.pos@;
                        assert(v@[k] == prev[k]);
                    }
                }
            }
            i = i + 1;
        }
        assert(move_dests(self.cells(), pos@.0, pos@.1).take(ms@.len() as int) =~= move_dests(
            self.cells(),
            pos@.0,
            pos@.1,
        ));
        assert forall|tr: int, tc: int|
            #[trigger] legal(self.cells(), self.side(), pos@.0, pos@.1, tr, tc) implies exists|k: int|
                0 <= k < v@.len() && v@[k].movement().to.pos@ == (tr, tc) by {
            assert(pseudo_legal(self.cells(), pos@.0, pos@.1, tr, tc));
            let n = choose|n: int| 0 <= n < ms@.len() && ms@[n].to.pos@ == (tr, tc);
            assert(ms@[n].to.pos@ == (tr, tc));
        }
        v
    }

    /// Every legal move of the side to move. Empty exactly when that side has
    /// no legal move (checkmate or stalemate).
    #[verifier::rlimit(40)]
    pub fn team_legal_moves(&self) -> (r: Vec<LegalMove>)
        ensures
            self.lists_legal_moves(r@),
    {
        let pieces = self.enumerate_pieces(self.team);
        let mut v: Vec<LegalMove> = Vec::new();
        let ghost mut src: Seq<int> = Seq::empty();
        let mut i: usize = 0;
        while i < pieces.len()
            invariant
                i <= pieces@.len(),
                pieces@.len() == piece_cells(self.cells(), self.side()).len(),
                forall|k: int|
                    0 <= k < pieces@.len() ==> #[trigger] pieces@[k].pos@ == piece_cells(self.cells(), self.side())[k],
                v@.len() == legal_list(self.cells(), self.side(), piece_cells(self.cells(), self.side()).take(i as int)).len(),
                forall|k: int|
                    0 <= k < v@.len() ==> (#[trigger] v@[k].movement().from.pos@, v@[k].movement().to.pos@)
                        == legal_list(self.cells(), self.side(), piece_cells(self.cells(), self.side()).take(i as int))[k],
                forall|k: int|
                    0 <= k < pieces@.len() ==> {
                        let sq = #[trigger] pieces@[k];
                        &&& sq == self.square_spec(sq.pos)
                        &&& on_board(sq.pos@.0, sq.pos@.1)
                        &&& sq.content is Some
                        &&& sq.content->0.team == self.side()
                    },
                forall|fr: int, fc: int|
                    on_board(fr, fc) && #[trigger] occupant(self.cells(), fr, fc) is Some && occupant(
                        self.cells(),
                        fr,
                        fc,
                    )->0.team == self.side() ==> exists|k: int|
                        0 <= k < pieces@.len() && pieces@[k].pos@ == (fr, fc),
                forall|k: int| 0 <= k < v@.len() ==> self.is_legal_move(#[trigger] v@[k]),
                forall|a: int, b: int| 0 <= a < b < pieces@.len() ==> pieces@[a].pos@ != pieces@[b].pos@,
                src.len() == v@.len(),
                forall|k: int|
                    0 <= k < v@.len() ==> 0 <= #[trigger] src[k] < i && v@[k].movement().from.pos
                        == pieces@[src[k]].pos,
                forall|a: int, b: int| 0 <= a < b < v@.len() ==> #[trigger] distinct_moves(v@[a], v@[b]),
                forall|j: int, tr: int, tc: int|
                    0 <= j < i && #[trigger] legal(
                        self.cells(),
                        self.side(),
                        pieces@[j].pos@.0,
                        pieces@[j].pos@.1,
                        tr,
                        tc,
                    ) ==> exists|k: int|
                        0 <= k < v@.len() && v@[k].movement().from.pos@ == pieces@[j].pos@
                            && v@[k].movement().to.pos@ == (tr, tc),
            decreases pieces@.len() - i,
        {
            let pos = pieces[i].pos;
            let lms = self.legal_moves_sq(pos);
            let ghost before = v@;
            let ghost before_src = src;
            let ghost mut inner: Seq<int> = Seq::empty();
            let mut l: usize = 0;
            while l < lms.len()
                invariant
                    l <= lms@.len(),
                    v@.len() == before.len() + l,
                    forall|n: int| 0 <= n < l ==> v@[before.len() + n] == #[trigger] lms@[n],
                    i < pieces@.len(),
                    pos == pieces@[i as int].pos,
                    forall|a: int, b: int| 0 <= a < b < pieces@.len() ==> pieces@[a].pos@ != pieces@[b].pos@,
                    forall|a: int, b: int|
                        0 <= a < b < lms@.len() ==> lms@[a].movement().to.pos@ != lms@[b].movement().to.pos@,
                    src.len() == v@.len(),
                    before_src.len() == before.len(),
                    forall|k: int| 0 <= k < before.len() ==> src[k] == before_src[k],
                    forall|k: int|
                        0 <= k < before.len() ==> 0 <= #[trigger] before_src[k] < i && before[k].movement().from.pos
                            == pieces@[before_src[k]].pos,
                    forall|k: int| before.len() <= k < v@.len() ==> src[k] == i,
                    inner.len() == v@.len() - before.len(),
                    forall|k: int|
                        0 <= k < inner.len() ==> 0 <= #[trigger] inner[k] < l && v@[before.len() + k]
                            == lms@[inner[k]],
                    forall|a: int, b: int| 0 <= a < b < v@.len() ==> #[trigger] distinct_moves(v@[a], v@[b]),
                    forall|k: int|
                        0 <= k < lms@.len() ==> self.is_legal_move(#[trigger] lms@[k])
                            && lms@[k].movement().from.pos == pos,
                    forall|k: int| 0 <= k < v@.len() ==> self.is_legal_move(#[trigger] v@[k]),
                    v@.len() >= before.len(),
                    forall|k: int| 0 <= k < before.len() ==> v@[k] == before[k],
                    forall|n: int|
                        0 <= n < l ==> exists|k: int|
                            0 <= k < v@.len() && v@[k] == #[trigger] lms@[n],
                decreases lms@.len() - l,
            {
                let ghost prev = v@;
                v.push(lms[l]);
                assert forall|n: int| 0 <= n < l + 1 implies v@[before.len() + n] == #[trigger] lms@[n] by {
                    if n < l {
                        assert(v@[before.len() + n] == prev[before.len() + n]);
                    }
                }
                proof {
                    src = src.push(i as int);
                    inner = inner.push(l as int);
                }
                assert forall|a: int, b: int| 0 <= a < b < v@.len() implies #[trigger] distinct_moves(v@[a], v@[b]) by {
                    assert(v@[a] == prev[a]);
                    if b == v@.len() - 1 {
                        if a < before.len() {
                            assert(v@[a] == before[a]);
                            assert(before_src[a] < i);
                            assert(lms@[l as int].movement().from.pos == pos);
                        } else {
                            assert(inner[a - before.len()] < l);
                        }
                    } else {
                        assert(v@[b] == prev[b]);
                    }
                }
                assert forall|n: int| 0 <= n < l + 1 implies exists|k: int|
                    0 <= k < v@.len() && v@[k] == #[trigger] lms@[n] by {
                    if n == l {
                        assert(v@[v@.len() - 1] == lms@[n]);
                    } else {
                        let k = choose|k: int| 0 <= k < prev.len() && prev[k] == lms@[n];
                        assert(v@[k] == prev[k]);
                    }
                }
                l = l + 1;
            }
            proof {
                let pc = piece_cells(self.cells(), self.side());
                let ld = legal_dests(self.cells(), self.side(), pos@.0, pos@.1);
                let prefix = legal_list(self.cells(), self.side(), pc.take(i as int));
                assert(pc.take(i + 1).drop_last() =~= pc.take(i as int));
                assert(pc.take(i + 1).last() == pos@);
                let whole = legal_list(self.cells(), self.side(), pc.take(i + 1));
                assert(whole == prefix + ld.map_values(|d: (int, int)| (pos@, d)));
                assert forall|k: int| 0 <= k < v@.len() implies (#[trigger] v@[k].movement().from.pos@, v@[k].movement().to.pos@)
                    == whole[k] by {
                    if k < before.len() {
                        assert(v@[k] == before[k]);
                    } else {
                        let n = k - before.len();
                        assert(v@[before.len() + n] == lms@[n]);
                    }
                }
            }
            assert forall|k: int| 0 <= k < v@.len() implies 0 <= #[trigger] src[k] < i + 1
                && v@[k].movement().from.pos == pieces@[src[k]].pos by {
                if k < before.len() {
                    assert(v@[k] == before[k]);
                } else {
                    assert(v@[before.len() + (k - before.len())] == lms@[inner[k - before.len()]]);
                }
            }
            assert forall|j: int, tr: int, tc: int|
                0 <= j < i + 1 && #[trigger] legal(
                    self.cells(),
                    self.side(),
                    pieces@[j].pos@.0,
                    pieces@[j].pos@.1,
                    tr,
                    tc,
                ) implies exists|k: int|
                0 <= k < v@.len() && v@[k].movement().from.pos@ == pieces@[j].pos@
                    && v@[k].movement().to.pos@ == (tr, tc) by {
                if j == i {
                    let n = choose|n: int| 0 <= n < lms@.len() && lms@[n].movement().to.pos@ == (tr, tc);
                    assert(lms@[n].movement().from.pos == pos);
                    let k = choose|k: int| 0 <= k < v@.len() && v@[k] == lms@[n];
                } else {
                    let k = choose|k: int|
                        0 <= k < before.len() && before[k].movement().from.pos@ == pieces@[j].pos@
                            && before[k].movement().to.pos@ == (tr, tc);
                    assert(v@[k] == before[k]);
                }
            }
            i = i + 1;
        }
        assert(piece_cells(self.cells(), self.side()).take(pieces@.len() as int) =~= piece_cells(
            self.cells(),
            self.side(),
        ));
        assert forall|fr: int, fc: int, tr: int, tc: int|
            #[trigger] legal(self.cells(), self.side(), fr, fc, tr, tc) implies exists|k: int|
                0 <= k < v@.len() && v@[k].movement().from.pos@ == (fr, fc) && v@[k].movement().to.pos@
                    == (tr, tc) by {
            assert(occupant(self.cells(), fr, fc) is Some);
            let j = choose|j: int| 0 <= j < pieces@.len() && pieces@[j].pos@ == (fr, fc);
            assert(legal(self.cells(), self.side(), pieces@[j].pos@.0, pieces@[j].pos@.1, tr, tc));
        }
        v
    }

    /// Plays `lm`: the origin is cleared and the moving piece, marked as having
    /// moved, is written on the destination; the result has the other side to
    /// move. `None` when `lm` was not made for this board: it is tagged with
    /// the other side, or its snapshots no longer match the cells.
    pub fn apply_move(&self, lm: &LegalMove) -> (r: Option<Board>)
        ensures
            r is Some <==> (lm.side() == self.side() && lm.movement().from == self.square_spec(
                lm.movement().from.pos,
            ) && lm.movement().to == self.square_spec(lm.movement().to.pos)),
            r is Some ==> r->0.side() == enemy(self.side()) && r->0.cells() == applied(
                self.cells(),
                lm.movement().from.pos@.0,
                lm.movement().from.pos@.1,
                lm.movement().to.pos@.0,
                lm.movement().to.pos@.1,
            ),
    {
        let m = lm.mv();
        if lm.team() != self.team || self.square(m.from.pos) != m.from || self.square(m.to.pos) != m.to {
            return None;
        }
        let from = m.from.pos;
        let to = m.to.pos;
        let fi = from.row() * 8 + from.col();
        let ti = to.row() * 8 + to.col();
        let mut next = Board { squares: self.squares, team: self.team.opponent() };
        next.squares[ti] = match self.squares[fi] {
            Some(p) => Some(p.touch_piece()),
            None => None,
        };
        next.squares[fi] = None;
        assert(next.cells() =~= applied(self.cells(), from@.0, from@.1, to@.0, to@.1));
        Some(next)
    }

    /// Writes `p` on `(r, c)`.
    pub(crate) fn set_cell(&mut self, r: usize, c: usize, p: Option<Piece>)
        requires
            r < 8,
            c < 8,
        ensures
            final(self).cells() == old(self).cells().update(r * 8 + c, p),
            final(self).side() == old(self).side(),
    {
        self.squares[r * 8 + c] = p;
    }
}

/// Playing a legal move never leaves a king of the mover on a cell that the
/// opponent, who moves next, could move onto.
pub proof fn lemma_legal_move_keeps_king_safe(b: Board, lm: LegalMove)
    requires
        b.is_legal_move(lm),
    ensures
        no_king_attacked(
            applied(
                b.cells(),
                lm.movement().from.pos@.0,
                lm.movement().from.pos@.1,
                lm.movement().to.pos@.0,
                lm.movement().to.pos@.1,
            ),
            enemy(b.side()),
        ),
{
    let m = lm.movement();
    let (fr, fc, tr, tc) = (m.from.pos@.0, m.from.pos@.1, m.to.pos@.0, m.to.pos@.1);
    let cells = b.cells();
    let s1 = shifted(cells, fr, fc, tr, tc);
    let s2 = applied(cells, fr, fc, tr, tc);
    let e = enemy(b.side());
    assert(occupant(cells, fr, fc)->0.team == b.side());
    lemma_attacks_ignore_marks(s1, s2, e);
    assert forall|r: int, c: int| #[trigger] attacked(s2, e, r, c) implies !(occupant(s2, r, c) is Some
        && occupant(s2, r, c)->0.piece_type == PieceType::King) by {
        assert(attacked(s1, e, r, c));
        let (gr, gc) = choose|gr: int, gc: int|
            #[trigger] pseudo_legal(s2, gr, gc, r, c) && occupant(s2, gr, gc)->0.team == e;
        assert(on_board(r, c));
    }
}

/// A rook in the corner `(0, 0)` with pieces of its own side on `(0, 1)` and
/// `(1, 0)`, as at the start, has no move.
pub proof fn lemma_corner_rook_blocked(cells: Seq<Option<Piece>>)
    requires
        occupant(cells, 0, 0) is Some,
        occupant(cells, 0, 0)->0.piece_type == PieceType::Rook,
        occupant(cells, 0, 1) is Some,
        occupant(cells, 0, 1)->0.team == occupant(cells, 0, 0)->0.team,
        occupant(cells, 1, 0) is Some,
        occupant(cells, 1, 0)->0.team == occupant(cells, 0, 0)->0.team,
    ensures
        forall|tr: int, tc: int| !#[trigger] pseudo_legal(cells, 0, 0, tr, tc),
{
    assert forall|tr: int, tc: int| !#[trigger] pseudo_legal(cells, 0, 0, tr, tc) by {
        if tr == 0 && tc >= 2 {
            assert(on_segment(0, 0, tr, tc, 0, 1));
        } else if tc == 0 && tr >= 2 {
            assert(on_segment(0, 0, tr, tc, 1, 0));
        }
    }
}

/// Once the pawn in front of a corner rook has advanced two cells, and a
/// piece of the rook's side still stands beside it on the rank, the rook
/// may move to exactly the two cells the pawn vacated.
pub proof fn lemma_corner_rook_after_pawn_advance(cells: Seq<Option<Piece>>)
    requires
        occupant(cells, 0, 0) is Some,
        occupant(cells, 0, 0)->0.piece_type == PieceType::Rook,
        occupant(cells, 0, 1) is Some,
        occupant(cells, 0, 1)->0.team == occupant(cells, 0, 0)->0.team,
        occupant(cells, 1, 0) is None,
        occupant(cells, 2, 0) is None,
        occupant(cells, 3, 0) is Some,
        occupant(cells, 3, 0)->0.team == occupant(cells, 0, 0)->0.team,
    ensures
        forall|tr: int, tc: int|
            #[trigger] pseudo_legal(cells, 0, 0, tr, tc) <==> ((tr == 1 || tr == 2) && tc == 0),
{
    assert forall|tr: int, tc: int|
        #[trigger] pseudo_legal(cells, 0, 0, tr, tc) <==> ((tr == 1 || tr == 2) && tc == 0) by {
        if tr == 0 && tc >= 2 {
            assert(on_segment(0, 0, tr, tc, 0, 1));
        } else if tc == 0 && tr >= 4 {
            assert(on_segment(0, 0, tr, tc, 3, 0));
        } else if tc == 0 && (tr == 1 || tr == 2) {
            assert forall|r: int, c: int| #[trigger] on_segment(0, 0, tr, tc, r, c) implies occupant(
                cells,
                r,
                c,
            ) is None by {
                assert(r == 1 && c == 0);
            }
        }
    }
}

/// Reading moves twice gives the same answer: any two lists that `moves` may
/// return for one board and cell are equal, element for element.
pub proof fn lemma_moves_repeatable(b: Board, from: Pos, a: Seq<Move>, c: Seq<Move>)
    requires
        b.lists_moves(from, a),
        b.lists_moves(from, c),
    ensures
        a == c,
{
    assert forall|k: int| 0 <= k < a.len() implies a[k] == c[k] by {
        assert(a[k].to.pos@ == c[k].to.pos@);
        a[k].to.pos.lemma_view_injective(c[k].to.pos);
    }
    assert(a =~= c);
}

/// Reading attacked cells twice gives the same answer: any two lists that
/// `attacked_squares` may return for one board and side are equal, element
/// for element.
pub proof fn lemma_attacks_repeatable(b: Board, team: Team, a: Seq<Square>, c: Seq<Square>)
    requires
        b.lists_attacks(team, a),
        b.lists_attacks(team, c),
    ensures
        a == c,
{
    assert forall|k: int| 0 <= k < a.len() implies a[k] == c[k] by {
        assert(a[k].pos@ == c[k].pos@);
        a[k].pos.lemma_view_injective(c[k].pos);
        assert(a[k] == b.square_spec(a[k].pos));
        assert(c[k] == b.square_spec(c[k].pos));
    }
    assert(a =~= c);
}

/// Reading the legal moves twice gives the same answer: any two lists that
/// `team_legal_moves` may return for one board are equal, element for
/// element.
pub proof fn lemma_legal_moves_repeatable(b: Board, a: Seq<LegalMove>, c: Seq<LegalMove>)
    requires
        b.lists_legal_moves(a),
        b.lists_legal_moves(c),
    ensures
        a == c,
{
    assert forall|k: int| 0 <= k < a.len() implies a[k] == c[k] by {
        let (x, y) = (a[k].movement(), c[k].movement());
        assert((x.from.pos@, x.to.pos@) == (y.from.pos@, y.to.pos@));
        x.from.pos.lemma_view_injective(y.from.pos);
        x.to.pos.lemma_view_injective(y.to.pos);
        assert(b.is_legal_move(a[k]) && b.is_legal_move(c[k]));
        assert(x == y);
        a[k].lemma_determined(c[k]);
    }
    assert(a =~= c);
}

} // verus!
