use vstd::prelude::*;

use crate::movement::RawMove;
use crate::square::{on_board, Pos};

verus! {

/// The kind of a chess piece.
#[derive(Clone, Copy, Debug, PartialEq, Eq, Structural)]
pub enum PieceType {
    King,
    Queen,
    Rook,
    Knight,
    Bishop,
    Pawn,
}

/// One of the two sides. `White` moves first.
#[derive(Clone, Copy, Debug, PartialEq, Eq, Structural)]
pub enum Team {
    White,
    Black,
}

/// The rank step of a pawn of `team` moving forward.
pub open spec fn forward(team: Team) -> int {
    match team {
        Team::White => -1,
        Team::Black => 1,
    }
}

/// The side other than `team`.
pub open spec fn enemy(team: Team) -> Team {
    match team {
        Team::White => Team::Black,
        Team::Black => Team::White,
    }
}

impl Team {
    /// The rank step of this side's pawns: white advances toward rank 0,
    /// black toward rank 7.
    pub fn direction(self) -> (r: isize)
        ensures
            r as int == forward(self),
    {
        match self {
            Team::White => -1,
            Team::Black => 1,
        }
    }

    /// The other side.
    pub fn opponent(self) -> (r: Team)
        ensures
            r == enemy(self),
    {
        match self {
            Team::White => Team::Black,
            Team::Black => Team::White,
        }
    }
}

/// The absolute value of `x`.
pub open spec fn abs(x: int) -> int {
    if x < 0 {
        -x
    } else {
        x
    }
}

/// A step of 1 to 7 cells along a rank or a file.
pub open spec fn straight(dr: int, dc: int) -> bool {
    (dr == 0 && 1 <= abs(dc) <= 7) || (dc == 0 && 1 <= abs(dr) <= 7)
}

/// A step of 1 to 7 cells along a diagonal.
pub open spec fn diagonal(dr: int, dc: int) -> bool {
    abs(dr) == abs(dc) && 1 <= abs(dr) <= 7
}

/// The sign of `x`.
pub open spec fn sign(x: int) -> int {
    if x > 0 {
        1
    } else if x < 0 {
        -1
    } else {
        0
    }
}

/// The unit direction of an offset.
pub open spec fn heading(x: (isize, isize)) -> (int, int) {
    (sign(x.0 as int), sign(x.1 as int))
}

/// `d` cells in the direction of the unit step `s` (which is -1, 0 or 1).
pub open spec fn scale(s: int, d: int) -> int {
    if s == 0 {
        0
    } else if s > 0 {
        d
    } else {
        -d
    }
}

/// The seven offsets `1..=7` cells along the unit direction `(sr, sc)`,
/// nearest first.
pub open spec fn ray(sr: int, sc: int) -> Seq<(isize, isize)> {
    Seq::new(7, |k: int| (scale(sr, k + 1) as isize, scale(sc, k + 1) as isize))
}

/// The four rays along ranks and files.
pub open spec fn straight_rays() -> Seq<(isize, isize)> {
    ray(0, 1) + ray(0, -1) + ray(1, 0) + ray(-1, 0)
}

/// The four diagonal rays.
pub open spec fn diagonal_rays() -> Seq<(isize, isize)> {
    ray(1, 1) + ray(1, -1) + ray(-1, 1) + ray(-1, -1)
}

/// The offsets of a piece, in the order in which they are generated.
pub open spec fn offsets_seq(p: Piece) -> Seq<(isize, isize)> {
    match p.piece_type {
        PieceType::King => seq![
            (-1isize, -1isize),
            (-1isize, 0isize),
            (-1isize, 1isize),
            (0isize, -1isize),
            (0isize, 1isize),
            (1isize, -1isize),
            (1isize, 0isize),
            (1isize, 1isize),
        ],
        PieceType::Knight => seq![
            (2isize, 1isize),
            (2isize, -1isize),
            (-2isize, 1isize),
            (-2isize, -1isize),
            (1isize, 2isize),
            (1isize, -2isize),
            (-1isize, 2isize),
            (-1isize, -2isize),
        ],
        PieceType::Pawn => {
            let d = forward(p.team) as isize;
            let base = seq![(d, 0isize), (d, -1isize), (d, 1isize)];
            if p.has_moved {
                base
            } else {
                base.push(((2 * forward(p.team)) as isize, 0isize))
            }
        },
        PieceType::Rook => straight_rays(),
        PieceType::Bishop => diagonal_rays(),
        PieceType::Queen => straight_rays() + diagonal_rays(),
    }
}

/// The cells reached from `(fr, fc)` by the offsets `offs` that stay on the
/// board, in the order of `offs`.
pub open spec fn on_board_dests(offs: Seq<(isize, isize)>, fr: int, fc: int) -> Seq<(int, int)> {
    offs.map_values(|o: (isize, isize)| (fr + o.0, fc + o.1)).filter(
        |d: (int, int)| on_board(d.0, d.1),
    )
}

/// The on-board destinations of `p` from `(fr, fc)`, in generation order.
pub open spec fn raw_dests(p: Piece, fr: int, fc: int) -> Seq<(int, int)> {
    on_board_dests(offsets_seq(p), fr, fc)
}

/// A piece: its kind, its side, and whether it has ever been the origin of
/// an applied move.
#[derive(Clone, Copy, Debug, PartialEq, Eq, Structural)]
pub struct Piece {
    pub piece_type: PieceType,
    pub team: Team,
    pub has_moved: bool,
}

impl Piece {
    /// Whether the offset `(dr, dc)` is geometrically open to this piece,
    /// regardless of what stands on the board.
    pub open spec fn reaches(self, dr: int, dc: int) -> bool {
        match self.piece_type {
            PieceType::King => -1 <= dr <= 1 && -1 <= dc <= 1 && !(dr == 0 && dc == 0),
            PieceType::Queen => straight(dr, dc) || diagonal(dr, dc),
            PieceType::Rook => straight(dr, dc),
            PieceType::Bishop => diagonal(dr, dc),
            PieceType::Knight => (abs(dr) == 2 && abs(dc) == 1) || (abs(dr) == 1 && abs(dc) == 2),
            PieceType::Pawn => (dr == forward(self.team) && -1 <= dc <= 1) || (dr == 2 * forward(
                self.team,
            ) && dc == 0 && !self.has_moved),
        }
    }

    /// Whether the piece slides along rays and so cannot jump over others.
    pub open spec fn slides(self) -> bool {
        match self.piece_type {
            PieceType::Queen | PieceType::Rook | PieceType::Bishop => true,
            _ => false,
        }
    }

    /// A piece that has not moved yet.
    pub fn new(piece_type: PieceType, team: Team) -> (r: Piece)
        ensures
            r == (Piece { piece_type, team, has_moved: false }),
    {
        Piece { piece_type, team, has_moved: false }
    }

    pub fn piece_type(&self) -> (r: PieceType)
        ensures
            r == self.piece_type,
    {
        self.piece_type
    }

    pub fn team(&self) -> (r: Team)
        ensures
            r == self.team,
    {
        self.team
    }

    pub fn has_moved(&self) -> (r: bool)
        ensures
            r == self.has_moved,
    {
        self.has_moved
    }

    /// The same piece, marked as having moved.
    pub fn touch_piece(self) -> (r: Piece)
        ensures
            r == (Piece { has_moved: true, ..self }),
    {
        Piece { has_moved: true, ..self }
    }

    /// Whether this piece slides along rays.
    pub fn is_slider(&self) -> (r: bool)
        ensures
            r == self.slides(),
    {
        match self.piece_type {
            PieceType::Queen | PieceType::Rook | PieceType::Bishop => true,
            _ => false,
        }
    }

    /// Every offset this piece could move by on an empty, unbounded board.
    pub fn offsets(self) -> (r: Vec<(isize, isize)>)
        ensures
            r@ == offsets_seq(self),
            r@.no_duplicates(),
            forall|k: int| 0 <= k < r@.len() ==> self.reaches(r@[k].0 as int, r@[k].1 as int),
            forall|dr: int, dc: int|
                #[trigger] self.reaches(dr, dc) ==> exists|k: int|
                    0 <= k < r@.len() && r@[k].0 == dr && r@[k].1 == dc,
    {
        match self.piece_type {
            PieceType::King => {
                let v = vec![(-1, -1), (-1, 0), (-1, 1), (0, -1), (0, 1), (1, -1), (1, 0), (1, 1)];
                assert(v@[0] == (-1isize, -1isize) && v@[1] == (-1isize, 0isize) && v@[2] == (
                -1isize, 1isize) && v@[3] == (0isize, -1isize) && v@[4] == (0isize, 1isize) && v@[5]
                    == (1isize, -1isize) && v@[6] == (1isize, 0isize) && v@[7] == (1isize, 1isize));
                assert(v@ =~= offsets_seq(self));
                v
            },
            PieceType::Knight => {
                let v = vec![(2, 1), (2, -1), (-2, 1), (-2, -1), (1, 2), (1, -2), (-1, 2), (-1, -2)];
                assert(v@[0] == (2isize, 1isize) && v@[1] == (2isize, -1isize) && v@[2] == (
                -2isize, 1isize) && v@[3] == (-2isize, -1isize) && v@[4] == (1isize, 2isize)
                    && v@[5] == (1isize, -2isize) && v@[6] == (-1isize, 2isize) && v@[7] == (
                -1isize, -2isize));
                assert(v@ =~= offsets_seq(self));
                v
            },
            PieceType::Pawn => {
                let d = self.team.direction();
                let mut v = vec![(d, 0), (d, -1), (d, 1)];
                if !self.has_moved {
                    v.push((2 * d, 0));
                    assert(v@[3].0 == 2 * d && v@[3].1 == 0);
                }
                assert(v@[0] == (d, 0isize) && v@[1] == (d, -1isize) && v@[2] == (d, 1isize));
                assert(v@ =~= offsets_seq(self));
                v
            },
            PieceType::Rook => {
                let mut v = Vec::new();
                push_ray(&mut v, 0, 1);
                push_ray(&mut v, 0, -1);
                push_ray(&mut v, 1, 0);
                push_ray(&mut v, -1, 0);
                assert forall|dr: int, dc: int| #[trigger] self.reaches(dr, dc) implies exists|k: int|
                    0 <= k < v@.len() && v@[k].0 == dr && v@[k].1 == dc by {
                    let k = if dr == 0 && dc > 0 {
                        dc - 1
                    } else if dr == 0 {
                        7 - dc - 1
                    } else if dr > 0 {
                        14 + dr - 1
                    } else {
                        21 - dr - 1
                    };
                    assert(v@[k].0 == dr && v@[k].1 == dc);
                }
                assert(v@ =~= offsets_seq(self));
                v
            },
            PieceType::Bishop => {
                let mut v = Vec::new();
                push_ray(&mut v, 1, 1);
                push_ray(&mut v, 1, -1);
                push_ray(&mut v, -1, 1);
                push_ray(&mut v, -1, -1);
                assert forall|dr: int, dc: int| #[trigger] self.reaches(dr, dc) implies exists|k: int|
                    0 <= k < v@.len() && v@[k].0 == dr && v@[k].1 == dc by {
                    let k = if dr > 0 && dc > 0 {
                        dr - 1
                    } else if dr > 0 {
                        7 + dr - 1
                    } else if dc > 0 {
                        14 - dr - 1
                    } else {
                        21 - dr - 1
                    };
                    assert(v@[k].0 == dr && v@[k].1 == dc);
                }
                assert(v@ =~= offsets_seq(self));
                v
            },
            PieceType::Queen => {
                let mut v = Vec::new();
                push_ray(&mut v, 0, 1);
                push_ray(&mut v, 0, -1);
                push_ray(&mut v, 1, 0);
                push_ray(&mut v, -1, 0);
                push_ray(&mut v, 1, 1);
                push_ray(&mut v, 1, -1);
                push_ray(&mut v, -1, 1);
                push_ray(&mut v, -1, -1);
                assert forall|dr: int, dc: int| #[trigger] self.reaches(dr, dc) implies exists|k: int|
                    0 <= k < v@.len() && v@[k].0 == dr && v@[k].1 == dc by {
                    let k = if dr == 0 && dc > 0 {
                        dc - 1
                    } else if dr == 0 {
                        7 - dc - 1
                    } else if dc == 0 && dr > 0 {
                        14 + dr - 1
                    } else if dc == 0 {
                        21 - dr - 1
                    } else if dr > 0 && dc > 0 {
                        28 + dr - 1
                    } else if dr > 0 {
                        35 + dr - 1
                    } else if dc > 0 {
                        42 - dr - 1
                    } else {
                        49 - dr - 1
                    };
                    assert(v@[k].0 == dr && v@[k].1 == dc);
                }
                assert(v@ =~= offsets_seq(self));
                v
            },
        }
    }
}

impl Piece {
    /// Every on-board destination this piece could reach from `from` on an
    /// empty board.
    pub fn raw_moves(self, from: Pos) -> (r: Vec<RawMove>)
        ensures
            forall|k: int|
                0 <= k < r@.len() ==> {
                    let m = #[trigger] r@[k];
                    &&& m.from == from
                    &&& on_board(m.to@.0, m.to@.1)
                    &&& self.reaches(m.to@.0 - from@.0, m.to@.1 - from@.1)
                },
            forall|tr: int, tc: int|
                on_board(tr, tc) && #[trigger] self.reaches(tr - from@.0, tc - from@.1)
                    ==> exists|k: int| 0 <= k < r@.len() && r@[k].to@ == (tr, tc),
            forall|i: int, j: int| 0 <= i < j < r@.len() ==> r@[i].to@ != r@[j].to@,
            r@.len() == raw_dests(self, from@.0, from@.1).len(),
            forall|k: int| 0 <= k < r@.len() ==> #[trigger] r@[k].to@ == raw_dests(self, from@.0, from@.1)[k],
    {
        let offs = self.offsets();
        let mut v: Vec<RawMove> = Vec::new();
        let ghost mut src: Seq<int> = Seq::empty();
        let mut i: usize = 0;
        while i < offs.len()
            invariant
                i <= offs@.len(),
                offs@ == offsets_seq(self),
                v@.len() == on_board_dests(offs@.take(i as int), from@.0, from@.1).len(),
                forall|k: int|
                    0 <= k < v@.len() ==> #[trigger] v@[k].to@ == on_board_dests(
                        offs@.take(i as int),
                        from@.0,
                        from@.1,
                    )[k],
                offs@.no_duplicates(),
                src.len() == v@.len(),
                forall|k: int|
                    0 <= k < v@.len() ==> 0 <= #[trigger] src[k] < i && v@[k].to@ == (
                        from@.0 + offs@[src[k]].0,
                        from@.1 + offs@[src[k]].1,
                    ),
                forall|a: int, b: int| 0 <= a < b < v@.len() ==> v@[a].to@ != v@[b].to@,
                forall|k: int| 0 <= k < offs@.len() ==> self.reaches(offs@[k].0 as int, offs@[k].1 as int),
                forall|k: int|
                    0 <= k < v@.len() ==> {
                        let m = #[trigger] v@[k];
                        &&& m.from == from
                        &&& on_board(m.to@.0, m.to@.1)
                        &&& self.reaches(m.to@.0 - from@.0, m.to@.1 - from@.1)
                    },
                forall|j: int|
                    0 <= j < i && on_board(from@.0 + offs@[j].0, from@.1 + offs@[j].1) ==> exists|
                        k: int,
                    | 0 <= k < v@.len() && v@[k].to@ == (from@.0 + offs@[j].0, from@.1 + offs@[j].1),
            decreases offs@.len() - i,
        {
            let ghost prev = v@;
            proof {
                let f = |o: (isize, isize)| (from@.0 + o.0, from@.1 + o.1);
                let g = |d: (int, int)| on_board(d.0, d.1);
                assert(offs@.take(i + 1) =~= offs@.take(i as int).push(offs@[i as int]));
                assert(offs@.take(i + 1).map_values(f) =~= offs@.take(i as int).map_values(f).push(
                    f(offs@[i as int]),
                ));
                offs@.take(i as int).map_values(f).lemma_filter_push(f(offs@[i as int]), g);
            }
            match from.checked_add(offs[i]) {
                Some(to) => {
                    v.push(RawMove { from, to });
                    proof {
                        src = src.push(i as int);
                    }
                    assert forall|a: int, b: int| 0 <= a < b < v@.len() implies v@[a].to@ != v@[b].to@ by {
                        assert(v@[a] == prev[a] || a == v@.len() - 1);
                        if b == v@.len() - 1 {
                            assert(v@[a] == prev[a]);
                            assert(src[a] != i);
                            assert(offs@[src[a]] != offs@[i as int]);
                        } else {
                            assert(v@[b] == prev[b]);
                        }
                    }
                    assert forall|j: int|
                        0 <= j < i + 1 && on_board(
                            from@.0 + offs@[j].0,
                            from@.1 + offs@[j].1,
                        ) implies exists|k: int|
                        0 <= k < v@.len() && v@[k].to@ == (
                            from@.0 + offs@[j].0,
                            from@.1 + offs@[j].1,
                        ) by {
                        if j == i {
                            assert(v@[v@.len() - 1].to == to);
                        } else {
                            let k = choose|k: int|
                                0 <= k < prev.len() && prev[k].to@ == (
                                    from@.0 + offs@[j].0,
                                    from@.1 + offs@[j].1,
                                );
                            assert(v@[k] == prev[k]);
                        }
                    }
                },
                None => {},
            }
            i = i + 1;
        }
        assert(offs@.take(offs@.len() as int) =~= offs@);
        assert forall|tr: int, tc: int|
            on_board(tr, tc) && #[trigger] self.reaches(tr - from@.0, tc - from@.1) implies exists|
                k: int,
            | 0 <= k < v@.len() && v@[k].to@ == (tr, tc) by {
            let j = choose|j: int|
                0 <= j < offs@.len() && offs@[j].0 == tr - from@.0 && offs@[j].1 == tc - from@.1;
        }
        v
    }
}

/// A pawn that has not moved may advance two ranks; once touched it may not.
pub proof fn lemma_touch_ends_double_advance(p: Piece)
    requires
        p.piece_type == PieceType::Pawn,
        !p.has_moved,
    ensures
        p.reaches(2 * forward(p.team), 0),
        !(Piece { has_moved: true, ..p }).reaches(2 * forward(p.team), 0),
{
}

/// Appends the seven offsets `1..=7` cells along the unit direction `(sr, sc)`.
fn push_ray(v: &mut Vec<(isize, isize)>, sr: isize, sc: isize)
    requires
        -1 <= sr <= 1,
        -1 <= sc <= 1,
        !(sr == 0 && sc == 0),
        old(v)@.len() <= 49,
        old(v)@.no_duplicates(),
        forall|j: int| 0 <= j < old(v)@.len() ==> heading(#[trigger] old(v)@[j]) != (sr as int, sc as int),
    ensures
        final(v)@.len() == old(v)@.len() + 7,
        final(v)@.no_duplicates(),
        forall|j: int|
            old(v)@.len() <= j < final(v)@.len() ==> heading(#[trigger] final(v)@[j]) == (sr as int, sc as int),
        forall|j: int| 0 <= j < old(v)@.len() ==> final(v)@[j] == old(v)@[j],
        forall|j: int|
            old(v)@.len() <= j < final(v)@.len() ==> final(v)@[j].0 as int == scale(
                sr as int,
                j - old(v)@.len() + 1,
            ) && final(v)@[j].1 as int == scale(sc as int, j - old(v)@.len() + 1),
{
    let ghost orig = v@;
    let ghost start = v@.len();
    let mut d: isize = 1;
    while d <= 7
        invariant
            1 <= d <= 8,
            -1 <= sr <= 1,
            -1 <= sc <= 1,
            !(sr == 0 && sc == 0),
            start <= 49,
            v@.no_duplicates(),
            forall|j: int| 0 <= j < start ==> heading(#[trigger] orig[j]) != (sr as int, sc as int),
            forall|j: int| start <= j < v@.len() ==> heading(#[trigger] v@[j]) == (sr as int, sc as int),
            v@.len() == start + d - 1,
            start == orig.len(),
            forall|j: int| 0 <= j < start ==> v@[j] == orig[j],
            forall|j: int|
                start <= j < v@.len() ==> v@[j].0 as int == scale(sr as int, j - start + 1)
                    && v@[j].1 as int == scale(sc as int, j - start + 1),
        decreases 8 - d,
    {
        let r = if sr == 0 {
            0
        } else if sr > 0 {
            d
        } else {
            -d
        };
        let c = if sc == 0 {
            0
        } else if sc > 0 {
            d
        } else {
            -d
        };
        let ghost prev = v@;
        v.push((r, c));
        assert forall|i: int, j: int| 0 <= i < j < v@.len() implies v@[i] != v@[j] by {
            if j == v@.len() - 1 && i >= start {
                assert(v@[i].0 as int == scale(sr as int, i - start + 1));
                assert(v@[i].1 as int == scale(sc as int, i - start + 1));
            } else if j == v@.len() - 1 {
                assert(v@[i] == orig[i]);
                assert(heading(orig[i]) != (sr as int, sc as int));
            } else {
                assert(v@[i] == prev[i] && v@[j] == prev[j]);
            }
        }
        d = d + 1;
    }
}

} // verus!
