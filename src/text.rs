use vstd::prelude::*;
use vstd::string::StringSliceAdditionalSpecFns;

use crate::board::{occupant, Board};
use crate::piece::{Piece, PieceType, Team};
use crate::square::{on_board, Pos};

verus! {

/// `\n`, which ends a rank.
pub const NEWLINE: u8 = 10;

/// `,`, which separates the tokens of a rank.
pub const COMMA: u8 = 44;

/// ` `; two of them make the token of an empty cell.
pub const SPACE: u8 = 32;

/// `\r`, which may precede the newline that ends a rank.
pub const RETURN: u8 = 13;

/// `|`, which frames cells in the printed grid.
pub const BAR: u8 = 124;

/// Why a two-character cell token does not name a piece.
#[derive(Clone, Copy, Debug, PartialEq, Eq, Structural)]
pub enum PieceError {
    MissingTeam,
    UnknownTeam(u8),
    MissingPieceType,
    UnknownPieceType(u8),
    TooManyCharacters,
}

/// Why a board description was rejected. Rows and columns count from 1.
#[derive(Clone, Copy, Debug, PartialEq, Eq, Structural)]
pub enum ParseError {
    MissingRow(usize),
    MissingSquare(usize, usize),
    TooManySquares(usize),
    TooManyRows,
    BadSquare(usize, usize, PieceError),
}

/// The pieces of `s` between occurrences of `sep`; there is always at least one.
pub open spec fn split(s: Seq<u8>, sep: u8) -> Seq<Seq<u8>>
    decreases s.len(),
{
    if s.len() == 0 {
        seq![Seq::empty()]
    } else {
        let parts = split(s.drop_last(), sep);
        if s.last() == sep {
            parts.push(Seq::empty())
        } else {
            parts.update(parts.len() - 1, parts.last().push(s.last()))
        }
    }
}

/// `l` without a final carriage return.
pub open spec fn strip_cr(l: Seq<u8>) -> Seq<u8> {
    if l.len() > 0 && l.last() == RETURN {
        l.drop_last()
    } else {
        l
    }
}

/// The lines of `s`, read as `str::lines` reads them: its pieces between
/// newlines, without the empty piece that a final newline (or an empty text)
/// leaves, and with the carriage return of a line ended by `\r\n` dropped.
pub open spec fn lines_of(s: Seq<u8>) -> Seq<Seq<u8>> {
    let parts = split(s, NEWLINE);
    let n = if parts.last().len() == 0 {
        parts.len() - 1
    } else {
        parts.len() as int
    };
    Seq::new(
        n as nat,
        |k: int|
            if k < parts.len() - 1 {
                strip_cr(parts[k])
            } else {
                parts[k]
            },
    )
}

/// The pieces joined, with `sep` between neighbours.
pub open spec fn join(parts: Seq<Seq<u8>>, sep: u8) -> Seq<u8>
    decreases parts.len(),
{
    if parts.len() == 0 {
        Seq::empty()
    } else if parts.len() == 1 {
        parts[0]
    } else {
        join(parts.drop_last(), sep).push(sep) + parts.last()
    }
}

/// The letter of a side: `w` or `b`.
pub open spec fn team_code(t: Team) -> u8 {
    match t {
        Team::White => 119,
        Team::Black => 98,
    }
}

/// The side a letter names, if any.
pub open spec fn team_of_code(b: u8) -> Option<Team> {
    if b == 119 {
        Some(Team::White)
    } else if b == 98 {
        Some(Team::Black)
    } else {
        None
    }
}

/// The letter of a kind: `K`, `Q`, `R`, `N`, `B` or `P`.
pub open spec fn kind_code(k: PieceType) -> u8 {
    match k {
        PieceType::King => 75,
        PieceType::Queen => 81,
        PieceType::Rook => 82,
        PieceType::Knight => 78,
        PieceType::Bishop => 66,
        PieceType::Pawn => 80,
    }
}

/// The kind a letter names, if any.
pub open spec fn kind_of_code(b: u8) -> Option<PieceType> {
    if b == 75 {
        Some(PieceType::King)
    } else if b == 81 {
        Some(PieceType::Queen)
    } else if b == 82 {
        Some(PieceType::Rook)
    } else if b == 78 {
        Some(PieceType::Knight)
    } else if b == 66 {
        Some(PieceType::Bishop)
    } else if b == 80 {
        Some(PieceType::Pawn)
    } else {
        None
    }
}

/// The token of a cell: two spaces when empty, else side letter and kind letter.
pub open spec fn token_of(p: Option<Piece>) -> Seq<u8> {
    match p {
        None => seq![SPACE, SPACE],
        Some(q) => seq![team_code(q.team), kind_code(q.piece_type)],
    }
}

/// The piece a two-letter token names: a side letter, then a kind letter.
/// A piece read from text has not moved.
pub open spec fn piece_of(tok: Seq<u8>) -> Result<Piece, PieceError> {
    if tok.len() == 0 {
        Err(PieceError::MissingTeam)
    } else if team_of_code(tok[0]) is None {
        Err(PieceError::UnknownTeam(tok[0]))
    } else if tok.len() == 1 {
        Err(PieceError::MissingPieceType)
    } else if kind_of_code(tok[1]) is None {
        Err(PieceError::UnknownPieceType(tok[1]))
    } else if tok.len() > 2 {
        Err(PieceError::TooManyCharacters)
    } else {
        Ok(Piece { piece_type: kind_of_code(tok[1])->0, team: team_of_code(tok[0])->0, has_moved: false })
    }
}

/// What a cell token stands for: two spaces for an empty cell, else a piece.
pub open spec fn cell_of(tok: Seq<u8>) -> Result<Option<Piece>, PieceError> {
    if tok == seq![SPACE, SPACE] {
        Ok(None)
    } else {
        match piece_of(tok) {
            Ok(p) => Ok(Some(p)),
            Err(e) => Err(e),
        }
    }
}

/// The first fault of row `i`, whose tokens are `toks`, from column `j` on.
pub open spec fn row_error(toks: Seq<Seq<u8>>, i: int, j: int) -> Option<ParseError>
    decreases 8 - j,
{
    if j >= 8 {
        if toks.len() > 8 {
            Some(ParseError::TooManySquares((i + 1) as usize))
        } else {
            None
        }
    } else if j >= toks.len() {
        Some(ParseError::MissingSquare((i + 1) as usize, (j + 1) as usize))
    } else if cell_of(toks[j]) is Err {
        Some(ParseError::BadSquare((i + 1) as usize, (j + 1) as usize, cell_of(toks[j])->Err_0))
    } else {
        row_error(toks, i, j + 1)
    }
}

/// The first fault of the description from row `i` on.
pub open spec fn rows_error(lines: Seq<Seq<u8>>, i: int) -> Option<ParseError>
    decreases 8 - i,
{
    if i >= 8 {
        if lines.len() > 8 {
            Some(ParseError::TooManyRows)
        } else {
            None
        }
    } else if i >= lines.len() {
        Some(ParseError::MissingRow((i + 1) as usize))
    } else if row_error(split(lines[i], COMMA), i, 0) is Some {
        row_error(split(lines[i], COMMA), i, 0)
    } else {
        rows_error(lines, i + 1)
    }
}

/// The first fault of a board description, if any.
pub open spec fn parse_error(text: Seq<u8>) -> Option<ParseError> {
    rows_error(lines_of(text), 0)
}

/// What a well-formed description puts on `(r, c)`.
pub open spec fn parsed_occupant(text: Seq<u8>, r: int, c: int) -> Option<Piece> {
    cell_of(split(lines_of(text)[r], COMMA)[c])->Ok_0
}

/// The tokens of rank `r`.
pub open spec fn row_tokens(cells: Seq<Option<Piece>>, r: int) -> Seq<Seq<u8>> {
    Seq::new(8, |c: int| token_of(occupant(cells, r, c)))
}

/// The text of rank `r`: its eight tokens separated by commas.
pub open spec fn row_text(cells: Seq<Option<Piece>>, r: int) -> Seq<u8> {
    join(row_tokens(cells, r), COMMA)
}

/// The description of a grid: its eight ranks, from rank 0, separated by newlines.
pub open spec fn text_of(cells: Seq<Option<Piece>>) -> Seq<u8> {
    join(Seq::new(8, |r: int| row_text(cells, r)), NEWLINE)
}

/// Splitting always yields at least one piece.
pub proof fn lemma_split_nonempty(s: Seq<u8>, sep: u8)
    ensures
        split(s, sep).len() >= 1,
    decreases s.len(),
{
    if s.len() > 0 {
        lemma_split_nonempty(s.drop_last(), sep);
    }
}

/// The printed rank `r` through column `c`: a bar, then each token followed
/// by a bar.
pub open spec fn grid_cells(cells: Seq<Option<Piece>>, r: int, c: int) -> Seq<u8>
    decreases c,
{
    if c <= 0 {
        seq![BAR]
    } else {
        (grid_cells(cells, r, c - 1) + token_of(occupant(cells, r, c - 1))).push(BAR)
    }
}

/// The printed grid of the first `r` ranks, one line each.
pub open spec fn grid_of(cells: Seq<Option<Piece>>, r: int) -> Seq<u8>
    decreases r,
{
    if r <= 0 {
        Seq::empty()
    } else {
        grid_of(cells, r - 1) + grid_cells(cells, r - 1, 8).push(NEWLINE)
    }
}

/// `s` cut at every `sep`.
fn split_bytes(s: &[u8], sep: u8) -> (r: Vec<Vec<u8>>)
    ensures
        r@.len() == split(s@, sep).len(),
        forall|k: int| 0 <= k < r@.len() ==> #[trigger] r@[k]@ == split(s@, sep)[k],
{
    let mut parts: Vec<Vec<u8>> = Vec::new();
    let mut cur: Vec<u8> = Vec::new();
    let mut i: usize = 0;
    assert(s@.subrange(0, 0) =~= Seq::<u8>::empty());
    while i < s.len()
        invariant
            i <= s@.len(),
            split(s@.subrange(0, i as int), sep).len() == parts@.len() + 1,
            forall|k: int|
                0 <= k < parts@.len() ==> #[trigger] parts@[k]@ == split(s@.subrange(0, i as int), sep)[k],
            cur@ == split(s@.subrange(0, i as int), sep).last(),
        decreases s@.len() - i,
    {
        let x = s[i];
        let ghost before = split(s@.subrange(0, i as int), sep);
        assert(s@.subrange(0, i + 1).drop_last() =~= s@.subrange(0, i as int));
        if x == sep {
            parts.push(cur);
            cur = Vec::new();
        } else {
            cur.push(x);
        }
        i = i + 1;
    }
    parts.push(cur);
    assert(s@.subrange(0, s@.len() as int) =~= s@);
    parts
}

/// The lines of `text`.
fn lines(text: &[u8]) -> (r: Vec<Vec<u8>>)
    ensures
        r@.len() == lines_of(text@).len(),
        forall|k: int| 0 <= k < r@.len() ==> #[trigger] r@[k]@ == lines_of(text@)[k],
{
    let parts = split_bytes(text, NEWLINE);
    proof {
        lemma_split_nonempty(text@, NEWLINE);
    }
    let ghost sp = split(text@, NEWLINE);
    let n = parts.len();
    let kept = if parts[n - 1].len() == 0 {
        n - 1
    } else {
        n
    };
    let mut out: Vec<Vec<u8>> = Vec::new();
    let mut k: usize = 0;
    while k < kept
        invariant
            kept <= n,
            n == parts@.len(),
            n == sp.len(),
            sp == split(text@, NEWLINE),
            kept == lines_of(text@).len(),
            forall|j: int| 0 <= j < n ==> #[trigger] parts@[j]@ == sp[j],
            k <= kept,
            out@.len() == k,
            forall|j: int| 0 <= j < k ==> #[trigger] out@[j]@ == lines_of(text@)[j],
        decreases kept - k,
    {
        let mut line = parts[k].clone();
        assert(line@ =~= parts@[k as int]@);
        let len = line.len();
        if k + 1 < n && len > 0 && line[len - 1] == RETURN {
            line.pop();
        }
        let ghost prev = out@;
        out.push(line);
        assert(forall|j: int| 0 <= j < k ==> out@[j] == prev[j]);
        k = k + 1;
    }
    out
}

impl PieceType {
    /// The one-letter code: K, Q, R, N, B or P.
    pub fn code(self) -> (r: u8)
        ensures
            r == kind_code(self),
    {
        match self {
            PieceType::King => 75,
            PieceType::Queen => 81,
            PieceType::Rook => 82,
            PieceType::Knight => 78,
            PieceType::Bishop => 66,
            PieceType::Pawn => 80,
        }
    }

    /// The kind whose one-letter code is `b`.
    pub fn from_code(b: u8) -> (r: Option<PieceType>)
        ensures
            r == kind_of_code(b),
    {
        if b == 75 {
            Some(PieceType::King)
        } else if b == 81 {
            Some(PieceType::Queen)
        } else if b == 82 {
            Some(PieceType::Rook)
        } else if b == 78 {
            Some(PieceType::Knight)
        } else if b == 66 {
            Some(PieceType::Bishop)
        } else if b == 80 {
            Some(PieceType::Pawn)
        } else {
            None
        }
    }
}

impl Team {
    /// The one-letter code: w or b.
    pub fn code(self) -> (r: u8)
        ensures
            r == team_code(self),
    {
        match self {
            Team::White => 119,
            Team::Black => 98,
        }
    }

    /// The side whose one-letter code is `b`.
    pub fn from_code(b: u8) -> (r: Option<Team>)
        ensures
            r == team_of_code(b),
    {
        if b == 119 {
            Some(Team::White)
        } else if b == 98 {
            Some(Team::Black)
        } else {
            None
        }
    }
}

impl Piece {
    /// Reads a piece token: a side letter (w or b) followed by a kind letter.
    pub fn parse(tok: &[u8]) -> (r: Result<Piece, PieceError>)
        ensures
            r == piece_of(tok@),
    {
        if tok.len() == 0 {
            return Err(PieceError::MissingTeam);
        }
        let team = match Team::from_code(tok[0]) {
            Some(t) => t,
            None => {
                return Err(PieceError::UnknownTeam(tok[0]));
            },
        };
        if tok.len() == 1 {
            return Err(PieceError::MissingPieceType);
        }
        let kind = match PieceType::from_code(tok[1]) {
            Some(k) => k,
            None => {
                return Err(PieceError::UnknownPieceType(tok[1]));
            },
        };
        if tok.len() > 2 {
            return Err(PieceError::TooManyCharacters);
        }
        Ok(Piece::new(kind, team))
    }

    /// Reads a cell token: two spaces for an empty cell, else a piece token.
    pub fn parse_cell(tok: &[u8]) -> (r: Result<Option<Piece>, PieceError>)
        ensures
            r == cell_of(tok@),
    {
        if tok.len() == 2 && tok[0] == SPACE && tok[1] == SPACE {
            assert(tok@ =~= seq![SPACE, SPACE]);
            return Ok(None);
        }
        assert(tok@ != seq![SPACE, SPACE]);
        match Piece::parse(tok) {
            Ok(p) => Ok(Some(p)),
            Err(e) => Err(e),
        }
    }

    /// The two-letter token of this piece.
    pub fn token(&self) -> (r: [u8; 2])
        ensures
            r@ == token_of(Some(*self)),
    {
        let r = [self.team.code(), self.piece_type.code()];
        assert(r@ =~= token_of(Some(*self)));
        r
    }
}

impl Board {
    /// Reads a board from its text form: eight lines, each of eight
    /// comma-separated two-character tokens, rank 0 first. The result has
    /// white to move and no piece marked as moved. On a malformed text the
    /// first fault, in reading order, is reported.
    pub fn parse(text: &[u8]) -> (r: Result<Board, ParseError>)
        ensures
            r is Err <==> parse_error(text@) is Some,
            r is Err ==> r->Err_0 == parse_error(text@)->0,
            r is Ok ==> r->Ok_0.side() == Team::White,
            r is Ok ==> forall|i: int, j: int|
                on_board(i, j) ==> #[trigger] occupant(r->Ok_0.cells(), i, j) == parsed_occupant(text@, i, j),
    {
        let rows = lines(text);
        let ghost ls = lines_of(text@);
        let mut b = Board::new();
        let mut i: usize = 0;
        while i < 8
            invariant
                i <= 8,
                rows@.len() == ls.len(),
                forall|k: int| 0 <= k < rows@.len() ==> #[trigger] rows@[k]@ == ls[k],
                ls == lines_of(text@),
                rows_error(ls, 0) == rows_error(ls, i as int),
                b.side() == Team::White,
                b.cells().len() == 64,
                forall|r: int, c: int|
                    0 <= r < i && 0 <= c < 8 ==> #[trigger] occupant(b.cells(), r, c) == parsed_occupant(
                        text@,
                        r,
                        c,
                    ),
            decreases 8 - i,
        {
            if i >= rows.len() {
                return Err(ParseError::MissingRow(i + 1));
            }
            let toks = split_bytes(rows[i].as_slice(), COMMA);
            let ghost ts = split(ls[i as int], COMMA);
            assert(toks@.len() == ts.len());
            let mut j: usize = 0;
            while j < 8
                invariant
                    i < 8,
                    j <= 8,
                    i < ls.len(),
                    ls == lines_of(text@),
                    ts == split(ls[i as int], COMMA),
                    rows_error(ls, 0) == rows_error(ls, i as int),
                    toks@.len() == ts.len(),
                    forall|k: int| 0 <= k < toks@.len() ==> #[trigger] toks@[k]@ == ts[k],
                    row_error(ts, i as int, 0) == row_error(ts, i as int, j as int),
                    b.side() == Team::White,
                    b.cells().len() == 64,
                    forall|r: int, c: int|
                        ((0 <= r < i && 0 <= c < 8) || (r == i && 0 <= c < j)) ==> #[trigger] occupant(
                            b.cells(),
                            r,
                            c,
                        ) == parsed_occupant(text@, r, c),
                decreases 8 - j,
            {
                if j >= toks.len() {
                    return Err(ParseError::MissingSquare(i + 1, j + 1));
                }
                match Piece::parse_cell(toks[j].as_slice()) {
                    Err(e) => {
                        return Err(ParseError::BadSquare(i + 1, j + 1, e));
                    },
                    Ok(cell) => {
                        let ghost prev = b.cells();
                        b.set_cell(i, j, cell);
                        assert forall|r: int, c: int|
                            ((0 <= r < i && 0 <= c < 8) || (r == i && 0 <= c < j + 1)) implies #[trigger] occupant(
                            b.cells(),
                            r,
                            c,
                        ) == parsed_occupant(text@, r, c) by {
                            if !(r == i && c == j) {
                                assert(occupant(b.cells(), r, c) == occupant(prev, r, c));
                            }
                        }
                    },
                }
                j = j + 1;
            }
            if toks.len() > 8 {
                return Err(ParseError::TooManySquares(i + 1));
            }
            i = i + 1;
        }
        if rows.len() > 8 {
            return Err(ParseError::TooManyRows);
        }
        Ok(b)
    }

    /// The board drawn for a terminal: each rank on its own line, rank 0
    /// first, every token framed by bars.
    pub fn to_grid(&self) -> (r: Vec<u8>)
        ensures
            r@ == grid_of(self.cells(), 8),
    {
        let mut out: Vec<u8> = Vec::new();
        let mut r: usize = 0;
        while r < 8
            invariant
                r <= 8,
                out@ == grid_of(self.cells(), r as int),
            decreases 8 - r,
        {
            let mut line: Vec<u8> = Vec::new();
            line.push(BAR);
            assert(line@ =~= grid_cells(self.cells(), r as int, 0));
            let mut c: usize = 0;
            while c < 8
                invariant
                    r < 8,
                    c <= 8,
                    line@ == grid_cells(self.cells(), r as int, c as int),
                decreases 8 - c,
            {
                let tok = match self.at(Pos::from_index(r * 8 + c)) {
                    None => [SPACE, SPACE],
                    Some(p) => p.token(),
                };
                assert(tok@ == token_of(occupant(self.cells(), r as int, c as int)));
                line.push(tok[0]);
                line.push(tok[1]);
                line.push(BAR);
                assert(line@ =~= grid_cells(self.cells(), r as int, c + 1));
                c = c + 1;
            }
            line.push(NEWLINE);
            out.append(&mut line);
            assert(out@ =~= grid_of(self.cells(), r + 1));
            r = r + 1;
        }
        out
    }

    /// Reads a board from a string, as `parse` does from its bytes.
    pub fn from_text(s: &str) -> (r: Result<Board, ParseError>)
        ensures
            r is Err <==> parse_error(s.spec_bytes()) is Some,
            r is Err ==> r->Err_0 == parse_error(s.spec_bytes())->0,
            r is Ok ==> r->Ok_0.side() == Team::White,
            r is Ok ==> forall|i: int, j: int|
                on_board(i, j) ==> #[trigger] occupant(r->Ok_0.cells(), i, j) == parsed_occupant(
                    s.spec_bytes(),
                    i,
                    j,
                ),
    {
        Board::parse(s.as_bytes())
    }

    /// The text form of the board, as `parse` reads it: ranks from 0 to 7 on
    /// separate lines, no final newline.
    pub fn to_text(&self) -> (r: Vec<u8>)
        ensures
            r@ == text_of(self.cells()),
    {
        let ghost rows = Seq::new(8, |r: int| row_text(self.cells(), r));
        let mut out: Vec<u8> = Vec::new();
        let mut r: usize = 0;
        while r < 8
            invariant
                r <= 8,
                rows == Seq::new(8, |r: int| row_text(self.cells(), r)),
                out@ == join(rows.take(r as int), NEWLINE),
            decreases 8 - r,
        {
            if r > 0 {
                out.push(NEWLINE);
            }
            let ghost toks = row_tokens(self.cells(), r as int);
            let mut line: Vec<u8> = Vec::new();
            let mut c: usize = 0;
            while c < 8
                invariant
                    r < 8,
                    c <= 8,
                    toks == row_tokens(self.cells(), r as int),
                    line@ == join(toks.take(c as int), COMMA),
                decreases 8 - c,
            {
                if c > 0 {
                    line.push(COMMA);
                }
                let tok = match self.at(Pos::from_index(r * 8 + c)) {
                    None => [SPACE, SPACE],
                    Some(p) => p.token(),
                };
                line.push(tok[0]);
                line.push(tok[1]);
                assert(toks.take(c + 1).drop_last() =~= toks.take(c as int));
                assert(tok@ == toks[c as int]);
                assert(line@ =~= join(toks.take(c + 1), COMMA));
                c = c + 1;
            }
            assert(toks.take(8) =~= toks);
            let ghost before = out@;
            out.append(&mut line);
            assert(rows.take(r + 1).drop_last() =~= rows.take(r as int));
            assert(out@ =~= join(rows.take(r + 1), NEWLINE));
            r = r + 1;
        }
        assert(rows.take(8) =~= rows);
        out
    }
}

/// A piece without `sep` is not cut.
proof fn lemma_split_whole(t: Seq<u8>, sep: u8)
    requires
        forall|k: int| 0 <= k < t.len() ==> t[k] != sep,
    ensures
        split(t, sep) == seq![t],
    decreases t.len(),
{
    if t.len() > 0 {
        lemma_split_whole(t.drop_last(), sep);
        assert(t.drop_last().push(t.last()) =~= t);
        assert(seq![t.drop_last()].update(0, t.drop_last().push(t.last())) =~= seq![t]);
    } else {
        assert(t =~= Seq::<u8>::empty());
    }
}

/// Cutting `a`, a separator and then a piece `t` without separators gives the
/// pieces of `a` followed by `t`.
proof fn lemma_split_append(a: Seq<u8>, t: Seq<u8>, sep: u8)
    requires
        forall|k: int| 0 <= k < t.len() ==> t[k] != sep,
    ensures
        split(a.push(sep) + t, sep) == split(a, sep).push(t),
    decreases t.len(),
{
    if t.len() == 0 {
        assert(a.push(sep) + t =~= a.push(sep));
        assert(a.push(sep).drop_last() =~= a);
        assert(t =~= Seq::<u8>::empty());
    } else {
        let init = t.drop_last();
        lemma_split_append(a, init, sep);
        assert((a.push(sep) + t).drop_last() =~= a.push(sep) + init);
        lemma_split_nonempty(a, sep);
        assert(init.push(t.last()) =~= t);
        assert(split(a, sep).push(init).update(split(a, sep).len() as int, init.push(t.last())) =~= split(
            a,
            sep,
        ).push(t));
        assert(init.push(t.last()) =~= t);
    }
}

/// Cutting a joined sequence at the separator gives back the pieces, when no
/// piece holds the separator.
proof fn lemma_split_join(parts: Seq<Seq<u8>>, sep: u8)
    requires
        parts.len() >= 1,
        forall|k: int, m: int| 0 <= k < parts.len() && 0 <= m < parts[k].len() ==> parts[k][m] != sep,
    ensures
        split(join(parts, sep), sep) == parts,
    decreases parts.len(),
{
    if parts.len() == 1 {
        lemma_split_whole(parts[0], sep);
        assert(seq![parts[0]] =~= parts);
    } else {
        let init = parts.drop_last();
        lemma_split_join(init, sep);
        assert(parts.last() == parts[parts.len() - 1]);
        lemma_split_append(join(init, sep), parts.last(), sep);
        assert(init.push(parts.last()) =~= parts);
    }
}

/// A joined sequence holds `x` only where a piece does.
proof fn lemma_join_avoids(parts: Seq<Seq<u8>>, sep: u8, x: u8)
    requires
        x != sep,
        forall|k: int, m: int| 0 <= k < parts.len() && 0 <= m < parts[k].len() ==> parts[k][m] != x,
    ensures
        forall|m: int| 0 <= m < join(parts, sep).len() ==> join(parts, sep)[m] != x,
    decreases parts.len(),
{
    if parts.len() > 1 {
        let init = parts.drop_last();
        lemma_join_avoids(init, sep, x);
        let j = join(parts, sep);
        let ji = join(init, sep);
        assert(parts.last() == parts[parts.len() - 1]);
        assert forall|m: int| 0 <= m < j.len() implies j[m] != x by {
            if m < ji.len() {
                assert(j[m] == ji[m]);
            } else if m > ji.len() {
                assert(j[m] == parts.last()[m - ji.len() - 1]);
            }
        }
    }
}

/// `p` with its moved mark cleared.
pub open spec fn unmoved(p: Option<Piece>) -> Option<Piece> {
    match p {
        Some(q) => Some(Piece { has_moved: false, ..q }),
        None => None,
    }
}

/// A token reads back as the cell it was written from, unmarked.
proof fn lemma_token_reads_back(p: Option<Piece>)
    ensures
        cell_of(token_of(p)) == Ok::<Option<Piece>, PieceError>(unmoved(p)),
        token_of(p).len() == 2,
        forall|m: int| 0 <= m < 2 ==> token_of(p)[m] != COMMA && token_of(p)[m] != NEWLINE,
{
    match p {
        Some(q) => {
            assert(token_of(p)[0] != SPACE);
        },
        None => {},
    }
}

/// The tokens of every rank read back without fault.
proof fn lemma_row_reads(cells: Seq<Option<Piece>>, i: int, j: int)
    requires
        0 <= i < 8,
        0 <= j <= 8,
    ensures
        row_error(row_tokens(cells, i), i, j) is None,
    decreases 8 - j,
{
    if j < 8 {
        lemma_token_reads_back(occupant(cells, i, j));
        lemma_row_reads(cells, i, j + 1);
    }
}

/// The ranks of a written text, each cut at its commas, are the tokens written.
proof fn lemma_text_lines(cells: Seq<Option<Piece>>)
    ensures
        lines_of(text_of(cells)) == Seq::new(8, |r: int| row_text(cells, r)),
        forall|i: int| 0 <= i < 8 ==> #[trigger] split(row_text(cells, i), COMMA) == row_tokens(cells, i),
{
    let rows = Seq::new(8, |r: int| row_text(cells, r));
    assert forall|i: int| 0 <= i < 8 implies #[trigger] split(row_text(cells, i), COMMA) == row_tokens(cells, i)
        && forall|m: int| 0 <= m < row_text(cells, i).len() ==> row_text(cells, i)[m] != NEWLINE by {
        let toks = row_tokens(cells, i);
        assert forall|k: int, m: int| 0 <= k < toks.len() && 0 <= m < toks[k].len() implies toks[k][m] != COMMA
            && toks[k][m] != NEWLINE by {
            lemma_token_reads_back(occupant(cells, i, k));
        }
        lemma_split_join(toks, COMMA);
        lemma_join_avoids(toks, COMMA, NEWLINE);
    }
    assert forall|k: int, m: int| 0 <= k < rows.len() && 0 <= m < rows[k].len() implies rows[k][m] != NEWLINE by {
        assert(rows[k] == row_text(cells, k));
        let toks = row_tokens(cells, k);
        assert forall|q: int, n: int| 0 <= q < toks.len() && 0 <= n < toks[q].len() implies toks[q][n] != NEWLINE by {
            lemma_token_reads_back(occupant(cells, k, q));
        }
        lemma_join_avoids(toks, COMMA, NEWLINE);
    }
    lemma_split_join(rows, NEWLINE);
    let last = row_tokens(cells, 7);
    lemma_token_reads_back(occupant(cells, 7, 7));
    assert(last.last() == last[7]);
    assert(rows.last() == row_text(cells, 7));
    assert(rows.last().len() > 0);
}

/// Writing a board as text and reading the text back gives the same cells,
/// each piece unmarked as moved; a board on which no piece has moved comes
/// back cell for cell.
pub proof fn lemma_text_round_trip(b: Board)
    ensures
        parse_error(text_of(b.cells())) is None,
        forall|r: int, c: int|
            on_board(r, c) ==> #[trigger] parsed_occupant(text_of(b.cells()), r, c) == unmoved(
                occupant(b.cells(), r, c),
            ),
        (forall|r: int, c: int|
            on_board(r, c) && #[trigger] occupant(b.cells(), r, c) is Some ==> !occupant(
                b.cells(),
                r,
                c,
            )->0.has_moved) ==> forall|r: int, c: int|
            on_board(r, c) ==> #[trigger] parsed_occupant(text_of(b.cells()), r, c) == occupant(
                b.cells(),
                r,
                c,
            ),
{
    let cells = b.cells();
    let text = text_of(cells);
    lemma_text_lines(cells);
    let ls = lines_of(text);
    assert forall|i: int| 0 <= i <= 8 implies #[trigger] rows_error(ls, i) is None by {
        lemma_rows_read(cells, ls, i);
    }
    assert forall|r: int, c: int| on_board(r, c) implies #[trigger] parsed_occupant(text, r, c) == unmoved(
        occupant(cells, r, c),
    ) by {
        assert(split(ls[r], COMMA) == row_tokens(cells, r));
        lemma_token_reads_back(occupant(cells, r, c));
    }
}

proof fn lemma_rows_read(cells: Seq<Option<Piece>>, ls: Seq<Seq<u8>>, i: int)
    requires
        0 <= i <= 8,
        ls == Seq::new(8, |r: int| row_text(cells, r)),
        forall|k: int| 0 <= k < 8 ==> #[trigger] split(row_text(cells, k), COMMA) == row_tokens(cells, k),
    ensures
        rows_error(ls, i) is None,
    decreases 8 - i,
{
    if i < 8 {
        assert(split(ls[i], COMMA) == row_tokens(cells, i));
        lemma_row_reads(cells, i, 0);
        lemma_rows_read(cells, ls, i + 1);
    }
}

impl std::str::FromStr for Board {
    type Err = ParseError;

    fn from_str(s: &str) -> (r: Result<Board, ParseError>)
        ensures
            r is Err <==> parse_error(s.spec_bytes()) is Some,
            r is Err ==> r->Err_0 == parse_error(s.spec_bytes())->0,
            r is Ok ==> r->Ok_0.side() == Team::White,
            r is Ok ==> forall|i: int, j: int|
                on_board(i, j) ==> #[trigger] occupant(r->Ok_0.cells(), i, j) == parsed_occupant(
                    s.spec_bytes(),
                    i,
                    j,
                ),
    {
        Board::from_text(s)
    }
}

impl std::str::FromStr for Piece {
    type Err = PieceError;

    fn from_str(s: &str) -> (r: Result<Piece, PieceError>)
        ensures
            r == piece_of(s.spec_bytes()),
    {
        Piece::parse(s.as_bytes())
    }
}

} // verus!
