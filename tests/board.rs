use chess::{Board, LegalMove, ParseError, Piece, PieceError, PieceType, Pos, Team};

const START_ROWS: [&str; 8] = [
    "bR,bN,bB,bQ,bK,bB,bN,bR",
    "bP,bP,bP,bP,bP,bP,bP,bP",
    "  ,  ,  ,  ,  ,  ,  ,  ",
    "  ,  ,  ,  ,  ,  ,  ,  ",
    "  ,  ,  ,  ,  ,  ,  ,  ",
    "  ,  ,  ,  ,  ,  ,  ,  ",
    "wP,wP,wP,wP,wP,wP,wP,wP",
    "wR,wN,wB,wQ,wK,wB,wN,wR",
];

fn start_text() -> String {
    START_ROWS.join("\n")
}

fn pos(r: isize, c: isize) -> Pos {
    Pos::new(r, c).unwrap()
}

fn find(moves: &[LegalMove], from: (usize, usize), to: (usize, usize)) -> LegalMove {
    *moves
        .iter()
        .find(|m| {
            let mv = m.mv();
            (mv.from().pos().row(), mv.from().pos().col()) == from
                && (mv.to().pos().row(), mv.to().pos().col()) == to
        })
        .unwrap()
}

fn play(board: &Board, from: (usize, usize), to: (usize, usize)) -> Board {
    let moves = board.team_legal_moves();
    let m = find(&moves, from, to);
    board.apply_move(&m).unwrap()
}

fn destinations(board: &Board, p: Pos) -> Vec<(usize, usize)> {
    let mut v: Vec<(usize, usize)> = board
        .moves(p)
        .iter()
        .map(|m| (m.to().pos().row(), m.to().pos().col()))
        .collect();
    v.sort();
    v
}

#[test]
fn default_board_does_not_panic() {
    let default = Board::default();
    let empty = Board::new();
    assert_ne!(default, empty);
}

#[test]
fn default_board_matches_start_text() {
    assert_eq!(Board::from_text(&start_text()).unwrap(), Board::default());
    assert_eq!(start_text().parse::<Board>().unwrap(), Board::default());
}

#[test]
fn start_position_has_twenty_legal_moves() {
    let b = Board::default();
    assert_eq!(b.team(), Team::White);
    let moves = b.team_legal_moves();
    assert_eq!(moves.len(), 20);
    let pawn_moves = moves
        .iter()
        .filter(|m| m.mv().from().content().unwrap().piece_type() == PieceType::Pawn)
        .count();
    let knight_moves = moves
        .iter()
        .filter(|m| m.mv().from().content().unwrap().piece_type() == PieceType::Knight)
        .count();
    assert_eq!(pawn_moves, 16);
    assert_eq!(knight_moves, 4);
    assert!(moves.iter().all(|m| m.team() == Team::White && !m.mv().is_capture()));
}

#[test]
fn corner_rook_is_blocked_until_pawn_leaves() {
    let b = Board::default();
    assert!(b.legal_moves_sq(pos(7, 0)).is_empty());
    assert!(b.moves(pos(0, 0)).is_empty());
    assert!(b.moves(pos(7, 0)).is_empty());
    let text = start_text().replacen("bP,bP", "  ,bP", 1);
    let b = Board::from_text(&text).unwrap();
    assert_eq!(
        destinations(&b, pos(0, 0)),
        vec![(1, 0), (2, 0), (3, 0), (4, 0), (5, 0), (6, 0)]
    );
    let capture = b
        .moves(pos(0, 0))
        .into_iter()
        .filter(|m| m.is_capture())
        .map(|m| (m.to().pos().row(), m.to().pos().col()))
        .collect::<Vec<_>>();
    assert_eq!(capture, vec![(6, 0)]);
}

#[test]
fn empty_between_on_start_board() {
    let b = Board::default();
    assert!(b.is_empty_between(pos(1, 1), pos(6, 1)));
    assert!(!b.is_empty_between(pos(1, 1), pos(7, 1)));
    assert!(b.is_empty_between(pos(1, 1), pos(2, 1)));
    assert!(b.is_empty_between(pos(3, 3), pos(3, 3)));
    assert!(b.is_empty_between(pos(1, 0), pos(6, 5)));
    assert!(!b.is_empty_between(pos(0, 0), pos(7, 7)));
}

#[test]
fn text_round_trip_of_start() {
    let b = Board::default();
    let text = b.to_text();
    assert_eq!(String::from_utf8(text.clone()).unwrap(), start_text());
    assert_eq!(Board::parse(&text).unwrap(), b);
}

#[test]
fn text_round_trip_after_moves() {
    let b = Board::default();
    let b = play(&b, (6, 4), (4, 4));
    let b = play(&b, (1, 4), (3, 4));
    let back = Board::parse(&b.to_text()).unwrap();
    assert_eq!(back.to_text(), b.to_text());
    assert_eq!(back.team(), Team::White);
    assert_eq!(back.at(pos(4, 4)).unwrap().piece_type(), PieceType::Pawn);
    assert!(!back.at(pos(4, 4)).unwrap().has_moved());
    assert!(b.at(pos(4, 4)).unwrap().has_moved());
}

#[test]
fn apply_move_flips_side_and_keeps_king_safe() {
    let b = Board::default();
    for m in b.team_legal_moves() {
        let next = b.apply_move(&m).unwrap();
        assert_eq!(next.team(), Team::Black);
        let attacked = next.attacked_squares(next.team());
        assert!(attacked
            .iter()
            .all(|sq| sq.content().map(|p| p.piece_type()) != Some(PieceType::King)));
        let from = m.mv().from().pos();
        let to = m.mv().to().pos();
        assert_eq!(next.at(from), None);
        let moved = next.at(to).unwrap();
        assert!(moved.has_moved());
        assert_eq!(moved.piece_type(), m.mv().from().content().unwrap().piece_type());
    }
}

#[test]
fn apply_move_refuses_a_move_for_the_other_side() {
    let b = Board::default();
    let m = find(&b.team_legal_moves(), (6, 4), (4, 4));
    let next = b.apply_move(&m).unwrap();
    assert_eq!(next.apply_move(&m), None);
    let stale_source = play(&b, (6, 3), (4, 3));
    let black = stale_source.team_legal_moves()[0];
    assert_eq!(b.apply_move(&black), None);
}

#[test]
fn touched_pawn_loses_double_advance() {
    let pawn = Piece::new(PieceType::Pawn, Team::White);
    assert!(!pawn.has_moved());
    let offs = pawn.offsets();
    assert!(offs.contains(&(-2, 0)));
    assert_eq!(offs.len(), 4);
    let touched = pawn.touch_piece();
    assert!(touched.has_moved());
    let offs = touched.offsets();
    assert!(!offs.contains(&(-2, 0)));
    assert_eq!(offs.len(), 3);
    let raw = touched.raw_moves(pos(6, 4));
    assert!(raw.iter().all(|m| m.to.row() == 5));
    assert_eq!(raw.len(), 3);
}

#[test]
fn black_pawn_advances_toward_higher_ranks() {
    let pawn = Piece::new(PieceType::Pawn, Team::Black);
    let mut offs = pawn.offsets();
    offs.sort();
    assert_eq!(offs, vec![(1, -1), (1, 0), (1, 1), (2, 0)]);
    assert_eq!(Team::Black.direction(), 1);
    assert_eq!(Team::White.direction(), -1);
    assert_eq!(Team::White.opponent(), Team::Black);
}

#[test]
fn read_operations_repeat() {
    let b = play(&Board::default(), (6, 4), (4, 4));
    assert_eq!(b.moves(pos(0, 1)), b.moves(pos(0, 1)));
    assert_eq!(b.attacked_squares(Team::White), b.attacked_squares(Team::White));
    assert_eq!(b.team_legal_moves(), b.team_legal_moves());
    assert_eq!(b.legal_moves_sq(pos(1, 4)), b.legal_moves_sq(pos(1, 4)));
}

#[test]
fn coordinate_bounds() {
    for r in -3isize..11 {
        for c in -3isize..11 {
            let p = Pos::new(r, c);
            let inside = (0..8).contains(&r) && (0..8).contains(&c);
            assert_eq!(p.is_some(), inside);
            if let Some(p) = p {
                assert_eq!((p.row() as isize, p.col() as isize), (r, c));
            }
        }
    }
}

#[test]
fn checked_add_stays_on_board() {
    let p = pos(3, 4);
    let q = p.checked_add((2, -3)).unwrap();
    assert_eq!((q.row(), q.col()), (5, 1));
    assert!(p.checked_add((5, 0)).is_none());
    assert!(p.checked_add((0, -5)).is_none());
    assert!(p.checked_add((isize::MAX, 0)).is_none());
    assert!(p.checked_add((isize::MIN, isize::MIN)).is_none());
    let corner = pos(7, 7);
    assert!(corner.checked_add((1, 1)).is_none());
    assert_eq!(corner.checked_add((-7, -7)).unwrap(), pos(0, 0));
}

#[test]
fn offsets_per_kind() {
    let count = |k: PieceType| Piece::new(k, Team::White).offsets().len();
    assert_eq!(count(PieceType::King), 8);
    assert_eq!(count(PieceType::Queen), 56);
    assert_eq!(count(PieceType::Rook), 28);
    assert_eq!(count(PieceType::Bishop), 28);
    assert_eq!(count(PieceType::Knight), 8);
    let mut king = Piece::new(PieceType::King, Team::Black).offsets();
    king.sort();
    assert_eq!(
        king,
        vec![(-1, -1), (-1, 0), (-1, 1), (0, -1), (0, 1), (1, -1), (1, 0), (1, 1)]
    );
    let rook = Piece::new(PieceType::Rook, Team::Black).offsets();
    assert!(rook.contains(&(0, 7)) && rook.contains(&(-7, 0)) && !rook.contains(&(1, 1)));
    let bishop = Piece::new(PieceType::Bishop, Team::Black).offsets();
    assert!(bishop.contains(&(-7, 7)) && !bishop.contains(&(0, 1)));
}

#[test]
fn raw_moves_clip_at_the_edge() {
    let rook = Piece::new(PieceType::Rook, Team::White);
    assert_eq!(rook.raw_moves(pos(0, 0)).len(), 14);
    let queen = Piece::new(PieceType::Queen, Team::White);
    assert_eq!(queen.raw_moves(pos(0, 0)).len(), 21);
    assert_eq!(queen.raw_moves(pos(3, 3)).len(), 27);
    let knight = Piece::new(PieceType::Knight, Team::White);
    assert_eq!(knight.raw_moves(pos(0, 0)).len(), 2);
    let king = Piece::new(PieceType::King, Team::White);
    assert_eq!(king.raw_moves(pos(7, 4)).len(), 5);
}

#[test]
fn pinned_rook_stays_on_its_file() {
    let text = "    ,  ,  ,  ,bR,  ,  ,  \n";
    assert!(Board::from_text(text).is_err());
    let text = [
        "  ,  ,  ,  ,bR,  ,  ,bK",
        "  ,  ,  ,  ,  ,  ,  ,  ",
        "  ,  ,  ,  ,  ,  ,  ,  ",
        "  ,  ,  ,  ,  ,  ,  ,  ",
        "  ,  ,  ,  ,  ,  ,  ,  ",
        "  ,  ,  ,  ,  ,  ,  ,  ",
        "  ,  ,  ,  ,wR,  ,  ,  ",
        "  ,  ,  ,  ,wK,  ,  ,  ",
        "",
    ]
    .join("\n");
    let text = text.as_str();
    let b = Board::from_text(text).unwrap();
    let mut rook: Vec<(usize, usize)> = b
        .legal_moves_sq(pos(6, 4))
        .iter()
        .map(|m| (m.mv().to().pos().row(), m.mv().to().pos().col()))
        .collect();
    rook.sort();
    assert_eq!(rook, vec![(0, 4), (1, 4), (2, 4), (3, 4), (4, 4), (5, 4)]);
    assert_eq!(destinations(&b, pos(6, 4)).len(), 13);
    assert!(b.legal_moves_sq(pos(0, 4)).is_empty());
}

#[test]
fn king_may_not_step_into_attack() {
    let text = [
        "  ,  ,  ,  ,  ,  ,  ,bK",
        "  ,  ,  ,  ,  ,  ,  ,  ",
        "  ,  ,  ,  ,  ,  ,  ,  ",
        "  ,  ,  ,  ,  ,  ,  ,  ",
        "  ,  ,  ,  ,  ,  ,  ,  ",
        "  ,  ,  ,  ,  ,  ,  ,  ",
        "bR,  ,  ,  ,  ,  ,  ,  ",
        "  ,  ,  ,  ,wK,  ,  ,  ",
    ]
    .join("\n");
    let text = text.as_str();
    let b = Board::from_text(text).unwrap();
    let mut king: Vec<(usize, usize)> = b
        .legal_moves_sq(pos(7, 4))
        .iter()
        .map(|m| (m.mv().to().pos().row(), m.mv().to().pos().col()))
        .collect();
    king.sort();
    assert_eq!(king, vec![(7, 3), (7, 5)]);
    let black = b.attacked_squares(Team::Black);
    assert!(black.iter().any(|sq| sq.pos() == pos(6, 4)));
    assert!(!black.iter().any(|sq| sq.pos() == pos(7, 4)));
}

#[test]
fn fools_mate_leaves_no_legal_move() {
    let b = Board::default();
    let b = play(&b, (6, 5), (5, 5));
    let b = play(&b, (1, 4), (3, 4));
    let b = play(&b, (6, 6), (4, 6));
    let b = play(&b, (0, 3), (4, 7));
    assert_eq!(b.team(), Team::White);
    assert!(b.team_legal_moves().is_empty());
}

#[test]
fn pawn_captures_only_diagonally() {
    let b = Board::default();
    let b = play(&b, (6, 4), (4, 4));
    let b = play(&b, (1, 3), (3, 3));
    let dests = destinations(&b, pos(4, 4));
    assert_eq!(dests, vec![(3, 3), (3, 4)]);
    let capture = find(&b.legal_moves_sq(pos(4, 4)), (4, 4), (3, 3));
    assert!(capture.mv().is_capture());
    let b = play(&b, (6, 0), (5, 0));
    let b = play(&b, (3, 3), (4, 3));
    let b = play(&b, (5, 0), (4, 0));
    let b = play(&b, (4, 3), (5, 3));
    assert_eq!(destinations(&b, pos(4, 4)), vec![(3, 4)]);
}

#[test]
fn enumerate_pieces_finds_sixteen_per_side() {
    let b = Board::default();
    let white = b.enumerate_pieces(Team::White);
    assert_eq!(white.len(), 16);
    assert!(white.iter().all(|sq| sq.pos().row() >= 6));
    assert_eq!(Board::new().enumerate_pieces(Team::Black).len(), 0);
}

#[test]
fn parse_errors_name_the_fault() {
    let rows = START_ROWS;
    assert_eq!(Board::parse(b""), Err(ParseError::MissingRow(1)));
    assert_eq!(
        Board::parse(rows[..7].join("\n").as_bytes()),
        Err(ParseError::MissingRow(8))
    );
    let mut extra = start_text();
    extra.push_str("\n  ,  ,  ,  ,  ,  ,  ,  ");
    assert_eq!(Board::parse(extra.as_bytes()), Err(ParseError::TooManyRows));
    let short = start_text().replacen("bP,bP,bP,bP,bP,bP,bP,bP", "bP,bP,bP", 1);
    assert_eq!(
        Board::parse(short.as_bytes()),
        Err(ParseError::MissingSquare(2, 4))
    );
    let long = start_text().replacen("wR,wN,wB,wQ,wK,wB,wN,wR", "wR,wN,wB,wQ,wK,wB,wN,wR,  ", 1);
    assert_eq!(
        Board::parse(long.as_bytes()),
        Err(ParseError::TooManySquares(8))
    );
    let bad = start_text().replacen("bQ", "xQ", 1);
    assert_eq!(
        Board::parse(bad.as_bytes()),
        Err(ParseError::BadSquare(1, 4, PieceError::UnknownTeam(b'x')))
    );
    let with_newline = format!("{}\n", start_text());
    assert_eq!(Board::parse(with_newline.as_bytes()).unwrap(), Board::default());
}

#[test]
fn piece_tokens() {
    assert_eq!("wK".parse::<Piece>(), Ok(Piece::new(PieceType::King, Team::White)));
    assert_eq!("bN".parse::<Piece>(), Ok(Piece::new(PieceType::Knight, Team::Black)));
    assert_eq!(Piece::parse(b""), Err(PieceError::MissingTeam));
    assert_eq!(Piece::parse(b"q"), Err(PieceError::UnknownTeam(b'q')));
    assert_eq!(Piece::parse(b"w"), Err(PieceError::MissingPieceType));
    assert_eq!(Piece::parse(b"wX"), Err(PieceError::UnknownPieceType(b'X')));
    assert_eq!(Piece::parse(b"wKK"), Err(PieceError::TooManyCharacters));
    assert_eq!(Piece::parse(b"  "), Err(PieceError::UnknownTeam(b' ')));
    assert_eq!(Piece::parse_cell(b"  "), Ok(None));
    assert_eq!(Piece::new(PieceType::Bishop, Team::Black).token(), *b"bB");
    assert_eq!(PieceType::Knight.code(), b'N');
    assert_eq!(PieceType::from_code(b'Q'), Some(PieceType::Queen));
    assert_eq!(PieceType::from_code(b'q'), None);
    assert_eq!(Team::from_code(b'w'), Some(Team::White));
}

#[test]
fn grid_rendering() {
    let grid = String::from_utf8(Board::default().to_grid()).unwrap();
    let lines: Vec<&str> = grid.lines().collect();
    assert_eq!(lines.len(), 8);
    assert_eq!(lines[0], "|bR|bN|bB|bQ|bK|bB|bN|bR|");
    assert_eq!(lines[3], "|  |  |  |  |  |  |  |  |");
    assert_eq!(lines[7], "|wR|wN|wB|wQ|wK|wB|wN|wR|");
    assert!(grid.ends_with("|\n"));
}

#[test]
fn attacked_squares_are_listed_once() {
    let b = Board::default();
    let white = b.attacked_squares(Team::White);
    let mut cells: Vec<(usize, usize)> = white.iter().map(|sq| (sq.pos().row(), sq.pos().col())).collect();
    cells.sort();
    let mut unique = cells.clone();
    unique.dedup();
    assert_eq!(cells, unique);
    assert_eq!(cells.len(), 16);
    assert!(white.iter().all(|sq| sq.content().is_none()));
}

#[test]
fn is_legal_rejects_exposing_the_king() {
    let text = [
        "  ,  ,  ,  ,bR,  ,  ,bK",
        "  ,  ,  ,  ,  ,  ,  ,  ",
        "  ,  ,  ,  ,  ,  ,  ,  ",
        "  ,  ,  ,  ,  ,  ,  ,  ",
        "  ,  ,  ,  ,  ,  ,  ,  ",
        "  ,  ,  ,  ,  ,  ,  ,  ",
        "  ,  ,  ,  ,wB,  ,  ,  ",
        "  ,  ,  ,  ,wK,  ,  ,  ",
    ]
    .join("\n");
    let b = Board::from_text(&text).unwrap();
    let bishop_moves = b.moves(pos(6, 4));
    assert_eq!(bishop_moves.len(), 9);
    assert!(bishop_moves.iter().all(|m| !b.is_legal(m)));
    assert!(b.legal_moves_sq(pos(6, 4)).is_empty());
    let king_step = b
        .moves(pos(7, 4))
        .into_iter()
        .find(|m| m.to().pos() == pos(7, 3))
        .unwrap();
    assert!(b.is_legal(&king_step));
    let sq = b.square(pos(6, 4));
    assert_eq!(sq.content(), Some(Piece::new(PieceType::Bishop, Team::White)));
    assert_eq!(b.at(pos(5, 5)), None);
}

#[test]
fn crlf_line_endings_are_read() {
    let crlf = START_ROWS.join("\r\n");
    assert_eq!(Board::from_text(&crlf).unwrap(), Board::default());
    let ended = format!("{}\r\n", crlf);
    assert_eq!(ended.parse::<Board>().unwrap(), Board::default());
    let bare_return = format!("{}\r", start_text());
    assert_eq!(
        Board::from_text(&bare_return),
        Err(ParseError::BadSquare(8, 8, PieceError::TooManyCharacters))
    );
}

#[test]
fn from_str_matches_parse() {
    let empty_rows = ["  ,  ,  ,  ,  ,  ,  ,  "; 8].join("\n");
    assert_eq!(empty_rows.parse::<Board>().unwrap(), Board::new());
    assert_eq!("".parse::<Board>(), Err(ParseError::MissingRow(1)));
    assert_eq!("bK".parse::<Board>(), Err(ParseError::MissingSquare(1, 2)));
    assert_eq!(
        "xK".parse::<Board>(),
        Err(ParseError::BadSquare(1, 1, PieceError::UnknownTeam(b'x')))
    );
    assert_eq!("xK".parse::<Piece>(), Err(PieceError::UnknownTeam(b'x')));
    assert_eq!("bQ".parse::<Piece>(), Ok(Piece::new(PieceType::Queen, Team::Black)));
}

#[test]
fn moves_come_in_generation_order() {
    let b = Board::default();
    let knight: Vec<(usize, usize)> = b
        .moves(pos(7, 1))
        .iter()
        .map(|m| (m.to().pos().row(), m.to().pos().col()))
        .collect();
    assert_eq!(knight, vec![(5, 2), (5, 0)]);
    let first: Vec<(usize, usize)> = b
        .team_legal_moves()
        .iter()
        .take(3)
        .map(|m| (m.mv().from().pos().row(), m.mv().from().pos().col()))
        .collect();
    assert_eq!(first, vec![(6, 0), (6, 0), (6, 1)]);
}

#[test]
fn corner_rook_gains_the_cells_its_pawn_left() {
    let b = Board::default();
    let b = play(&b, (6, 7), (4, 7));
    let b = play(&b, (1, 0), (3, 0));
    let b = play(&b, (4, 7), (3, 7));
    assert_eq!(destinations(&b, pos(0, 0)), vec![(1, 0), (2, 0)]);
    assert!(b.moves(pos(0, 0)).iter().all(|m| !m.is_capture()));
    assert_eq!(b.legal_moves_sq(pos(0, 0)).len(), 2);
}
