pub mod board;
pub mod movement;
pub mod piece;
pub mod square;
pub mod text;

pub use board::Board;
pub use movement::{LegalMove, Move, RawMove};
pub use piece::{Piece, PieceType, Team};
pub use square::{Pos, Square};
pub use text::{ParseError, PieceError};
