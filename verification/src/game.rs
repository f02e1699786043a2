use vstd::prelude::*;

verus! {

/// Side length of the square board.
pub const BOARD_SIZE: usize = 10;

/// One of the two players.
#[derive(Debug, Clone, Copy, PartialEq, Eq, Structural)]
pub enum Player {
    White,
    Black,
}

/// Kind of a piece: a man steps forward one square, a king slides along diagonals.
#[derive(Debug, Clone, Copy, PartialEq, Eq, Structural)]
pub enum PieceType {
    Man,
    King,
}

/// A piece on the board.
#[derive(Debug, Clone, Copy, PartialEq, Eq, Structural)]
pub struct Piece {
    pub type_: PieceType,
    pub player: Player,
}

/// The board, indexed as `board[x][y]`.
pub type Board = [[Option<Piece>; 10]; 10];

/// A square of the board, as `(x, y)`.
pub type Position = (usize, usize);

/// One jump or step of a piece.
#[derive(Debug, Clone, Copy, PartialEq, Eq, Hash)]
pub struct Move {
    pub from: Position,
    pub to: Position,
}

/// The moves of one turn, and the squares of the pieces it captures.
pub type MoveSequence = (Vec<Move>, Vec<Position>);

/// Whether the game goes on, and how it ended.
#[derive(Debug, Clone, Copy, PartialEq, Eq, Structural)]
pub enum GameStatus {
    Running,
    Draw,
    Victory(Player),
}

/// A game in progress.
#[derive(Debug, Clone, Copy)]
pub struct GameState {
    pub board: Board,
    pub current_player: Player,
    pub status: GameStatus,
    pub turns: u16,
}

/// What a client is told after a turn.
#[derive(Debug, Clone)]
pub struct TurnStatus {
    pub game: GameState,
    pub move_: String,
    pub available_moves: Vec<MoveSequence>,
    pub ai_output: String,
}

/// Why a player program's turn failed.
#[derive(Debug, Clone, Copy, PartialEq, Eq, Structural)]
pub enum AIError {
    EmptySubmission,
    InvalidMove,
}

/// Errors of the backend.
#[derive(Debug)]
pub enum Error {
    NotFound,
    IO,
    InvalidMove,
    AIFailed { error: AIError, ai_output: String, move_: Option<Vec<Move>> },
}

/// The opponent of `p`.
pub open spec fn opponent(p: Player) -> Player {
    match p {
        Player::White => Player::Black,
        Player::Black => Player::White,
    }
}

/// The square `(x, y)` of `b`.
pub open spec fn square(b: Board, x: int, y: int) -> Option<Piece> {
    b[x][y]
}

/// `(x, y)` lies on the board.
pub open spec fn on_board(x: int, y: int) -> bool {
    0 <= x < 10 && 0 <= y < 10
}

impl Player {
    /// The other player.
    pub(crate) fn other(&self) -> (r: Player)
        ensures
            r == opponent(*self),
    {
        match self {
            Player::White => Player::Black,
            Player::Black => Player::White,
        }
    }
}

} // verus!

pub use crate::text::sequence_to_string;
