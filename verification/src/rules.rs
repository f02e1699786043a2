//! The start position, and how a move sequence changes a game.
use vstd::prelude::*;

use crate::game::{
    on_board, opponent, square, Board, Error, GameState, GameStatus, Move, Piece, PieceType,
    Player, Position, BOARD_SIZE,
};
use crate::movegen::{legal_sequences, sequences_view};
use crate::shape::{ipos, law_offered_sequence_shape, sequence_shape};

verus! {

broadcast use vstd::seq_lib::group_seq_properties;

/// What the square `(x, y)` holds at the start of a game: men on the dark squares
/// (`x + y` odd) of the first four rows for Black and of the last four rows for White.
pub open spec fn initial_square(x: int, y: int) -> Option<Piece> {
    if (x + y) % 2 == 1 && x < 4 {
        Some(Piece { type_: PieceType::Man, player: Player::Black })
    } else if (x + y) % 2 == 1 && x >= 6 {
        Some(Piece { type_: PieceType::Man, player: Player::White })
    } else {
        None
    }
}

fn fill_row(board: &mut Board, row: usize, player: Player)
    requires
        row < 10,
    ensures
        forall|x: int, y: int|
            on_board(x, y) && x != row ==> square(*final(board), x, y) == square(*old(board), x, y),
        forall|y: int|
            0 <= y < 10 ==> square(*final(board), row as int, y) == if (row + y) % 2 == 1 {
                Some(Piece { type_: PieceType::Man, player })
            } else {
                square(*old(board), row as int, y)
            },
{
    let mut i: usize = 0;
    while i < BOARD_SIZE
        invariant
            row < 10,
            i <= 10,
            forall|x: int, y: int|
                on_board(x, y) && x != row ==> square(*board, x, y) == square(*old(board), x, y),
            forall|y: int|
                0 <= y < i ==> square(*board, row as int, y) == if (row + y) % 2 == 1 {
                    Some(Piece { type_: PieceType::Man, player })
                } else {
                    square(*old(board), row as int, y)
                },
            forall|y: int| i <= y < 10 ==> square(*board, row as int, y) == square(*old(board), row as int, y),
        decreases 10 - i,
    {
        if (i + row) % 2 == 1 {
            board[row][i] = Some(Piece { type_: PieceType::Man, player });
        }
        i = i + 1;
    }
}

fn default_board() -> (board: Board)
    ensures
        forall|x: int, y: int| on_board(x, y) ==> square(board, x, y) == initial_square(x, y),
{
    let mut board: Board = [[None; 10]; 10];
    fill_row(&mut board, 0, Player::Black);
    fill_row(&mut board, 1, Player::Black);
    fill_row(&mut board, 2, Player::Black);
    fill_row(&mut board, 3, Player::Black);

    fill_row(&mut board, BOARD_SIZE - 4, Player::White);
    fill_row(&mut board, BOARD_SIZE - 3, Player::White);
    fill_row(&mut board, BOARD_SIZE - 2, Player::White);
    fill_row(&mut board, BOARD_SIZE - 1, Player::White);
    board
}

/// The row on which the men of `p` are crowned.
pub open spec fn crowning_row(p: Player) -> int {
    match p {
        Player::White => 0,
        Player::Black => 9,
    }
}

/// The state of the game `s` once its status has been brought up to date: a decided
/// game stays decided; a player with no move left has lost; past 200 turns it is a draw.
pub open spec fn next_status(s: GameState) -> GameStatus {
    if s.status != GameStatus::Running {
        s.status
    } else if legal_sequences(s).len() == 0 {
        GameStatus::Victory(opponent(s.current_player))
    } else if s.turns > 200 {
        GameStatus::Draw
    } else {
        GameStatus::Running
    }
}

/// Some sequence of `list` is made of the moves `moves`.
pub open spec fn is_listed(list: Seq<(Seq<Move>, Seq<Position>)>, moves: Seq<Move>) -> bool {
    exists|j: int| 0 <= j < list.len() && list[j].0 == moves
}

/// `list[j]` is the first sequence of `list` made of the moves `moves`.
pub open spec fn first_listed(list: Seq<(Seq<Move>, Seq<Position>)>, moves: Seq<Move>, j: int) -> bool {
    &&& 0 <= j < list.len()
    &&& list[j].0 == moves
    &&& forall|k: int| 0 <= k < j ==> list[k].0 != moves
}

/// What the square `(x, y)` of `b` holds once the player `p` has played `m`: the moving
/// piece leaves its square for the end of the chain, where a man reaching the crowning row
/// becomes a king, and every captured piece is removed.
pub open spec fn square_after(b: Board, p: Player, m: (Seq<Move>, Seq<Position>), x: int, y: int) -> Option<Piece> {
    let from = ipos(m.0[0].from);
    let to = ipos(m.0.last().to);
    if m.1.contains((x as usize, y as usize)) {
        None
    } else if (x, y) == to {
        match square(b, from.0, from.1) {
            Some(pc) => Some(
                if to.0 == crowning_row(p) {
                    Piece { type_: PieceType::King, player: pc.player }
                } else {
                    pc
                },
            ),
            None => None,
        }
    } else if (x, y) == from {
        None
    } else {
        square(b, x, y)
    }
}

/// `after` is the game `s` once its player to move has played `m`.
pub open spec fn played(s: GameState, m: (Seq<Move>, Seq<Position>), after: GameState) -> bool {
    &&& forall|x: int, y: int|
        on_board(x, y) ==> #[trigger] square(after.board, x, y) == square_after(
            s.board,
            s.current_player,
            m,
            x,
            y,
        )
    &&& after.current_player == opponent(s.current_player)
    &&& after.turns == s.turns + 1
    &&& after.status == next_status(GameState { status: s.status, ..after })
}

impl Default for GameState {
    /// The start of a game: the initial board, White to move.
    fn default() -> (r: GameState)
        ensures
            forall|x: int, y: int| on_board(x, y) ==> square(r.board, x, y) == initial_square(x, y),
            r.current_player == Player::White,
            r.status == GameStatus::Running,
            r.turns == 0,
    {
        GameState {
            board: default_board(),
            current_player: Player::White,
            status: GameStatus::Running,
            turns: 0,
        }
    }
}

pub(crate) fn same_moves(a: &Vec<Move>, b: &[Move]) -> (r: bool)
    ensures
        r == (a@ == b@),
{
    if a.len() != b.len() {
        return false;
    }
    let mut k: usize = 0;
    while k < a.len()
        invariant
            a.len() == b@.len(),
            k <= a.len(),
            forall|j: int| 0 <= j < k ==> a@[j] == b@[j],
        decreases a.len() - k,
    {
        if a[k].from.0 != b[k].from.0 || a[k].from.1 != b[k].from.1 || a[k].to.0 != b[k].to.0
            || a[k].to.1 != b[k].to.1 {
            return false;
        }
        k = k + 1;
    }
    assert(a@ =~= b@);
    true
}

impl GameState {
    /// The status of the game in this position: a decided game stays decided; otherwise the
    /// player to move loses when offered no sequence, and the game is drawn past 200 turns.
    pub fn compute_status(&self) -> (r: GameStatus)
        ensures
            r == next_status(*self),
    {
        // A decided game stays decided.
        if self.status != GameStatus::Running {
            return self.status;
        }
        // A player without any move has lost.
        let moves = self.list_valid_moves();
        if moves.len() == 0 {
            return GameStatus::Victory(
                if self.current_player == Player::White {
                    Player::Black
                } else {
                    Player::White
                },
            );
        }
        if self.turns > 200 {
            return GameStatus::Draw;
        }
        GameStatus::Running
    }

    /// Plays the moves `seq` for the player to move, if they form one of the sequences
    /// that `list_valid_moves` offers; the game is left unchanged otherwise.
    pub fn apply_sequence(&mut self, seq: &[Move]) -> (r: Result<(), Error>)
        requires
            old(self).turns < u16::MAX || !is_listed(legal_sequences(*old(self)), seq@),
        ensures
            r is Err <==> !is_listed(legal_sequences(*old(self)), seq@),
            r matches Err(e) ==> e is InvalidMove && *final(self) == *old(self),
            r is Ok ==> exists|j: int|
                first_listed(legal_sequences(*old(self)), seq@, j) && played(
                    *old(self),
                    #[trigger] legal_sequences(*old(self))[j],
                    *final(self),
                ),
            r is Ok ==> forall|k: int|
                0 <= k < legal_sequences(*old(self)).len() && legal_sequences(*old(self))[k].0 == seq@
                    ==> played(*old(self), #[trigger] legal_sequences(*old(self))[k], *final(self)),
            r is Ok ==> square(final(self).board, seq@.last().to.0 as int, seq@.last().to.1 as int) == Some(
                Piece {
                    type_: if seq@.last().to.0 == (if old(self).current_player == Player::White {
                        0usize
                    } else {
                        9usize
                    }) {
                        PieceType::King
                    } else {
                        square(old(self).board, seq@[0].from.0 as int, seq@[0].from.1 as int).unwrap().type_
                    },
                    player: old(self).current_player,
                },
            ),
    {
        let available_moves = self.list_valid_moves();
        let ghost list = legal_sequences(*self);
        let mut j: usize = 0;
        let mut found = false;
        while j < available_moves.len()
            invariant
                j <= available_moves.len(),
                sequences_view(available_moves@) == list,
                forall|k: int| 0 <= k < j ==> list[k].0 != seq@,
                found ==> j < available_moves.len() && list[j as int].0 == seq@,
            ensures
                found ==> j < available_moves.len() && list[j as int].0 == seq@,
                !found ==> j == available_moves.len(),
                forall|k: int| 0 <= k < j ==> list[k].0 != seq@,
            decreases available_moves.len() - j + if found { 0int } else { 1int },
        {
            if same_moves(&available_moves[j].0, seq) {
                found = true;
                break ;
            }
            j = j + 1;
        }
        if !found {
            return Err(Error::InvalidMove);
        }
        proof {
            law_offered_sequence_shape(*self);
            assert(sequence_shape(*self, list[j as int]));
            assert(first_listed(list, seq@, j as int));
        }
        let ghost before = *self;
        let ghost m = list[j as int];
        let moves = &available_moves[j].0;
        let captures = &available_moves[j].1;
        assert(moves@ == m.0 && captures@ == m.1);
        self.turns = self.turns + 1;
        let from = moves[0].from;
        let to = moves[moves.len() - 1].to;
        assert(crate::movegen::move_on_board(m.0[0]));
        assert(crate::movegen::move_on_board(m.0[m.0.len() - 1]));
        let piece = self.board[from.0][from.1];
        self.board[from.0][from.1] = None;
        self.board[to.0][to.1] = piece;
        let crowning: usize = match self.current_player {
            Player::White => 0,
            Player::Black => BOARD_SIZE - 1,
        };
        if to.0 == crowning {
            let mut crowned = piece.unwrap();
            crowned.type_ = PieceType::King;
            self.board[to.0][to.1] = Some(crowned);
        }
        let mut k: usize = 0;
        while k < captures.len()
            invariant
                k <= captures.len(),
                captures@ == m.1,
                sequence_shape(before, m),
                self.status == before.status,
                self.current_player == before.current_player,
                self.turns == before.turns + 1,
                forall|x: int, y: int|
                    on_board(x, y) ==> #[trigger] square(self.board, x, y) == if m.1.subrange(
                        0,
                        k as int,
                    ).contains((x as usize, y as usize)) {
                        None
                    } else {
                        square_after(before.board, before.current_player, (m.0, seq![]), x, y)
                    },
            decreases captures.len() - k,
        {
            let c = captures[k];
            assert(crate::movegen::holds_opponent(before, ipos(m.1[k as int])));
            let ghost prev = self.board;
            self.board[c.0][c.1] = None;
            assert(m.1.subrange(0, k + 1) =~= m.1.subrange(0, k as int).push(c));
            assert forall|x: int, y: int| on_board(x, y) implies #[trigger] square(self.board, x, y)
                == if m.1.subrange(0, k + 1).contains((x as usize, y as usize)) {
                None
            } else {
                square_after(before.board, before.current_player, (m.0, seq![]), x, y)
            } by {
                assert(square(prev, x, y) == if m.1.subrange(0, k as int).contains(
                    (x as usize, y as usize),
                ) {
                    None
                } else {
                    square_after(before.board, before.current_player, (m.0, seq![]), x, y)
                });
                if x == c.0 as int && y == c.1 as int {
                    assert((x as usize, y as usize) == c);
                } else {
                    assert((x as usize, y as usize) != c);
                    assert(square(self.board, x, y) == square(prev, x, y));
                }
            }
            k = k + 1;
        }
        assert(m.1.subrange(0, m.1.len() as int) =~= m.1);
        self.current_player = self.current_player.other();
        let ghost unsettled = *self;
        self.status = self.compute_status();
        assert(unsettled == GameState { status: before.status, ..*self });
        proof {
            assert forall|x: int, y: int| on_board(x, y) implies #[trigger] square(self.board, x, y)
                == square_after(before.board, before.current_player, m, x, y) by {
                assert(!seq![].contains((x as usize, y as usize)));
            }
            assert(played(before, list[j as int], *self));
            assert(list.contains(list[j as int]));
            crate::laws::law_board_after_move(before, list[j as int], *self);
            crate::distinct::law_offered_moves_distinct(before);
            assert forall|k: int| 0 <= k < list.len() && list[k].0 == seq@ implies played(
                before,
                #[trigger] list[k],
                *self,
            ) by {
                if k < j {
                    assert(list[k].0 != list[j as int].0);
                } else if k > j {
                    assert(list[j as int].0 != list[k].0);
                }
            }
        }
        Ok(())
    }
}

} // verus!
