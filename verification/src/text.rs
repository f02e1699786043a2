//! The plain-text forms of boards and move sequences.
use vstd::prelude::*;

use crate::game::{square, Board, GameState, Move, MoveSequence, Piece, PieceType, Player};
use crate::play::split_on;

verus! {

/// Appends `c` to `s`, through `String::push`.
#[verifier::external_body]
fn push_char(s: &mut String, c: char)
    ensures
        final(s)@ == old(s)@.push(c),
{
    s.push(c);
}

/// The decimal digit with value `d`.
pub open spec fn digit_char(d: int) -> char {
    (48 + d) as char
}

/// The decimal form of `n`, without leading zeros.
pub open spec fn decimal(n: nat) -> Seq<char>
    decreases n,
{
    if n < 10 {
        seq![digit_char(n as int)]
    } else {
        decimal(n / 10).push(digit_char((n % 10) as int))
    }
}

fn push_decimal(s: &mut String, n: usize)
    ensures
        final(s)@ == old(s)@ + decimal(n as nat),
    decreases n,
{
    if n >= 10 {
        push_decimal(s, n / 10);
    }
    let d: u8 = (n % 10) as u8;
    let c = (48u8 + d) as char;
    assert(c == digit_char((n % 10) as int));
    push_char(s, c);
}

/// The text of a move: the digits of its start square, a comma, the digits of its end square.
pub open spec fn move_text(m: Move) -> Seq<char> {
    decimal(m.from.0 as nat) + decimal(m.from.1 as nat) + seq![','] + decimal(m.to.0 as nat)
        + decimal(m.to.1 as nat)
}

/// The texts of the moves `ms`, separated by colons.
pub open spec fn moves_text(ms: Seq<Move>) -> Seq<char>
    decreases ms.len(),
{
    if ms.len() == 0 {
        seq![]
    } else if ms.len() == 1 {
        move_text(ms[0])
    } else {
        moves_text(ms.drop_last()) + seq![':'] + move_text(ms.last())
    }
}

fn push_move(s: &mut String, m: Move)
    ensures
        final(s)@ == old(s)@ + move_text(m),
{
    let ghost s0 = s@;
    push_decimal(s, m.from.0);
    push_decimal(s, m.from.1);
    push_char(s, ',');
    push_decimal(s, m.to.0);
    push_decimal(s, m.to.1);
    assert(s@ =~= s0 + move_text(m));
}

/// The text of the moves of `sequence`, such as `52,41:41,30`.
pub fn sequence_to_string(sequence: &MoveSequence) -> (r: String)
    ensures
        r@ == moves_text(sequence.0@),
{
    let moves = &sequence.0;
    let mut out = String::new();
    let mut k: usize = 0;
    while k < moves.len()
        invariant
            k <= moves.len(),
            out@ == moves_text(moves@.subrange(0, k as int)),
        decreases moves.len() - k,
    {
        let ghost prev = out@;
        if k > 0 {
            push_char(&mut out, ':');
        }
        push_move(&mut out, moves[k]);
        assert(moves@.subrange(0, k + 1).drop_last() =~= moves@.subrange(0, k as int));
        if k == 0 {
            assert(out@ =~= moves_text(moves@.subrange(0, 1)));
        } else {
            assert(out@ =~= prev + seq![':'] + move_text(moves@[k as int]));
        }
        k = k + 1;
    }
    assert(moves@.subrange(0, moves.len() as int) =~= moves@);
    out
}

/// The letter of a player: `W` or `B`.
pub open spec fn player_char(p: Player) -> char {
    match p {
        Player::White => 'W',
        Player::Black => 'B',
    }
}

/// The letter of a kind of piece: `M` or `K`.
pub open spec fn piece_type_char(t: PieceType) -> char {
    match t {
        PieceType::Man => 'M',
        PieceType::King => 'K',
    }
}

/// The text of a square: the letters of the kind and the owner of its piece, or nothing.
pub open spec fn square_text(o: Option<Piece>) -> Seq<char> {
    match o {
        Some(pc) => seq![piece_type_char(pc.type_), player_char(pc.player)],
        None => seq![],
    }
}

impl Player {
    /// `W` for White, `B` for Black.
    pub fn to_string(&self) -> (r: String)
        ensures
            r@ == seq![player_char(*self)],
    {
        let mut s = String::new();
        push_char(
            &mut s,
            match self {
                Player::White => 'W',
                Player::Black => 'B',
            },
        );
        s
    }
}

impl PieceType {
    /// `M` for a man, `K` for a king.
    pub fn to_string(&self) -> (r: String)
        ensures
            r@ == seq![piece_type_char(*self)],
    {
        let mut s = String::new();
        push_char(
            &mut s,
            match self {
                PieceType::Man => 'M',
                PieceType::King => 'K',
            },
        );
        s
    }
}

fn push_piece(s: &mut String, pc: Piece)
    ensures
        final(s)@ == old(s)@ + square_text(Some(pc)),
{
    let ghost s0 = s@;
    push_char(
        s,
        match pc.type_ {
            PieceType::Man => 'M',
            PieceType::King => 'K',
        },
    );
    push_char(
        s,
        match pc.player {
            Player::White => 'W',
            Player::Black => 'B',
        },
    );
    assert(s@ =~= s0 + square_text(Some(pc)));
}

impl Piece {
    /// The letter of its kind followed by the letter of its owner, such as `MW`.
    pub fn to_string(&self) -> (r: String)
        ensures
            r@ == square_text(Some(*self)),
    {
        let mut s = String::new();
        push_piece(&mut s, *self);
        assert(s@ =~= square_text(Some(*self)));
        s
    }
}

/// The texts of the first `n` squares of row `x`, separated by commas.
pub open spec fn row_text(b: Board, x: int, n: nat) -> Seq<char>
    decreases n,
{
    if n == 0 {
        seq![]
    } else if n == 1 {
        square_text(square(b, x, 0))
    } else {
        row_text(b, x, (n - 1) as nat) + seq![','] + square_text(square(b, x, n - 1))
    }
}

/// The texts of the first `n` rows, each followed by a line break.
pub open spec fn rows_text(b: Board, n: nat) -> Seq<char>
    decreases n,
{
    if n == 0 {
        seq![]
    } else {
        rows_text(b, (n - 1) as nat) + row_text(b, n - 1, 10) + seq!['\n']
    }
}

impl GameState {
    /// The board as comma-separated values: one line per row, one field per square.
    pub fn to_csv_string(&self) -> (r: String)
        ensures
            r@ == rows_text(self.board, 10),
            forall|x: int, y: int|
                0 <= x < 10 && 0 <= y < 10 ==> split_on(split_on(r@, '\n')[x], ',')[y] == match #[trigger] square(
                    self.board,
                    x,
                    y,
                ) {
                    Some(pc) => seq![
                        match pc.type_ {
                            PieceType::Man => 'M',
                            PieceType::King => 'K',
                        },
                        match pc.player {
                            Player::White => 'W',
                            Player::Black => 'B',
                        },
                    ],
                    None => Seq::<char>::empty(),
                },
    {
        let mut out = String::new();
        let mut x: usize = 0;
        while x < 10
            invariant
                x <= 10,
                out@ == rows_text(self.board, x as nat),
            decreases 10 - x,
        {
            let ghost before_row = out@;
            let mut y: usize = 0;
            while y < 10
                invariant
                    x < 10,
                    y <= 10,
                    out@ == before_row + row_text(self.board, x as int, y as nat),
                decreases 10 - y,
            {
                let ghost prev = out@;
                if y > 0 {
                    push_char(&mut out, ',');
                }
                let ghost mid = out@;
                match self.board[x][y] {
                    Some(pc) => push_piece(&mut out, pc),
                    None => {},
                }
                assert(out@ =~= mid + square_text(square(self.board, x as int, y as int)));
                if y == 0 {
                    assert(out@ =~= before_row + row_text(self.board, x as int, 1));
                } else {
                    assert(out@ =~= before_row + (row_text(self.board, x as int, y as nat) + seq![',']
                        + square_text(square(self.board, x as int, y as int))));
                }
                y = y + 1;
            }
            push_char(&mut out, '\n');
            assert(out@ =~= rows_text(self.board, (x + 1) as nat));
            x = x + 1;
        }
        proof {
            crate::formats::law_csv_fields(self.board);
        }
        out
    }
}

} // verus!
