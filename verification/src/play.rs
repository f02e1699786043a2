//! A game against a player program: reading the moves it writes, judging them, and
//! settling its turn.
use vstd::prelude::*;

use crate::game::{
    opponent, AIError, Error, GameState, GameStatus, Move, MoveSequence, Player, Position,
};
use crate::movegen::legal_sequences;
use crate::movegen::sequences_view;
use crate::rules::{first_listed, is_listed, played, same_moves};
use crate::text::{moves_text, sequence_to_string};

verus! {

broadcast use vstd::seq_lib::group_seq_properties;

/// A game between a human and a player program.
#[derive(Debug)]
pub struct Game {
    pub checkers: GameState,
    pub human_player: Player,
}

/// What a player program produced: its move, and what it printed.
#[derive(Debug, Clone)]
pub struct AiOutput {
    pub move_: String,
    pub console: String,
}

/// The value of the character `c` taken as a digit.
pub open spec fn digit_value(c: char) -> int {
    (c as u32) as int - 48
}

/// The square named by the two characters `a` and `b`.
pub open spec fn cell_of(a: char, b: char) -> Position {
    (digit_value(a) as usize, digit_value(b) as usize)
}

fn convert_cell_id(id: &[char]) -> (r: Position)
    requires
        id@.len() >= 2,
        digit_value(id@[0]) >= 0,
        digit_value(id@[1]) >= 0,
    ensures
        r == cell_of(id@[0], id@[1]),
{
    let a: u32 = id[0] as u32;
    let b: u32 = id[1] as u32;
    ((a - '0' as u32) as usize, (b - '0' as u32) as usize)
}

/// The pieces of `s` between the separators `sep`, empty ones included.
pub open spec fn split_on(s: Seq<char>, sep: char) -> Seq<Seq<char>>
    decreases s.len(),
{
    if s.len() == 0 {
        seq![seq![]]
    } else {
        let r = split_on(s.drop_last(), sep);
        if s.last() == sep {
            r.push(seq![])
        } else {
            r.update(r.len() - 1, r.last().push(s.last()))
        }
    }
}

/// The piece `g` is empty, or long enough to name a move and starts its two squares
/// with characters no smaller than `0`.
pub open spec fn segment_ok(g: Seq<char>) -> bool {
    g.len() == 0 || (g.len() >= 5 && digit_value(g[0]) >= 0 && digit_value(g[1]) >= 0
        && digit_value(g[3]) >= 0 && digit_value(g[4]) >= 0)
}

/// Every `;`-separated piece of `s` can be read as a move.
pub open spec fn readable_moves(s: Seq<char>) -> bool {
    forall|k: int| 0 <= k < split_on(s, ';').len() ==> segment_ok(#[trigger] split_on(s, ';')[k])
}

/// The move named by `g`: the squares named by its characters 0-1 and 3-4.
pub open spec fn parse_move(g: Seq<char>) -> Move {
    Move { from: cell_of(g[0], g[1]), to: cell_of(g[3], g[4]) }
}

/// The moves named by the non-empty pieces among `parts`.
pub open spec fn moves_of_pieces(parts: Seq<Seq<char>>) -> Seq<Move>
    decreases parts.len(),
{
    if parts.len() == 0 {
        seq![]
    } else {
        let r = moves_of_pieces(parts.drop_last());
        if parts.last().len() > 0 {
            r.push(parse_move(parts.last()))
        } else {
            r
        }
    }
}

/// The moves named by the non-empty `;`-separated pieces of `s`.
pub open spec fn move_list(s: Seq<char>) -> Seq<Move> {
    moves_of_pieces(split_on(s, ';'))
}

pub(crate) proof fn lemma_split_nonempty(s: Seq<char>, sep: char)
    ensures
        split_on(s, sep).len() >= 1,
    decreases s.len(),
{
    if s.len() > 0 {
        lemma_split_nonempty(s.drop_last(), sep);
    }
}

/// Splitting a prefix of `s` gives the first pieces of splitting `s`, the last one cut short.
proof fn lemma_split_prefix(s: Seq<char>, sep: char, j: int, i: int)
    requires
        0 <= j <= i <= s.len(),
    ensures
        split_on(s.subrange(0, j), sep).len() <= split_on(s.subrange(0, i), sep).len(),
        forall|k: int|
            0 <= k < split_on(s.subrange(0, j), sep).len() - 1 ==> #[trigger] split_on(
                s.subrange(0, j),
                sep,
            )[k] == split_on(s.subrange(0, i), sep)[k],
        split_on(s.subrange(0, j), sep).last().len() <= split_on(s.subrange(0, i), sep)[split_on(
            s.subrange(0, j),
            sep,
        ).len() - 1].len(),
        split_on(s.subrange(0, j), sep).last() == split_on(s.subrange(0, i), sep)[split_on(
            s.subrange(0, j),
            sep,
        ).len() - 1].subrange(0, split_on(s.subrange(0, j), sep).last().len() as int),
    decreases i - j,
{
    lemma_split_nonempty(s.subrange(0, j), sep);
    if i > j {
        lemma_split_prefix(s, sep, j, i - 1);
        lemma_split_nonempty(s.subrange(0, i - 1), sep);
        assert(s.subrange(0, i).drop_last() =~= s.subrange(0, i - 1));
        let a = split_on(s.subrange(0, j), sep);
        let b = split_on(s.subrange(0, i - 1), sep);
        let c = split_on(s.subrange(0, i), sep);
        let idx: int = a.len() - 1;
        if s[i - 1] == sep {
            assert(c == b.push(seq![]));
        } else {
            assert(c == b.update(b.len() - 1, b.last().push(s[i - 1])));
            if idx == b.len() - 1 {
                assert(c[idx] == b[idx].push(s[i - 1]));
                assert(b[idx].push(s[i - 1]).subrange(0, a.last().len() as int) =~= b[idx].subrange(
                    0,
                    a.last().len() as int,
                ));
            }
        }
    } else {
        let a = split_on(s.subrange(0, j), sep);
        assert(a.last().subrange(0, a.last().len() as int) =~= a.last());
    }
}

fn parse_segment(g: &Vec<char>) -> (r: Move)
    requires
        segment_ok(g@),
        g@.len() > 0,
    ensures
        r == parse_move(g@),
{
    Move { from: convert_cell_id(&[g[0], g[1]]), to: convert_cell_id(&[g[3], g[4]]) }
}

/// The moves that a player program wrote, such as `61,50;50,41`: one move per
/// non-empty `;`-separated piece, read from its characters 0-1 and 3-4.
pub fn to_move_sequence(mov: &str) -> (r: Vec<Move>)
    requires
        readable_moves(mov@),
    ensures
        r@ == move_list(mov@),
{
    let ghost s = mov@;
    let n = mov.unicode_len();
    let mut out: Vec<Move> = Vec::new();
    let mut cur: Vec<char> = Vec::new();
    let mut i: usize = 0;
    proof {
        assert(s.subrange(0, 0) =~= Seq::<char>::empty());
    }
    while i < n
        invariant
            i <= n,
            n == s.len(),
            s == mov@,
            readable_moves(s),
            split_on(s.subrange(0, i as int), ';').len() >= 1,
            cur@ == split_on(s.subrange(0, i as int), ';').last(),
            out@ == moves_of_pieces(split_on(s.subrange(0, i as int), ';').drop_last()),
        decreases n - i,
    {
        let ghost a = split_on(s.subrange(0, i as int), ';');
        let c = mov.get_char(i);
        assert(s.subrange(0, i + 1).drop_last() =~= s.subrange(0, i as int));
        assert(a =~= a.drop_last().push(a.last()));
        if c == ';' {
            let ghost b = split_on(s.subrange(0, i + 1), ';');
            assert(b == a.push(seq![]));
            if cur.len() > 0 {
                proof {
                    lemma_split_prefix(s, ';', i + 1, n as int);
                    assert(s.subrange(0, n as int) =~= s);
                    assert(b[a.len() - 1] == split_on(s, ';')[a.len() - 1]);
                    assert(segment_ok(split_on(s, ';')[a.len() - 1]));
                }
                out.push(parse_segment(&cur));
            }
            cur = Vec::new();
            assert(b.drop_last() =~= a);
        } else {
            cur.push(c);
            let ghost b = split_on(s.subrange(0, i + 1), ';');
            assert(b.drop_last() =~= a.drop_last());
        }
        i = i + 1;
        proof {
            lemma_split_nonempty(s.subrange(0, i as int), ';');
        }
    }
    assert(s.subrange(0, n as int) =~= s);
    let ghost a = split_on(s, ';');
    assert(a =~= a.drop_last().push(a.last()));
    if cur.len() > 0 {
        assert(segment_ok(a[a.len() - 1]));
        out.push(parse_segment(&cur));
    }
    out
}

/// Tells whether `to_move_sequence` can read `mov`.
pub fn is_readable_move_list(mov: &str) -> (r: bool)
    ensures
        r == readable_moves(mov@),
        r <==> forall|k: int|
            0 <= k < split_on(mov@, ';').len() ==> {
                let g = #[trigger] split_on(mov@, ';')[k];
                g.len() == 0 || (g.len() >= 5 && g[0] as u32 >= 48 && g[1] as u32 >= 48 && g[3] as u32
                    >= 48 && g[4] as u32 >= 48)
            },
{
    let ghost s = mov@;
    let n = mov.unicode_len();
    let mut cur: Vec<char> = Vec::new();
    let mut i: usize = 0;
    proof {
        assert(s.subrange(0, 0) =~= Seq::<char>::empty());
    }
    while i < n
        invariant
            i <= n,
            n == s.len(),
            s == mov@,
            split_on(s.subrange(0, i as int), ';').len() >= 1,
            cur@ == split_on(s.subrange(0, i as int), ';').last(),
            forall|k: int|
                0 <= k < split_on(s.subrange(0, i as int), ';').len() - 1 ==> segment_ok(
                    #[trigger] split_on(s.subrange(0, i as int), ';')[k],
                ),
        decreases n - i,
    {
        let ghost a = split_on(s.subrange(0, i as int), ';');
        let c = mov.get_char(i);
        assert(s.subrange(0, i + 1).drop_last() =~= s.subrange(0, i as int));
        if c == ';' {
            let ok = cur.len() == 0 || (cur.len() >= 5 && cur[0] as u32 >= '0' as u32 && cur[1] as u32
                >= '0' as u32 && cur[3] as u32 >= '0' as u32 && cur[4] as u32 >= '0' as u32);
            if !ok {
                proof {
                    lemma_split_prefix(s, ';', i + 1, n as int);
                    assert(s.subrange(0, n as int) =~= s);
                    let b = split_on(s.subrange(0, i + 1), ';');
                    assert(b == a.push(seq![]));
                    assert(b[a.len() - 1] == split_on(s, ';')[a.len() - 1]);
                }
                return false;
            }
            cur = Vec::new();
        } else {
            cur.push(c);
        }
        i = i + 1;
        proof {
            lemma_split_nonempty(s.subrange(0, i as int), ';');
        }
    }
    assert(s.subrange(0, n as int) =~= s);
    cur.len() == 0 || (cur.len() >= 5 && cur[0] as u32 >= '0' as u32 && cur[1] as u32 >= '0' as u32
        && cur[3] as u32 >= '0' as u32 && cur[4] as u32 >= '0' as u32)
}

/// The texts of `sequences`, each followed by `;`.
pub open spec fn sequences_text(sequences: Seq<(Seq<Move>, Seq<Position>)>) -> Seq<char>
    decreases sequences.len(),
{
    if sequences.len() == 0 {
        seq![]
    } else {
        sequences_text(sequences.drop_last()) + moves_text(sequences.last().0) + seq![';']
    }
}

/// The line that lists the move sequences offered to a player program, such as
/// `61,50:50,41;61,52;` followed by a line break.
pub fn sequences_to_string(sequences: &Vec<MoveSequence>) -> (r: String)
    ensures
        r@ == sequences_text(sequences_view(sequences@)) + seq!['\n'],
        r@.len() > 0 && r@.last() == '\n',
        split_on(r@.drop_last(), ';').len() == sequences.len() + 1,
        forall|k: int|
            0 <= k < sequences.len() ==> split_on(r@.drop_last(), ';')[k] == moves_text(
                (#[trigger] sequences@[k]).0@,
            ),
        split_on(r@.drop_last(), ';').last() == Seq::<char>::empty(),
{
    let ghost all = sequences_view(sequences@);
    let mut out = String::new();
    let mut k: usize = 0;
    while k < sequences.len()
        invariant
            k <= sequences.len(),
            all == sequences_view(sequences@),
            out@ == sequences_text(all.subrange(0, k as int)),
        decreases sequences.len() - k,
    {
        let text = sequence_to_string(&sequences[k]);
        out.append(text.as_str());
        out.append(";");
        proof {
            reveal_strlit(";");
            assert(all.subrange(0, k + 1).drop_last() =~= all.subrange(0, k as int));
            assert(all[k as int].0 == sequences@[k as int].0@);
        }
        assert(out@ =~= sequences_text(all.subrange(0, k + 1)));
        k = k + 1;
    }
    out.append("\n");
    proof {
        reveal_strlit("\n");
        assert(all.subrange(0, all.len() as int) =~= all);
    }
    assert(out@ =~= sequences_text(all) + seq!['\n']);
    proof {
        assert(out@.drop_last() =~= sequences_text(all));
        crate::formats::law_listing_pieces(all);
        assert forall|k: int| 0 <= k < sequences.len() implies split_on(out@.drop_last(), ';')[k] == moves_text(
            (#[trigger] sequences@[k]).0@,
        ) by {
            assert(all[k].0 == sequences@[k].0@);
        }
    }
    out
}

fn offers(state: &GameState, seq: &[Move]) -> (r: bool)
    ensures
        r == is_listed(legal_sequences(*state), seq@),
{
    let available = state.list_valid_moves();
    let ghost list = legal_sequences(*state);
    let mut k: usize = 0;
    while k < available.len()
        invariant
            k <= available.len(),
            sequences_view(available@) == list,
            list == legal_sequences(*state),
            forall|j: int| 0 <= j < k ==> list[j].0 != seq@,
        decreases available.len() - k,
    {
        if same_moves(&available[k].0, seq) {
            assert(list.len() == available@.len());
            assert(list[k as int] == (available@[k as int].0@, available@[k as int].1@));
            assert(0 <= k < list.len() && list[k as int].0 == seq@);
            return true;
        }
        k = k + 1;
    }
    false
}

impl Game {
    /// Plays the human's moves: see `GameState::apply_sequence`.
    pub fn play_human(&mut self, moves: Vec<Move>) -> (r: Result<(), Error>)
        requires
            old(self).checkers.turns < u16::MAX || !is_listed(
                legal_sequences(old(self).checkers),
                moves@,
            ),
        ensures
            final(self).human_player == old(self).human_player,
            r is Err <==> !is_listed(legal_sequences(old(self).checkers), moves@),
            r matches Err(e) ==> e is InvalidMove && final(self).checkers == old(self).checkers,
            r is Ok ==> exists|j: int|
                first_listed(legal_sequences(old(self).checkers), moves@, j) && played(
                    old(self).checkers,
                    #[trigger] legal_sequences(old(self).checkers)[j],
                    final(self).checkers,
                ),
            r is Ok ==> forall|k: int|
                0 <= k < legal_sequences(old(self).checkers).len() && legal_sequences(
                    old(self).checkers,
                )[k].0 == moves@ ==> played(
                    old(self).checkers,
                    #[trigger] legal_sequences(old(self).checkers)[k],
                    final(self).checkers,
                ),
    {
        self.checkers.apply_sequence(moves.as_slice())
    }

    /// Judges the move text `mov` that the player program wrote, with everything it
    /// printed in `ai_output`: accepted when it names one of the offered sequences,
    /// refused as an invalid move otherwise.
    pub fn accept_ai_move(&self, mov: String, ai_output: String) -> (r: Result<AiOutput, Error>)
        requires
            readable_moves(mov@),
        ensures
            r is Ok <==> is_listed(legal_sequences(self.checkers), move_list(mov@)),
            r matches Ok(o) ==> o.move_@ == mov@ && o.console@ == ai_output@,
            r matches Err(e) ==> (e matches Error::AIFailed { error, ai_output: out, move_: Some(ms) }
                && error == AIError::InvalidMove && out@ == ai_output@ && ms@ == move_list(mov@)),
    {
        let seq = to_move_sequence(mov.as_str());
        if !offers(&self.checkers, seq.as_slice()) {
            return Err(Error::AIFailed { error: AIError::InvalidMove, ai_output, move_: Some(seq) });
        }
        Ok(AiOutput { move_: mov, console: ai_output })
    }

    /// Judges a run of the player program: `mov` is what it wrote on its socket, or `None`
    /// when it did not write within the time allowed; `exit_ok` tells whether it exited
    /// successfully, and `output` is everything it printed. A program that timed out or
    /// failed has played no move; otherwise its move is judged as by `accept_ai_move`.
    pub fn judge_run(&self, mov: Option<String>, exit_ok: bool, output: String) -> (r: Result<
        AiOutput,
        Error,
    >)
        requires
            mov matches Some(t) ==> (exit_ok ==> readable_moves(t@)),
        ensures
            mov is None ==> (r matches Err(Error::AIFailed { error, ai_output, move_: None })
                && error == AIError::EmptySubmission && ai_output@ == output@
                + "\nProgram timed out after >5s without output"@),
            mov is Some && !exit_ok ==> (r matches Err(Error::AIFailed { error, ai_output, move_: None })
                && error == AIError::EmptySubmission && ai_output@ == output@),
            mov matches Some(t) ==> exit_ok ==> {
                &&& r is Ok <==> is_listed(legal_sequences(self.checkers), move_list(t@))
                &&& r matches Ok(o) ==> o.move_@ == t@ && o.console@ == output@
                &&& r matches Err(e) ==> (e matches Error::AIFailed {
                    error,
                    ai_output: out,
                    move_: Some(ms),
                } && error == AIError::InvalidMove && out@ == output@ && ms@ == move_list(t@))
            },
    {
        match mov {
            None => {
                let mut ai_output = output;
                ai_output.append("\nProgram timed out after >5s without output");
                Err(Error::AIFailed { error: AIError::EmptySubmission, ai_output, move_: None })
            },
            Some(t) => {
                if !exit_ok {
                    return Err(
                        Error::AIFailed { error: AIError::EmptySubmission, ai_output: output, move_: None },
                    );
                }
                self.accept_ai_move(t, output)
            },
        }
    }

    /// Settles the turn of the player program from its outcome `out`: an accepted move is
    /// played, and a failed program, the one whose side is to move, loses the game.
    pub fn settle_ai_turn(&mut self, out: &Result<AiOutput, Error>)
        requires
            out matches Ok(o) ==> readable_moves(o.move_@) && (old(self).checkers.turns < u16::MAX
                || !is_listed(legal_sequences(old(self).checkers), move_list(o.move_@))),
        ensures
            final(self).human_player == old(self).human_player,
            out matches Ok(o) ==> {
                if is_listed(legal_sequences(old(self).checkers), move_list(o.move_@)) {
                    exists|j: int|
                        first_listed(legal_sequences(old(self).checkers), move_list(o.move_@), j)
                            && played(
                            old(self).checkers,
                            #[trigger] legal_sequences(old(self).checkers)[j],
                            final(self).checkers,
                        )
                } else {
                    final(self).checkers == old(self).checkers
                }
            },
            out matches Err(e) ==> final(self).checkers == if e is AIFailed {
                GameState {
                    status: GameStatus::Victory(opponent(old(self).checkers.current_player)),
                    ..old(self).checkers
                }
            } else {
                old(self).checkers
            },
    {
        match out {
            Ok(i) => {
                let seq = to_move_sequence(i.move_.as_str());
                let _ = self.checkers.apply_sequence(seq.as_slice());
            },
            Err(e) => {
                if let Error::AIFailed { .. } = e {
                    self.checkers.status = GameStatus::Victory(self.checkers.current_player.other());
                }
            },
        }
    }
}

} // verus!
