//! Tournaments between player programs: who plays whom, how a game ends, and the
//! win, loss and draw records.
use vstd::prelude::*;

use rand::rngs::SmallRng;
use rand::seq::SliceRandom;

use crate::game::{opponent, GameStatus, Player};

verus! {

/// The random number generator that orders the games of a tournament.
#[verifier::external_type_specification]
#[verifier::external_body]
pub struct ExSmallRng(SmallRng);

/// Puts the items of `v` in a random order, through `rand`'s `SliceRandom::shuffle`,
/// which permutes the slice in place: the same items, each as often as before.
/// Which order comes out depends on `rng` and is not stated.
#[verifier::external_body]
fn shuffle<T>(v: &mut Vec<T>, rng: &mut SmallRng)
    ensures
        final(v)@.to_multiset() == old(v)@.to_multiset(),
{
    v.shuffle(rng);
}

/// The games in which contestant `i` has White against each other contestant among the
/// first `n`, in order of the opponent.
pub open spec fn row_pairs(i: nat, n: nat) -> Seq<(usize, usize)>
    decreases n,
{
    if n == 0 {
        seq![]
    } else {
        let p = row_pairs(i, (n - 1) as nat);
        if i != n - 1 {
            p.push((i as usize, (n - 1) as usize))
        } else {
            p
        }
    }
}

/// The games of the first `rows` contestants as White, among `n` contestants.
pub open spec fn pairings(rows: nat, n: nat) -> Seq<(usize, usize)>
    decreases rows,
{
    if rows == 0 {
        seq![]
    } else {
        pairings((rows - 1) as nat, n) + row_pairs((rows - 1) as nat, n)
    }
}

/// The games of a tournament between contestants `0..n`, as `(white, black)`: every
/// contestant meets every other one twice, once with each colour, in a random order.
pub fn schedule_games(n: usize, rng: &mut SmallRng) -> (r: Vec<(usize, usize)>)
    ensures
        r@.to_multiset() == pairings(n as nat, n as nat).to_multiset(),
{
    let mut games: Vec<(usize, usize)> = Vec::new();
    let mut c1: usize = 0;
    while c1 < n
        invariant
            c1 <= n,
            games@ == pairings(c1 as nat, n as nat),
        decreases n - c1,
    {
        let ghost before = games@;
        let mut c2: usize = 0;
        while c2 < n
            invariant
                c1 < n,
                c2 <= n,
                before == pairings(c1 as nat, n as nat),
                games@ == before + row_pairs(c1 as nat, c2 as nat),
            decreases n - c2,
        {
            if c1 != c2 {
                games.push((c1, c2));
            }
            assert(games@ =~= before + row_pairs(c1 as nat, (c2 + 1) as nat));
            c2 = c2 + 1;
        }
        c1 = c1 + 1;
    }
    shuffle(&mut games, rng);
    games
}

/// How a finished game ended, by colour; a draw is recorded with White as `winner`.
#[derive(Debug, Clone, Copy, PartialEq, Eq, Structural)]
pub struct GameResult {
    pub winner: Player,
    pub loser: Player,
    pub draw: bool,
}

/// The result of a tournament game after `turns` turns with the status `status`, if it
/// is over: at 100 turns, or when the status records a draw, a draw; otherwise the
/// victory that the status records.
pub fn game_result(turns: u8, status: GameStatus) -> (r: Option<GameResult>)
    ensures
        r == if turns >= 100 || status == GameStatus::Draw {
            Some(GameResult { winner: Player::White, loser: Player::Black, draw: true })
        } else {
            match status {
                GameStatus::Victory(w) => Some(
                    GameResult { winner: w, loser: opponent(w), draw: false },
                ),
                _ => None,
            }
        },
{
    // A drawn game ends as a draw.
    if turns >= 100 || status == GameStatus::Draw {
        return Some(GameResult { winner: Player::White, loser: Player::Black, draw: true });
    }
    if let GameStatus::Victory(winner) = status {
        let (winner, loser) = if winner == Player::White {
            (Player::White, Player::Black)
        } else {
            (Player::Black, Player::White)
        };
        return Some(GameResult { winner, loser, draw: false });
    }
    None
}

/// The games a contestant has won, lost and drawn.
#[derive(Debug, Clone, Copy, PartialEq, Eq, Structural)]
pub struct Record {
    pub wins: u16,
    pub losses: u16,
    pub draws: u16,
}

impl Default for Record {
    fn default() -> (r: Record)
        ensures
            r == (Record { wins: 0, losses: 0, draws: 0 }),
    {
        Record { wins: 0, losses: 0, draws: 0 }
    }
}

/// The records of the winner and the loser of a game after it: a draw counts for both,
/// otherwise the winner gains a win and the loser a loss.
pub open spec fn after_game(winner: Record, loser: Record, draw: bool) -> (Record, Record) {
    if draw {
        (
            Record { draws: (winner.draws + 1) as u16, ..winner },
            Record { draws: (loser.draws + 1) as u16, ..loser },
        )
    } else {
        (
            Record { wins: (winner.wins + 1) as u16, ..winner },
            Record { losses: (loser.losses + 1) as u16, ..loser },
        )
    }
}

/// The counters that a game adds to are below their maximum.
pub open spec fn room_for_game(winner: Record, loser: Record, draw: bool) -> bool {
    &&& draw ==> winner.draws < u16::MAX && loser.draws < u16::MAX
    &&& !draw ==> winner.wins < u16::MAX && loser.losses < u16::MAX
}

/// Tells whether the counters that a game adds to are below their maximum.
pub fn has_room_for_game(winner: Record, loser: Record, draw: bool) -> (r: bool)
    ensures
        r == room_for_game(winner, loser, draw),
{
    if draw {
        winner.draws < u16::MAX && loser.draws < u16::MAX
    } else {
        winner.wins < u16::MAX && loser.losses < u16::MAX
    }
}

/// The records of the two players of a game after it.
pub fn record_result(winner: Record, loser: Record, draw: bool) -> (r: (Record, Record))
    requires
        room_for_game(winner, loser, draw),
    ensures
        r == after_game(winner, loser, draw),
{
    if draw {
        (Record { draws: winner.draws + 1, ..winner }, Record { draws: loser.draws + 1, ..loser })
    } else {
        (Record { wins: winner.wins + 1, ..winner }, Record { losses: loser.losses + 1, ..loser })
    }
}

/// Enters a finished game in `records`, the records of the contestants by index: the
/// records of the winner and the loser change as `record_result` says, no other does.
pub fn record_game(records: &mut Vec<Record>, winner: usize, loser: usize, draw: bool)
    requires
        winner < old(records).len(),
        loser < old(records).len(),
        winner != loser,
        room_for_game(old(records)@[winner as int], old(records)@[loser as int], draw),
    ensures
        final(records)@ == old(records)@.update(
            winner as int,
            after_game(old(records)@[winner as int], old(records)@[loser as int], draw).0,
        ).update(
            loser as int,
            after_game(old(records)@[winner as int], old(records)@[loser as int], draw).1,
        ),
{
    let (w, l) = record_result(records[winner], records[loser], draw);
    records.set(winner, w);
    records.set(loser, l);
}

/// A finished game between contestants given by index: winner, loser, and whether it
/// was drawn (then the two are simply its two players).
pub type Outcome = (usize, usize, bool);

/// The games of `g` that contestant `c` won.
pub open spec fn wins_in(g: Seq<Outcome>, c: usize) -> nat
    decreases g.len(),
{
    if g.len() == 0 {
        0
    } else {
        wins_in(g.drop_last(), c) + if !g.last().2 && g.last().0 == c {
            1nat
        } else {
            0nat
        }
    }
}

/// The games of `g` that contestant `c` lost.
pub open spec fn losses_in(g: Seq<Outcome>, c: usize) -> nat
    decreases g.len(),
{
    if g.len() == 0 {
        0
    } else {
        losses_in(g.drop_last(), c) + if !g.last().2 && g.last().1 == c {
            1nat
        } else {
            0nat
        }
    }
}

/// The games of `g` that contestant `c` drew.
pub open spec fn draws_in(g: Seq<Outcome>, c: usize) -> nat
    decreases g.len(),
{
    if g.len() == 0 {
        0
    } else {
        draws_in(g.drop_last(), c) + if g.last().2 && (g.last().0 == c || g.last().1 == c) {
            1nat
        } else {
            0nat
        }
    }
}

/// Each game of `g` is between two different contestants among `0..n`.
pub open spec fn games_among(g: Seq<Outcome>, n: nat) -> bool {
    forall|k: int| 0 <= k < g.len() ==> (#[trigger] g[k]).0 < n && g[k].1 < n && g[k].0 != g[k].1
}

proof fn lemma_counts_bounded(g: Seq<Outcome>, c: usize)
    ensures
        wins_in(g, c) <= g.len(),
        losses_in(g, c) <= g.len(),
        draws_in(g, c) <= g.len(),
    decreases g.len(),
{
    if g.len() > 0 {
        lemma_counts_bounded(g.drop_last(), c);
    }
}

/// The records of the contestants `0..n` after the games `games`: each one's wins, losses
/// and draws are the numbers of those games it won, lost and drew.
pub fn tally_games(n: usize, games: &Vec<Outcome>) -> (r: Vec<Record>)
    requires
        games_among(games@, n as nat),
        games.len() < u16::MAX,
    ensures
        r.len() == n,
        forall|c: int|
            0 <= c < n ==> (#[trigger] r@[c]).wins == wins_in(games@, c as usize) && r@[c].losses
                == losses_in(games@, c as usize) && r@[c].draws == draws_in(games@, c as usize),
{
    let mut records: Vec<Record> = Vec::new();
    let mut c: usize = 0;
    while c < n
        invariant
            c <= n,
            records.len() == c,
            forall|q: int| 0 <= q < c ==> #[trigger] records@[q] == (Record { wins: 0, losses: 0, draws: 0 }),
        decreases n - c,
    {
        records.push(Record { wins: 0, losses: 0, draws: 0 });
        c = c + 1;
    }
    let mut k: usize = 0;
    while k < games.len()
        invariant
            k <= games.len(),
            games.len() < u16::MAX,
            games_among(games@, n as nat),
            records.len() == n,
            forall|q: int|
                0 <= q < n ==> (#[trigger] records@[q]).wins == wins_in(games@.take(k as int), q as usize)
                    && records@[q].losses == losses_in(games@.take(k as int), q as usize)
                    && records@[q].draws == draws_in(games@.take(k as int), q as usize),
        decreases games.len() - k,
    {
        let (w, l, draw) = games[k];
        let ghost before = games@.take(k as int);
        let ghost after = games@.take(k + 1);
        proof {
            assert(after.drop_last() =~= before);
            assert(after.last() == games@[k as int]);
            assert(games@[k as int].0 < n && games@[k as int].1 < n && w != l);
            lemma_counts_bounded(before, w);
            lemma_counts_bounded(before, l);
        }
        record_game(&mut records, w, l, draw);
        k = k + 1;
        assert forall|q: int| 0 <= q < n implies (#[trigger] records@[q]).wins == wins_in(after, q as usize)
            && records@[q].losses == losses_in(after, q as usize) && records@[q].draws == draws_in(
            after,
            q as usize,
        ) by {}
    }
    assert(games@.take(games.len() as int) =~= games@);
    records
}

} // verus!
