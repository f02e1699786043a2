//! Properties of the rules that hold across functions and for every game.
use vstd::prelude::*;

use crate::game::{
    on_board, opponent, square, Board, GameState, GameStatus, Move, Piece, PieceType, Player, Position,
};
use crate::movegen::{candidates, legal_sequences, most_captures};
use crate::contest::{draws_in, games_among, losses_in, pairings, row_pairs, wins_in, Outcome};
use crate::movegen::move_on_board;
use crate::play::{move_list, moves_of_pieces, parse_move, readable_moves, segment_ok, split_on};
use crate::rules::{played, square_after};
use crate::rules::initial_square;
use crate::shape::{colour, ipos, law_offered_sequence_shape, sequence_shape};
use crate::text::{decimal, digit_char, move_text, moves_text};

verus! {

broadcast use vstd::seq_lib::group_seq_properties;

pub(crate) proof fn lemma_most_captures_bound(c: Seq<(Seq<Move>, Seq<Position>)>)
    ensures
        forall|j: int| 0 <= j < c.len() ==> (#[trigger] c[j]).1.len() <= most_captures(c),
        c.len() > 0 ==> exists|j: int| 0 <= j < c.len() && (#[trigger] c[j]).1.len() == most_captures(c),
    decreases c.len(),
{
    if c.len() > 0 {
        let d = c.drop_last();
        lemma_most_captures_bound(d);
        assert forall|j: int| 0 <= j < c.len() implies (#[trigger] c[j]).1.len() <= most_captures(c) by {
            if j < d.len() {
                assert(c[j] == d[j]);
            }
        }
        if most_captures(d) < c.last().1.len() || d.len() == 0 {
            assert(c[c.len() - 1].1.len() == most_captures(c));
        } else {
            let j: int = choose|j: int| 0 <= j < d.len() && (#[trigger] d[j]).1.len() == most_captures(d);
            assert(c[j] == d[j]);
        }
    }
}

/// Capturing is compulsory, and so is capturing as much as possible: every offered
/// sequence captures as many pieces as the best sequence of any piece of the player to
/// move, and the player is offered something whenever one of their pieces can move.
pub proof fn law_most_captures_wins(s: GameState)
    ensures
        forall|j: int|
            0 <= j < legal_sequences(s).len() ==> (#[trigger] legal_sequences(s)[j]).1.len()
                == most_captures(candidates(s, 100)),
        forall|j: int|
            0 <= j < candidates(s, 100).len() ==> (#[trigger] candidates(s, 100)[j]).1.len()
                <= most_captures(candidates(s, 100)),
        legal_sequences(s).len() == 0 <==> candidates(s, 100).len() == 0,
{
    let c = candidates(s, 100);
    let pred = |m: (Seq<Move>, Seq<Position>)| m.1.len() == most_captures(c);
    lemma_most_captures_bound(c);
    let f = c.filter(pred);
    assert(f == legal_sequences(s));
    assert forall|j: int| 0 <= j < f.len() implies (#[trigger] f[j]).1.len() == most_captures(c) by {
        c.lemma_filter_pred(pred, j);
    }
    c.lemma_filter_len(pred);
    if c.len() > 0 {
        let j: int = choose|j: int| 0 <= j < c.len() && (#[trigger] c[j]).1.len() == most_captures(c);
        c.lemma_filter_contains(pred, j);
    }
}

/// Once a game is decided, playing on never changes its result; while it runs, the player
/// left without any move loses, and past 200 turns the game is drawn. The new status is
/// that of the new position itself: the moves it offers are those of its board and player.
pub proof fn law_status_after_move(s: GameState, m: (Seq<Move>, Seq<Position>), after: GameState)
    requires
        played(s, m, after),
    ensures
        after.status == if s.status != GameStatus::Running {
            s.status
        } else if legal_sequences(after).len() == 0 {
            GameStatus::Victory(s.current_player)
        } else if after.turns > 200 {
            GameStatus::Draw
        } else {
            GameStatus::Running
        },
        s.status != GameStatus::Running ==> after.status == s.status,
        s.status == GameStatus::Running && legal_sequences(GameState { status: s.status, ..after }).len()
            == 0 ==> after.status == GameStatus::Victory(s.current_player),
        s.status == GameStatus::Running && legal_sequences(GameState { status: s.status, ..after }).len()
            > 0 ==> (after.status == GameStatus::Draw <==> after.turns > 200),
        after.current_player == opponent(s.current_player),
        after.turns == s.turns + 1,
{
    assert(opponent(opponent(s.current_player)) == s.current_player);
    crate::search_laws::law_offer_depends_on_position(after, GameState { status: s.status, ..after });
}

proof fn lemma_row_pairs(i: nat, k: nat, n: usize)
    requires
        i < n,
        k <= n,
    ensures
        row_pairs(i, k).no_duplicates(),
        forall|a: usize, b: usize|
            row_pairs(i, k).contains((a, b)) <==> (a == i && b < k && b != i),
    decreases k,
{
    if k > 0 {
        lemma_row_pairs(i, (k - 1) as nat, n);
        let p = row_pairs(i, (k - 1) as nat);
        if i != k - 1 {
            let q = p.push((i as usize, (k - 1) as usize));
            assert forall|a: usize, b: usize| q.contains((a, b)) <==> (a == i && b < k && b != i) by {
                if a == i && b == k - 1 {
                    assert(q[q.len() - 1] == (a, b));
                }
            }
            assert forall|x: int, y: int| 0 <= x < q.len() && 0 <= y < q.len() && x != y implies q[x]
                != q[y] by {
                if x < p.len() && y < p.len() {
                    assert(q[x] == p[x] && q[y] == p[y]);
                } else if x < p.len() {
                    assert(q[x] == p[x]);
                    assert(p.contains(p[x]));
                } else if y < p.len() {
                    assert(q[y] == p[y]);
                    assert(p.contains(p[y]));
                }
            }
        }
    }
}

proof fn lemma_pairings(r: nat, n: usize)
    requires
        r <= n,
    ensures
        pairings(r, n as nat).no_duplicates(),
        forall|a: usize, b: usize|
            pairings(r, n as nat).contains((a, b)) <==> (a < r && b < n && a != b),
    decreases r,
{
    if r > 0 {
        lemma_pairings((r - 1) as nat, n);
        lemma_row_pairs((r - 1) as nat, n as nat, n);
        let p = pairings((r - 1) as nat, n as nat);
        let q = row_pairs((r - 1) as nat, n as nat);
        let t = p + q;
        assert forall|a: usize, b: usize| t.contains((a, b)) <==> (a < r && b < n && a != b) by {
            if t.contains((a, b)) {
                let x: int = choose|x: int| 0 <= x < t.len() && t[x] == (a, b);
                if x < p.len() {
                    assert(p.contains(p[x]));
                } else {
                    assert(q.contains(q[x - p.len()]));
                }
            }
            if a < r - 1 && b < n && a != b {
                let x: int = choose|x: int| 0 <= x < p.len() && p[x] == (a, b);
                assert(t[x] == (a, b));
            }
            if a == r - 1 && b < n && a != b {
                let x: int = choose|x: int| 0 <= x < q.len() && q[x] == (a, b);
                assert(t[p.len() + x] == (a, b));
            }
        }
        assert forall|x: int, y: int| 0 <= x < t.len() && 0 <= y < t.len() && x != y implies t[x]
            != t[y] by {
            if x < p.len() && y < p.len() {
                assert(t[x] == p[x] && t[y] == p[y]);
            } else if x >= p.len() && y >= p.len() {
                assert(t[x] == q[x - p.len()] && t[y] == q[y - p.len()]);
            } else {
                let (u, v) = if x < p.len() {
                    (x, y)
                } else {
                    (y, x)
                };
                let e = p[u];
                let g = q[v - p.len()];
                assert(t[u] == e && t[v] == g);
                assert(p.contains((e.0, e.1)));
                assert(q.contains((g.0, g.1)));
            }
        }
    }
}

/// A tournament between `n` contestants is a double round robin: each ordered pair of
/// distinct contestants, the first one with White, is scheduled exactly once.
pub proof fn law_round_robin(n: usize)
    ensures
        pairings(n as nat, n as nat).no_duplicates(),
        forall|a: usize, b: usize|
            pairings(n as nat, n as nat).contains((a, b)) <==> (a < n && b < n && a != b),
{
    lemma_pairings(n as nat, n);
}

/// The texts of the moves `ms` separated by `;`, as a player program writes its move.
pub open spec fn moves_line(ms: Seq<Move>) -> Seq<char>
    decreases ms.len(),
{
    if ms.len() == 0 {
        seq![]
    } else if ms.len() == 1 {
        move_text(ms[0])
    } else {
        moves_line(ms.drop_last()) + seq![';'] + move_text(ms.last())
    }
}

/// The texts of the moves `ms`.
pub open spec fn texts_of(ms: Seq<Move>) -> Seq<Seq<char>> {
    ms.map_values(|m: Move| move_text(m))
}

proof fn lemma_split_plain_tail(x: Seq<char>, t: Seq<char>)
    requires
        !t.contains(';'),
    ensures
        split_on(x + t, ';') == split_on(x, ';').update(
            split_on(x, ';').len() - 1,
            split_on(x, ';').last() + t,
        ),
        split_on(x + t, ';').len() == split_on(x, ';').len(),
    decreases t.len(),
{
    crate::play::lemma_split_nonempty(x, ';');
    if t.len() == 0 {
        assert(x + t =~= x);
        assert(split_on(x, ';').last() + t =~= split_on(x, ';').last());
        assert(split_on(x, ';').update(split_on(x, ';').len() - 1, split_on(x, ';').last())
            =~= split_on(x, ';'));
    } else {
        let u = t.drop_last();
        assert(!u.contains(';')) by {
            if u.contains(';') {
                let k: int = choose|k: int| 0 <= k < u.len() && u[k] == ';';
                assert(t[k] == ';');
            }
        }
        lemma_split_plain_tail(x, u);
        assert((x + t).drop_last() =~= x + u);
        assert((x + t).last() == t.last());
        assert(t.last() != ';') by {
            assert(t[t.len() - 1] == t.last());
        }
        let r = split_on(x + u, ';');
        assert(split_on(x + t, ';') == r.update(r.len() - 1, r.last().push(t.last())));
        assert((split_on(x, ';').last() + u).push(t.last()) =~= split_on(x, ';').last() + t);
        assert(split_on(x + t, ';') =~= split_on(x, ';').update(
            split_on(x, ';').len() - 1,
            split_on(x, ';').last() + t,
        ));
    }
}

proof fn lemma_move_text(m: Move)
    requires
        move_on_board(m),
    ensures
        move_text(m).len() == 5,
        !move_text(m).contains(';'),
        !move_text(m).contains(':'),
        segment_ok(move_text(m)),
        parse_move(move_text(m)) == m,
{
    let t = move_text(m);
    assert(decimal(m.from.0 as nat) == seq![digit_char(m.from.0 as int)]);
    assert(decimal(m.from.1 as nat) == seq![digit_char(m.from.1 as int)]);
    assert(decimal(m.to.0 as nat) == seq![digit_char(m.to.0 as int)]);
    assert(decimal(m.to.1 as nat) == seq![digit_char(m.to.1 as int)]);
    assert(t =~= seq![
        digit_char(m.from.0 as int),
        digit_char(m.from.1 as int),
        ',',
        digit_char(m.to.0 as int),
        digit_char(m.to.1 as int),
    ]);
    assert forall|k: int| 0 <= k < 5 implies t[k] != ';' && t[k] != ':' by {}
}

proof fn lemma_split_moves_line(ms: Seq<Move>)
    requires
        ms.len() > 0,
        forall|k: int| 0 <= k < ms.len() ==> move_on_board(#[trigger] ms[k]),
    ensures
        split_on(moves_line(ms), ';') == texts_of(ms),
    decreases ms.len(),
{
    let last = ms[ms.len() - 1];
    lemma_move_text(last);
    if ms.len() == 1 {
        lemma_split_plain_tail(seq![], move_text(last));
        assert(seq![] + move_text(last) =~= move_text(last));
        assert(split_on(Seq::<char>::empty(), ';') == seq![Seq::<char>::empty()]);
        assert(Seq::<char>::empty() + move_text(last) =~= move_text(last));
        assert(texts_of(ms) =~= seq![move_text(last)]);
    } else {
        let d = ms.drop_last();
        assert forall|k: int| 0 <= k < d.len() implies move_on_board(#[trigger] d[k]) by {
            assert(d[k] == ms[k]);
        }
        lemma_split_moves_line(d);
        let x = moves_line(d) + seq![';'];
        assert(x.drop_last() =~= moves_line(d));
        assert(split_on(x, ';') == split_on(moves_line(d), ';').push(seq![]));
        lemma_split_plain_tail(x, move_text(last));
        assert(Seq::<char>::empty() + move_text(last) =~= move_text(last));
        assert(ms.last() == last);
        assert(split_on(moves_line(ms), ';') =~= texts_of(ms));
    }
}

proof fn lemma_pieces_of_texts(ms: Seq<Move>)
    requires
        forall|k: int| 0 <= k < ms.len() ==> move_on_board(#[trigger] ms[k]),
    ensures
        moves_of_pieces(texts_of(ms)) == ms,
        forall|k: int|
            0 <= k < ms.len() ==> segment_ok(#[trigger] texts_of(ms)[k]),
    decreases ms.len(),
{
    let p = texts_of(ms);
    if ms.len() > 0 {
        let d = ms.drop_last();
        assert forall|k: int| 0 <= k < d.len() implies move_on_board(#[trigger] d[k]) by {
            assert(d[k] == ms[k]);
        }
        lemma_pieces_of_texts(d);
        assert(p.drop_last() =~= texts_of(d));
        lemma_move_text(ms[ms.len() - 1]);
        assert(p.last() == move_text(ms.last()));
        assert(ms =~= d.push(ms.last()));
        assert forall|k: int| 0 <= k < ms.len() implies segment_ok(#[trigger] p[k]) by {
            lemma_move_text(ms[k]);
        }
    }
}

/// What a player program writes is read back as it was meant: the moves of a sequence on
/// the board, written as `xy,xy` and separated by `;`, are exactly what
/// `to_move_sequence` reads from that text.
pub proof fn law_moves_read_back(ms: Seq<Move>)
    requires
        forall|k: int| 0 <= k < ms.len() ==> move_on_board(#[trigger] ms[k]),
    ensures
        readable_moves(moves_line(ms)),
        move_list(moves_line(ms)) == ms,
{
    if ms.len() == 0 {
        let p = seq![Seq::<char>::empty()];
        assert(split_on(moves_line(ms), ';') == p);
        assert(p.drop_last() =~= Seq::<Seq<char>>::empty());
        assert(moves_of_pieces(p) == moves_of_pieces(Seq::<Seq<char>>::empty()));
        assert(ms =~= Seq::<Move>::empty());
    } else {
        lemma_split_moves_line(ms);
        lemma_pieces_of_texts(ms);
    }
}

/// `t` with every `:` written as `;`.
pub open spec fn colons_as_semicolons(t: Seq<char>) -> Seq<char> {
    t.map_values(|c: char| if c == ':' { ';' } else { c })
}

proof fn lemma_text_as_line(ms: Seq<Move>)
    requires
        forall|k: int| 0 <= k < ms.len() ==> move_on_board(#[trigger] ms[k]),
    ensures
        colons_as_semicolons(moves_text(ms)) == moves_line(ms),
    decreases ms.len(),
{
    if ms.len() == 0 {
        assert(colons_as_semicolons(moves_text(ms)) =~= moves_line(ms));
    } else {
        let last = ms[ms.len() - 1];
        lemma_move_text(last);
        let c = move_text(last);
        assert(colons_as_semicolons(c) =~= c) by {
            assert forall|k: int| 0 <= k < c.len() implies c[k] != ':' by {
                assert(c.contains(c[k]));
            }
        }
        if ms.len() > 1 {
            let d = ms.drop_last();
            assert forall|k: int| 0 <= k < d.len() implies move_on_board(#[trigger] d[k]) by {
                assert(d[k] == ms[k]);
            }
            lemma_text_as_line(d);
            let a = moves_text(d);
            assert(colons_as_semicolons(a + seq![':'] + c) =~= colons_as_semicolons(a) + seq![';']
                + colons_as_semicolons(c));
        }
    }
}

/// Different move lists over the board are written differently: the text of a sequence
/// names its moves and nothing else, so two sequences have the same text exactly when they
/// have the same moves, whatever they capture.
pub proof fn law_move_texts_differ(a: Seq<Move>, b: Seq<Move>)
    requires
        forall|k: int| 0 <= k < a.len() ==> move_on_board(#[trigger] a[k]),
        forall|k: int| 0 <= k < b.len() ==> move_on_board(#[trigger] b[k]),
    ensures
        moves_text(a) == moves_text(b) <==> a == b,
{
    if moves_text(a) == moves_text(b) {
        lemma_text_as_line(a);
        lemma_text_as_line(b);
        law_moves_read_back(a);
        law_moves_read_back(b);
    }
}

/// The texts of the moves `ms`, each followed by `;`.
pub open spec fn ended_texts(ms: Seq<Move>) -> Seq<char>
    decreases ms.len(),
{
    if ms.len() == 0 {
        seq![]
    } else {
        ended_texts(ms.drop_last()) + move_text(ms.last()) + seq![';']
    }
}

proof fn lemma_ended_texts(ms: Seq<Move>)
    requires
        ms.len() > 0,
    ensures
        ended_texts(ms) == moves_line(ms) + seq![';'],
    decreases ms.len(),
{
    if ms.len() == 1 {
        assert(ended_texts(ms.drop_last()) =~= Seq::<char>::empty());
        assert(ended_texts(ms) =~= moves_line(ms) + seq![';']);
    } else {
        lemma_ended_texts(ms.drop_last());
        assert(ended_texts(ms) =~= moves_line(ms) + seq![';']);
    }
}

/// A program may also end each move with `;`: the text of each move of `ms` followed by
/// `;` (the text `sequence_to_string` gives a one-move sequence, then `;`) reads back as
/// exactly the moves `ms`; and the text of a one-move sequence reads back as that move,
/// whatever the sequence captures.
pub proof fn law_ended_moves_read_back(ms: Seq<Move>, m: Move)
    requires
        forall|k: int| 0 <= k < ms.len() ==> move_on_board(#[trigger] ms[k]),
        move_on_board(m),
    ensures
        readable_moves(ended_texts(ms)),
        move_list(ended_texts(ms)) == ms,
        readable_moves(moves_text(seq![m])),
        move_list(moves_text(seq![m])) == seq![m],
{
    law_moves_read_back(ms);
    if ms.len() > 0 {
        lemma_ended_texts(ms);
        let x = moves_line(ms);
        let t = x + seq![';'];
        assert(t.drop_last() =~= x);
        assert(split_on(t, ';') == split_on(x, ';').push(seq![]));
        let p = split_on(x, ';');
        assert(split_on(t, ';').drop_last() == p);
        assert forall|k: int| 0 <= k < split_on(t, ';').len() implies segment_ok(
            #[trigger] split_on(t, ';')[k],
        ) by {
            if k < p.len() {
                assert(split_on(t, ';')[k] == p[k]);
            }
        }
    } else {
        assert(ended_texts(ms) =~= moves_line(ms));
    }
    let one = seq![m];
    assert(moves_text(one) == move_text(m));
    assert(moves_line(one) == move_text(m));
    law_moves_read_back(one);
}

/// The square with index `k`, counting `y` fastest.
pub open spec fn square_at(k: int) -> (int, int) {
    (k / 10, k % 10)
}

/// `1` when the square `q` of `b` holds a piece of `p`, `0` otherwise.
pub open spec fn owned(b: Board, p: Player, q: (int, int)) -> nat {
    match square(b, q.0, q.1) {
        Some(pc) => if pc.player == p {
            1
        } else {
            0
        },
        None => 0,
    }
}

/// The pieces of `p` among the first `k` squares of `b`.
pub open spec fn pieces_upto(b: Board, p: Player, k: nat) -> nat
    decreases k,
{
    if k == 0 {
        0
    } else {
        pieces_upto(b, p, (k - 1) as nat) + owned(b, p, square_at(k - 1))
    }
}

/// The number of pieces of `p` on `b`.
pub open spec fn piece_count(b: Board, p: Player) -> nat {
    pieces_upto(b, p, 100)
}

/// Among the first `k` squares, those named in `caps`.
pub open spec fn listed_upto(caps: Seq<Position>, k: nat) -> nat
    decreases k,
{
    if k == 0 {
        0
    } else {
        listed_upto(caps, (k - 1) as nat) + if caps.contains(
            (square_at(k - 1).0 as usize, square_at(k - 1).1 as usize),
        ) {
            1nat
        } else {
            0nat
        }
    }
}

proof fn lemma_square_index(q: (int, int))
    requires
        on_board(q.0, q.1),
    ensures
        square_at(q.0 * 10 + q.1) == q,
        0 <= q.0 * 10 + q.1 < 100,
{
}

proof fn lemma_listed_push(caps: Seq<Position>, c: Position, k: nat)
    requires
        !caps.contains(c),
        on_board(c.0 as int, c.1 as int),
        k <= 100,
    ensures
        listed_upto(caps.push(c), k) == listed_upto(caps, k) + if (c.0 as int) * 10 + (c.1 as int)
            < k {
            1nat
        } else {
            0nat
        },
    decreases k,
{
    if k > 0 {
        lemma_listed_push(caps, c, (k - 1) as nat);
        let q = square_at(k - 1);
        let e = (q.0 as usize, q.1 as usize);
        lemma_square_index(ipos(c));
        if k - 1 == (c.0 as int) * 10 + (c.1 as int) {
            assert(e == c);
        } else {
            assert(q != ipos(c));
            assert(e != c);
        }
    }
}

proof fn lemma_listed_all(caps: Seq<Position>)
    requires
        caps.no_duplicates(),
        forall|j: int| 0 <= j < caps.len() ==> on_board(caps[j].0 as int, caps[j].1 as int),
    ensures
        listed_upto(caps, 100) == caps.len(),
    decreases caps.len(),
{
    if caps.len() == 0 {
        lemma_listed_empty(caps, 100);
    } else {
        let d = caps.drop_last();
        let c = caps.last();
        assert(caps =~= d.push(c));
        assert(!d.contains(c)) by {
            if d.contains(c) {
                let j: int = choose|j: int| 0 <= j < d.len() && d[j] == c;
                assert(caps[j] == caps[caps.len() - 1]);
            }
        }
        assert forall|a: int, b: int| 0 <= a < d.len() && 0 <= b < d.len() && a != b implies d[a]
            != d[b] by {
            assert(d[a] == caps[a] && d[b] == caps[b]);
        }
        assert forall|j: int| 0 <= j < d.len() implies on_board(d[j].0 as int, d[j].1 as int) by {
            assert(d[j] == caps[j]);
        }
        lemma_listed_all(d);
        assert(on_board(caps[caps.len() - 1].0 as int, caps[caps.len() - 1].1 as int));
        lemma_listed_push(d, c, 100);
    }
}

proof fn lemma_listed_empty(caps: Seq<Position>, k: nat)
    requires
        caps.len() == 0,
    ensures
        listed_upto(caps, k) == 0,
    decreases k,
{
    if k > 0 {
        lemma_listed_empty(caps, (k - 1) as nat);
    }
}

/// Removing the pieces on `caps` and leaving every other square of `p` alone.
proof fn lemma_count_removed(b1: Board, b2: Board, p: Player, caps: Seq<Position>, k: nat)
    requires
        forall|q: (int, int)|
            on_board(q.0, q.1) ==> #[trigger] owned(b2, p, q) == if caps.contains(
                (q.0 as usize, q.1 as usize),
            ) {
                0
            } else {
                owned(b1, p, q)
            },
        forall|j: int| 0 <= j < caps.len() ==> owned(b1, p, ipos(#[trigger] caps[j])) == 1,
        forall|j: int| 0 <= j < caps.len() ==> on_board(caps[j].0 as int, caps[j].1 as int),
        k <= 100,
    ensures
        pieces_upto(b2, p, k) + listed_upto(caps, k) == pieces_upto(b1, p, k),
    decreases k,
{
    if k > 0 {
        lemma_count_removed(b1, b2, p, caps, (k - 1) as nat);
        let q = square_at(k - 1);
        let e = (q.0 as usize, q.1 as usize);
        assert(owned(b2, p, q) == if caps.contains(e) {
            0
        } else {
            owned(b1, p, q)
        });
        if caps.contains(e) {
            let j: int = choose|j: int| 0 <= j < caps.len() && caps[j] == e;
            assert(ipos(caps[j]) == q);
        }
    }
}

/// Moving one piece of `p` from `f` to the empty square `t`.
proof fn lemma_count_moved(b1: Board, b2: Board, p: Player, f: (int, int), t: (int, int), k: nat)
    requires
        on_board(f.0, f.1),
        on_board(t.0, t.1),
        f != t,
        forall|q: (int, int)|
            on_board(q.0, q.1) && q != f && q != t ==> #[trigger] owned(b2, p, q) == owned(b1, p, q),
        owned(b1, p, f) == 1,
        owned(b1, p, t) == 0,
        owned(b2, p, f) == 0,
        owned(b2, p, t) == 1,
        k <= 100,
    ensures
        pieces_upto(b2, p, k) + (if f.0 * 10 + f.1 < k {
            1nat
        } else {
            0nat
        }) == pieces_upto(b1, p, k) + (if t.0 * 10 + t.1 < k {
            1nat
        } else {
            0nat
        }),
    decreases k,
{
    lemma_square_index(f);
    lemma_square_index(t);
    if k > 0 {
        lemma_count_moved(b1, b2, p, f, t, (k - 1) as nat);
        let q = square_at(k - 1);
        if k - 1 == f.0 * 10 + f.1 {
            assert(q == f);
        } else if k - 1 == t.0 * 10 + t.1 {
            assert(q == t);
        } else {
            assert(q != f && q != t);
        }
    }
}

proof fn lemma_count_same(b1: Board, b2: Board, p: Player, k: nat)
    requires
        forall|q: (int, int)| on_board(q.0, q.1) ==> #[trigger] owned(b2, p, q) == owned(b1, p, q),
        k <= 100,
    ensures
        pieces_upto(b2, p, k) == pieces_upto(b1, p, k),
    decreases k,
{
    if k > 0 {
        lemma_count_same(b1, b2, p, (k - 1) as nat);
        let q = square_at(k - 1);
        assert(owned(b2, p, q) == owned(b1, p, q));
    }
}

/// Playing an offered sequence never costs the player to move a piece, and removes from the
/// board exactly the opponent pieces that the sequence captures.
pub proof fn law_pieces_after_move(s: GameState, m: (Seq<Move>, Seq<Position>), after: GameState)
    requires
        legal_sequences(s).contains(m),
        played(s, m, after),
    ensures
        piece_count(after.board, s.current_player) == piece_count(s.board, s.current_player),
        piece_count(after.board, opponent(s.current_player)) + m.1.len() == piece_count(
            s.board,
            opponent(s.current_player),
        ),
{
    law_offered_sequence_shape(s);
    let j: int = choose|j: int| 0 <= j < legal_sequences(s).len() && legal_sequences(s)[j] == m;
    assert(sequence_shape(s, legal_sequences(s)[j]));
    let p = s.current_player;
    let o = opponent(p);
    let f = ipos(m.0[0].from);
    let t = ipos(m.0.last().to);
    assert(crate::movegen::move_on_board(m.0[0]));
    assert(crate::movegen::move_on_board(m.0[m.0.len() - 1]));
    // Neither the start nor the end of the chain is a captured square.
    assert forall|c: int| 0 <= c < m.1.len() implies ipos(#[trigger] m.1[c]) != f && ipos(m.1[c])
        != t by {
        assert(crate::movegen::holds_opponent(s, ipos(m.1[c])));
    }
    assert(!m.1.contains((f.0 as usize, f.1 as usize))) by {
        if m.1.contains((f.0 as usize, f.1 as usize)) {
            let c: int = choose|c: int| 0 <= c < m.1.len() && m.1[c] == (f.0 as usize, f.1 as usize);
            assert(ipos(m.1[c]) == f);
        }
    }
    assert(!m.1.contains((t.0 as usize, t.1 as usize))) by {
        if m.1.contains((t.0 as usize, t.1 as usize)) {
            let c: int = choose|c: int| 0 <= c < m.1.len() && m.1[c] == (t.0 as usize, t.1 as usize);
            assert(ipos(m.1[c]) == t);
        }
    }
    // The player to move.
    assert forall|q: (int, int)| on_board(q.0, q.1) && q != f && q != t implies #[trigger] owned(
        after.board,
        p,
        q,
    ) == owned(s.board, p, q) by {
        assert(square(after.board, q.0, q.1) == square_after(s.board, p, m, q.0, q.1));
        if m.1.contains((q.0 as usize, q.1 as usize)) {
            let c: int = choose|c: int| 0 <= c < m.1.len() && m.1[c] == (q.0 as usize, q.1 as usize);
            assert(ipos(m.1[c]) == q);
            assert(crate::movegen::holds_opponent(s, ipos(m.1[c])));
        }
    }
    assert(square(after.board, t.0, t.1) == square_after(s.board, p, m, t.0, t.1));
    assert(square(after.board, f.0, f.1) == square_after(s.board, p, m, f.0, f.1));
    if f == t {
        assert forall|q: (int, int)| on_board(q.0, q.1) implies #[trigger] owned(after.board, p, q)
            == owned(s.board, p, q) by {
            if q != f {
                assert(owned(after.board, p, q) == owned(s.board, p, q));
            }
        }
        lemma_count_same(s.board, after.board, p, 100);
    } else {
        lemma_count_moved(s.board, after.board, p, f, t, 100);
        lemma_square_index(f);
        lemma_square_index(t);
    }
    // The opponent.
    assert forall|q: (int, int)| on_board(q.0, q.1) implies #[trigger] owned(after.board, o, q)
        == if m.1.contains((q.0 as usize, q.1 as usize)) {
        0
    } else {
        owned(s.board, o, q)
    } by {
        assert(square(after.board, q.0, q.1) == square_after(s.board, p, m, q.0, q.1));
        assert(p != o);
    }
    assert forall|c: int| 0 <= c < m.1.len() implies owned(s.board, o, ipos(#[trigger] m.1[c])) == 1 by {
        assert(crate::movegen::holds_opponent(s, ipos(m.1[c])));
        assert(o != p);
    }
    assert forall|c: int| 0 <= c < m.1.len() implies on_board(m.1[c].0 as int, m.1[c].1 as int) by {
        assert(crate::movegen::holds_opponent(s, ipos(m.1[c])));
    }
    lemma_count_removed(s.board, after.board, o, m.1, 100);
    lemma_listed_all(m.1);
}

/// Every piece of `b` stands on a dark square, one whose coordinates have an odd sum.
pub open spec fn on_dark_squares(b: Board) -> bool {
    forall|x: int, y: int| on_board(x, y) && (#[trigger] square(b, x, y)) is Some ==> (x + y) % 2 == 1
}

/// The start position puts every piece on a dark square.
pub proof fn law_start_on_dark_squares(b: Board)
    requires
        forall|x: int, y: int| on_board(x, y) ==> square(b, x, y) == initial_square(x, y),
    ensures
        on_dark_squares(b),
{
}

/// Playing an offered sequence keeps every piece on a dark square: pieces only ever move
/// diagonally.
pub proof fn law_pieces_stay_on_dark_squares(
    s: GameState,
    m: (Seq<Move>, Seq<Position>),
    after: GameState,
)
    requires
        legal_sequences(s).contains(m),
        played(s, m, after),
        on_dark_squares(s.board),
    ensures
        on_dark_squares(after.board),
{
    law_offered_sequence_shape(s);
    let j: int = choose|j: int| 0 <= j < legal_sequences(s).len() && legal_sequences(s)[j] == m;
    assert(sequence_shape(s, legal_sequences(s)[j]));
    let f = ipos(m.0[0].from);
    let t = ipos(m.0.last().to);
    assert(crate::movegen::move_on_board(m.0[0]));
    assert forall|x: int, y: int| on_board(x, y) && (#[trigger] square(after.board, x, y)) is Some implies (
    x + y) % 2 == 1 by {
        assert(square(after.board, x, y) == square_after(s.board, s.current_player, m, x, y));
        if (x, y) == t && !m.1.contains((x as usize, y as usize)) {
            assert(square(s.board, f.0, f.1) is Some);
            assert(colour(t) == colour(f));
        }
    }
}

/// The men of `p` in row `x` at the start of a game.
spec fn start_row_count(p: Player, x: int) -> nat {
    if (p == Player::Black && x < 4) || (p == Player::White && x >= 6) {
        5
    } else {
        0
    }
}

spec fn start_partial(p: Player, x: int, j: int) -> int {
    if (p == Player::Black && x < 4) || (p == Player::White && x >= 6) {
        if x % 2 == 0 {
            j / 2
        } else {
            (j + 1) / 2
        }
    } else {
        0
    }
}

proof fn lemma_start_row_prefix(b: Board, p: Player, x: int, j: int)
    requires
        forall|x: int, y: int| on_board(x, y) ==> square(b, x, y) == initial_square(x, y),
        0 <= x < 10,
        0 <= j <= 10,
    ensures
        pieces_upto(b, p, (10 * x + j) as nat) == pieces_upto(b, p, (10 * x) as nat) + start_partial(p, x, j),
    decreases j,
{
    if j > 0 {
        lemma_start_row_prefix(b, p, x, j - 1);
        let k: int = 10 * x + j;
        assert(square_at(k - 1) == (x, j - 1));
        assert(square(b, x, j - 1) == initial_square(x, j - 1));
    }
}

proof fn lemma_start_row(b: Board, p: Player, x: int)
    requires
        forall|x: int, y: int| on_board(x, y) ==> square(b, x, y) == initial_square(x, y),
        0 <= x < 10,
    ensures
        pieces_upto(b, p, (10 * x + 10) as nat) == pieces_upto(b, p, (10 * x) as nat) + start_row_count(p, x),
{
    lemma_start_row_prefix(b, p, x, 10);
}

proof fn lemma_start_rows(b: Board, p: Player, r: int)
    requires
        forall|x: int, y: int| on_board(x, y) ==> square(b, x, y) == initial_square(x, y),
        0 <= r <= 10,
    ensures
        pieces_upto(b, p, (10 * r) as nat) == if p == Player::Black {
            5 * (if r < 4 {
                r
            } else {
                4
            })
        } else {
            5 * (if r < 6 {
                0
            } else {
                r - 6
            })
        },
    decreases r,
{
    if r > 0 {
        lemma_start_rows(b, p, r - 1);
        lemma_start_row(b, p, r - 1);
    }
}

/// A game starts with twenty men for each player.
pub proof fn law_start_counts(b: Board)
    requires
        forall|x: int, y: int| on_board(x, y) ==> square(b, x, y) == initial_square(x, y),
    ensures
        piece_count(b, Player::White) == 20,
        piece_count(b, Player::Black) == 20,
{
    lemma_start_rows(b, Player::White, 10);
    lemma_start_rows(b, Player::Black, 10);
}

/// The wins of the contestants `0..k` in the games `g`, added up.
pub open spec fn total_wins(g: Seq<Outcome>, k: nat) -> nat
    decreases k,
{
    if k == 0 {
        0
    } else {
        total_wins(g, (k - 1) as nat) + wins_in(g, (k - 1) as usize)
    }
}

/// The losses of the contestants `0..k` in the games `g`, added up.
pub open spec fn total_losses(g: Seq<Outcome>, k: nat) -> nat
    decreases k,
{
    if k == 0 {
        0
    } else {
        total_losses(g, (k - 1) as nat) + losses_in(g, (k - 1) as usize)
    }
}

/// The draws of the contestants `0..k` in the games `g`, added up.
pub open spec fn total_draws(g: Seq<Outcome>, k: nat) -> nat
    decreases k,
{
    if k == 0 {
        0
    } else {
        total_draws(g, (k - 1) as nat) + draws_in(g, (k - 1) as usize)
    }
}

/// How many games of `g` were drawn (`drawn` true) or decided (`drawn` false).
pub open spec fn games_ending(g: Seq<Outcome>, drawn: bool) -> nat
    decreases g.len(),
{
    if g.len() == 0 {
        0
    } else {
        games_ending(g.drop_last(), drawn) + if g.last().2 == drawn {
            1nat
        } else {
            0nat
        }
    }
}

/// How many games of `g` contestant `c` played.
pub open spec fn games_of(g: Seq<Outcome>, c: usize) -> nat
    decreases g.len(),
{
    if g.len() == 0 {
        0
    } else {
        games_of(g.drop_last(), c) + if g.last().0 == c || g.last().1 == c {
            1nat
        } else {
            0nat
        }
    }
}

proof fn lemma_totals_step(g: Seq<Outcome>, k: nat)
    requires
        g.len() > 0,
        g.last().0 != g.last().1,
        k <= usize::MAX,
    ensures
        total_wins(g, k) == total_wins(g.drop_last(), k) + if !g.last().2 && g.last().0 < k {
            1int
        } else {
            0int
        },
        total_losses(g, k) == total_losses(g.drop_last(), k) + if !g.last().2 && g.last().1 < k {
            1int
        } else {
            0int
        },
        total_draws(g, k) == total_draws(g.drop_last(), k) + (if g.last().2 && g.last().0 < k {
            1int
        } else {
            0int
        }) + (if g.last().2 && g.last().1 < k {
            1int
        } else {
            0int
        }),
    decreases k,
{
    if k > 0 {
        lemma_totals_step(g, (k - 1) as nat);
        let c = (k - 1) as usize;
        assert(c == k - 1);
        assert(wins_in(g, c) == wins_in(g.drop_last(), c) + if !g.last().2 && g.last().0 == c {
            1nat
        } else {
            0nat
        });
        assert(losses_in(g, c) == losses_in(g.drop_last(), c) + if !g.last().2 && g.last().1 == c {
            1nat
        } else {
            0nat
        });
    }
}

/// Over the games of a tournament among contestants `0..n`, the records add up: every
/// decided game gives one win and one loss, every drawn game a draw to each of its two
/// players, so the wins of all contestants together equal their losses; and each
/// contestant's wins, losses and draws together are the games it played.
pub proof fn law_records_add_up(g: Seq<Outcome>, n: nat, c: usize)
    requires
        games_among(g, n),
        n <= usize::MAX,
    ensures
        total_wins(g, n) == games_ending(g, false),
        total_losses(g, n) == games_ending(g, false),
        total_draws(g, n) == 2 * games_ending(g, true),
        wins_in(g, c) + losses_in(g, c) + draws_in(g, c) == games_of(g, c),
    decreases g.len(),
{
    if g.len() == 0 {
        assert(total_wins(g, n) == 0 && total_losses(g, n) == 0 && total_draws(g, n) == 0) by {
            lemma_totals_empty(g, n);
        }
    } else {
        let d = g.drop_last();
        assert forall|k: int| 0 <= k < d.len() implies (#[trigger] d[k]).0 < n && d[k].1 < n && d[k].0
            != d[k].1 by {
            assert(d[k] == g[k]);
        }
        law_records_add_up(d, n, c);
        assert(g.last() == g[g.len() - 1]);
        lemma_totals_step(g, n);
    }
}

proof fn lemma_totals_empty(g: Seq<Outcome>, k: nat)
    requires
        g.len() == 0,
    ensures
        total_wins(g, k) == 0,
        total_losses(g, k) == 0,
        total_draws(g, k) == 0,
    decreases k,
{
    if k > 0 {
        lemma_totals_empty(g, (k - 1) as nat);
    }
}

/// How many of the games `p` contestant `c` plays in, with either colour.
pub open spec fn appearances(p: Seq<(usize, usize)>, c: usize) -> nat
    decreases p.len(),
{
    if p.len() == 0 {
        0
    } else {
        appearances(p.drop_last(), c) + if p.last().0 == c || p.last().1 == c {
            1nat
        } else {
            0nat
        }
    }
}

proof fn lemma_appearances_concat(a: Seq<(usize, usize)>, b: Seq<(usize, usize)>, c: usize)
    ensures
        appearances(a + b, c) == appearances(a, c) + appearances(b, c),
    decreases b.len(),
{
    if b.len() == 0 {
        assert(a + b =~= a);
    } else {
        assert((a + b).drop_last() =~= a + b.drop_last());
        assert((a + b).last() == b.last());
        lemma_appearances_concat(a, b.drop_last(), c);
    }
}

proof fn lemma_row_appearances(i: nat, k: nat, c: usize, n: usize)
    requires
        i < n,
        k <= n,
        c < n,
    ensures
        appearances(row_pairs(i, k), c) == if i == c {
            k - (if c < k {
                1int
            } else {
                0int
            })
        } else if c < k {
            1int
        } else {
            0int
        },
    decreases k,
{
    if k > 0 {
        lemma_row_appearances(i, (k - 1) as nat, c, n);
        let p = row_pairs(i, (k - 1) as nat);
        if i != k - 1 {
            let x = (i as usize, (k - 1) as usize);
            assert(p.push(x).drop_last() =~= p);
            assert(x.0 == i && x.1 == k - 1);
        }
    }
}

proof fn lemma_pairings_appearances(r: nat, n: usize, c: usize)
    requires
        r <= n,
        c < n,
    ensures
        appearances(pairings(r, n as nat), c) == if c < r {
            n - 1 + r - 1
        } else {
            r as int
        },
    decreases r,
{
    if r > 0 {
        lemma_pairings_appearances((r - 1) as nat, n, c);
        lemma_row_appearances((r - 1) as nat, n as nat, c, n);
        lemma_appearances_concat(pairings((r - 1) as nat, n as nat), row_pairs((r - 1) as nat, n as nat), c);
    }
}

/// In a tournament among `n` contestants, each one plays `2(n - 1)` games: once with each
/// colour against every other contestant.
pub proof fn law_games_per_contestant(n: usize, c: usize)
    requires
        c < n,
    ensures
        appearances(pairings(n as nat, n as nat), c) == 2 * (n - 1),
{
    lemma_pairings_appearances(n as nat, n, c);
}

/// The square where the sequence `m` starts.
pub open spec fn start_square(m: (Seq<Move>, Seq<Position>)) -> (int, int) {
    ipos(m.0[0].from)
}

/// The square where the sequence `m` ends.
pub open spec fn end_square(m: (Seq<Move>, Seq<Position>)) -> (int, int) {
    ipos(m.0.last().to)
}

/// The board after an offered sequence is played: the moving piece stands on the end
/// square, still the player's, and becomes a king when that square is on the player's
/// crowning row (row 0 for White, row 9 for Black), however many moves the sequence has;
/// otherwise it keeps its kind. The start square is left empty unless the piece came back
/// to it, every captured piece is gone, and every other square is as it was.
pub proof fn law_board_after_move(s: GameState, m: (Seq<Move>, Seq<Position>), after: GameState)
    requires
        legal_sequences(s).contains(m),
        played(s, m, after),
    ensures
        square(after.board, end_square(m).0, end_square(m).1) == Some(
            Piece {
                type_: if end_square(m).0 == (if s.current_player == Player::White {
                    0int
                } else {
                    9int
                }) {
                    PieceType::King
                } else {
                    square(s.board, start_square(m).0, start_square(m).1).unwrap().type_
                },
                player: s.current_player,
            },
        ),
        start_square(m) != end_square(m) ==> square(after.board, start_square(m).0, start_square(m).1)
            is None,
        forall|k: int| 0 <= k < m.1.len() ==> square(after.board, ipos(#[trigger] m.1[k]).0, ipos(m.1[k]).1) is None,
        forall|x: int, y: int|
            on_board(x, y) && (x, y) != start_square(m) && (x, y) != end_square(m) && !m.1.contains(
                (x as usize, y as usize),
            ) ==> #[trigger] square(after.board, x, y) == square(s.board, x, y),
{
    law_offered_sequence_shape(s);
    let l = legal_sequences(s);
    let j: int = choose|j: int| 0 <= j < l.len() && l[j] == m;
    assert(sequence_shape(s, l[j]));
    let f = start_square(m);
    let t = end_square(m);
    assert(move_on_board(m.0[0]));
    assert(move_on_board(m.0[m.0.len() - 1]));
    assert(m.0.last() == m.0[m.0.len() - 1]);
    let pc = square(s.board, f.0, f.1).unwrap();
    assert(!m.1.contains((t.0 as usize, t.1 as usize))) by {
        if m.1.contains((t.0 as usize, t.1 as usize)) {
            let k: int = choose|k: int| 0 <= k < m.1.len() && m.1[k] == (t.0 as usize, t.1 as usize);
            assert(crate::movegen::holds_opponent(s, ipos(m.1[k])));
        }
    }
    assert(!m.1.contains((f.0 as usize, f.1 as usize))) by {
        if m.1.contains((f.0 as usize, f.1 as usize)) {
            let k: int = choose|k: int| 0 <= k < m.1.len() && m.1[k] == (f.0 as usize, f.1 as usize);
            assert(crate::movegen::holds_opponent(s, ipos(m.1[k])));
        }
    }
    assert(square(after.board, t.0, t.1) == square_after(s.board, s.current_player, m, t.0, t.1));
    assert(square(after.board, f.0, f.1) == square_after(s.board, s.current_player, m, f.0, f.1));
    assert forall|k: int| 0 <= k < m.1.len() implies square(after.board, ipos(#[trigger] m.1[k]).0, ipos(m.1[k]).1)
        is None by {
        let c = ipos(m.1[k]);
        assert(crate::movegen::holds_opponent(s, c));
        assert(square(after.board, c.0, c.1) == square_after(s.board, s.current_player, m, c.0, c.1));
        assert(m.1.contains((c.0 as usize, c.1 as usize)));
    }
}

} // verus!
