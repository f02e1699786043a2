//! What every generated move sequence looks like: a chain of moves over the board
//! that starts on a piece of the player to move and captures distinct opponent pieces.
use vstd::prelude::*;

use crate::game::{on_board, square, GameState, Move, Position};
use crate::movegen::{
    as_sequence, candidates, extend, holds_opponent, king_paths, king_ray, king_slide,
    legal_sequences, man_jump, man_paths, man_step, most_captures, move_on_board, path_ok,
    piece_paths, plus, sequences_of, start_path, step_move, times, valid, Path, capture_budget,
    lemma_budget_shrinks,
};

verus! {

broadcast use vstd::seq_lib::group_seq_properties;

/// Each move of `ms` starts where the previous one ended.
pub open spec fn chained(ms: Seq<Move>) -> bool {
    forall|k: int, j: int|
        #![trigger ms[k], ms[j]]
        0 <= k && j == k + 1 && j < ms.len() ==> ms[k].to == ms[j].from
}

/// `p` as a square of the board.
pub open spec fn upos(p: (int, int)) -> Position {
    (p.0 as usize, p.1 as usize)
}

/// The colour of the square `p`: squares of the same colour have coordinates of the same
/// parity sum, and a diagonal move never changes it.
pub open spec fn colour(p: (int, int)) -> int {
    (p.0 + p.1) % 2
}

/// A path of the piece that stood on `o`, built by the search.
pub open spec fn path_shape(s: GameState, o: (int, int), i: Path) -> bool {
    &&& path_ok(i)
    &&& valid(o)
    &&& colour(i.pos) == colour(o)
    &&& chained(i.moves)
    &&& i.moves.len() == 0 ==> i.pos == o
    &&& i.moves.len() > 0 ==> i.moves[0].from == upos(o) && i.moves.last().to == upos(i.pos)
    &&& i.moves.len() > 0 ==> (square(s.board, i.pos.0, i.pos.1) is None || i.pos == o)
    &&& forall|k: int|
        0 <= k < i.moves.len() ==> (square(s.board, (#[trigger] i.moves[k]).to.0 as int, i.moves[k].to.1 as int)
            is None || i.moves[k].to == upos(o))
    &&& forall|k: int| 0 <= k < i.captures.len() ==> holds_opponent(s, #[trigger] i.captures[k])
    &&& i.captures.no_duplicates()
}

/// Counting of a finished path: one capture per move, or a single plain move.
pub open spec fn counted(i: Path) -> bool {
    i.captures.len() == i.moves.len() || (i.captures.len() == 0 && i.moves.len() == 1)
}

pub(crate) proof fn lemma_diagonal_colour(p: (int, int), d: (int, int), k: int)
    requires
        d.0 == 1 || d.0 == -1,
        d.1 == 1 || d.1 == -1,
    ensures
        colour(plus(p, times(d, k))) == colour(p),
{
    if d.0 == 1 && d.1 == 1 {
        assert(plus(p, times(d, k)) == (p.0 + k, p.1 + k));
    } else if d.0 == 1 {
        assert(plus(p, times(d, k)) == (p.0 + k, p.1 - k));
    } else if d.1 == 1 {
        assert(plus(p, times(d, k)) == (p.0 - k, p.1 + k));
    } else {
        assert(plus(p, times(d, k)) == (p.0 - k, p.1 - k));
    }
}

pub(crate) proof fn lemma_extend_shape(
    s: GameState,
    o: (int, int),
    i: Path,
    np: (int, int),
    cap: Option<(int, int)>,
)
    requires
        path_shape(s, o, i),
        valid(np),
        colour(np) == colour(i.pos),
        square(s.board, np.0, np.1) is None || np == o,
        cap matches Some(c) ==> holds_opponent(s, c) && !i.captures.contains(c),
    ensures
        path_shape(s, o, extend(i, np, cap)),
        extend(i, np, cap).moves.len() == i.moves.len() + 1,
        extend(i, np, cap).captures.len() == i.captures.len() + if cap is Some {
            1int
        } else {
            0int
        },
{
    let ni = extend(i, np, cap);
    assert(ni.moves[ni.moves.len() - 1] == step_move(i.pos, np));
    assert forall|k: int| 0 <= k < ni.moves.len() implies move_on_board(#[trigger] ni.moves[k])
        && (square(s.board, ni.moves[k].to.0 as int, ni.moves[k].to.1 as int) is None
        || ni.moves[k].to == upos(o)) by {
        if k < i.moves.len() {
            assert(ni.moves[k] == i.moves[k]);
        }
    }
    assert forall|k: int, j: int|
        #![trigger ni.moves[k], ni.moves[j]]
        0 <= k && j == k + 1 && j < ni.moves.len() implies ni.moves[k].to == ni.moves[j].from by {
        if j < i.moves.len() {
            assert(ni.moves[k] == i.moves[k] && ni.moves[j] == i.moves[j]);
        } else {
            assert(ni.moves[k] == i.moves.last());
        }
    }
    if i.moves.len() > 0 {
        assert(ni.moves[0] == i.moves[0]);
    }
    match cap {
        Some(c) => {
            assert forall|k: int| 0 <= k < ni.captures.len() implies holds_opponent(
                s,
                #[trigger] ni.captures[k],
            ) by {
                if k < i.captures.len() {
                    assert(ni.captures[k] == i.captures[k]);
                }
            }
            assert forall|a: int, b: int|
                0 <= a < ni.captures.len() && 0 <= b < ni.captures.len() && a != b implies ni.captures[a]
                != ni.captures[b] by {
                if a < i.captures.len() && b < i.captures.len() {
                    assert(ni.captures[a] == i.captures[a] && ni.captures[b] == i.captures[b]);
                } else if a < i.captures.len() {
                    assert(ni.captures[a] == i.captures[a]);
                } else if b < i.captures.len() {
                    assert(ni.captures[b] == i.captures[b]);
                }
            }
        },
        None => {},
    }
}

/// Every path in `r` is a path of the piece from `o` that went further than `i`.
pub open spec fn all_grown(s: GameState, o: (int, int), i: Path, r: Seq<Path>) -> bool {
    forall|k: int|
        0 <= k < r.len() ==> path_shape(s, o, #[trigger] r[k]) && r[k].moves.len() > i.moves.len()
            && counted(r[k])
}

pub(crate) proof fn lemma_man_jump_shape(s: GameState, o: (int, int), i: Path, d: (int, int))
    requires
        path_shape(s, o, i),
        i.captures.len() == i.moves.len(),
        d.0 == 2 || d.0 == -2,
        d.1 == 2 || d.1 == -2,
    ensures
        all_grown(s, o, i, man_jump(s, i, d)),
        forall|k: int|
            0 <= k < man_jump(s, i, d).len() ==> #[trigger] man_jump(s, i, d)[k].captures.len()
                == man_jump(s, i, d)[k].moves.len(),
    decreases capture_budget(s, i.captures), 0nat,
{
    let r = man_jump(s, i, d);
    if crate::movegen::man_can_jump(s, i, d) {
        let c = plus(i.pos, (d.0 / 2, d.1 / 2));
        let ni = extend(i, plus(i.pos, d), Some(c));
        if i.moves.len() > 0 {
            assert(crate::movegen::start_of(i) == o);
        }
        lemma_extend_shape(s, o, i, plus(i.pos, d), Some(c));
        lemma_budget_shrinks(s, i.captures, c);
        lemma_man_paths_shape(s, o, ni);
        let sub = man_paths(s, ni);
        assert forall|k: int| 0 <= k < sub.len() implies #[trigger] sub[k].captures.len()
            == sub[k].moves.len() by {
            assert(sub[k].moves.len() > ni.moves.len());
        }
    }
}

pub(crate) proof fn lemma_append_grown(s: GameState, o: (int, int), i: Path, a: Seq<Path>, b: Seq<Path>)
    requires
        all_grown(s, o, i, a),
        all_grown(s, o, i, b),
    ensures
        all_grown(s, o, i, a + b),
{
    assert forall|k: int| 0 <= k < (a + b).len() implies path_shape(s, o, #[trigger] (a + b)[k])
        && (a + b)[k].moves.len() > i.moves.len() && counted((a + b)[k]) by {
        if k < a.len() {
            assert((a + b)[k] == a[k]);
        } else {
            assert((a + b)[k] == b[k - a.len()]);
        }
    }
}

pub(crate) proof fn lemma_man_paths_shape(s: GameState, o: (int, int), i: Path)
    requires
        path_shape(s, o, i),
        i.captures.len() == i.moves.len(),
    ensures
        all_grown(s, o, i, man_paths(s, i)),
    decreases capture_budget(s, i.captures), 1nat,
{
    let j1 = man_jump(s, i, (2, 2));
    let j2 = man_jump(s, i, (2, -2));
    let j3 = man_jump(s, i, (-2, 2));
    let j4 = man_jump(s, i, (-2, -2));
    lemma_man_jump_shape(s, o, i, (2, 2));
    lemma_man_jump_shape(s, o, i, (2, -2));
    lemma_man_jump_shape(s, o, i, (-2, 2));
    lemma_man_jump_shape(s, o, i, (-2, -2));
    lemma_append_grown(s, o, i, j1, j2);
    lemma_append_grown(s, o, i, j1 + j2, j3);
    lemma_append_grown(s, o, i, j1 + j2 + j3, j4);
    let jumps = j1 + j2 + j3 + j4;
    if jumps.len() == 0 && i.captures.len() == 0 {
        let dv = crate::movegen::forward(s.current_player);
        lemma_man_step_shape(s, o, i, (dv, 1));
        lemma_man_step_shape(s, o, i, (dv, -1));
        lemma_append_grown(s, o, i, man_step(s, i, (dv, 1)), man_step(s, i, (dv, -1)));
    }
}

proof fn lemma_man_step_shape(s: GameState, o: (int, int), i: Path, d: (int, int))
    requires
        path_shape(s, o, i),
        i.captures.len() == 0,
        i.moves.len() == 0,
        d.0 == 1 || d.0 == -1,
        d.1 == 1 || d.1 == -1,
    ensures
        all_grown(s, o, i, man_step(s, i, d)),
{
    lemma_diagonal_colour(i.pos, d, 1);
    assert(times(d, 1) == d);
    if crate::movegen::vacant(s, plus(i.pos, d)) {
        lemma_extend_shape(s, o, i, plus(i.pos, d), None);
    }
}

pub(crate) proof fn lemma_king_ray_shape(
    s: GameState,
    o: (int, int),
    i: Path,
    d: (int, int),
    dist: int,
    cap: Option<(int, int)>,
)
    requires
        path_shape(s, o, i),
        i.captures.len() == i.moves.len(),
        d.0 == 1 || d.0 == -1,
        d.1 == 1 || d.1 == -1,
    ensures
        all_grown(s, o, i, king_ray(s, i, d, dist, cap)),
        forall|k: int|
            0 <= k < king_ray(s, i, d, dist, cap).len() ==> #[trigger] king_ray(
                s,
                i,
                d,
                dist,
                cap,
            )[k].captures.len() == king_ray(s, i, d, dist, cap)[k].moves.len(),
    decreases capture_budget(s, i.captures), 0nat, (10 - dist) as nat,
{
    if dist >= 10 || dist < 1 {
    } else {
        let cur = plus(i.pos, times(d, dist));
        lemma_diagonal_colour(i.pos, d, dist);
        if !valid(cur) {
        } else if holds_opponent(s, cur) {
            if cap is None {
                lemma_king_ray_shape(s, o, i, d, dist + 1, Some(cur));
            }
        } else if square(s.board, cur.0, cur.1) is Some {
        } else {
            let here = match cap {
                Some(c) => if holds_opponent(s, c) && !i.captures.contains(c) {
                    let ni = extend(i, cur, Some(c));
                    let sub = king_paths(s, ni);
                    if sub.len() == 0 {
                        seq![ni]
                    } else {
                        sub
                    }
                } else {
                    seq![]
                },
                None => seq![],
            };
            match cap {
                Some(c) => if holds_opponent(s, c) && !i.captures.contains(c) {
                    let ni = extend(i, cur, Some(c));
                    lemma_extend_shape(s, o, i, cur, Some(c));
                    lemma_budget_shrinks(s, i.captures, c);
                    lemma_king_paths_shape(s, o, ni);
                    let sub = king_paths(s, ni);
                    assert forall|k: int| 0 <= k < sub.len() implies #[trigger] sub[k].captures.len()
                        == sub[k].moves.len() by {
                        assert(sub[k].moves.len() > ni.moves.len());
                    }
                },
                None => {},
            }
            lemma_king_ray_shape(s, o, i, d, dist + 1, cap);
            let rest = king_ray(s, i, d, dist + 1, cap);
            lemma_append_grown(s, o, i, here, rest);
            assert forall|k: int| 0 <= k < (here + rest).len() implies #[trigger] (here
                + rest)[k].captures.len() == (here + rest)[k].moves.len() by {
                if k < here.len() {
                    assert((here + rest)[k] == here[k]);
                } else {
                    assert((here + rest)[k] == rest[k - here.len()]);
                }
            }
        }
    }
}

proof fn lemma_king_slide_shape(s: GameState, o: (int, int), i: Path, d: (int, int), dist: int)
    requires
        path_shape(s, o, i),
        i.captures.len() == 0,
        i.moves.len() == 0,
        d.0 == 1 || d.0 == -1,
        d.1 == 1 || d.1 == -1,
    ensures
        all_grown(s, o, i, king_slide(s, i, d, dist)),
    decreases (10 - dist) as nat,
{
    if dist >= 10 || dist < 1 {
    } else {
        let np = plus(i.pos, times(d, dist));
        lemma_diagonal_colour(i.pos, d, dist);
        if crate::movegen::vacant(s, np) {
            lemma_extend_shape(s, o, i, np, None);
            lemma_king_slide_shape(s, o, i, d, dist + 1);
            lemma_append_grown(s, o, i, seq![extend(i, np, None)], king_slide(s, i, d, dist + 1));
        }
    }
}

pub(crate) proof fn lemma_king_paths_shape(s: GameState, o: (int, int), i: Path)
    requires
        path_shape(s, o, i),
        i.captures.len() == i.moves.len(),
    ensures
        all_grown(s, o, i, king_paths(s, i)),
    decreases capture_budget(s, i.captures), 1nat, 0nat,
{
    let r1 = king_ray(s, i, (1, 1), 1, None);
    let r2 = king_ray(s, i, (1, -1), 1, None);
    let r3 = king_ray(s, i, (-1, 1), 1, None);
    let r4 = king_ray(s, i, (-1, -1), 1, None);
    lemma_king_ray_shape(s, o, i, (1, 1), 1, None);
    lemma_king_ray_shape(s, o, i, (1, -1), 1, None);
    lemma_king_ray_shape(s, o, i, (-1, 1), 1, None);
    lemma_king_ray_shape(s, o, i, (-1, -1), 1, None);
    lemma_append_grown(s, o, i, r1, r2);
    lemma_append_grown(s, o, i, r1 + r2, r3);
    lemma_append_grown(s, o, i, r1 + r2 + r3, r4);
    if (r1 + r2 + r3 + r4).len() == 0 && i.captures.len() == 0 {
        let s1 = king_slide(s, i, (1, 1), 1);
        let s2 = king_slide(s, i, (1, -1), 1);
        let s3 = king_slide(s, i, (-1, 1), 1);
        let s4 = king_slide(s, i, (-1, -1), 1);
        lemma_king_slide_shape(s, o, i, (1, 1), 1);
        lemma_king_slide_shape(s, o, i, (1, -1), 1);
        lemma_king_slide_shape(s, o, i, (-1, 1), 1);
        lemma_king_slide_shape(s, o, i, (-1, -1), 1);
        lemma_append_grown(s, o, i, s1, s2);
        lemma_append_grown(s, o, i, s1 + s2, s3);
        lemma_append_grown(s, o, i, s1 + s2 + s3, s4);
    }
}

/// `p` as signed coordinates.
pub open spec fn ipos(p: Position) -> (int, int) {
    (p.0 as int, p.1 as int)
}

/// A move sequence the player to move may choose: a chain of at least one move over the
/// board, starting on a piece of that player, capturing distinct opponent pieces, one
/// per move, unless it is a single plain move.
pub open spec fn sequence_shape(s: GameState, m: (Seq<Move>, Seq<Position>)) -> bool {
    &&& m.0.len() > 0
    &&& forall|k: int| 0 <= k < m.0.len() ==> move_on_board(#[trigger] m.0[k])
    &&& chained(m.0)
    &&& square(s.board, m.0[0].from.0 as int, m.0[0].from.1 as int) matches Some(pc)
        && pc.player == s.current_player
    &&& forall|k: int| 0 <= k < m.1.len() ==> holds_opponent(s, ipos(#[trigger] m.1[k]))
    &&& m.1.no_duplicates()
    &&& m.1.len() == m.0.len() || (m.1.len() == 0 && m.0.len() == 1)
    &&& square(s.board, m.0.last().to.0 as int, m.0.last().to.1 as int) is None || m.0.last().to
        == m.0[0].from
    &&& colour(ipos(m.0.last().to)) == colour(ipos(m.0[0].from))
    &&& forall|k: int|
        0 <= k < m.0.len() ==> (square(s.board, (#[trigger] m.0[k]).to.0 as int, m.0[k].to.1 as int)
            is None || m.0[k].to == m.0[0].from)
}

proof fn lemma_as_sequence_shape(s: GameState, o: (int, int), r: Path)
    requires
        path_shape(s, o, r),
        r.moves.len() > 0,
        counted(r),
        square(s.board, o.0, o.1) matches Some(pc) && pc.player == s.current_player,
    ensures
        sequence_shape(s, as_sequence(r)),
{
    let m = as_sequence(r);
    assert forall|k: int| 0 <= k < m.1.len() implies holds_opponent(s, ipos(#[trigger] m.1[k])) by {
        assert(holds_opponent(s, r.captures[k]));
        assert(ipos(m.1[k]) == r.captures[k]);
    }
    assert forall|a: int, b: int| 0 <= a < m.1.len() && 0 <= b < m.1.len() && a != b implies m.1[a]
        != m.1[b] by {
        assert(valid(r.captures[a]) && valid(r.captures[b]));
        assert(ipos(m.1[a]) == r.captures[a]);
        assert(ipos(m.1[b]) == r.captures[b]);
    }
}

proof fn lemma_piece_paths_shape(s: GameState, x: int, y: int)
    requires
        on_board(x, y),
    ensures
        forall|k: int|
            0 <= k < sequences_of(piece_paths(s, x, y)).len() ==> sequence_shape(
                s,
                #[trigger] sequences_of(piece_paths(s, x, y))[k],
            ),
{
    let o = (x, y);
    let st = start_path(x, y);
    assert(path_shape(s, o, st));
    match square(s.board, x, y) {
        Some(pc) => if pc.player == s.current_player {
            match pc.type_ {
                crate::game::PieceType::Man => lemma_man_paths_shape(s, o, st),
                crate::game::PieceType::King => lemma_king_paths_shape(s, o, st),
            }
            let r = piece_paths(s, x, y);
            assert forall|k: int| 0 <= k < sequences_of(r).len() implies sequence_shape(
                s,
                #[trigger] sequences_of(r)[k],
            ) by {
                lemma_as_sequence_shape(s, o, r[k]);
            }
        },
        None => {},
    }
}

pub(crate) proof fn lemma_candidates_shape(s: GameState, k: nat)
    requires
        k <= 100,
    ensures
        forall|j: int| 0 <= j < candidates(s, k).len() ==> sequence_shape(s, #[trigger] candidates(s, k)[j]),
    decreases k,
{
    if k > 0 {
        lemma_candidates_shape(s, (k - 1) as nat);
        let j0: int = k - 1;
        lemma_piece_paths_shape(s, j0 % 10, j0 / 10);
        let a = candidates(s, (k - 1) as nat);
        let b = sequences_of(piece_paths(s, j0 % 10, j0 / 10));
        assert forall|j: int| 0 <= j < (a + b).len() implies sequence_shape(s, #[trigger] (a + b)[j]) by {
            if j < a.len() {
                assert((a + b)[j] == a[j]);
            } else {
                assert((a + b)[j] == b[j - a.len()]);
            }
        }
    }
}

proof fn lemma_filter_shape(
    s: GameState,
    c: Seq<(Seq<Move>, Seq<Position>)>,
    pred: spec_fn((Seq<Move>, Seq<Position>)) -> bool,
)
    requires
        forall|j: int| 0 <= j < c.len() ==> sequence_shape(s, #[trigger] c[j]),
    ensures
        forall|j: int| 0 <= j < c.filter(pred).len() ==> sequence_shape(s, #[trigger] c.filter(pred)[j]),
    decreases c.len(),
{
    reveal(Seq::filter);
    if c.len() > 0 {
        let d = c.drop_last();
        assert forall|j: int| 0 <= j < d.len() implies sequence_shape(s, #[trigger] d[j]) by {
            assert(d[j] == c[j]);
        }
        lemma_filter_shape(s, d, pred);
        let sub = d.filter(pred);
        let f = c.filter(pred);
        assert forall|j: int| 0 <= j < f.len() implies sequence_shape(s, #[trigger] f[j]) by {
            if pred(c.last()) {
                assert(f == sub.push(c.last()));
                if j < sub.len() {
                    assert(f[j] == sub[j]);
                } else {
                    assert(f[j] == c[c.len() - 1]);
                }
            } else {
                assert(f == sub);
            }
        }
    }
}

/// Every sequence offered to the player to move is a chain of at least one move over the
/// board, each starting where the previous one ended, that starts on a piece of that player,
/// lands every time on a square that is empty or the one it started from, keeps the colour
/// of its square, and captures distinct opponent pieces:
/// one per move, unless it is a single plain move.
pub proof fn law_offered_sequence_shape(s: GameState)
    ensures
        forall|j: int|
            0 <= j < legal_sequences(s).len() ==> sequence_shape(s, #[trigger] legal_sequences(s)[j]),
{
    lemma_candidates_shape(s, 100);
    let c = candidates(s, 100);
    lemma_filter_shape(s, c, |m: (Seq<Move>, Seq<Position>)| m.1.len() == most_captures(c));
}

} // verus!
