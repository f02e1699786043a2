//! No two sequences offered to a player are made of the same moves.
use vstd::prelude::*;

use crate::game::{on_board, square, GameState, Move, PieceType, Position};
use crate::movegen::{
    candidates, capture_budget, extend, holds_opponent, king_paths, king_ray, king_slide,
    legal_sequences, lemma_budget_shrinks, man_jump, man_paths, man_step, most_captures,
    piece_paths, plus, sequences_of, start_path, times, valid, Path,
};
use crate::rules::first_listed;
use crate::search_laws::diagonal;
use crate::shape::{ipos, upos};

verus! {

broadcast use vstd::seq_lib::group_seq_properties;

/// No two paths of `a` are made of the same moves.
pub open spec fn paths_distinct(a: Seq<Path>) -> bool {
    forall|i: int, j: int| #![trigger a[i], a[j]] 0 <= i < j < a.len() ==> a[i].moves != a[j].moves
}

/// `r` goes on from `i`: it repeats the moves of `i`, then moves on from where `i` stands.
pub open spec fn extends(r: Path, i: Path) -> bool {
    &&& r.moves.len() > i.moves.len()
    &&& forall|k: int| 0 <= k < i.moves.len() ==> r.moves[k] == i.moves[k]
    &&& r.moves[i.moves.len() as int].from == upos(i.pos)
}

/// `r` goes on from `i` by a first move that ends on `q`.
pub open spec fn lands_at(r: Path, i: Path, q: (int, int)) -> bool {
    extends(r, i) && ipos(r.moves[i.moves.len() as int].to) == q
}

proof fn lemma_concat_distinct(a: Seq<Path>, b: Seq<Path>, pa: spec_fn(Path) -> bool, pb: spec_fn(Path) -> bool)
    requires
        paths_distinct(a),
        paths_distinct(b),
        forall|k: int| 0 <= k < a.len() ==> pa(#[trigger] a[k]),
        forall|k: int| 0 <= k < b.len() ==> pb(#[trigger] b[k]),
        forall|x: Path, y: Path| pa(x) && pb(y) ==> x.moves != y.moves,
    ensures
        paths_distinct(a + b),
        forall|k: int| 0 <= k < (a + b).len() ==> pa(#[trigger] (a + b)[k]) || pb((a + b)[k]),
{
    let c = a + b;
    assert forall|i: int, j: int| 0 <= i < j < c.len() implies #[trigger] c[i].moves != #[trigger] c[j].moves by {
        if j < a.len() {
            assert(c[i] == a[i] && c[j] == a[j]);
        } else if i >= a.len() {
            assert(c[i] == b[i - a.len()] && c[j] == b[j - a.len()]);
        } else {
            assert(c[i] == a[i] && c[j] == b[j - a.len()]);
            assert(pa(a[i]) && pb(b[j - a.len()]));
        }
    }
    assert forall|k: int| 0 <= k < c.len() implies pa(#[trigger] c[k]) || pb(c[k]) by {
        if k < a.len() {
            assert(c[k] == a[k]);
        } else {
            assert(c[k] == b[k - a.len()]);
        }
    }
}

proof fn lemma_extend_lands(i: Path, np: (int, int), cap: Option<(int, int)>, r: Path)
    requires
        valid(np),
        r == extend(i, np, cap) || extends(r, extend(i, np, cap)),
    ensures
        lands_at(r, i, np),
{
    let ni = extend(i, np, cap);
    assert(ni.moves[i.moves.len() as int] == crate::movegen::step_move(i.pos, np));
    assert forall|k: int| 0 <= k < i.moves.len() implies r.moves[k] == i.moves[k] by {
        assert(ni.moves[k] == i.moves[k]);
    }
}

proof fn lemma_man_jump_distinct(s: GameState, i: Path, d: (int, int))
    ensures
        paths_distinct(man_jump(s, i, d)),
        forall|k: int| 0 <= k < man_jump(s, i, d).len() ==> lands_at(#[trigger] man_jump(s, i, d)[k], i, plus(i.pos, d)),
    decreases capture_budget(s, i.captures), 0nat,
{
    let r = man_jump(s, i, d);
    if crate::movegen::man_can_jump(s, i, d) {
        let np = plus(i.pos, d);
        let c = plus(i.pos, (d.0 / 2, d.1 / 2));
        let ni = extend(i, np, Some(c));
        lemma_budget_shrinks(s, i.captures, c);
        lemma_man_paths_distinct(s, ni);
        assert forall|k: int| 0 <= k < r.len() implies lands_at(#[trigger] r[k], i, np) by {
            lemma_extend_lands(i, np, Some(c), r[k]);
        }
    }
}

proof fn lemma_man_step_distinct(s: GameState, i: Path, d: (int, int))
    ensures
        paths_distinct(man_step(s, i, d)),
        forall|k: int| 0 <= k < man_step(s, i, d).len() ==> lands_at(#[trigger] man_step(s, i, d)[k], i, plus(i.pos, d)),
{
    let r = man_step(s, i, d);
    if r.len() > 0 {
        lemma_extend_lands(i, plus(i.pos, d), None, r[0]);
    }
}

proof fn lemma_man_paths_distinct(s: GameState, i: Path)
    ensures
        paths_distinct(man_paths(s, i)),
        forall|k: int| 0 <= k < man_paths(s, i).len() ==> extends(#[trigger] man_paths(s, i)[k], i),
    decreases capture_budget(s, i.captures), 1nat,
{
    let p = i.pos;
    let j1 = man_jump(s, i, (2, 2));
    let j2 = man_jump(s, i, (2, -2));
    let j3 = man_jump(s, i, (-2, 2));
    let j4 = man_jump(s, i, (-2, -2));
    lemma_man_jump_distinct(s, i, (2, 2));
    lemma_man_jump_distinct(s, i, (2, -2));
    lemma_man_jump_distinct(s, i, (-2, 2));
    lemma_man_jump_distinct(s, i, (-2, -2));
    let p1 = |r: Path| lands_at(r, i, plus(p, (2, 2)));
    let p2 = |r: Path| lands_at(r, i, plus(p, (2, -2)));
    let p3 = |r: Path| lands_at(r, i, plus(p, (-2, 2)));
    let p4 = |r: Path| lands_at(r, i, plus(p, (-2, -2)));
    lemma_concat_distinct(j1, j2, p1, p2);
    let p12 = |r: Path| p1(r) || p2(r);
    lemma_concat_distinct(j1 + j2, j3, p12, p3);
    let p123 = |r: Path| p12(r) || p3(r);
    lemma_concat_distinct(j1 + j2 + j3, j4, p123, p4);
    let jumps = j1 + j2 + j3 + j4;
    if jumps.len() == 0 && i.captures.len() == 0 {
        let dv = crate::movegen::forward(s.current_player);
        lemma_man_step_distinct(s, i, (dv, 1));
        lemma_man_step_distinct(s, i, (dv, -1));
        lemma_concat_distinct(
            man_step(s, i, (dv, 1)),
            man_step(s, i, (dv, -1)),
            |r: Path| lands_at(r, i, plus(p, (dv, 1))),
            |r: Path| lands_at(r, i, plus(p, (dv, -1))),
        );
    }
}

/// How far `q` lies from `p` along the diagonal direction `d`, counted on the first coordinate.
pub open spec fn ray_dist(p: (int, int), d: (int, int), q: (int, int)) -> int {
    if d.0 == 1 {
        q.0 - p.0
    } else {
        p.0 - q.0
    }
}

/// `q` lies on the diagonal through `p` in the direction `d`.
pub open spec fn on_ray(p: (int, int), d: (int, int), q: (int, int)) -> bool {
    (if d.1 == 1 {
        q.1 - p.1
    } else {
        p.1 - q.1
    }) == ray_dist(p, d, q)
}

/// `r` goes on from `i` by a first move along the diagonal `d`, at least `lo` squares far.
pub open spec fn lands_along(r: Path, i: Path, d: (int, int), lo: int) -> bool {
    &&& extends(r, i)
    &&& on_ray(i.pos, d, ipos(r.moves[i.moves.len() as int].to))
    &&& ray_dist(i.pos, d, ipos(r.moves[i.moves.len() as int].to)) >= lo
}

proof fn lemma_ray_point(p: (int, int), d: (int, int), t: int)
    requires
        diagonal(d),
    ensures
        on_ray(p, d, plus(p, times(d, t))),
        ray_dist(p, d, plus(p, times(d, t))) == t,
{
    if d.0 == 1 && d.1 == 1 {
        assert(plus(p, times(d, t)) == (p.0 + t, p.1 + t));
    } else if d.0 == 1 {
        assert(plus(p, times(d, t)) == (p.0 + t, p.1 - t));
    } else if d.1 == 1 {
        assert(plus(p, times(d, t)) == (p.0 - t, p.1 + t));
    } else {
        assert(plus(p, times(d, t)) == (p.0 - t, p.1 - t));
    }
}

proof fn lemma_king_ray_distinct(s: GameState, i: Path, d: (int, int), dist: int, cap: Option<(int, int)>)
    requires
        diagonal(d),
    ensures
        paths_distinct(king_ray(s, i, d, dist, cap)),
        forall|k: int|
            0 <= k < king_ray(s, i, d, dist, cap).len() ==> lands_along(
                #[trigger] king_ray(s, i, d, dist, cap)[k],
                i,
                d,
                dist,
            ),
    decreases capture_budget(s, i.captures), 0nat, (10 - dist) as nat,
{
    if dist >= 10 || dist < 1 {
    } else {
        let cur = plus(i.pos, times(d, dist));
        if !valid(cur) {
        } else if holds_opponent(s, cur) {
            if cap is None {
                lemma_king_ray_distinct(s, i, d, dist + 1, Some(cur));
            }
        } else if square(s.board, cur.0, cur.1) is Some {
        } else {
            let here = match cap {
                Some(c) => if holds_opponent(s, c) && !i.captures.contains(c) {
                    let ni = extend(i, cur, Some(c));
                    let sub = king_paths(s, ni);
                    if sub.len() == 0 {
                        seq![ni]
                    } else {
                        sub
                    }
                } else {
                    seq![]
                },
                None => seq![],
            };
            match cap {
                Some(c) => if holds_opponent(s, c) && !i.captures.contains(c) {
                    lemma_budget_shrinks(s, i.captures, c);
                    lemma_king_paths_distinct(s, extend(i, cur, Some(c)));
                },
                None => {},
            }
            assert forall|k: int| 0 <= k < here.len() implies lands_at(#[trigger] here[k], i, cur) by {
                match cap {
                    Some(c) => lemma_extend_lands(i, cur, Some(c), here[k]),
                    None => {},
                }
            }
            lemma_king_ray_distinct(s, i, d, dist + 1, cap);
            lemma_ray_point(i.pos, d, dist);
            let rest = king_ray(s, i, d, dist + 1, cap);
            lemma_concat_distinct(
                here,
                rest,
                |r: Path| lands_at(r, i, cur),
                |r: Path| lands_along(r, i, d, dist + 1),
            );
        }
    }
}

proof fn lemma_king_slide_distinct(s: GameState, i: Path, d: (int, int), dist: int)
    requires
        diagonal(d),
    ensures
        paths_distinct(king_slide(s, i, d, dist)),
        forall|k: int|
            0 <= k < king_slide(s, i, d, dist).len() ==> lands_along(
                #[trigger] king_slide(s, i, d, dist)[k],
                i,
                d,
                dist,
            ),
    decreases (10 - dist) as nat,
{
    if dist < 10 && dist >= 1 {
        let np = plus(i.pos, times(d, dist));
        if crate::movegen::vacant(s, np) {
            lemma_king_slide_distinct(s, i, d, dist + 1);
            lemma_ray_point(i.pos, d, dist);
            let one = seq![extend(i, np, None)];
            lemma_extend_lands(i, np, None, one[0]);
            lemma_concat_distinct(
                one,
                king_slide(s, i, d, dist + 1),
                |r: Path| lands_at(r, i, np),
                |r: Path| lands_along(r, i, d, dist + 1),
            );
        }
    }
}

proof fn lemma_four_directions(
    i: Path,
    a1: Seq<Path>,
    a2: Seq<Path>,
    a3: Seq<Path>,
    a4: Seq<Path>,
)
    requires
        paths_distinct(a1),
        paths_distinct(a2),
        paths_distinct(a3),
        paths_distinct(a4),
        forall|k: int| 0 <= k < a1.len() ==> lands_along(#[trigger] a1[k], i, (1, 1), 1),
        forall|k: int| 0 <= k < a2.len() ==> lands_along(#[trigger] a2[k], i, (1, -1), 1),
        forall|k: int| 0 <= k < a3.len() ==> lands_along(#[trigger] a3[k], i, (-1, 1), 1),
        forall|k: int| 0 <= k < a4.len() ==> lands_along(#[trigger] a4[k], i, (-1, -1), 1),
    ensures
        paths_distinct(a1 + a2 + a3 + a4),
        forall|k: int| 0 <= k < (a1 + a2 + a3 + a4).len() ==> extends(#[trigger] (a1 + a2 + a3 + a4)[k], i),
{
    let p1 = |r: Path| lands_along(r, i, (1, 1), 1);
    let p2 = |r: Path| lands_along(r, i, (1, -1), 1);
    let p3 = |r: Path| lands_along(r, i, (-1, 1), 1);
    let p4 = |r: Path| lands_along(r, i, (-1, -1), 1);
    lemma_concat_distinct(a1, a2, p1, p2);
    let p12 = |r: Path| p1(r) || p2(r);
    lemma_concat_distinct(a1 + a2, a3, p12, p3);
    let p123 = |r: Path| p12(r) || p3(r);
    lemma_concat_distinct(a1 + a2 + a3, a4, p123, p4);
}

proof fn lemma_king_paths_distinct(s: GameState, i: Path)
    ensures
        paths_distinct(king_paths(s, i)),
        forall|k: int| 0 <= k < king_paths(s, i).len() ==> extends(#[trigger] king_paths(s, i)[k], i),
    decreases capture_budget(s, i.captures), 1nat, 0nat,
{
    lemma_king_ray_distinct(s, i, (1, 1), 1, None);
    lemma_king_ray_distinct(s, i, (1, -1), 1, None);
    lemma_king_ray_distinct(s, i, (-1, 1), 1, None);
    lemma_king_ray_distinct(s, i, (-1, -1), 1, None);
    let r1 = king_ray(s, i, (1, 1), 1, None);
    let r2 = king_ray(s, i, (1, -1), 1, None);
    let r3 = king_ray(s, i, (-1, 1), 1, None);
    let r4 = king_ray(s, i, (-1, -1), 1, None);
    lemma_four_directions(i, r1, r2, r3, r4);
    if (r1 + r2 + r3 + r4).len() == 0 && i.captures.len() == 0 {
        lemma_king_slide_distinct(s, i, (1, 1), 1);
        lemma_king_slide_distinct(s, i, (1, -1), 1);
        lemma_king_slide_distinct(s, i, (-1, 1), 1);
        lemma_king_slide_distinct(s, i, (-1, -1), 1);
        lemma_four_directions(
            i,
            king_slide(s, i, (1, 1), 1),
            king_slide(s, i, (1, -1), 1),
            king_slide(s, i, (-1, 1), 1),
            king_slide(s, i, (-1, -1), 1),
        );
    }
}

/// No two sequences of `c` are made of the same moves.
pub open spec fn distinct_moves(c: Seq<(Seq<Move>, Seq<Position>)>) -> bool {
    forall|i: int, j: int| #![trigger c[i], c[j]] 0 <= i < j < c.len() ==> c[i].0 != c[j].0
}

/// The index of the square the sequence `e` starts from, in the order of the search.
spec fn start_index(e: (Seq<Move>, Seq<Position>)) -> int {
    e.0[0].from.1 as int * 10 + e.0[0].from.0 as int
}

proof fn lemma_piece_distinct(s: GameState, x: int, y: int)
    requires
        on_board(x, y),
    ensures
        distinct_moves(sequences_of(piece_paths(s, x, y))),
        forall|k: int|
            0 <= k < sequences_of(piece_paths(s, x, y)).len() ==> (#[trigger] sequences_of(
                piece_paths(s, x, y),
            )[k]).0.len() > 0 && sequences_of(piece_paths(s, x, y))[k].0[0].from == upos((x, y)),
{
    let st = start_path(x, y);
    let ps = piece_paths(s, x, y);
    match square(s.board, x, y) {
        Some(pc) => if pc.player == s.current_player {
            match pc.type_ {
                PieceType::Man => lemma_man_paths_distinct(s, st),
                PieceType::King => lemma_king_paths_distinct(s, st),
            }
        },
        None => {},
    }
    let b = sequences_of(ps);
    assert forall|i: int, j: int| 0 <= i < j < b.len() implies #[trigger] b[i].0 != #[trigger] b[j].0 by {
        assert(b[i].0 == ps[i].moves && b[j].0 == ps[j].moves);
    }
    assert forall|k: int| 0 <= k < b.len() implies (#[trigger] b[k]).0.len() > 0 && b[k].0[0].from
        == upos((x, y)) by {
        assert(b[k].0 == ps[k].moves);
        assert(extends(ps[k], st));
    }
}

proof fn lemma_candidates_distinct(s: GameState, k: nat)
    requires
        k <= 100,
    ensures
        distinct_moves(candidates(s, k)),
        forall|j: int|
            0 <= j < candidates(s, k).len() ==> (#[trigger] candidates(s, k)[j]).0.len() > 0
                && 0 <= start_index(candidates(s, k)[j]) < k,
    decreases k,
{
    if k > 0 {
        lemma_candidates_distinct(s, (k - 1) as nat);
        let jj: int = k - 1;
        let x = jj % 10;
        let y = jj / 10;
        lemma_piece_distinct(s, x, y);
        let a = candidates(s, (k - 1) as nat);
        let b = sequences_of(piece_paths(s, x, y));
        let c = a + b;
        assert forall|i: int| 0 <= i < b.len() implies start_index(#[trigger] b[i]) == jj by {
            assert(b[i].0[0].from == ((x as usize), (y as usize)));
        }
        assert forall|i: int, j: int| 0 <= i < j < c.len() implies #[trigger] c[i].0 != #[trigger] c[j].0 by {
            if j < a.len() {
                assert(c[i] == a[i] && c[j] == a[j]);
            } else if i >= a.len() {
                assert(c[i] == b[i - a.len()] && c[j] == b[j - a.len()]);
            } else {
                assert(c[i] == a[i] && c[j] == b[j - a.len()]);
                assert(start_index(b[j - a.len()]) == jj);
            }
        }
        assert forall|j: int| 0 <= j < c.len() implies (#[trigger] c[j]).0.len() > 0 && 0 <= start_index(
            c[j],
        ) < k by {
            if j < a.len() {
                assert(c[j] == a[j]);
            } else {
                assert(c[j] == b[j - a.len()]);
            }
        }
    }
}

proof fn lemma_filter_distinct(
    c: Seq<(Seq<Move>, Seq<Position>)>,
    pred: spec_fn((Seq<Move>, Seq<Position>)) -> bool,
)
    requires
        distinct_moves(c),
    ensures
        distinct_moves(c.filter(pred)),
    decreases c.len(),
{
    reveal(Seq::filter);
    if c.len() > 0 {
        let d = c.drop_last();
        assert forall|i: int, j: int| 0 <= i < j < d.len() implies #[trigger] d[i].0 != #[trigger] d[j].0 by {
            assert(d[i] == c[i] && d[j] == c[j]);
        }
        lemma_filter_distinct(d, pred);
        let sub = d.filter(pred);
        let f = c.filter(pred);
        if pred(c.last()) {
            assert(f == sub.push(c.last()));
            assert forall|i: int, j: int| 0 <= i < j < f.len() implies #[trigger] f[i].0 != #[trigger] f[j].0 by {
                if j < sub.len() {
                    assert(f[i] == sub[i] && f[j] == sub[j]);
                } else {
                    assert(f[i] == sub[i] && f[j] == c.last());
                    assert(sub.contains(sub[i]));
                    d.lemma_filter_contains_rev(pred, sub[i]);
                    let q: int = choose|q: int| 0 <= q < d.len() && d[q] == sub[i];
                    assert(c[q] == d[q]);
                    assert(c[c.len() - 1] == c.last());
                }
            }
        } else {
            assert(f == sub);
        }
    }
}

/// No two sequences offered to the player to move are made of the same moves, so the moves
/// a player names pick out one offered sequence, with its captures.
pub proof fn law_offered_moves_distinct(s: GameState)
    ensures
        distinct_moves(legal_sequences(s)),
{
    lemma_candidates_distinct(s, 100);
    let c = candidates(s, 100);
    lemma_filter_distinct(c, |m: (Seq<Move>, Seq<Position>)| m.1.len() == most_captures(c));
}

/// The moves of an offered sequence name that sequence and no other: the first offered
/// sequence with those moves, the one `apply_sequence` plays, is the sequence itself, with
/// the same captures.
pub proof fn law_moves_name_the_sequence(s: GameState, m: (Seq<Move>, Seq<Position>), j: int)
    requires
        legal_sequences(s).contains(m),
        first_listed(legal_sequences(s), m.0, j),
    ensures
        legal_sequences(s)[j] == m,
{
    law_offered_moves_distinct(s);
    let l = legal_sequences(s);
    let q: int = choose|q: int| 0 <= q < l.len() && l[q] == m;
    if q < j {
    } else if j < q {
        assert(l[j].0 == l[q].0);
    }
}

} // verus!
