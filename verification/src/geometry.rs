//! How each kind of piece moves in the sequences offered to a player.
use vstd::prelude::*;

use crate::distinct::{on_ray, ray_dist};
use crate::game::{on_board, square, GameState, Move, PieceType, Player, Position};
use crate::movegen::{
    candidates, capture_budget, extend, forward, holds_opponent, king_paths, king_ray, king_slide,
    legal_sequences, lemma_budget_shrinks, man_jump, man_paths, man_step, most_captures,
    piece_paths, plus, sequences_of, start_path, step_move, times, vacant, valid, Path,
};
use crate::search_laws::diagonal;
use crate::shape::{ipos, lemma_king_paths_shape, lemma_man_paths_shape, path_shape};

verus! {

broadcast use vstd::seq_lib::group_seq_properties;

/// `m` jumps over the square `c`, which is diagonally next to where it starts, onto the
/// square right behind it.
pub open spec fn jump_ok(m: Move, c: (int, int)) -> bool {
    let f = ipos(m.from);
    let t = ipos(m.to);
    diagonal((c.0 - f.0, c.1 - f.1)) && t == (2 * c.0 - f.0, 2 * c.1 - f.1)
}

/// `m` steps to one of the two squares diagonally in front of a man of `p`.
pub open spec fn step_ok(p: Player, m: Move) -> bool {
    let f = ipos(m.from);
    let t = ipos(m.to);
    t.0 == f.0 + forward(p) && (t.1 == f.1 + 1 || t.1 == f.1 - 1)
}

/// The diagonal direction from `f` towards `t`.
pub open spec fn dir_of(f: (int, int), t: (int, int)) -> (int, int) {
    (if t.0 > f.0 { 1 } else { -1 }, if t.1 > f.1 { 1 } else { -1 })
}

/// How many squares `t` lies from `f`, counted on the first coordinate.
pub open spec fn span(f: (int, int), t: (int, int)) -> int {
    if t.0 > f.0 {
        t.0 - f.0
    } else {
        f.0 - t.0
    }
}

/// `m` goes along a diagonal over squares that are all empty but `c`, if `c` names one,
/// which then lies strictly between the ends of the move.
pub open spec fn king_move_ok(s: GameState, m: Move, c: Option<(int, int)>) -> bool {
    let f = ipos(m.from);
    let t = ipos(m.to);
    let d = dir_of(f, t);
    let n = span(f, t);
    &&& n >= 1
    &&& t == plus(f, times(d, n))
    &&& forall|v: int|
        1 <= v < n ==> vacant(s, #[trigger] plus(f, times(d, v))) || Some(plus(f, times(d, v))) == c
    &&& c matches Some(cc) ==> on_ray(f, d, cc) && 1 <= ray_dist(f, d, cc) < n
}

/// How a piece of kind `kind` may make the move `m`, capturing the piece on `c` if any:
/// a man jumps over `c`, or steps forward when it captures nothing; a king goes along a
/// diagonal over empty squares and over `c`.
pub open spec fn move_geometry(s: GameState, kind: PieceType, m: Move, c: Option<(int, int)>) -> bool {
    match kind {
        PieceType::Man => match c {
            Some(cc) => jump_ok(m, cc),
            None => step_ok(s.current_player, m),
        },
        PieceType::King => king_move_ok(s, m, c),
    }
}

/// The capture made by the `k`-th move of a path with the captures `caps`, if it captures.
pub open spec fn capture_of(caps: Seq<(int, int)>, k: int) -> Option<(int, int)> {
    if caps.len() == 0 {
        None
    } else {
        Some(caps[k])
    }
}

/// Every move of `r` is one that a piece of kind `kind` may make.
pub open spec fn path_geometry(s: GameState, kind: PieceType, r: Path) -> bool {
    forall|k: int|
        0 <= k < r.moves.len() ==> move_geometry(s, kind, #[trigger] r.moves[k], capture_of(r.captures, k))
}

/// What is asked of the paths `r` found from `i` by a piece of kind `kind`.
pub open spec fn all_geometric(s: GameState, kind: PieceType, i: Path, r: Seq<Path>) -> bool {
    forall|k: int|
        0 <= k < r.len() ==> path_geometry(s, kind, #[trigger] r[k]) && r[k].captures.len()
            >= i.captures.len()
}

proof fn lemma_concat_geometric(s: GameState, kind: PieceType, i: Path, a: Seq<Path>, b: Seq<Path>)
    requires
        all_geometric(s, kind, i, a),
        all_geometric(s, kind, i, b),
    ensures
        all_geometric(s, kind, i, a + b),
{
    assert forall|k: int| 0 <= k < (a + b).len() implies path_geometry(s, kind, #[trigger] (a + b)[k])
        && (a + b)[k].captures.len() >= i.captures.len() by {
        if k < a.len() {
            assert((a + b)[k] == a[k]);
        } else {
            assert((a + b)[k] == b[k - a.len()]);
        }
    }
}

proof fn lemma_extend_geometry(
    s: GameState,
    kind: PieceType,
    i: Path,
    np: (int, int),
    cap: Option<(int, int)>,
)
    requires
        valid(i.pos),
        valid(np),
        i.captures.len() == i.moves.len(),
        cap is Some || i.moves.len() == 0,
        path_geometry(s, kind, i),
        move_geometry(s, kind, step_move(i.pos, np), cap),
    ensures
        path_geometry(s, kind, extend(i, np, cap)),
{
    let ni = extend(i, np, cap);
    assert forall|k: int| 0 <= k < ni.moves.len() implies move_geometry(
        s,
        kind,
        #[trigger] ni.moves[k],
        capture_of(ni.captures, k),
    ) by {
        if k < i.moves.len() {
            assert(ni.moves[k] == i.moves[k]);
            assert(capture_of(ni.captures, k) == capture_of(i.captures, k));
        } else {
            assert(ni.moves[k] == step_move(i.pos, np));
        }
    }
}

proof fn lemma_man_jump_geometry(s: GameState, i: Path, d: (int, int))
    requires
        valid(i.pos),
        i.captures.len() == i.moves.len(),
        path_geometry(s, PieceType::Man, i),
        d.0 == 2 || d.0 == -2,
        d.1 == 2 || d.1 == -2,
    ensures
        all_geometric(s, PieceType::Man, i, man_jump(s, i, d)),
        forall|k: int| 0 <= k < man_jump(s, i, d).len() ==> (#[trigger] man_jump(s, i, d)[k]).captures.len() > 0,
    decreases capture_budget(s, i.captures), 0nat,
{
    if crate::movegen::man_can_jump(s, i, d) {
        let np = plus(i.pos, d);
        let c = plus(i.pos, (d.0 / 2, d.1 / 2));
        assert(jump_ok(step_move(i.pos, np), c));
        lemma_extend_geometry(s, PieceType::Man, i, np, Some(c));
        let ni = extend(i, np, Some(c));
        lemma_budget_shrinks(s, i.captures, c);
        lemma_man_paths_geometry(s, ni);
    }
}

proof fn lemma_man_step_geometry(s: GameState, i: Path, d: (int, int))
    requires
        valid(i.pos),
        i.captures.len() == 0,
        i.moves.len() == 0,
        d.0 == forward(s.current_player),
        d.1 == 1 || d.1 == -1,
    ensures
        all_geometric(s, PieceType::Man, i, man_step(s, i, d)),
{
    let np = plus(i.pos, d);
    if vacant(s, np) {
        lemma_extend_geometry(s, PieceType::Man, i, np, None);
    }
}

proof fn lemma_man_paths_geometry(s: GameState, i: Path)
    requires
        valid(i.pos),
        i.captures.len() == i.moves.len(),
        path_geometry(s, PieceType::Man, i),
    ensures
        all_geometric(s, PieceType::Man, i, man_paths(s, i)),
    decreases capture_budget(s, i.captures), 1nat,
{
    let kind = PieceType::Man;
    let j1 = man_jump(s, i, (2, 2));
    let j2 = man_jump(s, i, (2, -2));
    let j3 = man_jump(s, i, (-2, 2));
    let j4 = man_jump(s, i, (-2, -2));
    lemma_man_jump_geometry(s, i, (2, 2));
    lemma_man_jump_geometry(s, i, (2, -2));
    lemma_man_jump_geometry(s, i, (-2, 2));
    lemma_man_jump_geometry(s, i, (-2, -2));
    lemma_concat_geometric(s, kind, i, j1, j2);
    lemma_concat_geometric(s, kind, i, j1 + j2, j3);
    lemma_concat_geometric(s, kind, i, j1 + j2 + j3, j4);
    if (j1 + j2 + j3 + j4).len() == 0 && i.captures.len() == 0 {
        let dv = forward(s.current_player);
        lemma_man_step_geometry(s, i, (dv, 1));
        lemma_man_step_geometry(s, i, (dv, -1));
        lemma_concat_geometric(s, kind, i, man_step(s, i, (dv, 1)), man_step(s, i, (dv, -1)));
    }
}

proof fn lemma_dir_of(p: (int, int), d: (int, int), n: int)
    requires
        diagonal(d),
        n >= 1,
    ensures
        dir_of(p, plus(p, times(d, n))) == d,
        span(p, plus(p, times(d, n))) == n,
        on_ray(p, d, plus(p, times(d, n))),
        ray_dist(p, d, plus(p, times(d, n))) == n,
{
    if d.0 == 1 && d.1 == 1 {
        assert(plus(p, times(d, n)) == (p.0 + n, p.1 + n));
    } else if d.0 == 1 {
        assert(plus(p, times(d, n)) == (p.0 + n, p.1 - n));
    } else if d.1 == 1 {
        assert(plus(p, times(d, n)) == (p.0 - n, p.1 + n));
    } else {
        assert(plus(p, times(d, n)) == (p.0 - n, p.1 - n));
    }
}

proof fn lemma_king_ray_geometry(
    s: GameState,
    i: Path,
    d: (int, int),
    dist: int,
    cap: Option<(int, int)>,
)
    requires
        valid(i.pos),
        i.captures.len() == i.moves.len(),
        path_geometry(s, PieceType::King, i),
        diagonal(d),
        dist >= 1,
        forall|v: int|
            1 <= v < dist ==> vacant(s, #[trigger] plus(i.pos, times(d, v))) || Some(
                plus(i.pos, times(d, v)),
            ) == cap,
        cap matches Some(cc) ==> on_ray(i.pos, d, cc) && 1 <= ray_dist(i.pos, d, cc) < dist,
    ensures
        all_geometric(s, PieceType::King, i, king_ray(s, i, d, dist, cap)),
        forall|k: int|
            0 <= k < king_ray(s, i, d, dist, cap).len() ==> (#[trigger] king_ray(s, i, d, dist, cap)[k]).captures.len() > 0,
    decreases capture_budget(s, i.captures), 0nat, (10 - dist) as nat,
{
    let kind = PieceType::King;
    if dist < 10 {
        let cur = plus(i.pos, times(d, dist));
        lemma_dir_of(i.pos, d, dist);
        if !valid(cur) {
        } else if holds_opponent(s, cur) {
            if cap is None {
                lemma_king_ray_geometry(s, i, d, dist + 1, Some(cur));
            }
        } else if square(s.board, cur.0, cur.1) is Some {
        } else {
            let here = match cap {
                Some(c) => if holds_opponent(s, c) && !i.captures.contains(c) {
                    let ni = extend(i, cur, Some(c));
                    let sub = king_paths(s, ni);
                    if sub.len() == 0 {
                        seq![ni]
                    } else {
                        sub
                    }
                } else {
                    seq![]
                },
                None => seq![],
            };
            match cap {
                Some(c) => if holds_opponent(s, c) && !i.captures.contains(c) {
                    let m = step_move(i.pos, cur);
                    assert(ipos(m.from) == i.pos && ipos(m.to) == cur);
                    assert(king_move_ok(s, m, Some(c)));
                    lemma_extend_geometry(s, kind, i, cur, Some(c));
                    lemma_budget_shrinks(s, i.captures, c);
                    lemma_king_paths_geometry(s, extend(i, cur, Some(c)));
                },
                None => {},
            }
            lemma_king_ray_geometry(s, i, d, dist + 1, cap);
            lemma_concat_geometric(s, kind, i, here, king_ray(s, i, d, dist + 1, cap));
            let r = here + king_ray(s, i, d, dist + 1, cap);
            assert forall|k: int| 0 <= k < r.len() implies (#[trigger] r[k]).captures.len() > 0 by {
                if k < here.len() {
                    assert(r[k] == here[k]);
                } else {
                    assert(r[k] == king_ray(s, i, d, dist + 1, cap)[k - here.len()]);
                }
            }
        }
    }
}

proof fn lemma_king_slide_geometry(s: GameState, i: Path, d: (int, int), dist: int)
    requires
        valid(i.pos),
        i.captures.len() == 0,
        i.moves.len() == 0,
        diagonal(d),
        dist >= 1,
        forall|v: int| 1 <= v < dist ==> vacant(s, #[trigger] plus(i.pos, times(d, v))),
    ensures
        all_geometric(s, PieceType::King, i, king_slide(s, i, d, dist)),
    decreases (10 - dist) as nat,
{
    let kind = PieceType::King;
    if dist < 10 {
        let np = plus(i.pos, times(d, dist));
        if vacant(s, np) {
            lemma_dir_of(i.pos, d, dist);
            let m = step_move(i.pos, np);
            assert(ipos(m.from) == i.pos && ipos(m.to) == np);
            assert(king_move_ok(s, m, None));
            lemma_extend_geometry(s, kind, i, np, None);
            lemma_king_slide_geometry(s, i, d, dist + 1);
            lemma_concat_geometric(s, kind, i, seq![extend(i, np, None)], king_slide(s, i, d, dist + 1));
        }
    }
}

proof fn lemma_king_paths_geometry(s: GameState, i: Path)
    requires
        valid(i.pos),
        i.captures.len() == i.moves.len(),
        path_geometry(s, PieceType::King, i),
    ensures
        all_geometric(s, PieceType::King, i, king_paths(s, i)),
    decreases capture_budget(s, i.captures), 1nat, 0nat,
{
    let kind = PieceType::King;
    let r1 = king_ray(s, i, (1, 1), 1, None);
    let r2 = king_ray(s, i, (1, -1), 1, None);
    let r3 = king_ray(s, i, (-1, 1), 1, None);
    let r4 = king_ray(s, i, (-1, -1), 1, None);
    lemma_king_ray_geometry(s, i, (1, 1), 1, None);
    lemma_king_ray_geometry(s, i, (1, -1), 1, None);
    lemma_king_ray_geometry(s, i, (-1, 1), 1, None);
    lemma_king_ray_geometry(s, i, (-1, -1), 1, None);
    lemma_concat_geometric(s, kind, i, r1, r2);
    lemma_concat_geometric(s, kind, i, r1 + r2, r3);
    lemma_concat_geometric(s, kind, i, r1 + r2 + r3, r4);
    if (r1 + r2 + r3 + r4).len() == 0 && i.captures.len() == 0 {
        let s1 = king_slide(s, i, (1, 1), 1);
        let s2 = king_slide(s, i, (1, -1), 1);
        let s3 = king_slide(s, i, (-1, 1), 1);
        let s4 = king_slide(s, i, (-1, -1), 1);
        lemma_king_slide_geometry(s, i, (1, 1), 1);
        lemma_king_slide_geometry(s, i, (1, -1), 1);
        lemma_king_slide_geometry(s, i, (-1, 1), 1);
        lemma_king_slide_geometry(s, i, (-1, -1), 1);
        lemma_concat_geometric(s, kind, i, s1, s2);
        lemma_concat_geometric(s, kind, i, s1 + s2, s3);
        lemma_concat_geometric(s, kind, i, s1 + s2 + s3, s4);
    }
}

/// The capture made by the `k`-th move of a sequence that captures the pieces on `cs`.
pub open spec fn capture_at(cs: Seq<Position>, k: int) -> Option<(int, int)> {
    if cs.len() == 0 {
        None
    } else {
        Some(ipos(cs[k]))
    }
}

/// The sequence `e` starts on a piece, and each of its moves is one that this kind of
/// piece may make.
pub open spec fn offered_geometry(s: GameState, e: (Seq<Move>, Seq<Position>)) -> bool {
    match square(s.board, e.0[0].from.0 as int, e.0[0].from.1 as int) {
        Some(pc) => forall|k: int|
            0 <= k < e.0.len() ==> move_geometry(s, pc.type_, #[trigger] e.0[k], capture_at(e.1, k)),
        None => false,
    }
}

proof fn lemma_piece_geometry(s: GameState, x: int, y: int)
    requires
        on_board(x, y),
    ensures
        forall|k: int|
            0 <= k < sequences_of(piece_paths(s, x, y)).len() ==> offered_geometry(
                s,
                #[trigger] sequences_of(piece_paths(s, x, y))[k],
            ),
{
    let o = (x, y);
    let st = start_path(x, y);
    let ps = piece_paths(s, x, y);
    assert(path_shape(s, o, st));
    match square(s.board, x, y) {
        Some(pc) => if pc.player == s.current_player {
            match pc.type_ {
                PieceType::Man => {
                    lemma_man_paths_shape(s, o, st);
                    lemma_man_paths_geometry(s, st);
                },
                PieceType::King => {
                    lemma_king_paths_shape(s, o, st);
                    lemma_king_paths_geometry(s, st);
                },
            }
            let b = sequences_of(ps);
            assert forall|k: int| 0 <= k < b.len() implies offered_geometry(s, #[trigger] b[k]) by {
                let r = ps[k];
                assert(b[k] == crate::movegen::as_sequence(r));
                assert(path_shape(s, o, r));
                assert(r.moves[0].from == crate::shape::upos(o));
                assert forall|q: int| 0 <= q < b[k].0.len() implies move_geometry(
                    s,
                    pc.type_,
                    #[trigger] b[k].0[q],
                    capture_at(b[k].1, q),
                ) by {
                    assert(b[k].0[q] == r.moves[q]);
                    assert(move_geometry(s, pc.type_, r.moves[q], capture_of(r.captures, q)));
                    if r.captures.len() > 0 {
                        assert(valid(r.captures[q]));
                        assert(ipos(b[k].1[q]) == r.captures[q]);
                    }
                }
            }
        },
        None => {},
    }
}

pub(crate) proof fn lemma_candidates_geometry(s: GameState, k: nat)
    requires
        k <= 100,
    ensures
        forall|j: int| 0 <= j < candidates(s, k).len() ==> offered_geometry(s, #[trigger] candidates(s, k)[j]),
    decreases k,
{
    if k > 0 {
        lemma_candidates_geometry(s, (k - 1) as nat);
        let j0: int = k - 1;
        lemma_piece_geometry(s, j0 % 10, j0 / 10);
        let a = candidates(s, (k - 1) as nat);
        let b = sequences_of(piece_paths(s, j0 % 10, j0 / 10));
        assert forall|j: int| 0 <= j < (a + b).len() implies offered_geometry(s, #[trigger] (a + b)[j]) by {
            if j < a.len() {
                assert((a + b)[j] == a[j]);
            } else {
                assert((a + b)[j] == b[j - a.len()]);
            }
        }
    }
}

/// Each piece moves as its kind allows in every sequence offered: a man steps to one of
/// the two squares diagonally in front of it when it captures nothing, and otherwise
/// jumps each time over the piece it captures, diagonally next to it, onto the square
/// right behind; a king goes along a diagonal, and every square it passes over is empty
/// but the one piece it captures on that move.
pub proof fn law_move_geometry(s: GameState)
    ensures
        forall|j: int|
            0 <= j < legal_sequences(s).len() ==> offered_geometry(s, #[trigger] legal_sequences(s)[j]),
{
    lemma_candidates_geometry(s, 100);
    let c = candidates(s, 100);
    let pred = |m: (Seq<Move>, Seq<Position>)| m.1.len() == most_captures(c);
    let l = c.filter(pred);
    assert(l == legal_sequences(s));
    assert forall|j: int| 0 <= j < l.len() implies offered_geometry(s, #[trigger] l[j]) by {
        assert(l.contains(l[j]));
        c.lemma_filter_contains_rev(pred, l[j]);
    }
}

} // verus!
