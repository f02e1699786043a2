//! Properties of the move search that hold for every position.
use vstd::prelude::*;

use crate::game::{on_board, square, GameState, Move, Piece, PieceType, Position};
use crate::movegen::{
    as_sequence, candidates, capture_budget, holds_opponent, king_paths, king_ray, king_slide,
    legal_sequences, man_jump, man_paths, most_captures, piece_paths, plus, sequences_of,
    start_path, times, vacant, valid, Path,
};
use crate::shape::{lemma_king_ray_shape, lemma_man_jump_shape, path_shape};

verus! {

broadcast use vstd::seq_lib::group_seq_properties;

/// `s` and `t` have the same board and the same player to move.
pub open spec fn same_position(s: GameState, t: GameState) -> bool {
    s.board == t.board && s.current_player == t.current_player
}

proof fn lemma_man_jump_same(s: GameState, t: GameState, i: Path, d: (int, int))
    requires
        same_position(s, t),
    ensures
        man_jump(s, i, d) == man_jump(t, i, d),
    decreases capture_budget(s, i.captures), 0nat,
{
    if crate::movegen::man_can_jump(s, i, d) {
        let c = crate::movegen::plus(i.pos, (d.0 / 2, d.1 / 2));
        let ni = crate::movegen::extend(i, crate::movegen::plus(i.pos, d), Some(c));
        crate::movegen::lemma_budget_shrinks(s, i.captures, c);
        lemma_man_paths_same(s, t, ni);
    }
}

proof fn lemma_man_paths_same(s: GameState, t: GameState, i: Path)
    requires
        same_position(s, t),
    ensures
        man_paths(s, i) == man_paths(t, i),
    decreases capture_budget(s, i.captures), 1nat,
{
    lemma_man_jump_same(s, t, i, (2, 2));
    lemma_man_jump_same(s, t, i, (2, -2));
    lemma_man_jump_same(s, t, i, (-2, 2));
    lemma_man_jump_same(s, t, i, (-2, -2));
}

proof fn lemma_king_ray_same(
    s: GameState,
    t: GameState,
    i: Path,
    d: (int, int),
    dist: int,
    cap: Option<(int, int)>,
)
    requires
        same_position(s, t),
    ensures
        king_ray(s, i, d, dist, cap) == king_ray(t, i, d, dist, cap),
    decreases capture_budget(s, i.captures), 0nat, (10 - dist) as nat,
{
    if dist >= 10 || dist < 1 {
    } else {
        let cur = crate::movegen::plus(i.pos, crate::movegen::times(d, dist));
        if !crate::movegen::valid(cur) {
        } else if crate::movegen::holds_opponent(s, cur) {
            if cap is None {
                lemma_king_ray_same(s, t, i, d, dist + 1, Some(cur));
            }
        } else if crate::game::square(s.board, cur.0, cur.1) is Some {
        } else {
            match cap {
                Some(c) => if crate::movegen::holds_opponent(s, c) && !i.captures.contains(c) {
                    let ni = crate::movegen::extend(i, cur, Some(c));
                    crate::movegen::lemma_budget_shrinks(s, i.captures, c);
                    lemma_king_paths_same(s, t, ni);
                },
                None => {},
            }
            lemma_king_ray_same(s, t, i, d, dist + 1, cap);
        }
    }
}

proof fn lemma_king_slide_same(s: GameState, t: GameState, i: Path, d: (int, int), dist: int)
    requires
        same_position(s, t),
    ensures
        king_slide(s, i, d, dist) == king_slide(t, i, d, dist),
    decreases (10 - dist) as nat,
{
    if dist < 10 && dist >= 1 {
        lemma_king_slide_same(s, t, i, d, dist + 1);
    }
}

proof fn lemma_king_paths_same(s: GameState, t: GameState, i: Path)
    requires
        same_position(s, t),
    ensures
        king_paths(s, i) == king_paths(t, i),
    decreases capture_budget(s, i.captures), 1nat, 0nat,
{
    lemma_king_ray_same(s, t, i, (1, 1), 1, None);
    lemma_king_ray_same(s, t, i, (1, -1), 1, None);
    lemma_king_ray_same(s, t, i, (-1, 1), 1, None);
    lemma_king_ray_same(s, t, i, (-1, -1), 1, None);
    lemma_king_slide_same(s, t, i, (1, 1), 1);
    lemma_king_slide_same(s, t, i, (1, -1), 1);
    lemma_king_slide_same(s, t, i, (-1, 1), 1);
    lemma_king_slide_same(s, t, i, (-1, -1), 1);
}

proof fn lemma_candidates_same(s: GameState, t: GameState, k: nat)
    requires
        same_position(s, t),
    ensures
        candidates(s, k) == candidates(t, k),
    decreases k,
{
    if k > 0 {
        lemma_candidates_same(s, t, (k - 1) as nat);
        let j: int = k - 1;
        let (x, y) = (j % 10, j / 10);
        lemma_man_paths_same(s, t, crate::movegen::start_path(x, y));
        lemma_king_paths_same(s, t, crate::movegen::start_path(x, y));
        assert(piece_paths(s, x, y) == piece_paths(t, x, y));
    }
}

/// The sequences offered depend on the board and on the player to move alone, not on the
/// status of the game nor on its turn counter.
pub proof fn law_offer_depends_on_position(s: GameState, t: GameState)
    requires
        same_position(s, t),
    ensures
        legal_sequences(s) == legal_sequences(t),
{
    lemma_candidates_same(s, t, 100);
}

/// `d` is one of the four diagonal directions.
pub open spec fn diagonal(d: (int, int)) -> bool {
    (d.0 == 1 || d.0 == -1) && (d.1 == 1 || d.1 == -1)
}

/// A man of the player to move stands on `a`, next to an opponent piece in the diagonal
/// direction `d`, with the square behind that piece empty.
pub open spec fn man_can_capture(s: GameState, a: (int, int), d: (int, int)) -> bool {
    &&& valid(a)
    &&& square(s.board, a.0, a.1) == Some(Piece { type_: PieceType::Man, player: s.current_player })
    &&& diagonal(d)
    &&& holds_opponent(s, plus(a, d))
    &&& vacant(s, plus(a, times(d, 2)))
}

/// A king of the player to move stands on `a` and sees along the diagonal `d`, past
/// `k - 1` empty squares, an opponent piece with an empty square behind it.
pub open spec fn king_can_capture(s: GameState, a: (int, int), d: (int, int), k: int) -> bool {
    &&& valid(a)
    &&& square(s.board, a.0, a.1) == Some(Piece { type_: PieceType::King, player: s.current_player })
    &&& diagonal(d)
    &&& k >= 1
    &&& forall|j: int| 1 <= j < k ==> vacant(s, #[trigger] plus(a, times(d, j)))
    &&& holds_opponent(s, plus(a, times(d, k)))
    &&& vacant(s, plus(a, times(d, k + 1)))
}

/// Some piece of the player to move can capture.
pub open spec fn capture_available(s: GameState) -> bool {
    ||| exists|a: (int, int), d: (int, int)| #[trigger] man_can_capture(s, a, d)
    ||| exists|a: (int, int), d: (int, int), k: int| #[trigger] king_can_capture(s, a, d, k)
}

proof fn lemma_man_capture_found(s: GameState, a: (int, int), d: (int, int)) -> (p: Path)
    requires
        man_can_capture(s, a, d),
    ensures
        piece_paths(s, a.0, a.1).contains(p),
        p.captures.len() > 0,
{
    let st = start_path(a.0, a.1);
    let d2 = (2 * d.0, 2 * d.1);
    assert(times(d, 2) == d2);
    assert((d2.0 / 2, d2.1 / 2) == d);
    assert(crate::movegen::man_can_jump(s, st, d2));
    let r = man_jump(s, st, d2);
    assert(r.len() > 0);
    assert(path_shape(s, a, st));
    lemma_man_jump_shape(s, a, st, d2);
    assert(r[0].moves.len() > 0);
    assert(r.contains(r[0]));
    let jumps = man_jump(s, st, (2, 2)) + man_jump(s, st, (2, -2)) + man_jump(s, st, (-2, 2))
        + man_jump(s, st, (-2, -2));
    assert(jumps.contains(r[0]));
    assert(man_paths(s, st) == jumps);
    r[0]
}

proof fn lemma_king_ray_reaches(s: GameState, a: (int, int), d: (int, int), k: int, dist: int)
    requires
        king_can_capture(s, a, d, k),
        1 <= dist <= k,
    ensures
        king_ray(s, start_path(a.0, a.1), d, dist, None).len() > 0,
    decreases k - dist,
{
    let st = start_path(a.0, a.1);
    let far = plus(a, times(d, k + 1));
    if d.0 == 1 {
        assert(far.0 == a.0 + k + 1);
    } else {
        assert(far.0 == a.0 - k - 1);
    }
    if dist < k {
        lemma_king_ray_reaches(s, a, d, k, dist + 1);
        assert(vacant(s, plus(a, times(d, dist))));
        assert(king_ray(s, st, d, dist, None) == king_ray(s, st, d, dist + 1, None));
    } else {
        let c = plus(a, times(d, k));
        assert(!st.captures.contains(c));
        assert(king_ray(s, st, d, k + 1, Some(c)).len() > 0);
    }
}

proof fn lemma_king_capture_found(s: GameState, a: (int, int), d: (int, int), k: int) -> (p: Path)
    requires
        king_can_capture(s, a, d, k),
    ensures
        piece_paths(s, a.0, a.1).contains(p),
        p.captures.len() > 0,
{
    let st = start_path(a.0, a.1);
    lemma_king_ray_reaches(s, a, d, k, 1);
    let r = king_ray(s, st, d, 1, None);
    assert(path_shape(s, a, st));
    lemma_king_ray_shape(s, a, st, d, 1, None);
    assert(r[0].moves.len() > 0);
    assert(r.contains(r[0]));
    let caps = king_ray(s, st, (1, 1), 1, None) + king_ray(s, st, (1, -1), 1, None) + king_ray(
        s,
        st,
        (-1, 1),
        1,
        None,
    ) + king_ray(s, st, (-1, -1), 1, None);
    assert(caps.contains(r[0]));
    assert(king_paths(s, st) == caps);
    r[0]
}

pub(crate) proof fn lemma_candidates_contain(
    s: GameState,
    k: nat,
    x: int,
    y: int,
    e: (Seq<Move>, Seq<Position>),
)
    requires
        on_board(x, y),
        y * 10 + x < k,
        sequences_of(piece_paths(s, x, y)).contains(e),
    ensures
        candidates(s, k).contains(e),
    decreases k,
{
    let j: int = k - 1;
    if j == y * 10 + x {
        assert(j % 10 == x && j / 10 == y);
    } else {
        lemma_candidates_contain(s, (k - 1) as nat, x, y, e);
    }
}

/// A path the search finds for the piece on `a` bounds from below what every offered
/// sequence captures, and there is then something to offer.
pub(crate) proof fn lemma_found_path_bounds_offers(s: GameState, a: (int, int), p: Path)
    requires
        valid(a),
        piece_paths(s, a.0, a.1).contains(p),
    ensures
        legal_sequences(s).len() > 0,
        forall|j: int|
            0 <= j < legal_sequences(s).len() ==> (#[trigger] legal_sequences(s)[j]).1.len()
                >= p.captures.len(),
{
    let ps = piece_paths(s, a.0, a.1);
    let i = choose|i: int| 0 <= i < ps.len() && ps[i] == p;
    let e = sequences_of(ps)[i];
    assert(e == as_sequence(p));
    assert(sequences_of(ps).contains(e));
    lemma_candidates_contain(s, 100, a.0, a.1, e);
    let c = candidates(s, 100);
    crate::laws::lemma_most_captures_bound(c);
    let jj = choose|jj: int| 0 <= jj < c.len() && c[jj] == e;
    assert(c[jj].1.len() <= most_captures(c));
    crate::laws::law_most_captures_wins(s);
}

/// Capturing is compulsory: when a piece of the player to move can capture (a man jumping
/// over an adjacent opponent piece onto the empty square behind it, or a king seeing, past
/// empty squares, an opponent piece with an empty square behind it), that player is offered
/// at least one sequence, and every sequence offered captures.
pub proof fn law_capture_is_compulsory(s: GameState, a: (int, int), d: (int, int), k: int)
    requires
        man_can_capture(s, a, d) || king_can_capture(s, a, d, k),
    ensures
        legal_sequences(s).len() > 0,
        forall|j: int| 0 <= j < legal_sequences(s).len() ==> (#[trigger] legal_sequences(s)[j]).1.len() > 0,
{
    let p = if man_can_capture(s, a, d) {
        lemma_man_capture_found(s, a, d)
    } else {
        lemma_king_capture_found(s, a, d, k)
    };
    lemma_found_path_bounds_offers(s, a, p);
}

} // verus!
