//! Capture chains as the rules describe them, and the search finding the longest ones.
use vstd::prelude::*;

use crate::game::{square, GameState, Piece, PieceType};
use crate::movegen::{
    extend, holds_opponent, king_paths, king_ray, legal_sequences, man_jump, man_paths, plus,
    start_path, start_of, times, vacant, valid, Path,
};
use crate::search_laws::{diagonal, lemma_found_path_bounds_offers};
use crate::shape::{
    all_grown, counted, lemma_diagonal_colour, lemma_extend_shape, lemma_king_paths_shape,
    lemma_man_jump_shape, path_shape,
};

verus! {

broadcast use vstd::seq_lib::group_seq_properties;

/// A man standing on `p`, having started its turn on `o` and taken the pieces on `taken`,
/// may jump in the diagonal direction `d`: over an opponent piece it has not taken yet,
/// onto the square behind it, which is empty or the square the turn started from.
pub open spec fn man_capture_rule(
    s: GameState,
    o: (int, int),
    p: (int, int),
    d: (int, int),
    taken: Seq<(int, int)>,
) -> bool {
    let land = plus(p, times(d, 2));
    &&& diagonal(d)
    &&& holds_opponent(s, plus(p, d))
    &&& !taken.contains(plus(p, d))
    &&& valid(land)
    &&& (square(s.board, land.0, land.1) is None || land == o)
}

/// `ch` lists the directions of a chain of jumps that a man may make one after the other,
/// from `p`, in a turn started on `o`, having already taken the pieces on `taken`.
pub open spec fn man_chain(
    s: GameState,
    o: (int, int),
    p: (int, int),
    taken: Seq<(int, int)>,
    ch: Seq<(int, int)>,
) -> bool
    decreases ch.len(),
{
    ch.len() == 0 || {
        let d = ch[0];
        man_capture_rule(s, o, p, d, taken) && man_chain(
            s,
            o,
            plus(p, times(d, 2)),
            taken.push(plus(p, d)),
            ch.drop_first(),
        )
    }
}

/// A king standing on `p`, having taken the pieces on `taken`, may capture along the
/// diagonal direction `step.0` the opponent piece `step.1` squares away, which it has not
/// taken yet, landing `step.2` squares away, every other square up to the landing one
/// being empty.
pub open spec fn king_capture_rule(
    s: GameState,
    p: (int, int),
    step: ((int, int), int, int),
    taken: Seq<(int, int)>,
) -> bool {
    let (d, u, t) = step;
    &&& diagonal(d)
    &&& 1 <= u < t
    &&& forall|v: int| 1 <= v <= t && v != u ==> vacant(s, #[trigger] plus(p, times(d, v)))
    &&& holds_opponent(s, plus(p, times(d, u)))
    &&& !taken.contains(plus(p, times(d, u)))
}

/// `ch` lists the captures (direction, distance of the captured piece, distance of the
/// landing square) that a king may make one after the other from `p`, having already
/// taken the pieces on `taken`.
pub open spec fn king_chain(
    s: GameState,
    p: (int, int),
    taken: Seq<(int, int)>,
    ch: Seq<((int, int), int, int)>,
) -> bool
    decreases ch.len(),
{
    ch.len() == 0 || {
        let (d, u, t) = ch[0];
        king_capture_rule(s, p, ch[0], taken) && king_chain(
            s,
            plus(p, times(d, t)),
            taken.push(plus(p, times(d, u))),
            ch.drop_first(),
        )
    }
}

proof fn lemma_grown_captures(s: GameState, o: (int, int), i: Path, r: Seq<Path>, k: int)
    requires
        all_grown(s, o, i, r),
        i.moves.len() >= 1 || (i.captures.len() == 0 && forall|q: int|
            0 <= q < r.len() ==> (#[trigger] r[q]).captures.len() == r[q].moves.len()),
        i.captures.len() == i.moves.len(),
        0 <= k < r.len(),
    ensures
        r[k].captures.len() > i.captures.len(),
{
    assert(path_shape(s, o, r[k]) && r[k].moves.len() > i.moves.len() && counted(r[k]));
}

proof fn lemma_man_chain_found(s: GameState, o: (int, int), i: Path, ch: Seq<(int, int)>) -> (r: Path)
    requires
        path_shape(s, o, i),
        i.captures.len() == i.moves.len(),
        ch.len() > 0,
        man_chain(s, o, i.pos, i.captures, ch),
    ensures
        man_paths(s, i).contains(r),
        r.captures.len() >= i.captures.len() + ch.len(),
    decreases ch.len(),
{
    let dd = ch[0];
    let d = (2 * dd.0, 2 * dd.1);
    let np = plus(i.pos, times(dd, 2));
    let c = plus(i.pos, dd);
    assert(np == plus(i.pos, d));
    assert((d.0 / 2, d.1 / 2) == dd);
    if i.moves.len() > 0 {
        assert(start_of(i) == o);
    } else {
        assert(np != o);
    }
    assert(crate::movegen::man_can_jump(s, i, d));
    let ni = extend(i, np, Some(c));
    lemma_diagonal_colour(i.pos, dd, 2);
    lemma_extend_shape(s, o, i, np, Some(c));
    lemma_man_jump_shape(s, o, i, d);
    let j = man_jump(s, i, d);
    let rest = ch.drop_first();
    let r = if rest.len() > 0 {
        let r0 = lemma_man_chain_found(s, o, ni, rest);
        assert(man_paths(s, ni).len() > 0);
        assert(j == man_paths(s, ni));
        r0
    } else {
        assert(j.len() > 0);
        assert(j[0].captures.len() == j[0].moves.len());
        j[0]
    };
    assert(j.contains(r));
    let jumps = man_jump(s, i, (2, 2)) + man_jump(s, i, (2, -2)) + man_jump(s, i, (-2, 2))
        + man_jump(s, i, (-2, -2));
    assert(jumps.contains(r));
    assert(man_paths(s, i) == jumps);
    r
}

proof fn lemma_line_point(p: (int, int), d: (int, int), v: int, t: int)
    requires
        diagonal(d),
        1 <= v <= t,
        valid(p),
        valid(plus(p, times(d, t))),
    ensures
        valid(plus(p, times(d, v))),
        t < 10,
{
    if d.0 == 1 && d.1 == 1 {
        assert(plus(p, times(d, t)) == (p.0 + t, p.1 + t));
        assert(plus(p, times(d, v)) == (p.0 + v, p.1 + v));
    } else if d.0 == 1 {
        assert(plus(p, times(d, t)) == (p.0 + t, p.1 - t));
        assert(plus(p, times(d, v)) == (p.0 + v, p.1 - v));
    } else if d.1 == 1 {
        assert(plus(p, times(d, t)) == (p.0 - t, p.1 + t));
        assert(plus(p, times(d, v)) == (p.0 - v, p.1 + v));
    } else {
        assert(plus(p, times(d, t)) == (p.0 - t, p.1 - t));
        assert(plus(p, times(d, v)) == (p.0 - v, p.1 - v));
    }
}

proof fn lemma_king_ray_chain(
    s: GameState,
    o: (int, int),
    i: Path,
    ch: Seq<((int, int), int, int)>,
    dist: int,
    cap: Option<(int, int)>,
) -> (r: Path)
    requires
        path_shape(s, o, i),
        i.captures.len() == i.moves.len(),
        ch.len() > 0,
        king_chain(s, i.pos, i.captures, ch),
        1 <= dist <= ch[0].2,
        dist <= ch[0].1 ==> cap is None,
        dist > ch[0].1 ==> cap == Some(plus(i.pos, times(ch[0].0, ch[0].1))),
    ensures
        king_ray(s, i, ch[0].0, dist, cap).contains(r),
        r.captures.len() >= i.captures.len() + ch.len(),
    decreases ch.len(), 0nat, (ch[0].2 - dist) as nat,
{
    let (d, u, t) = ch[0];
    let p = i.pos;
    let cur = plus(p, times(d, dist));
    let c = plus(p, times(d, u));
    assert(vacant(s, plus(p, times(d, t))));
    lemma_line_point(p, d, dist, t);
    if dist < u {
        assert(vacant(s, cur));
        let r = lemma_king_ray_chain(s, o, i, ch, dist + 1, cap);
        assert(king_ray(s, i, d, dist, cap) == seq![] + king_ray(s, i, d, dist + 1, cap));
        r
    } else if dist == u {
        let r = lemma_king_ray_chain(s, o, i, ch, dist + 1, Some(cur));
        r
    } else if dist < t {
        assert(vacant(s, cur));
        let r = lemma_king_ray_chain(s, o, i, ch, dist + 1, cap);
        let whole = king_ray(s, i, d, dist, cap);
        assert(king_ray(s, i, d, dist + 1, cap).contains(r));
        assert(whole.contains(r));
        r
    } else {
        assert(vacant(s, cur));
        let ni = extend(i, cur, Some(c));
        lemma_diagonal_colour(p, d, t);
        lemma_extend_shape(s, o, i, cur, Some(c));
        let sub = king_paths(s, ni);
        let here = if sub.len() == 0 {
            seq![ni]
        } else {
            sub
        };
        let rest = ch.drop_first();
        let r = if rest.len() > 0 {
            let r0 = lemma_king_paths_chain(s, o, ni, rest);
            assert(here == sub);
            r0
        } else if sub.len() == 0 {
            ni
        } else {
            lemma_king_paths_shape(s, o, ni);
            lemma_grown_captures(s, o, ni, sub, 0);
            sub[0]
        };
        assert(here.contains(r));
        assert(king_ray(s, i, d, dist, cap) == here + king_ray(s, i, d, dist + 1, cap));
        r
    }
}

proof fn lemma_king_paths_chain(
    s: GameState,
    o: (int, int),
    i: Path,
    ch: Seq<((int, int), int, int)>,
) -> (r: Path)
    requires
        path_shape(s, o, i),
        i.captures.len() == i.moves.len(),
        ch.len() > 0,
        king_chain(s, i.pos, i.captures, ch),
    ensures
        king_paths(s, i).contains(r),
        r.captures.len() >= i.captures.len() + ch.len(),
    decreases ch.len(), 1nat, 0nat,
{
    let r = lemma_king_ray_chain(s, o, i, ch, 1, None);
    let caps = king_ray(s, i, (1, 1), 1, None) + king_ray(s, i, (1, -1), 1, None) + king_ray(
        s,
        i,
        (-1, 1),
        1,
        None,
    ) + king_ray(s, i, (-1, -1), 1, None);
    assert(caps.contains(r));
    assert(king_paths(s, i) == caps);
    r
}

/// The search misses no capture chain of a man: however a man of the player to move may
/// jump, one piece after another, by the rules, every sequence offered to that player
/// captures at least as many pieces, and something is offered.
pub proof fn law_man_chains_bounded(s: GameState, a: (int, int), ch: Seq<(int, int)>)
    requires
        valid(a),
        square(s.board, a.0, a.1) == Some(Piece { type_: PieceType::Man, player: s.current_player }),
        man_chain(s, a, a, seq![], ch),
    ensures
        ch.len() > 0 ==> legal_sequences(s).len() > 0,
        forall|j: int| 0 <= j < legal_sequences(s).len() ==> (#[trigger] legal_sequences(s)[j]).1.len() >= ch.len(),
{
    if ch.len() > 0 {
        let st = start_path(a.0, a.1);
        assert(path_shape(s, a, st));
        let r = lemma_man_chain_found(s, a, st, ch);
        lemma_found_path_bounds_offers(s, a, r);
    }
}

/// The search misses no capture chain of a king: however a king of the player to move may
/// capture, one piece after another, by the rules, every sequence offered to that player
/// captures at least as many pieces, and something is offered.
pub proof fn law_king_chains_bounded(s: GameState, a: (int, int), ch: Seq<((int, int), int, int)>)
    requires
        valid(a),
        square(s.board, a.0, a.1) == Some(Piece { type_: PieceType::King, player: s.current_player }),
        king_chain(s, a, seq![], ch),
    ensures
        ch.len() > 0 ==> legal_sequences(s).len() > 0,
        forall|j: int| 0 <= j < legal_sequences(s).len() ==> (#[trigger] legal_sequences(s)[j]).1.len() >= ch.len(),
{
    if ch.len() > 0 {
        let st = start_path(a.0, a.1);
        assert(path_shape(s, a, st));
        let r = lemma_king_paths_chain(s, a, st, ch);
        lemma_found_path_bounds_offers(s, a, r);
    }
}

} // verus!
