//! The positions in which no piece of the player to move can capture.
use vstd::prelude::*;

use crate::distinct::{on_ray, ray_dist};
use crate::game::{square, GameState, Move, Piece, PieceType, Position};
use crate::geometry::{
    capture_at, dir_of, jump_ok, king_move_ok, law_move_geometry, lemma_candidates_geometry,
    move_geometry, offered_geometry, span,
};
use crate::movegen::{
    as_sequence, candidates, extend, forward, holds_opponent, king_paths, king_ray, king_slide,
    legal_sequences, man_jump, man_paths, man_step, most_captures, move_on_board, piece_paths, plus,
    sequences_of, start_path, step_move, times, vacant, valid, Path,
};
use crate::search_laws::{
    capture_available, diagonal, king_can_capture, law_capture_is_compulsory,
    lemma_candidates_contain, man_can_capture,
};
use crate::shape::{
    ipos, law_offered_sequence_shape, lemma_candidates_shape, lemma_king_ray_shape, path_shape,
    sequence_shape,
};

verus! {

broadcast use vstd::seq_lib::group_seq_properties;

proof fn lemma_ray_points(p: (int, int), d: (int, int), u: int, c: (int, int))
    requires
        diagonal(d),
        on_ray(p, d, c),
    ensures
        c == plus(p, times(d, ray_dist(p, d, c))),
        ray_dist(p, d, plus(p, times(d, u))) == u,
{
    let w = ray_dist(p, d, c);
    if d.0 == 1 && d.1 == 1 {
        assert(plus(p, times(d, u)) == (p.0 + u, p.1 + u));
        assert(plus(p, times(d, w)) == (p.0 + w, p.1 + w));
    } else if d.0 == 1 {
        assert(plus(p, times(d, u)) == (p.0 + u, p.1 - u));
        assert(plus(p, times(d, w)) == (p.0 + w, p.1 - w));
    } else if d.1 == 1 {
        assert(plus(p, times(d, u)) == (p.0 - u, p.1 + u));
        assert(plus(p, times(d, w)) == (p.0 - w, p.1 + w));
    } else {
        assert(plus(p, times(d, u)) == (p.0 - u, p.1 - u));
        assert(plus(p, times(d, w)) == (p.0 - w, p.1 - w));
    }
}

/// A sequence that captures shows a capture open to the piece it starts from.
proof fn lemma_capture_shows_capture(s: GameState, e: (Seq<Move>, Seq<Position>))
    requires
        sequence_shape(s, e),
        offered_geometry(s, e),
        e.1.len() > 0,
    ensures
        capture_available(s),
{
    let m = e.0[0];
    let f = ipos(m.from);
    let t = ipos(m.to);
    let c = ipos(e.1[0]);
    assert(move_on_board(m));
    assert(holds_opponent(s, c));
    assert(square(s.board, t.0, t.1) is None || m.to == m.from);
    let pc = square(s.board, f.0, f.1).unwrap();
    assert(move_geometry(s, pc.type_, e.0[0], capture_at(e.1, 0)));
    match pc.type_ {
        PieceType::Man => {
            assert(jump_ok(m, c));
            let dd = (c.0 - f.0, c.1 - f.1);
            assert(plus(f, times(dd, 2)) == t);
            assert(square(s.board, f.0, f.1) == Some(Piece { type_: PieceType::Man, player: s.current_player }));
            assert(man_can_capture(s, f, dd));
        },
        PieceType::King => {
            assert(king_move_ok(s, m, Some(c)));
            let d = dir_of(f, t);
            let n = span(f, t);
            let u = ray_dist(f, d, c);
            lemma_ray_points(f, d, u, c);
            assert forall|v: int| 1 <= v < u implies vacant(s, #[trigger] plus(f, times(d, v))) by {
                lemma_ray_points(f, d, v, c);
                assert(vacant(s, plus(f, times(d, v))) || Some(plus(f, times(d, v))) == Some(c));
            }
            lemma_ray_points(f, d, u + 1, c);
            if u + 1 < n {
                assert(vacant(s, plus(f, times(d, u + 1))) || Some(plus(f, times(d, u + 1))) == Some(c));
            } else {
                assert(plus(f, times(d, u + 1)) == t);
                assert(m.to != m.from);
            }
            assert(square(s.board, f.0, f.1) == Some(Piece { type_: PieceType::King, player: s.current_player }));
            assert(king_can_capture(s, f, d, u));
        },
    }
}

/// Capturing is offered exactly when a capture is open: when some piece of the player to
/// move can capture, every sequence offered captures; when none can, every sequence
/// offered is a single move that captures nothing.
pub proof fn law_captures_exactly_when_open(s: GameState)
    ensures
        capture_available(s) ==> legal_sequences(s).len() > 0 && forall|j: int|
            0 <= j < legal_sequences(s).len() ==> (#[trigger] legal_sequences(s)[j]).1.len() > 0,
        !capture_available(s) ==> forall|j: int|
            0 <= j < legal_sequences(s).len() ==> (#[trigger] legal_sequences(s)[j]).1.len() == 0
                && legal_sequences(s)[j].0.len() == 1,
{
    if capture_available(s) {
        if exists|a: (int, int), d: (int, int)| #[trigger] man_can_capture(s, a, d) {
            let (a, d) = choose|a: (int, int), d: (int, int)| #[trigger] man_can_capture(s, a, d);
            law_capture_is_compulsory(s, a, d, 0);
        } else {
            let (a, d, k) = choose|a: (int, int), d: (int, int), k: int| #[trigger] king_can_capture(s, a, d, k);
            law_capture_is_compulsory(s, a, d, k);
        }
    } else {
        law_offered_sequence_shape(s);
        law_move_geometry(s);
        let l = legal_sequences(s);
        assert forall|j: int| 0 <= j < l.len() implies (#[trigger] l[j]).1.len() == 0 && l[j].0.len() == 1 by {
            if l[j].1.len() > 0 {
                lemma_capture_shows_capture(s, l[j]);
            }
        }
    }
}

/// `m` is a move that captures nothing and that the piece on its start square, a piece of the
/// player to move, may make onto an empty square.
pub open spec fn plain_move(s: GameState, m: Move) -> bool {
    let f = ipos(m.from);
    &&& move_on_board(m)
    &&& square(s.board, f.0, f.1) matches Some(pc) && pc.player == s.current_player && move_geometry(
        s,
        pc.type_,
        m,
        None,
    )
    &&& vacant(s, ipos(m.to))
}

proof fn lemma_no_candidate_captures(s: GameState)
    requires
        !capture_available(s),
    ensures
        forall|j: int| 0 <= j < candidates(s, 100).len() ==> (#[trigger] candidates(s, 100)[j]).1.len() == 0,
        most_captures(candidates(s, 100)) == 0,
{
    let c = candidates(s, 100);
    lemma_candidates_shape(s, 100);
    lemma_candidates_geometry(s, 100);
    assert forall|j: int| 0 <= j < c.len() implies (#[trigger] c[j]).1.len() == 0 by {
        if c[j].1.len() > 0 {
            lemma_capture_shows_capture(s, c[j]);
        }
    }
    crate::laws::lemma_most_captures_bound(c);
}

proof fn lemma_slide_reaches(s: GameState, i: Path, d: (int, int), dist: int, n: int)
    requires
        1 <= dist <= n < 10,
        forall|v: int| dist <= v <= n ==> vacant(s, #[trigger] plus(i.pos, times(d, v))),
    ensures
        king_slide(s, i, d, dist).contains(extend(i, plus(i.pos, times(d, n)), None)),
    decreases n - dist,
{
    let np = plus(i.pos, times(d, dist));
    assert(vacant(s, np));
    let one = seq![extend(i, np, None)];
    assert(one.contains(extend(i, np, None)));
    if dist < n {
        lemma_slide_reaches(s, i, d, dist + 1, n);
    }
}

proof fn lemma_step_sequence(f: (int, int), t: (int, int), m: Move)
    requires
        valid(f),
        valid(t),
        ipos(m.from) == f,
        ipos(m.to) == t,
    ensures
        as_sequence(extend(start_path(f.0, f.1), t, None)) == (seq![m], Seq::<Position>::empty()),
{
    let st = start_path(f.0, f.1);
    let r = extend(st, t, None);
    assert(step_move(f, t) == m);
    assert(r.moves =~= seq![m]);
    assert(r.captures.map_values(|c: (int, int)| (c.0 as usize, c.1 as usize)) =~= Seq::<Position>::empty());
}

proof fn lemma_plain_move_in_block(s: GameState, m: Move)
    requires
        !capture_available(s),
        plain_move(s, m),
    ensures
        sequences_of(piece_paths(s, ipos(m.from).0, ipos(m.from).1)).contains(
            (seq![m], Seq::<Position>::empty()),
        ),
{
    let f = ipos(m.from);
    let t = ipos(m.to);
    let st = start_path(f.0, f.1);
    let pc = square(s.board, f.0, f.1).unwrap();
    let ps = piece_paths(s, f.0, f.1);
    let e0 = (seq![m], Seq::<Position>::empty());
    let r0 = extend(st, t, None);
    lemma_step_sequence(f, t, m);
    match pc.type_ {
        PieceType::Man => {
            assert forall|d2: (int, int)|
                (d2 == (2int, 2int) || d2 == (2int, -2int) || d2 == (-2int, 2int) || d2 == (-2int, -2int))
                implies #[trigger] man_jump(s, st, d2).len() == 0 by {
                if crate::movegen::man_can_jump(s, st, d2) {
                    let dd = (d2.0 / 2, d2.1 / 2);
                    assert(plus(f, times(dd, 2)) == plus(f, d2));
                    assert(square(s.board, f.0, f.1) == Some(Piece { type_: PieceType::Man, player: s.current_player }));
                    assert(man_can_capture(s, f, dd));
                }
            }
            assert(man_jump(s, st, (2, 2)).len() == 0);
            assert(man_jump(s, st, (2, -2)).len() == 0);
            assert(man_jump(s, st, (-2, 2)).len() == 0);
            assert(man_jump(s, st, (-2, -2)).len() == 0);
            let dv = forward(s.current_player);
            let a = man_step(s, st, (dv, 1));
            let b = man_step(s, st, (dv, -1));
            assert(ps == a + b);
            if t.1 == f.1 + 1 {
                assert(t == plus(f, (dv, 1)));
                assert(a == seq![r0]);
                assert(a.contains(r0));
            } else {
                assert(t == plus(f, (dv, -1)));
                assert(b == seq![r0]);
                assert(b.contains(r0));
            }
            assert(ps.contains(r0));
        },
        PieceType::King => {
            let d = dir_of(f, t);
            let n = span(f, t);
            assert(king_move_ok(s, m, None));
            let r1 = king_ray(s, st, (1, 1), 1, None);
            let r2 = king_ray(s, st, (1, -1), 1, None);
            let r3 = king_ray(s, st, (-1, 1), 1, None);
            let r4 = king_ray(s, st, (-1, -1), 1, None);
            let caps = r1 + r2 + r3 + r4;
            if caps.len() > 0 {
                assert(path_shape(s, f, st));
                lemma_king_ray_shape(s, f, st, (1, 1), 1, None);
                lemma_king_ray_shape(s, f, st, (1, -1), 1, None);
                lemma_king_ray_shape(s, f, st, (-1, 1), 1, None);
                lemma_king_ray_shape(s, f, st, (-1, -1), 1, None);
                crate::shape::lemma_append_grown(s, f, st, r1, r2);
                crate::shape::lemma_append_grown(s, f, st, r1 + r2, r3);
                crate::shape::lemma_append_grown(s, f, st, r1 + r2 + r3, r4);
                let r = caps[0];
                assert(r.captures.len() > 0) by {
                    if 0 < r1.len() {
                        assert(caps[0] == r1[0]);
                    } else if 0 < r2.len() {
                        assert(caps[0] == r2[0]);
                    } else if 0 < r3.len() {
                        assert(caps[0] == r3[0]);
                    } else {
                        assert(caps[0] == r4[0]);
                    }
                }
                assert(ps == caps);
                let e = sequences_of(ps)[0];
                assert(e == as_sequence(r));
                assert(sequences_of(ps).contains(e));
                lemma_candidates_contain(s, 100, f.0, f.1, e);
                lemma_no_candidate_captures(s);
                let c = candidates(s, 100);
                let q: int = choose|q: int| 0 <= q < c.len() && c[q] == e;
                assert(c[q].1.len() == 0);
                assert(false);
            }
            assert forall|v: int| 1 <= v <= n implies vacant(s, #[trigger] plus(f, times(d, v))) by {
                if v < n {
                    assert(vacant(s, plus(f, times(d, v))) || Some(plus(f, times(d, v))) == None::<(int, int)>);
                }
            }
            lemma_slide_reaches(s, st, d, 1, n);
            let s1 = king_slide(s, st, (1, 1), 1);
            let s2 = king_slide(s, st, (1, -1), 1);
            let s3 = king_slide(s, st, (-1, 1), 1);
            let s4 = king_slide(s, st, (-1, -1), 1);
            assert(ps == s1 + s2 + s3 + s4);
            assert(ps.contains(r0));
        },
    }
    assert(ps.contains(r0));
    let i: int = choose|i: int| 0 <= i < ps.len() && ps[i] == r0;
    assert(sequences_of(ps)[i] == e0);
}

/// When no piece of the player to move can capture, the sequences offered are the plain
/// moves and nothing else: a single move, capturing nothing, is offered exactly when the
/// piece on its start square belongs to the player to move and may make it onto an empty
/// square (a man one square diagonally forward, a king along a diagonal over empty squares).
pub proof fn law_plain_moves_offered(s: GameState, m: Move)
    requires
        !capture_available(s),
    ensures
        legal_sequences(s).contains((seq![m], Seq::<Position>::empty())) <==> plain_move(s, m),
{
    let e0 = (seq![m], Seq::<Position>::empty());
    let l = legal_sequences(s);
    if l.contains(e0) {
        law_offered_sequence_shape(s);
        law_move_geometry(s);
        let j: int = choose|j: int| 0 <= j < l.len() && l[j] == e0;
        assert(sequence_shape(s, l[j]));
        assert(offered_geometry(s, l[j]));
        assert(e0.0[0] == m);
        assert(move_on_board(m));
        let f = ipos(m.from);
        let pc = square(s.board, f.0, f.1).unwrap();
        assert(move_geometry(s, pc.type_, e0.0[0], capture_at(e0.1, 0)));
        assert(m.to != m.from);
        assert(e0.0.last() == m);
    }
    if plain_move(s, m) {
        let f = ipos(m.from);
        lemma_plain_move_in_block(s, m);
        lemma_candidates_contain(s, 100, f.0, f.1, e0);
        lemma_no_candidate_captures(s);
        let c = candidates(s, 100);
        let pred = |x: (Seq<Move>, Seq<Position>)| x.1.len() == most_captures(c);
        let q: int = choose|q: int| 0 <= q < c.len() && c[q] == e0;
        c.lemma_filter_contains(pred, q);
        assert(c.filter(pred) == l);
    }
}

} // verus!
