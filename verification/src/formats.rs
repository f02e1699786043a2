//! Laws of the plain-text formats: the board as CSV, the list of offered sequences, and
//! the move text a player program writes.
use vstd::prelude::*;

use crate::game::{square, Board, Move, Piece, PieceType, Player, Position};
use crate::play::{move_list, moves_of_pieces, readable_moves, sequences_text, split_on};
use crate::text::{decimal, move_text, moves_text, row_text, rows_text, square_text};

verus! {

broadcast use vstd::seq_lib::group_seq_properties;

proof fn lemma_split_tail(x: Seq<char>, t: Seq<char>, sep: char)
    requires
        !t.contains(sep),
    ensures
        split_on(x + t, sep) == split_on(x, sep).update(
            split_on(x, sep).len() - 1,
            split_on(x, sep).last() + t,
        ),
        split_on(x + t, sep).len() == split_on(x, sep).len(),
    decreases t.len(),
{
    crate::play::lemma_split_nonempty(x, sep);
    if t.len() == 0 {
        assert(x + t =~= x);
        assert(split_on(x, sep).update(split_on(x, sep).len() - 1, split_on(x, sep).last() + t)
            =~= split_on(x, sep));
    } else {
        let u = t.drop_last();
        assert(!u.contains(sep)) by {
            if u.contains(sep) {
                let k: int = choose|k: int| 0 <= k < u.len() && u[k] == sep;
                assert(t[k] == sep);
            }
        }
        lemma_split_tail(x, u, sep);
        assert((x + t).drop_last() =~= x + u);
        assert(t.last() != sep) by {
            assert(t[t.len() - 1] == t.last());
        }
        assert((split_on(x, sep).last() + u).push(t.last()) =~= split_on(x, sep).last() + t);
        assert(split_on(x + t, sep) =~= split_on(x, sep).update(
            split_on(x, sep).len() - 1,
            split_on(x, sep).last() + t,
        ));
    }
}

/// Text without the separator is one piece.
proof fn lemma_split_plain(t: Seq<char>, sep: char)
    requires
        !t.contains(sep),
    ensures
        split_on(t, sep) == seq![t],
{
    lemma_split_tail(Seq::<char>::empty(), t, sep);
    assert(Seq::<char>::empty() + t =~= t);
    assert(split_on(Seq::<char>::empty(), sep) == seq![Seq::<char>::empty()]);
    assert(Seq::<char>::empty() + t =~= t);
}

/// Splitting two texts joined by a separator gives the pieces of the first, then those of
/// the second.
pub proof fn lemma_split_join(a: Seq<char>, b: Seq<char>, sep: char)
    ensures
        split_on(a + seq![sep] + b, sep) == split_on(a, sep) + split_on(b, sep),
    decreases b.len(),
{
    let x = a + seq![sep];
    assert(x.drop_last() =~= a);
    assert(x.last() == sep);
    if b.len() == 0 {
        assert(x + b =~= x);
        assert(split_on(a, sep) + split_on(b, sep) =~= split_on(a, sep).push(seq![]));
    } else {
        let b1 = b.drop_last();
        let c = b.last();
        let y = x + b;
        assert(y.drop_last() =~= x + b1);
        assert(y.last() == c);
        lemma_split_join(a, b1, sep);
        crate::play::lemma_split_nonempty(b1, sep);
        let p = split_on(a, sep);
        let q = split_on(b1, sep);
        if c == sep {
            assert((p + q).push(seq![]) =~= p + q.push(seq![]));
        } else {
            assert((p + q).last() == q.last());
            assert((p + q).update((p + q).len() - 1, q.last().push(c)) =~= p + q.update(
                q.len() - 1,
                q.last().push(c),
            ));
        }
    }
}

proof fn lemma_moves_of_pieces_join(p: Seq<Seq<char>>, q: Seq<Seq<char>>)
    ensures
        moves_of_pieces(p + q) == moves_of_pieces(p) + moves_of_pieces(q),
    decreases q.len(),
{
    if q.len() == 0 {
        assert(p + q =~= p);
        assert(moves_of_pieces(p) + moves_of_pieces(q) =~= moves_of_pieces(p));
    } else {
        assert((p + q).drop_last() =~= p + q.drop_last());
        assert((p + q).last() == q.last());
        lemma_moves_of_pieces_join(p, q.drop_last());
        let l = q.last();
        if l.len() > 0 {
            assert((moves_of_pieces(p) + moves_of_pieces(q.drop_last())).push(crate::play::parse_move(l))
                =~= moves_of_pieces(p) + moves_of_pieces(q.drop_last()).push(crate::play::parse_move(l)));
        }
    }
}

/// Move texts join: the text `a;b` reads as the moves of `a` followed by those of `b`,
/// and is readable exactly when both parts are.
pub proof fn law_move_text_join(a: Seq<char>, b: Seq<char>)
    ensures
        move_list(a + seq![';'] + b) == move_list(a) + move_list(b),
        readable_moves(a + seq![';'] + b) <==> readable_moves(a) && readable_moves(b),
{
    lemma_split_join(a, b, ';');
    let p = split_on(a, ';');
    let q = split_on(b, ';');
    lemma_moves_of_pieces_join(p, q);
    let r = p + q;
    if readable_moves(a) && readable_moves(b) {
        assert forall|k: int| 0 <= k < r.len() implies crate::play::segment_ok(#[trigger] r[k]) by {
            if k < p.len() {
                assert(r[k] == p[k]);
            } else {
                assert(r[k] == q[k - p.len()]);
            }
        }
    }
    if readable_moves(a + seq![';'] + b) {
        assert forall|k: int| 0 <= k < p.len() implies crate::play::segment_ok(#[trigger] p[k]) by {
            assert(r[k] == p[k]);
        }
        assert forall|k: int| 0 <= k < q.len() implies crate::play::segment_ok(#[trigger] q[k]) by {
            assert(r[k + p.len()] == q[k]);
        }
    }
}

/// One piece of move text, without `;`: it is readable when it is empty, or when it has at
/// least five characters of which the first, second, fourth and fifth are not below `0`;
/// an empty piece names no move, and any other readable piece names the move from the
/// square of its first two characters to that of its fourth and fifth, whatever follows.
pub proof fn law_move_text_piece(g: Seq<char>)
    requires
        !g.contains(';'),
    ensures
        readable_moves(g) <==> (g.len() == 0 || (g.len() >= 5 && g[0] as u32 >= 48 && g[1] as u32 >= 48
            && g[3] as u32 >= 48 && g[4] as u32 >= 48)),
        g.len() == 0 ==> move_list(g) == Seq::<Move>::empty(),
        g.len() > 0 && readable_moves(g) ==> move_list(g) == seq![
            Move {
                from: (((g[0] as u32) as int - 48) as usize, ((g[1] as u32) as int - 48) as usize),
                to: (((g[3] as u32) as int - 48) as usize, ((g[4] as u32) as int - 48) as usize),
            },
        ],
{
    lemma_split_plain(g, ';');
    let p = seq![g];
    assert(p.drop_last() =~= Seq::<Seq<char>>::empty());
    assert(p.last() == g);
    assert(p[0] == g);
    assert(moves_of_pieces(p.drop_last()) == Seq::<Move>::empty());
    if g.len() == 0 {
        assert(moves_of_pieces(p) =~= Seq::<Move>::empty());
    } else {
        assert(moves_of_pieces(p) =~= seq![crate::play::parse_move(g)]);
    }
}

proof fn lemma_decimal_digits(n: nat)
    ensures
        forall|k: int| 0 <= k < decimal(n).len() ==> 48 <= (#[trigger] decimal(n)[k]) as u32 <= 57,
    decreases n,
{
    if n >= 10 {
        lemma_decimal_digits(n / 10);
        let d = decimal(n / 10);
        assert forall|k: int| 0 <= k < decimal(n).len() implies 48 <= (#[trigger] decimal(n)[k]) as u32
            <= 57 by {
            if k < d.len() {
                assert(decimal(n)[k] == d[k]);
            }
        }
    }
}

proof fn lemma_moves_text_no_semicolon(ms: Seq<Move>)
    ensures
        !moves_text(ms).contains(';'),
    decreases ms.len(),
{
    if ms.len() > 0 {
        let m = ms.last();
        lemma_decimal_digits(m.from.0 as nat);
        lemma_decimal_digits(m.from.1 as nat);
        lemma_decimal_digits(m.to.0 as nat);
        lemma_decimal_digits(m.to.1 as nat);
        let a = decimal(m.from.0 as nat);
        let b = decimal(m.from.1 as nat);
        let c = decimal(m.to.0 as nat);
        let d = decimal(m.to.1 as nat);
        let t = move_text(m);
        assert(t =~= a + b + seq![','] + c + d);
        assert forall|k: int| 0 <= k < t.len() implies t[k] != ';' by {
            if k < a.len() {
                assert(t[k] == a[k]);
            } else if k < a.len() + b.len() {
                assert(t[k] == b[k - a.len()]);
            } else if k == a.len() + b.len() {
            } else if k < a.len() + b.len() + 1 + c.len() {
                assert(t[k] == c[k - a.len() - b.len() - 1]);
            } else {
                assert(t[k] == d[k - a.len() - b.len() - 1 - c.len()]);
            }
        }
        if ms.len() > 1 {
            lemma_moves_text_no_semicolon(ms.drop_last());
        }
        assert(ms[0] == m || ms.len() > 1);
        assert(!moves_text(ms).contains(';'));
    }
}

/// The listing of offered sequences, split on `;`, has one piece per sequence, the text of
/// its moves, in order, and nothing after the last `;`.
pub proof fn law_listing_pieces(ss: Seq<(Seq<Move>, Seq<Position>)>)
    ensures
        split_on(sequences_text(ss), ';').len() == ss.len() + 1,
        forall|k: int| 0 <= k < ss.len() ==> split_on(sequences_text(ss), ';')[k] == moves_text(#[trigger] ss[k].0),
        split_on(sequences_text(ss), ';').last() == Seq::<char>::empty(),
    decreases ss.len(),
{
    if ss.len() > 0 {
        let d = ss.drop_last();
        law_listing_pieces(d);
        let t = moves_text(ss.last().0);
        lemma_moves_text_no_semicolon(ss.last().0);
        let x = sequences_text(d);
        lemma_split_tail(x, t, ';');
        let y = x + t;
        let z = y + seq![';'];
        assert(z == sequences_text(ss));
        assert(z.drop_last() =~= y);
        assert(z.last() == ';');
        let pd = split_on(x, ';');
        assert(pd.last() + t =~= t);
        assert forall|k: int| 0 <= k < ss.len() implies split_on(z, ';')[k] == moves_text(#[trigger] ss[k].0) by {
            if k < d.len() {
                assert(ss[k] == d[k]);
            }
        }
    }
}

/// The text of a square as the CSV writes it: the letter of the kind of its piece (`M` for
/// a man, `K` for a king) and that of its owner (`W` or `B`), or nothing when it is empty.
proof fn lemma_square_text(o: Option<Piece>)
    ensures
        square_text(o) == match o {
            Some(pc) => seq![
                match pc.type_ {
                    PieceType::Man => 'M',
                    PieceType::King => 'K',
                },
                match pc.player {
                    Player::White => 'W',
                    Player::Black => 'B',
                },
            ],
            None => Seq::<char>::empty(),
        },
        !square_text(o).contains(','),
        !square_text(o).contains('\n'),
{
    let t = square_text(o);
    assert forall|k: int| 0 <= k < t.len() implies t[k] != ',' && t[k] != '\n' by {}
}

proof fn lemma_row_fields(b: Board, x: int, n: nat)
    requires
        1 <= n,
    ensures
        split_on(row_text(b, x, n), ',').len() == n,
        forall|y: int| 0 <= y < n ==> split_on(row_text(b, x, n), ',')[y] == square_text(#[trigger] square(b, x, y)),
        !row_text(b, x, n).contains('\n'),
    decreases n,
{
    lemma_square_text(square(b, x, n - 1));
    let sq = square_text(square(b, x, n - 1));
    if n == 1 {
        lemma_split_plain(sq, ',');
    } else {
        lemma_row_fields(b, x, (n - 1) as nat);
        let r = row_text(b, x, (n - 1) as nat);
        lemma_split_join(r, sq, ',');
        lemma_split_plain(sq, ',');
        let t = row_text(b, x, n);
        assert(t == r + seq![','] + sq);
        assert(!t.contains('\n')) by {
            if t.contains('\n') {
                let k: int = choose|k: int| 0 <= k < t.len() && t[k] == '\n';
                if k < r.len() {
                    assert(r[k] == t[k]);
                } else if k > r.len() {
                    assert(sq[k - r.len() - 1] == t[k]);
                }
            }
        }
    }
}

proof fn lemma_rows_lines(b: Board, n: nat)
    ensures
        split_on(rows_text(b, n), '\n').len() == n + 1,
        forall|x: int| 0 <= x < n ==> split_on(rows_text(b, n), '\n')[x] == row_text(b, x, 10),
        split_on(rows_text(b, n), '\n').last() == Seq::<char>::empty(),
    decreases n,
{
    if n > 0 {
        lemma_rows_lines(b, (n - 1) as nat);
        let x0 = rows_text(b, (n - 1) as nat);
        let t = row_text(b, n - 1, 10);
        lemma_row_fields(b, n - 1, 10);
        lemma_split_tail(x0, t, '\n');
        let y = x0 + t;
        let z = y + seq!['\n'];
        assert(z == rows_text(b, n));
        assert(z.drop_last() =~= y);
        assert(z.last() == '\n');
        assert(split_on(x0, '\n').last() + t =~= t);
    }
}

/// The board written as CSV: ten lines, each ended by a line break, one per row `x` in
/// order; each line holds ten fields separated by commas, one per square `y` in order; the
/// field of a square is the letter of the kind of its piece (`M` for a man, `K` for a king)
/// followed by the letter of its owner (`W` or `B`), or nothing for an empty square.
pub proof fn law_csv_fields(b: Board)
    ensures
        split_on(rows_text(b, 10), '\n').len() == 11,
        split_on(rows_text(b, 10), '\n').last() == Seq::<char>::empty(),
        forall|x: int| 0 <= x < 10 ==> split_on(#[trigger] split_on(rows_text(b, 10), '\n')[x], ',').len() == 10,
        forall|x: int, y: int|
            0 <= x < 10 && 0 <= y < 10 ==> split_on(split_on(rows_text(b, 10), '\n')[x], ',')[y]
                == match #[trigger] square(b, x, y) {
                Some(pc) => seq![
                    match pc.type_ {
                        PieceType::Man => 'M',
                        PieceType::King => 'K',
                    },
                    match pc.player {
                        Player::White => 'W',
                        Player::Black => 'B',
                    },
                ],
                None => Seq::<char>::empty(),
            },
{
    lemma_rows_lines(b, 10);
    assert forall|x: int| 0 <= x < 10 implies split_on(#[trigger] split_on(rows_text(b, 10), '\n')[x], ',').len()
        == 10 by {
        lemma_row_fields(b, x, 10);
    }
    assert forall|x: int, y: int| 0 <= x < 10 && 0 <= y < 10 implies split_on(
        split_on(rows_text(b, 10), '\n')[x],
        ',',
    )[y] == match #[trigger] square(b, x, y) {
        Some(pc) => seq![
            match pc.type_ {
                PieceType::Man => 'M',
                PieceType::King => 'K',
            },
            match pc.player {
                Player::White => 'W',
                Player::Black => 'B',
            },
        ],
        None => Seq::<char>::empty(),
    } by {
        lemma_row_fields(b, x, 10);
        lemma_square_text(square(b, x, y));
    }
}

} // verus!
