//! Generation of the legal move sequences of a position.
use vstd::prelude::*;

use crate::game::{
    on_board, square, Board, GameState, Move, MoveSequence, Piece, PieceType, Player, Position,
    BOARD_SIZE,
};

verus! {

broadcast use vstd::seq_lib::group_seq_properties;

/// A move sequence under construction: where the piece stands, the squares of
/// the pieces it has captured so far, and the moves made so far.
pub struct Path {
    pub pos: (int, int),
    pub captures: Seq<(int, int)>,
    pub moves: Seq<Move>,
}

/// `p` lies on the board.
pub open spec fn valid(p: (int, int)) -> bool {
    on_board(p.0, p.1)
}

/// `a + d`, componentwise.
pub open spec fn plus(a: (int, int), d: (int, int)) -> (int, int) {
    (a.0 + d.0, a.1 + d.1)
}

/// The square `p` is on the board and empty.
pub open spec fn vacant(s: GameState, p: (int, int)) -> bool {
    valid(p) && square(s.board, p.0, p.1) is None
}

/// The square `p` is on the board and holds a piece of the player who is not to move.
pub open spec fn holds_opponent(s: GameState, p: (int, int)) -> bool {
    valid(p) && match square(s.board, p.0, p.1) {
        Some(pc) => pc.player != s.current_player,
        None => false,
    }
}

/// The move from `a` to `b`.
pub open spec fn step_move(a: (int, int), b: (int, int)) -> Move {
    Move { from: (a.0 as usize, a.1 as usize), to: (b.0 as usize, b.1 as usize) }
}

/// `i` followed by a move to `np`, capturing the piece on `cap` if there is one.
pub open spec fn extend(i: Path, np: (int, int), cap: Option<(int, int)>) -> Path {
    Path {
        pos: np,
        captures: match cap {
            Some(c) => i.captures.push(c),
            None => i.captures,
        },
        moves: i.moves.push(step_move(i.pos, np)),
    }
}

/// The square with index `k` in the order `x = k / 10`, `y = k % 10`.
pub open spec fn square_of_index(k: int) -> (int, int) {
    (k / 10, k % 10)
}

/// Among the first `k` squares, those holding an opponent piece not yet in `caps`.
pub open spec fn targets_left(s: GameState, caps: Seq<(int, int)>, k: nat) -> nat
    decreases k,
{
    if k == 0 {
        0
    } else {
        let p = square_of_index(k - 1);
        targets_left(s, caps, (k - 1) as nat) + if holds_opponent(s, p) && !caps.contains(p) {
            1nat
        } else {
            0nat
        }
    }
}

/// How many opponent pieces are still there to be captured after `caps`:
/// it bounds how long a capture sequence can go on.
pub open spec fn capture_budget(s: GameState, caps: Seq<(int, int)>) -> nat {
    targets_left(s, caps, 100)
}

proof fn lemma_targets_left(s: GameState, caps: Seq<(int, int)>, c: (int, int), k: nat)
    requires
        holds_opponent(s, c),
        !caps.contains(c),
    ensures
        targets_left(s, caps.push(c), k) <= targets_left(s, caps, k),
        k > c.0 * 10 + c.1 ==> targets_left(s, caps.push(c), k) < targets_left(s, caps, k),
    decreases k,
{
    if k > 0 {
        lemma_targets_left(s, caps, c, (k - 1) as nat);
        let j: int = k - 1;
        let p = square_of_index(j);
        if j == c.0 * 10 + c.1 {
            assert(p == c);
        }
    }
}

/// Capturing one more opponent piece shrinks the budget.
pub proof fn lemma_budget_shrinks(s: GameState, caps: Seq<(int, int)>, c: (int, int))
    requires
        holds_opponent(s, c),
        !caps.contains(c),
    ensures
        capture_budget(s, caps.push(c)) < capture_budget(s, caps),
{
    lemma_targets_left(s, caps, c, 100);
}

/// A move whose squares all lie on the board.
pub open spec fn move_on_board(m: Move) -> bool {
    m.from.0 < 10 && m.from.1 < 10 && m.to.0 < 10 && m.to.1 < 10
}

/// Every square that `p` mentions lies on the board.
pub open spec fn path_ok(p: Path) -> bool {
    &&& valid(p.pos)
    &&& forall|k: int| 0 <= k < p.captures.len() ==> valid(#[trigger] p.captures[k])
    &&& forall|k: int| 0 <= k < p.moves.len() ==> move_on_board(#[trigger] p.moves[k])
}

/// The first move of the path, where its piece started.
pub open spec fn start_of(i: Path) -> (int, int) {
    (i.moves[0].from.0 as int, i.moves[0].from.1 as int)
}

/// A man on `i.pos` may jump by `d` (twice a unit diagonal) over an opponent
/// piece it has not captured yet, landing on an empty square or back where it started.
pub open spec fn man_can_jump(s: GameState, i: Path, d: (int, int)) -> bool {
    let np = plus(i.pos, d);
    let c = plus(i.pos, (d.0 / 2, d.1 / 2));
    &&& valid(np)
    &&& (square(s.board, np.0, np.1) is None || (i.moves.len() > 0 && np == start_of(i)))
    &&& holds_opponent(s, c)
    &&& !i.captures.contains(c)
}

/// What the jump by `d` contributes: every way of going on jumping after it until no
/// jump is left, or the jump itself when no jump follows it.
pub open spec fn man_jump(s: GameState, i: Path, d: (int, int)) -> Seq<Path>
    decreases capture_budget(s, i.captures), 0nat,
{
    if man_can_jump(s, i, d) {
        let c = plus(i.pos, (d.0 / 2, d.1 / 2));
        let ni = extend(i, plus(i.pos, d), Some(c));
        proof {
            lemma_budget_shrinks(s, i.captures, c);
        }
        let sub = man_paths(s, ni);
        if sub.len() == 0 {
            seq![ni]
        } else {
            sub
        }
    } else {
        seq![]
    }
}

/// A plain step of a man to the empty square `i.pos + d`.
pub open spec fn man_step(s: GameState, i: Path, d: (int, int)) -> Seq<Path> {
    if vacant(s, plus(i.pos, d)) {
        seq![extend(i, plus(i.pos, d), None)]
    } else {
        seq![]
    }
}

/// The direction in which the men of `p` advance along the first coordinate.
pub open spec fn forward(p: Player) -> int {
    match p {
        Player::White => -1,
        Player::Black => 1,
    }
}

/// Every way a man on `i.pos` can finish the turn begun by `i`: its jumps in the four
/// diagonal directions, or, when it has none and has not captured yet, its plain steps.
pub open spec fn man_paths(s: GameState, i: Path) -> Seq<Path>
    decreases capture_budget(s, i.captures), 1nat,
{
    let jumps = man_jump(s, i, (2, 2)) + man_jump(s, i, (2, -2)) + man_jump(s, i, (-2, 2))
        + man_jump(s, i, (-2, -2));
    if jumps.len() == 0 && i.captures.len() == 0 {
        let dv = forward(s.current_player);
        man_step(s, i, (dv, 1)) + man_step(s, i, (dv, -1))
    } else {
        jumps
    }
}

/// `d` scaled by `k`.
pub open spec fn times(d: (int, int), k: int) -> (int, int) {
    (d.0 * k, d.1 * k)
}

/// What a king on `i.pos` finds along the diagonal `d` from distance `dist` on,
/// having already passed over the opponent piece on `cap` (if any) on that diagonal:
/// for each empty square beyond a piece it may capture, every way of going on capturing
/// after landing there until no capture is left, or the capture itself when none follows.
pub open spec fn king_ray(s: GameState, i: Path, d: (int, int), dist: int, cap: Option<(int, int)>) -> Seq<
    Path,
>
    decreases capture_budget(s, i.captures), 0nat, (10 - dist) as nat,
{
    if dist >= 10 || dist < 1 {
        seq![]
    } else {
        let cur = plus(i.pos, times(d, dist));
        if !valid(cur) {
            seq![]
        } else if holds_opponent(s, cur) {
            if cap is None {
                king_ray(s, i, d, dist + 1, Some(cur))
            } else {
                seq![]
            }
        } else if square(s.board, cur.0, cur.1) is Some {
            seq![]
        } else {
            let here = match cap {
                Some(c) => if holds_opponent(s, c) && !i.captures.contains(c) {
                    let ni = extend(i, cur, Some(c));
                    proof {
                        lemma_budget_shrinks(s, i.captures, c);
                    }
                    let sub = king_paths(s, ni);
                    if sub.len() == 0 {
                        seq![ni]
                    } else {
                        sub
                    }
                } else {
                    seq![]
                },
                None => seq![],
            };
            here + king_ray(s, i, d, dist + 1, cap)
        }
    }
}

/// The plain moves of a king on `i.pos` along the diagonal `d`, from distance `dist`
/// up to the first square that is occupied or off the board.
pub open spec fn king_slide(s: GameState, i: Path, d: (int, int), dist: int) -> Seq<Path>
    decreases (10 - dist) as nat,
{
    if dist >= 10 || dist < 1 {
        seq![]
    } else {
        let np = plus(i.pos, times(d, dist));
        if vacant(s, np) {
            seq![extend(i, np, None)] + king_slide(s, i, d, dist + 1)
        } else {
            seq![]
        }
    }
}

/// Every way a king on `i.pos` can finish the turn begun by `i`: its captures along the
/// four diagonals, or, when it has none and has not captured yet, its plain moves.
pub open spec fn king_paths(s: GameState, i: Path) -> Seq<Path>
    decreases capture_budget(s, i.captures), 1nat, 0nat,
{
    let caps = king_ray(s, i, (1, 1), 1, None) + king_ray(s, i, (1, -1), 1, None) + king_ray(
        s,
        i,
        (-1, 1),
        1,
        None,
    ) + king_ray(s, i, (-1, -1), 1, None);
    if caps.len() == 0 && i.captures.len() == 0 {
        king_slide(s, i, (1, 1), 1) + king_slide(s, i, (1, -1), 1) + king_slide(s, i, (-1, 1), 1)
            + king_slide(s, i, (-1, -1), 1)
    } else {
        caps
    }
}

/// The finished path `i` as the move sequence it stands for.
pub open spec fn as_sequence(i: Path) -> (Seq<Move>, Seq<Position>) {
    (i.moves, i.captures.map_values(|c: (int, int)| (c.0 as usize, c.1 as usize)))
}

/// A piece standing on `(x, y)` that has not moved yet.
pub open spec fn start_path(x: int, y: int) -> Path {
    Path { pos: (x, y), captures: seq![], moves: seq![] }
}

/// The ways the piece on `(x, y)` can play, if it belongs to the player to move.
pub open spec fn piece_paths(s: GameState, x: int, y: int) -> Seq<Path> {
    match square(s.board, x, y) {
        Some(pc) => if pc.player == s.current_player {
            match pc.type_ {
                PieceType::Man => man_paths(s, start_path(x, y)),
                PieceType::King => king_paths(s, start_path(x, y)),
            }
        } else {
            seq![]
        },
        None => seq![],
    }
}

/// The move sequences of the pieces on the first `k` squares, visiting the squares
/// with `y` in the outer order and `x` in the inner one.
pub open spec fn candidates(s: GameState, k: nat) -> Seq<(Seq<Move>, Seq<Position>)>
    decreases k,
{
    if k == 0 {
        seq![]
    } else {
        let j: int = k - 1;
        candidates(s, (k - 1) as nat) + sequences_of(piece_paths(s, j % 10, j / 10))
    }
}

/// The largest number of captures among `c`, or 0 when `c` is empty.
pub open spec fn most_captures(c: Seq<(Seq<Move>, Seq<Position>)>) -> nat
    decreases c.len(),
{
    if c.len() == 0 {
        0
    } else {
        let m: nat = most_captures(c.drop_last());
        let l: nat = c.last().1.len();
        if m < l {
            l
        } else {
            m
        }
    }
}

/// The move sequences that the player to move may play: of all the sequences of their
/// pieces, those that capture as many pieces as the best of them, in search order.
pub open spec fn legal_sequences(s: GameState) -> Seq<(Seq<Move>, Seq<Position>)> {
    let c = candidates(s, 100);
    c.filter(|m: (Seq<Move>, Seq<Position>)| m.1.len() == most_captures(c))
}

/// The move sequences that the paths `v` stand for.
pub open spec fn sequences_of(v: Seq<Path>) -> Seq<(Seq<Move>, Seq<Position>)> {
    v.map_values(|i: Path| as_sequence(i))
}

/// A list of move sequences, as values.
pub open spec fn sequences_view(v: Seq<MoveSequence>) -> Seq<(Seq<Move>, Seq<Position>)> {
    v.map_values(|m: MoveSequence| (m.0@, m.1@))
}

} // verus!

verus! {

/// Offset between two squares, or a square, in signed coordinates.
#[derive(Debug, Clone, Copy, PartialEq, Eq, Structural)]
struct Pos {
    x: i32,
    y: i32,
}

impl View for Pos {
    type V = (int, int);

    closed spec fn view(&self) -> (int, int) {
        (self.x as int, self.y as int)
    }
}

/// Coordinates small enough that sums and multiples of them stay far from overflow.
spec fn small(p: Pos) -> bool {
    -100 <= p.x <= 100 && -100 <= p.y <= 100
}

/// A unit diagonal step.
spec fn unit(d: Pos) -> bool {
    (d.x == 1 || d.x == -1) && (d.y == 1 || d.y == -1)
}

impl Pos {
    fn plus(self, rhs: Pos) -> (r: Pos)
        requires
            small(self),
            small(rhs),
        ensures
            r@ == plus(self@, rhs@),
    {
        Pos { x: self.x + rhs.x, y: self.y + rhs.y }
    }

    fn times(self, k: i32) -> (r: Pos)
        requires
            unit(self),
            1 <= k <= 9,
        ensures
            r@ == times(self@, k as int),
            small(r),
    {
        Pos { x: self.x * k, y: self.y * k }
    }

    fn halved(self) -> (r: Pos)
        requires
            self.x == 2 || self.x == -2,
            self.y == 2 || self.y == -2,
        ensures
            r@ == (self@.0 / 2, self@.1 / 2),
    {
        Pos { x: self.x / 2, y: self.y / 2 }
    }
}

} // verus!

verus! {

/// A move sequence under construction, as the search builds it.
struct Intermediate {
    pos: Pos,
    captures: Vec<Pos>,
    moves: Vec<Move>,
}

impl View for Intermediate {
    type V = Path;

    closed spec fn view(&self) -> Path {
        Path { pos: self.pos@, captures: self.captures@.map_values(|c: Pos| c@), moves: self.moves@ }
    }
}

spec fn paths_of(v: Seq<Intermediate>) -> Seq<Path> {
    v.map_values(|x: Intermediate| x@)
}

spec fn all_ok(v: Seq<Intermediate>) -> bool {
    forall|k: int| 0 <= k < v.len() ==> path_ok(#[trigger] v[k]@)
}

spec fn opt_view(o: Option<Pos>) -> Option<(int, int)> {
    match o {
        Some(c) => Some(c@),
        None => None,
    }
}

fn p(x: i32, y: i32) -> (r: Pos)
    ensures
        r.x == x,
        r.y == y,
{
    Pos { x, y }
}

fn is_valid_pos(pos: Pos) -> (r: bool)
    ensures
        r == valid(pos@),
{
    pos.x >= 0 && pos.x < BOARD_SIZE as i32 && pos.y >= 0 && pos.y < BOARD_SIZE as i32
}

fn at(board: &Board, pos: Pos) -> (r: Option<Piece>)
    requires
        valid(pos@),
    ensures
        r == square(*board, pos@.0, pos@.1),
{
    board[pos.x as usize][pos.y as usize]
}

fn mov(from: Pos, to: Pos) -> (r: Move)
    requires
        valid(from@),
        valid(to@),
    ensures
        r == step_move(from@, to@),
        move_on_board(r),
{
    Move { from: (from.x as usize, from.y as usize), to: (to.x as usize, to.y as usize) }
}

fn contains_pos(caps: &Vec<Pos>, c: Pos) -> (r: bool)
    ensures
        r == caps@.map_values(|q: Pos| q@).contains(c@),
{
    let ghost m = caps@.map_values(|q: Pos| q@);
    let mut k: usize = 0;
    while k < caps.len()
        invariant
            k <= caps.len(),
            m == caps@.map_values(|q: Pos| q@),
            forall|j: int| 0 <= j < k ==> m[j] != c@,
        decreases caps.len() - k,
    {
        if caps[k].x == c.x && caps[k].y == c.y {
            assert(m[k as int] == c@);
            return true;
        }
        k = k + 1;
    }
    false
}

fn clone_intermediate(i: &Intermediate) -> (r: Intermediate)
    ensures
        r@ == i@,
{
    let mut captures: Vec<Pos> = Vec::new();
    let mut k: usize = 0;
    while k < i.captures.len()
        invariant
            k <= i.captures.len(),
            captures@ == i.captures@.subrange(0, k as int),
        decreases i.captures.len() - k,
    {
        captures.push(i.captures[k]);
        k = k + 1;
    }
    let mut moves: Vec<Move> = Vec::new();
    let mut k: usize = 0;
    while k < i.moves.len()
        invariant
            k <= i.moves.len(),
            moves@ == i.moves@.subrange(0, k as int),
        decreases i.moves.len() - k,
    {
        moves.push(i.moves[k]);
        k = k + 1;
    }
    assert(captures@ =~= i.captures@);
    assert(moves@ =~= i.moves@);
    Intermediate { pos: i.pos, captures, moves }
}

fn update_intermediate(new_pos: Pos, captured_pos: Option<Pos>, i: Intermediate) -> (r: Option<
    Intermediate,
>)
    requires
        path_ok(i@),
        valid(new_pos@),
        captured_pos matches Some(c) ==> valid(c@),
    ensures
        r is None <==> (captured_pos matches Some(c) && i@.captures.contains(c@)),
        r matches Some(ni) ==> ni@ == extend(i@, new_pos@, opt_view(captured_pos)) && path_ok(ni@),
{
    let mut i = i;
    let already = match captured_pos {
        Some(c) => contains_pos(&i.captures, c),
        None => false,
    };
    if already {
        None
    } else {
        let ghost old_i = i@;
        let m = mov(i.pos, new_pos);
        i.moves.push(m);
        i.pos = new_pos;
        if let Some(c) = captured_pos {
            i.captures.push(c);
        }
        assert(i@.captures =~= extend(old_i, new_pos@, opt_view(captured_pos)).captures);
        assert(i@.moves =~= extend(old_i, new_pos@, opt_view(captured_pos)).moves);
        Some(i)
    }
}

} // verus!

verus! {

/// A jump direction of a man: twice a unit diagonal.
spec fn jump_dir(d: Pos) -> bool {
    (d.x == 2 || d.x == -2) && (d.y == 2 || d.y == -2)
}

fn man_jump_moves(state: &GameState, i: &Intermediate, d: Pos) -> (r: Vec<Intermediate>)
    requires
        path_ok(i@),
        jump_dir(d),
    ensures
        paths_of(r@) == man_jump(*state, i@, d@),
        all_ok(r@),
    decreases capture_budget(*state, i@.captures), 0nat,
{
    let mut moves: Vec<Intermediate> = Vec::new();
    let new_pos = i.pos.plus(d);
    let captured_pos = i.pos.plus(d.halved());
    let lands = if is_valid_pos(new_pos) {
        at(&state.board, new_pos).is_none() || if !i.moves.is_empty() {
            new_pos.x == i.moves[0].from.0 as i32 && new_pos.y == i.moves[0].from.1 as i32
        } else {
            false
        }
    } else {
        false
    };
    if lands {
        let jumps_over = match at(&state.board, captured_pos) {
            Some(pc) => pc.player != state.current_player,
            None => false,
        };
        if jumps_over {
            if let Some(new_i) = update_intermediate(
                new_pos,
                Some(captured_pos),
                clone_intermediate(i),
            ) {
                proof {
                    lemma_budget_shrinks(*state, i@.captures, captured_pos@);
                }
                let subsequent_moves = list_valid_moves_for_man(state, clone_intermediate(&new_i));
                if subsequent_moves.len() == 0 {
                    moves.push(new_i);
                    assert(paths_of(moves@) =~= seq![new_i@]);
                } else {
                    moves = subsequent_moves;
                }
            }
        }
    }
    moves
}

fn man_step_moves(state: &GameState, i: &Intermediate, d: Pos) -> (r: Vec<Intermediate>)
    requires
        path_ok(i@),
        d.x == 1 || d.x == -1,
        d.y == 1 || d.y == -1,
    ensures
        paths_of(r@) == man_step(*state, i@, d@),
        all_ok(r@),
{
    let mut moves: Vec<Intermediate> = Vec::new();
    let new_pos = i.pos.plus(d);
    if is_valid_pos(new_pos) && at(&state.board, new_pos).is_none() {
        if let Some(new_i) = update_intermediate(new_pos, None, clone_intermediate(i)) {
            moves.push(new_i);
        }
    }
    assert(paths_of(moves@) =~= man_step(*state, i@, d@));
    moves
}

proof fn lemma_paths_append(a: Seq<Intermediate>, b: Seq<Intermediate>)
    requires
        all_ok(a),
        all_ok(b),
    ensures
        paths_of(a + b) == paths_of(a) + paths_of(b),
        all_ok(a + b),
{
    assert(paths_of(a + b) =~= paths_of(a) + paths_of(b));
}

fn append_paths(moves: &mut Vec<Intermediate>, more: Vec<Intermediate>)
    requires
        all_ok(old(moves)@),
        all_ok(more@),
    ensures
        paths_of(final(moves)@) == paths_of(old(moves)@) + paths_of(more@),
        all_ok(final(moves)@),
{
    let mut more = more;
    proof {
        lemma_paths_append(moves@, more@);
    }
    moves.append(&mut more);
}

fn list_valid_moves_for_man(state: &GameState, i: Intermediate) -> (r: Vec<Intermediate>)
    requires
        path_ok(i@),
    ensures
        paths_of(r@) == man_paths(*state, i@),
        all_ok(r@),
    decreases capture_budget(*state, i@.captures), 1nat,
{
    let mut moves = man_jump_moves(state, &i, p(2, 2));
    append_paths(&mut moves, man_jump_moves(state, &i, p(2, -2)));
    append_paths(&mut moves, man_jump_moves(state, &i, p(-2, 2)));
    append_paths(&mut moves, man_jump_moves(state, &i, p(-2, -2)));

    if moves.len() == 0 && i.captures.len() == 0 {
        let dv: i32 = match state.current_player {
            Player::White => -1,
            Player::Black => 1,
        };
        append_paths(&mut moves, man_step_moves(state, &i, p(dv, 1)));
        append_paths(&mut moves, man_step_moves(state, &i, p(dv, -1)));
    }
    moves
}

} // verus!

verus! {

fn king_ray_moves(state: &GameState, i: &Intermediate, d: Pos) -> (r: Vec<Intermediate>)
    requires
        path_ok(i@),
        unit(d),
    ensures
        paths_of(r@) == king_ray(*state, i@, d@, 1, None),
        all_ok(r@),
    decreases capture_budget(*state, i@.captures), 0nat,
{
    let mut moves: Vec<Intermediate> = Vec::new();
    let mut captured_piece_pos: Option<Pos> = None;
    let mut dist: i32 = 1;
    while dist < BOARD_SIZE as i32
        invariant
            1 <= dist <= 10,
            path_ok(i@),
            unit(d),
            all_ok(moves@),
            captured_piece_pos matches Some(c) ==> holds_opponent(*state, c@),
            paths_of(moves@) + king_ray(*state, i@, d@, dist as int, opt_view(captured_piece_pos))
                == king_ray(*state, i@, d@, 1, None),
        ensures
            paths_of(moves@) == king_ray(*state, i@, d@, 1, None),
            all_ok(moves@),
        decreases 10 - dist,
    {
        let ghost before = paths_of(moves@);
        let current_pos = i.pos.plus(d.times(dist));
        if !is_valid_pos(current_pos) {
            assert(paths_of(moves@) =~= paths_of(moves@) + Seq::<Path>::empty());
            break ;
        }
        match at(&state.board, current_pos) {
            Some(pc) => {
                if pc.player != state.current_player {
                    if captured_piece_pos.is_none() {
                        captured_piece_pos = Some(current_pos);
                    } else {
                        assert(paths_of(moves@) =~= paths_of(moves@) + Seq::<Path>::empty());
                        break ;
                    }
                } else {
                    assert(paths_of(moves@) =~= paths_of(moves@) + Seq::<Path>::empty());
                    break ;
                }
            },
            None => {
                let ghost here = match opt_view(captured_piece_pos) {
                    Some(c) => if holds_opponent(*state, c) && !i@.captures.contains(c) {
                        let ni = extend(i@, current_pos@, Some(c));
                        let sub = king_paths(*state, ni);
                        if sub.len() == 0 {
                            seq![ni]
                        } else {
                            sub
                        }
                    } else {
                        seq![]
                    },
                    None => seq![],
                };
                if let Some(c_pos) = captured_piece_pos {
                    if !contains_pos(&i.captures, c_pos) {
                        let mut new_i = clone_intermediate(i);
                        let m = mov(i.pos, current_pos);
                        new_i.moves.push(m);
                        new_i.captures.push(c_pos);
                        new_i.pos = current_pos;
                        assert(new_i@.captures =~= i@.captures.push(c_pos@));
                        assert(new_i@ == extend(i@, current_pos@, Some(c_pos@)));
                        proof {
                            lemma_budget_shrinks(*state, i@.captures, c_pos@);
                        }
                        let subsequent_moves = list_valid_moves_for_king(
                            state,
                            clone_intermediate(&new_i),
                        );
                        if subsequent_moves.len() == 0 {
                            moves.push(new_i);
                        } else {
                            append_paths(&mut moves, subsequent_moves);
                        }
                    }
                }
                assert(paths_of(moves@) =~= before + here);
            },
        }
        dist = dist + 1;
    }
    moves
}

} // verus!

verus! {

fn king_slide_moves(state: &GameState, i: &Intermediate, d: Pos) -> (r: Vec<Intermediate>)
    requires
        path_ok(i@),
        unit(d),
    ensures
        paths_of(r@) == king_slide(*state, i@, d@, 1),
        all_ok(r@),
{
    let mut moves: Vec<Intermediate> = Vec::new();
    let mut dist: i32 = 1;
    while dist < BOARD_SIZE as i32
        invariant
            1 <= dist <= 10,
            path_ok(i@),
            unit(d),
            all_ok(moves@),
            paths_of(moves@) + king_slide(*state, i@, d@, dist as int) == king_slide(
                *state,
                i@,
                d@,
                1,
            ),
        ensures
            paths_of(moves@) == king_slide(*state, i@, d@, 1),
            all_ok(moves@),
        decreases 10 - dist,
    {
        let ghost before = paths_of(moves@);
        let new_pos = i.pos.plus(d.times(dist));
        if is_valid_pos(new_pos) && at(&state.board, new_pos).is_none() {
            let mut new_i = clone_intermediate(i);
            let m = mov(i.pos, new_pos);
            new_i.moves.push(m);
            new_i.pos = new_pos;
            assert(new_i@ == extend(i@, new_pos@, None));
            moves.push(new_i);
            assert(paths_of(moves@) =~= before + seq![new_i@]);
        } else {
            assert(paths_of(moves@) =~= paths_of(moves@) + Seq::<Path>::empty());
            break ;
        }
        dist = dist + 1;
    }
    moves
}

fn list_valid_moves_for_king(state: &GameState, i: Intermediate) -> (r: Vec<Intermediate>)
    requires
        path_ok(i@),
    ensures
        paths_of(r@) == king_paths(*state, i@),
        all_ok(r@),
    decreases capture_budget(*state, i@.captures), 1nat,
{
    let mut moves = king_ray_moves(state, &i, p(1, 1));
    append_paths(&mut moves, king_ray_moves(state, &i, p(1, -1)));
    append_paths(&mut moves, king_ray_moves(state, &i, p(-1, 1)));
    append_paths(&mut moves, king_ray_moves(state, &i, p(-1, -1)));

    if moves.len() == 0 && i.captures.len() == 0 {
        append_paths(&mut moves, king_slide_moves(state, &i, p(1, 1)));
        append_paths(&mut moves, king_slide_moves(state, &i, p(1, -1)));
        append_paths(&mut moves, king_slide_moves(state, &i, p(-1, 1)));
        append_paths(&mut moves, king_slide_moves(state, &i, p(-1, -1)));
    }
    moves
}

} // verus!

verus! {

fn to_sequence(i: &Intermediate) -> (r: MoveSequence)
    requires
        path_ok(i@),
    ensures
        (r.0@, r.1@) == as_sequence(i@),
{
    let mut moves: Vec<Move> = Vec::new();
    let mut k: usize = 0;
    while k < i.moves.len()
        invariant
            k <= i.moves.len(),
            moves@ == i.moves@.subrange(0, k as int),
        decreases i.moves.len() - k,
    {
        moves.push(i.moves[k]);
        k = k + 1;
    }
    let ghost target = as_sequence(i@).1;
    let mut captures: Vec<Position> = Vec::new();
    let mut k: usize = 0;
    while k < i.captures.len()
        invariant
            k <= i.captures.len(),
            path_ok(i@),
            target == as_sequence(i@).1,
            captures@ == target.subrange(0, k as int),
        decreases i.captures.len() - k,
    {
        let c = i.captures[k];
        assert(valid(i@.captures[k as int]));
        captures.push((c.x as usize, c.y as usize));
        assert(captures@ =~= target.subrange(0, k + 1));
        k = k + 1;
    }
    assert(moves@ =~= i.moves@);
    assert(captures@ =~= target);
    (moves, captures)
}

fn copy_sequence(m: &MoveSequence) -> (r: MoveSequence)
    ensures
        r.0@ == m.0@,
        r.1@ == m.1@,
{
    let mut moves: Vec<Move> = Vec::new();
    let mut k: usize = 0;
    while k < m.0.len()
        invariant
            k <= m.0.len(),
            moves@ == m.0@.subrange(0, k as int),
        decreases m.0.len() - k,
    {
        moves.push(m.0[k]);
        k = k + 1;
    }
    let mut captures: Vec<Position> = Vec::new();
    let mut k: usize = 0;
    while k < m.1.len()
        invariant
            k <= m.1.len(),
            captures@ == m.1@.subrange(0, k as int),
        decreases m.1.len() - k,
    {
        captures.push(m.1[k]);
        k = k + 1;
    }
    assert(moves@ =~= m.0@);
    assert(captures@ =~= m.1@);
    (moves, captures)
}

fn piece_moves(state: &GameState, x: usize, y: usize) -> (r: Vec<Intermediate>)
    requires
        x < 10,
        y < 10,
    ensures
        paths_of(r@) == piece_paths(*state, x as int, y as int),
        all_ok(r@),
{
    let pos = p(x as i32, y as i32);
    let start = Intermediate { pos, captures: Vec::new(), moves: Vec::new() };
    assert(start@.captures =~= Seq::<(int, int)>::empty());
    assert(start@ == start_path(x as int, y as int));
    match at(&state.board, pos) {
        Some(pc) => {
            if pc.player == state.current_player {
                match pc.type_ {
                    PieceType::Man => list_valid_moves_for_man(state, start),
                    PieceType::King => list_valid_moves_for_king(state, start),
                }
            } else {
                let r: Vec<Intermediate> = Vec::new();
                assert(paths_of(r@) =~= Seq::<Path>::empty());
                r
            }
        },
        None => {
            let r: Vec<Intermediate> = Vec::new();
            assert(paths_of(r@) =~= Seq::<Path>::empty());
            r
        },
    }
}

impl GameState {
    /// Every move sequence the player to move may play.
    ///
    /// Each piece of the player to move is tried in turn, squares taken with `y` in the
    /// outer order and `x` in the inner one. A man may jump diagonally over an opponent
    /// piece onto the empty square behind it, in any of the four directions, and keeps
    /// jumping while it can; otherwise it steps forward onto an empty diagonal square.
    /// A king moves any distance along a diagonal, captures by passing over exactly one
    /// opponent piece and landing on any empty square behind it, and keeps capturing while
    /// it can. No piece is captured twice in one turn. Of all the sequences found, only
    /// those that capture the most pieces are kept.
    pub fn list_valid_moves(&self) -> (r: Vec<MoveSequence>)
        ensures
            sequences_view(r@) == legal_sequences(*self),
    {
        let mut available_moves: Vec<MoveSequence> = Vec::new();
        let mut row: usize = 0;
        while row < BOARD_SIZE
            invariant
                row <= 10,
                sequences_view(available_moves@) == candidates(*self, (row * 10) as nat),
            decreases 10 - row,
        {
            let mut col: usize = 0;
            while col < BOARD_SIZE
                invariant
                    row < 10,
                    col <= 10,
                    sequences_view(available_moves@) == candidates(*self, (row * 10 + col) as nat),
                decreases 10 - col,
            {
                let moves = piece_moves(self, col, row);
                let ghost before = sequences_view(available_moves@);
                let mut k: usize = 0;
                while k < moves.len()
                    invariant
                        k <= moves.len(),
                        all_ok(moves@),
                        sequences_view(available_moves@) == before + sequences_of(
                            paths_of(moves@).subrange(0, k as int),
                        ),
                    decreases moves.len() - k,
                {
                    let m = to_sequence(&moves[k]);
                    let ghost prev = sequences_view(available_moves@);
                    available_moves.push(m);
                    assert(paths_of(moves@)[k as int] == moves@[k as int]@);
                    assert(sequences_of(paths_of(moves@).subrange(0, k + 1)) =~= sequences_of(
                        paths_of(moves@).subrange(0, k as int),
                    ).push(as_sequence(moves@[k as int]@)));
                    assert(sequences_view(available_moves@) =~= prev.push((m.0@, m.1@)));
                    k = k + 1;
                }
                let ghost j: int = row * 10 + col;
                assert(j % 10 == col as int && j / 10 == row as int);
                assert(paths_of(moves@).subrange(0, moves.len() as int) =~= paths_of(moves@));
                col = col + 1;
            }
            row = row + 1;
        }
        let ghost all = sequences_view(available_moves@);
        assert(all == candidates(*self, 100));
        let mut max: usize = 0;
        let mut k: usize = 0;
        while k < available_moves.len()
            invariant
                k <= available_moves.len(),
                all == sequences_view(available_moves@),
                max == most_captures(all.subrange(0, k as int)),
            decreases available_moves.len() - k,
        {
            let l: usize = available_moves[k].1.len();
            assert(all.subrange(0, k + 1).drop_last() =~= all.subrange(0, k as int));
            if max < l {
                max = l;
            }
            k = k + 1;
        }
        assert(all.subrange(0, all.len() as int) =~= all);
        let ghost pred = |m: (Seq<Move>, Seq<Position>)| m.1.len() == most_captures(all);
        let mut result: Vec<MoveSequence> = Vec::new();
        let mut k: usize = 0;
        while k < available_moves.len()
            invariant
                k <= available_moves.len(),
                all == sequences_view(available_moves@),
                max == most_captures(all),
                pred == (|m: (Seq<Move>, Seq<Position>)| m.1.len() == most_captures(all)),
                sequences_view(result@) == all.subrange(0, k as int).filter(pred),
            decreases available_moves.len() - k,
        {
            let ghost prev = sequences_view(result@);
            assert(all.subrange(0, k + 1) =~= all.subrange(0, k as int).push(all[k as int]));
            proof {
                all.subrange(0, k as int).lemma_filter_push(all[k as int], pred);
            }
            if available_moves[k].1.len() == max {
                let m = copy_sequence(&available_moves[k]);
                result.push(m);
                assert(sequences_view(result@) =~= prev.push(all[k as int]));
            }
            k = k + 1;
        }
        result
    }
}

} // verus!
