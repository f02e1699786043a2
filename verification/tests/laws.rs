use backend::play::to_move_sequence;
use backend::game::{
    sequence_to_string, Board, GameState, GameStatus, Move, MoveSequence, Piece, PieceType, Player,
};

fn mv(x1: usize, y1: usize, x2: usize, y2: usize) -> Move {
    Move { from: (x1, y1), to: (x2, y2) }
}

fn piece(type_: PieceType, player: Player) -> Option<Piece> {
    Some(Piece { type_, player })
}

fn game(board: Board, current_player: Player) -> GameState {
    GameState { board, current_player, status: GameStatus::Running, turns: 0 }
}

fn empty_board() -> Board {
    [[None; 10]; 10]
}

fn is_diagonal_step(m: &Move, forward: i64) -> bool {
    let (fx, fy) = (m.from.0 as i64, m.from.1 as i64);
    let (tx, ty) = (m.to.0 as i64, m.to.1 as i64);
    tx == fx + forward && (ty - fy).abs() == 1
}

#[test]
fn a_man_capture_makes_every_offer_capture() {
    let mut b = empty_board();
    b[6][1] = piece(PieceType::Man, Player::White);
    b[5][2] = piece(PieceType::Man, Player::Black);
    b[6][7] = piece(PieceType::Man, Player::White);
    let moves = game(b, Player::White).list_valid_moves();
    assert_eq!(moves.len(), 1);
    assert_eq!(moves[0].0, vec![mv(6, 1, 4, 3)]);
    assert_eq!(moves[0].1, vec![(5, 2)]);
}

#[test]
fn a_king_capture_from_afar_makes_every_offer_capture() {
    let mut b = empty_board();
    b[9][0] = piece(PieceType::King, Player::White);
    b[6][3] = piece(PieceType::Man, Player::Black);
    b[9][8] = piece(PieceType::Man, Player::White);
    let moves = game(b, Player::White).list_valid_moves();
    assert!(!moves.is_empty());
    assert!(moves.iter().all(|s| s.1 == vec![(6, 3)]));
    // It may land on any of the six empty squares behind the captured piece.
    assert_eq!(moves.len(), 6);
}

#[test]
fn offered_move_lists_are_all_different() {
    let mut b = empty_board();
    b[5][4] = piece(PieceType::King, Player::White);
    b[7][6] = piece(PieceType::Man, Player::White);
    b[2][1] = piece(PieceType::Man, Player::Black);
    let moves = game(b, Player::White).list_valid_moves();
    assert!(!moves.is_empty());
    for i in 0..moves.len() {
        for j in (i + 1)..moves.len() {
            assert_ne!(moves[i].0, moves[j].0);
        }
    }
    let opening = GameState::default().list_valid_moves();
    for i in 0..opening.len() {
        for j in (i + 1)..opening.len() {
            assert_ne!(opening[i].0, opening[j].0);
        }
    }
}

#[test]
fn texts_name_the_moves_only() {
    let a: MoveSequence = (vec![mv(6, 1, 4, 3)], vec![(5, 2)]);
    let b: MoveSequence = (vec![mv(6, 1, 4, 3)], vec![]);
    let c: MoveSequence = (vec![mv(6, 1, 4, 3), mv(4, 3, 2, 5)], vec![(5, 2), (3, 4)]);
    let d: MoveSequence = (vec![mv(6, 1, 4, 4)], vec![(5, 2)]);
    assert_eq!(sequence_to_string(&a), sequence_to_string(&b));
    assert_ne!(sequence_to_string(&a), sequence_to_string(&c));
    assert_ne!(sequence_to_string(&a), sequence_to_string(&d));
    assert_eq!(sequence_to_string(&c), "61,43:43,25");
}

#[test]
fn men_step_forward_and_kings_pass_over_empty_squares() {
    let opening = GameState::default().list_valid_moves();
    assert!(opening.iter().all(|s| s.0.len() == 1 && is_diagonal_step(&s.0[0], -1)));
    let mut b = empty_board();
    b[4][1] = piece(PieceType::Man, Player::Black);
    let black = game(b, Player::Black).list_valid_moves();
    assert_eq!(black.len(), 2);
    assert!(black.iter().all(|s| is_diagonal_step(&s.0[0], 1)));

    let mut b = empty_board();
    b[5][4] = piece(PieceType::King, Player::White);
    b[2][1] = piece(PieceType::Man, Player::White);
    b[7][6] = piece(PieceType::Man, Player::Black);
    let g = game(b, Player::White);
    let moves = g.list_valid_moves();
    for s in moves.iter().filter(|s| s.0[0].from == (5, 4)) {
        let m = s.0[0];
        let (fx, fy) = (m.from.0 as i64, m.from.1 as i64);
        let (tx, ty) = (m.to.0 as i64, m.to.1 as i64);
        assert_eq!((tx - fx).abs(), (ty - fy).abs());
        let n = (tx - fx).abs();
        let (dx, dy) = ((tx - fx).signum(), (ty - fy).signum());
        for v in 1..n {
            let q = ((fx + dx * v) as usize, (fy + dy * v) as usize);
            assert!(g.board[q.0][q.1].is_none() || s.1.contains(&q));
        }
    }
}

#[test]
fn without_captures_exactly_the_plain_moves_are_offered() {
    let mut b = empty_board();
    b[5][4] = piece(PieceType::King, Player::White);
    b[3][2] = piece(PieceType::Man, Player::White);
    b[0][9] = piece(PieceType::Man, Player::Black);
    let moves = game(b, Player::White).list_valid_moves();
    assert!(moves.iter().all(|s| s.0.len() == 1 && s.1.is_empty()));
    // The man steps to (2, 1) or (2, 3); the king slides along its four diagonals,
    // stopped by its own man on (3, 2): 1 + 4 + 4 + 4 squares.
    assert_eq!(moves.len(), 2 + 13);
    assert!(moves.iter().any(|s| s.0 == vec![mv(3, 2, 2, 1)]));
    assert!(moves.iter().any(|s| s.0 == vec![mv(3, 2, 2, 3)]));
    assert!(moves.iter().any(|s| s.0 == vec![mv(5, 4, 4, 3)]));
    assert!(!moves.iter().any(|s| s.0 == vec![mv(5, 4, 2, 1)]));
    assert!(moves.iter().any(|s| s.0 == vec![mv(5, 4, 9, 8)]));
}

#[test]
fn offers_do_not_depend_on_the_status() {
    let running = GameState::default();
    let drawn = GameState { status: GameStatus::Draw, turns: 250, ..GameState::default() };
    let a = running.list_valid_moves();
    let b = drawn.list_valid_moves();
    assert_eq!(a, b);
}

#[test]
fn the_longest_capture_chain_is_offered() {
    let mut b = empty_board();
    b[7][0] = piece(PieceType::Man, Player::White);
    b[6][1] = piece(PieceType::Man, Player::Black);
    b[4][3] = piece(PieceType::Man, Player::Black);
    b[8][9] = piece(PieceType::Man, Player::White);
    b[7][8] = piece(PieceType::Man, Player::Black);
    let moves = game(b, Player::White).list_valid_moves();
    // The man on (7, 0) can take two pieces in a row, the one on (8, 9) only one.
    assert_eq!(moves.len(), 1);
    assert_eq!(moves[0].0, vec![mv(7, 0, 5, 2), mv(5, 2, 3, 4)]);
    assert_eq!(moves[0].1, vec![(6, 1), (4, 3)]);

    let mut b = empty_board();
    b[9][0] = piece(PieceType::King, Player::White);
    b[7][2] = piece(PieceType::Man, Player::Black);
    b[4][3] = piece(PieceType::Man, Player::Black);
    let moves = game(b, Player::White).list_valid_moves();
    assert!(!moves.is_empty());
    assert!(moves.iter().all(|s| s.1.len() == 2));
}

#[test]
fn status_of_a_position() {
    let g = GameState::default();
    assert_eq!(g.compute_status(), GameStatus::Running);
    let late = GameState { turns: 201, ..GameState::default() };
    assert_eq!(late.compute_status(), GameStatus::Draw);
    let mut b = empty_board();
    b[0][1] = piece(PieceType::Man, Player::White);
    assert_eq!(game(b, Player::White).compute_status(), GameStatus::Victory(Player::Black));
    let won = GameState { status: GameStatus::Victory(Player::White), ..game(b, Player::White) };
    assert_eq!(won.compute_status(), GameStatus::Victory(Player::White));
}

#[test]
fn move_texts_ended_by_semicolons_read_back() {
    let ms = vec![mv(6, 1, 5, 0), mv(5, 0, 4, 1), mv(4, 1, 2, 3)];
    let text: String =
        ms.iter().map(|m| sequence_to_string(&(vec![*m], vec![])) + ";").collect();
    assert_eq!(text, "61,50;50,41;41,23;");
    assert_eq!(to_move_sequence(&text), ms);
    let one = sequence_to_string(&(vec![mv(7, 0, 5, 2)], vec![(6, 1)]));
    assert_eq!(to_move_sequence(&one), vec![mv(7, 0, 5, 2)]);
}
