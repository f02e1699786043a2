use backend::game::{
    sequence_to_string, AIError, Board, Error, GameState, GameStatus, Move, MoveSequence, Piece,
    PieceType, Player,
};

fn m(x1: usize, y1: usize, x2: usize, y2: usize) -> Move {
    Move { from: (x1, y1), to: (x2, y2) }
}

fn man(player: Player) -> Option<Piece> {
    Some(Piece { type_: PieceType::Man, player })
}

fn king(player: Player) -> Option<Piece> {
    Some(Piece { type_: PieceType::King, player })
}

fn state(board: Board, current_player: Player) -> GameState {
    GameState { board, current_player, status: GameStatus::Running, turns: 0 }
}

fn count(board: &Board, player: Player) -> usize {
    board.iter().flatten().filter(|sq| matches!(sq, Some(p) if p.player == player)).count()
}

fn moves_of(list: &[MoveSequence]) -> Vec<Vec<Move>> {
    list.iter().map(|s| s.0.clone()).collect()
}

#[test]
fn default_position() {
    let g = GameState::default();
    assert_eq!(g.current_player, Player::White);
    assert_eq!(g.status, GameStatus::Running);
    assert_eq!(g.turns, 0);
    assert_eq!(count(&g.board, Player::White), 20);
    assert_eq!(count(&g.board, Player::Black), 20);
    assert_eq!(g.board[0][1], man(Player::Black));
    assert_eq!(g.board[0][0], None);
    assert_eq!(g.board[3][0], man(Player::Black));
    assert_eq!(g.board[4][1], None);
    assert_eq!(g.board[5][0], None);
    assert_eq!(g.board[6][1], man(Player::White));
    assert_eq!(g.board[9][0], man(Player::White));
    assert_eq!(g.board[9][1], None);
}

#[test]
fn opening_moves() {
    let g = GameState::default();
    let moves = g.list_valid_moves();
    // Each of the five front men of White has two steps, except the one on the edge.
    assert_eq!(moves.len(), 9);
    assert!(moves.iter().all(|s| s.0.len() == 1 && s.1.is_empty()));
    assert_eq!(moves[0].0, vec![m(6, 1, 5, 2)]);
    assert_eq!(moves[1].0, vec![m(6, 1, 5, 0)]);
}

#[test]
fn apply_valid_step() {
    let mut g = GameState::default();
    assert!(g.apply_sequence(&[m(6, 1, 5, 0)]).is_ok());
    assert_eq!(g.board[6][1], None);
    assert_eq!(g.board[5][0], man(Player::White));
    assert_eq!(g.current_player, Player::Black);
    assert_eq!(g.turns, 1);
    assert_eq!(g.status, GameStatus::Running);
    assert_eq!(count(&g.board, Player::White), 20);
}

#[test]
fn apply_invalid_move_is_refused() {
    let mut g = GameState::default();
    let before = g;
    let r = g.apply_sequence(&[m(6, 1, 4, 1)]);
    assert!(matches!(r, Err(Error::InvalidMove)));
    assert_eq!(g.board, before.board);
    assert_eq!(g.current_player, before.current_player);
    assert_eq!(g.turns, before.turns);
    // A move of the other player is refused too.
    assert!(matches!(g.apply_sequence(&[m(3, 0, 4, 1)]), Err(Error::InvalidMove)));
}

#[test]
fn capture_is_compulsory() {
    let mut board: Board = [[None; 10]; 10];
    board[5][2] = man(Player::White);
    board[4][1] = man(Player::Black);
    board[7][6] = man(Player::White);
    let g = state(board, Player::White);
    let moves = g.list_valid_moves();
    assert_eq!(moves_of(&moves), vec![vec![m(5, 2, 3, 0)]]);
    assert_eq!(moves[0].1, vec![(4, 1)]);
}

#[test]
fn capture_removes_piece_and_wins() {
    let mut board: Board = [[None; 10]; 10];
    board[5][2] = man(Player::White);
    board[4][1] = man(Player::Black);
    let mut g = state(board, Player::White);
    assert!(g.apply_sequence(&[m(5, 2, 3, 0)]).is_ok());
    assert_eq!(g.board[4][1], None);
    assert_eq!(g.board[5][2], None);
    assert_eq!(g.board[3][0], man(Player::White));
    assert_eq!(count(&g.board, Player::Black), 0);
    // Black has nothing left to move: White wins.
    assert_eq!(g.status, GameStatus::Victory(Player::White));
}

#[test]
fn man_is_crowned() {
    let mut board: Board = [[None; 10]; 10];
    board[1][2] = man(Player::White);
    board[9][8] = man(Player::Black);
    let mut g = state(board, Player::White);
    assert!(g.apply_sequence(&[m(1, 2, 0, 1)]).is_ok());
    assert_eq!(g.board[0][1], king(Player::White));
    let mut g2 = state(board, Player::Black);
    g2.board[8][3] = man(Player::Black);
    assert!(g2.apply_sequence(&[m(8, 3, 9, 2)]).is_ok());
    assert_eq!(g2.board[9][2], king(Player::Black));
}

#[test]
fn decided_game_stays_decided() {
    let mut g = GameState::default();
    g.status = GameStatus::Draw;
    assert!(g.apply_sequence(&[m(6, 1, 5, 0)]).is_ok());
    assert_eq!(g.status, GameStatus::Draw);
    g.status = GameStatus::Victory(Player::White);
    assert!(g.apply_sequence(&[m(3, 0, 4, 1)]).is_ok());
    assert_eq!(g.status, GameStatus::Victory(Player::White));
}

#[test]
fn long_game_is_drawn() {
    let mut g = GameState::default();
    g.turns = 200;
    assert!(g.apply_sequence(&[m(6, 1, 5, 0)]).is_ok());
    assert_eq!(g.turns, 201);
    assert_eq!(g.status, GameStatus::Draw);
    let mut h = GameState::default();
    h.turns = 199;
    assert!(h.apply_sequence(&[m(6, 1, 5, 0)]).is_ok());
    assert_eq!(h.status, GameStatus::Running);
}

#[test]
fn king_captures_from_afar() {
    let mut board: Board = [[None; 10]; 10];
    board[9][0] = king(Player::White);
    board[6][3] = man(Player::Black);
    board[0][9] = man(Player::Black);
    let g = state(board, Player::White);
    let moves = g.list_valid_moves();
    // Landing on any empty square behind the captured man, up to the black man in the corner.
    assert_eq!(
        moves_of(&moves),
        vec![
            vec![m(9, 0, 5, 4)],
            vec![m(9, 0, 4, 5)],
            vec![m(9, 0, 3, 6)],
            vec![m(9, 0, 2, 7)],
            vec![m(9, 0, 1, 8)],
        ]
    );
    assert!(moves.iter().all(|s| s.1 == vec![(6, 3)]));
    let mut g = g;
    assert!(g.apply_sequence(&[m(9, 0, 3, 6)]).is_ok());
    assert_eq!(g.board[6][3], None);
    assert_eq!(g.board[3][6], king(Player::White));
    assert_eq!(count(&g.board, Player::Black), 1);
}

#[test]
fn king_blocked_by_two_pieces() {
    let mut board: Board = [[None; 10]; 10];
    board[9][0] = king(Player::White);
    board[8][1] = man(Player::Black);
    board[7][2] = man(Player::Black);
    let g = state(board, Player::White);
    assert!(g.list_valid_moves().is_empty());
}

#[test]
fn csv_of_board() {
    let mut board: Board = [[None; 10]; 10];
    board[0][1] = man(Player::Black);
    board[9][9] = king(Player::White);
    let g = state(board, Player::White);
    let mut expected = String::new();
    expected.push_str(",MB,,,,,,,,\n");
    for _ in 1..9 {
        expected.push_str(",,,,,,,,,\n");
    }
    expected.push_str(",,,,,,,,,KW\n");
    assert_eq!(g.to_csv_string(), expected);
}

#[test]
fn text_of_sequences() {
    let seq: MoveSequence = (vec![m(5, 2, 3, 0), m(3, 0, 1, 2)], vec![(4, 1), (2, 1)]);
    assert_eq!(sequence_to_string(&seq), "52,30:30,12");
    let single: MoveSequence = (vec![m(6, 1, 5, 0)], vec![]);
    assert_eq!(sequence_to_string(&single), "61,50");
    let empty: MoveSequence = (vec![], vec![]);
    assert_eq!(sequence_to_string(&empty), "");
    let wide: MoveSequence = (vec![m(12, 3, 4, 105)], vec![]);
    assert_eq!(sequence_to_string(&wide), "123,4105");
}

#[test]
fn letters_of_pieces() {
    assert_eq!(Player::White.to_string(), "W");
    assert_eq!(Player::Black.to_string(), "B");
    assert_eq!(PieceType::Man.to_string(), "M");
    assert_eq!(PieceType::King.to_string(), "K");
    assert_eq!(Piece { type_: PieceType::King, player: Player::Black }.to_string(), "KB");
}

#[test]
fn error_kinds() {
    let e = Error::AIFailed { error: AIError::InvalidMove, ai_output: String::new(), move_: None };
    assert!(matches!(e, Error::AIFailed { error: AIError::InvalidMove, .. }));
}

#[test]
fn pieces_stay_on_dark_squares() {
    let mut g = GameState::default();
    let on_dark = |b: &Board| {
        (0..10).all(|x| (0..10).all(|y| b[x][y].is_none() || (x + y) % 2 == 1))
    };
    assert!(on_dark(&g.board));
    for _ in 0..6 {
        let moves = g.list_valid_moves();
        let first = moves[0].0.clone();
        assert!(g.apply_sequence(&first).is_ok());
        assert!(on_dark(&g.board));
    }
}

#[test]
fn offered_sequences_are_chains() {
    let mut board: Board = [[None; 10]; 10];
    board[9][0] = king(Player::White);
    board[7][2] = man(Player::Black);
    board[4][3] = man(Player::Black);
    board[5][6] = man(Player::Black);
    let g = state(board, Player::White);
    let moves = g.list_valid_moves();
    assert!(!moves.is_empty());
    let best = moves.iter().map(|s| s.1.len()).max().unwrap();
    for (seq, caps) in &moves {
        assert!(!seq.is_empty());
        assert_eq!(g.board[seq[0].from.0][seq[0].from.1], king(Player::White));
        for w in seq.windows(2) {
            assert_eq!(w[0].to, w[1].from);
        }
        assert_eq!(caps.len(), seq.len());
        assert_eq!(caps.len(), best);
        for c in caps {
            assert_eq!(g.board[c.0][c.1].map(|p| p.player), Some(Player::Black));
        }
    }
    assert!(best >= 2);
}
