use backend::game::{AIError, Board, Error, GameState, GameStatus, Move, Piece, PieceType, Player};
use backend::play::{is_readable_move_list, sequences_to_string, to_move_sequence, AiOutput, Game};

fn m(x1: usize, y1: usize, x2: usize, y2: usize) -> Move {
    Move { from: (x1, y1), to: (x2, y2) }
}

fn man(player: Player) -> Option<Piece> {
    Some(Piece { type_: PieceType::Man, player })
}

#[test]
fn reads_moves_of_a_program() {
    assert_eq!(to_move_sequence("61,50;50,41"), vec![m(6, 1, 5, 0), m(5, 0, 4, 1)]);
    assert_eq!(to_move_sequence(";;61,50;"), vec![m(6, 1, 5, 0)]);
    assert_eq!(to_move_sequence(""), Vec::<Move>::new());
    // Characters past the fifth are ignored, and any character counts from '0'.
    assert_eq!(to_move_sequence("61,50xyz"), vec![m(6, 1, 5, 0)]);
    assert_eq!(to_move_sequence("a1,00"), vec![m(49, 1, 0, 0)]);
}

#[test]
fn readability_of_moves() {
    assert!(is_readable_move_list("61,50;50,41"));
    assert!(is_readable_move_list(""));
    assert!(is_readable_move_list(";"));
    assert!(!is_readable_move_list("6"));
    assert!(!is_readable_move_list("61,50;61,5"));
    assert!(!is_readable_move_list("61,5 "));
    assert!(!is_readable_move_list("61,50;/1,50"));
}

#[test]
fn written_moves_read_back() {
    let moves = vec![m(5, 2, 3, 0), m(3, 0, 1, 2), m(1, 2, 3, 4)];
    let line: Vec<String> = moves
        .iter()
        .map(|mv| format!("{}{},{}{}", mv.from.0, mv.from.1, mv.to.0, mv.to.1))
        .collect();
    assert_eq!(to_move_sequence(&line.join(";")), moves);
}

#[test]
fn listing_for_a_program() {
    let mut board: Board = [[None; 10]; 10];
    board[5][2] = man(Player::White);
    let g = GameState { board, current_player: Player::White, status: GameStatus::Running, turns: 0 };
    assert_eq!(sequences_to_string(&g.list_valid_moves()), "52,43;52,41;\n");
    assert_eq!(sequences_to_string(&Vec::new()), "\n");

    let mut board: Board = [[None; 10]; 10];
    board[5][2] = man(Player::White);
    board[4][1] = man(Player::Black);
    board[2][1] = man(Player::Black);
    let g = GameState { board, current_player: Player::White, status: GameStatus::Running, turns: 0 };
    assert_eq!(sequences_to_string(&g.list_valid_moves()), "52,30:30,12;\n");
}

#[test]
fn judging_a_program_move() {
    let game = Game { checkers: GameState::default(), human_player: Player::Black };
    let ok = game.accept_ai_move("61,50".to_string(), "hello".to_string());
    match ok {
        Ok(AiOutput { move_, console }) => {
            assert_eq!(move_, "61,50");
            assert_eq!(console, "hello");
        }
        Err(_) => panic!("the move is offered"),
    }
    let bad = game.accept_ai_move("61,41".to_string(), "out".to_string());
    match bad {
        Err(Error::AIFailed { error, ai_output, move_ }) => {
            assert_eq!(error, AIError::InvalidMove);
            assert_eq!(ai_output, "out");
            assert_eq!(move_, Some(vec![m(6, 1, 4, 1)]));
        }
        _ => panic!("the move is not offered"),
    }
}

#[test]
fn settling_a_program_turn() {
    let mut game = Game { checkers: GameState::default(), human_player: Player::Black };
    let out = Ok(AiOutput { move_: "61,50".to_string(), console: String::new() });
    game.settle_ai_turn(&out);
    assert_eq!(game.checkers.board[5][0], man(Player::White));
    assert_eq!(game.checkers.current_player, Player::Black);

    let refused = Ok(AiOutput { move_: "30,41".to_string(), console: String::new() });
    let mut other = Game { checkers: GameState::default(), human_player: Player::Black };
    other.settle_ai_turn(&refused);
    assert_eq!(other.checkers.current_player, Player::White);
    assert_eq!(other.checkers.board, GameState::default().board);

    // The side to move is White, whose program failed: Black wins.
    let mut failed = Game { checkers: GameState::default(), human_player: Player::White };
    let err: Result<AiOutput, Error> = Err(Error::AIFailed {
        error: AIError::EmptySubmission,
        ai_output: String::new(),
        move_: None,
    });
    failed.settle_ai_turn(&err);
    assert_eq!(failed.checkers.status, GameStatus::Victory(Player::Black));

    let mut missing = Game { checkers: GameState::default(), human_player: Player::White };
    missing.settle_ai_turn(&Err(Error::NotFound));
    assert_eq!(missing.checkers.status, GameStatus::Running);
}

#[test]
fn human_plays() {
    let mut game = Game { checkers: GameState::default(), human_player: Player::White };
    assert!(game.play_human(vec![m(6, 3, 5, 4)]).is_ok());
    assert_eq!(game.checkers.board[5][4], man(Player::White));
    assert!(matches!(game.play_human(vec![m(6, 5, 5, 4)]), Err(Error::InvalidMove)));
}

#[test]
fn judging_a_run() {
    let game = Game { checkers: GameState::default(), human_player: Player::Black };
    match game.judge_run(None, false, "out".to_string()) {
        Err(Error::AIFailed { error, ai_output, move_ }) => {
            assert_eq!(error, AIError::EmptySubmission);
            assert_eq!(ai_output, "out\nProgram timed out after >5s without output");
            assert_eq!(move_, None);
        }
        _ => panic!("a timed out program fails"),
    }
    match game.judge_run(Some("61,50".to_string()), false, "crash".to_string()) {
        Err(Error::AIFailed { error, ai_output, move_ }) => {
            assert_eq!(error, AIError::EmptySubmission);
            assert_eq!(ai_output, "crash");
            assert_eq!(move_, None);
        }
        _ => panic!("a failed program fails"),
    }
    assert!(game.judge_run(Some("61,50".to_string()), true, String::new()).is_ok());
    assert!(matches!(
        game.judge_run(Some("61,41".to_string()), true, String::new()),
        Err(Error::AIFailed { error: AIError::InvalidMove, .. })
    ));
}
