use backend::game::{Board, GameState, GameStatus, Move, MoveSequence, Piece, PieceType, Player};
use core::hash::Hash;
use std::collections::HashSet;

fn p(type_: char, player: char) -> Option<Piece> {
    Some(Piece {
        type_: match type_ {
            'M' => PieceType::Man,
            'K' => PieceType::King,
            _ => panic!(),
        },
        player: match player {
            'W' => Player::White,
            'B' => Player::Black,
            _ => panic!(),
        },
    })
}

fn m(x1: usize, y1: usize, x2: usize, y2: usize) -> Move {
    Move {
        from: (x1, y1),
        to: (x2, y2),
    }
}

fn list(board: Board) -> (Vec<MoveSequence>, Vec<MoveSequence>) {
    (
        GameState {
            board: board.clone(),
            current_player: Player::White,
            status: GameStatus::Running,
            turns: 0,
        }
        .list_valid_moves(),
        GameState {
            board,
            current_player: Player::Black,
            status: GameStatus::Running,
            turns: 0,
        }
        .list_valid_moves(),
    )
}

fn iters_equal_anyorder<T: Eq + Hash>(
    mut i1: impl Iterator<Item = T>,
    i2: impl Iterator<Item = T>,
) -> bool {
    let set: HashSet<T> = i2.collect();
    i1.all(|x| set.contains(&x))
}

#[test]
fn empty() {
    let state = GameState {
        board: [
            [None, None, None, None, None, None, None, None, None, None],
            [None, None, None, None, None, None, None, None, None, None],
            [None, None, None, None, None, None, None, None, None, None],
            [None, None, None, None, None, None, None, None, None, None],
            [None, None, None, None, None, None, None, None, None, None],
            [None, None, None, None, None, None, None, None, None, None],
            [None, None, None, None, None, None, None, None, None, None],
            [None, None, None, None, None, None, None, None, None, None],
            [None, None, None, None, None, None, None, None, None, None],
            [None, None, None, None, None, None, None, None, None, None],
        ],
        current_player: Player::White,
        ..Default::default()
    };
    assert!(state.list_valid_moves().is_empty());
}

#[test]
fn trivial_man() {
    let board = [
        [None, None, None, None, None, None, None, None, None, None],
        [None, None, None, None, None, None, None, None, None, None],
        [None, None, None, None, None, None, None, None, None, None],
        [None, None, None, None, None, None, None, None, None, None],
        [None, None, None, None, None, None, None, None, None, None],
        [
            None,
            None,
            p('M', 'W'),
            None,
            None,
            None,
            None,
            None,
            None,
            None,
        ],
        [None, None, None, None, None, None, None, None, None, None],
        [None, None, None, None, None, None, None, None, None, None],
        [None, None, None, None, None, None, None, None, None, None],
        [None, None, None, None, None, None, None, None, None, None],
    ];

    let (white_moves, black_moves) = list(board);

    assert_eq!(white_moves.len(), 2);
    assert!(iters_equal_anyorder(
        white_moves.iter(),
        [(vec![m(5, 2, 4, 1)], vec![]), (vec![m(5, 2, 4, 3)], vec![])].iter()
    ));

    assert!(black_moves.is_empty());
}

#[test]
fn single_capture_man() {
    let board = [
        [None, None, None, None, None, None, None, None, None, None],
        [None, None, None, None, None, None, None, None, None, None],
        [None, None, None, None, None, None, None, None, None, None],
        [None, None, None, None, None, None, None, None, None, None],
        [
            None,
            p('M', 'B'),
            None,
            None,
            None,
            None,
            None,
            None,
            None,
            None,
        ],
        [
            None,
            None,
            p('M', 'W'),
            None,
            None,
            None,
            None,
            None,
            None,
            None,
        ],
        [None, None, None, None, None, None, None, None, None, None],
        [None, None, None, None, None, None, None, None, None, None],
        [None, None, None, None, None, None, None, None, None, None],
        [None, None, None, None, None, None, None, None, None, None],
    ];

    let (white_moves, black_moves) = list(board);

    assert_eq!(white_moves.len(), 1);
    assert!(iters_equal_anyorder(
        white_moves.iter(),
        [(vec![m(5, 2, 3, 0)], vec![(4, 1)])].iter()
    ));

    assert_eq!(black_moves.len(), 1);
    assert!(iters_equal_anyorder(
        black_moves.iter(),
        [(vec![m(4, 1, 6, 3)], vec![(5, 2)])].iter()
    ));
}

#[test]
fn stuck_man() {
    let board = [
        [None, None, None, None, None, None, None, None, None, None],
        [None, None, None, None, None, None, None, None, None, None],
        [None, None, None, None, None, None, None, None, None, None],
        [
            p('M', 'B'),
            None,
            None,
            None,
            None,
            None,
            None,
            None,
            None,
            None,
        ],
        [
            None,
            p('M', 'B'),
            None,
            None,
            None,
            None,
            None,
            None,
            None,
            None,
        ],
        [
            None,
            None,
            p('M', 'W'),
            None,
            None,
            None,
            None,
            None,
            None,
            None,
        ],
        [None, None, None, None, None, None, None, None, None, None],
        [None, None, None, None, None, None, None, None, None, None],
        [None, None, None, None, None, None, None, None, None, None],
        [None, None, None, None, None, None, None, None, None, None],
    ];

    let (white_moves, _) = list(board);

    assert_eq!(white_moves.len(), 1);
    assert!(iters_equal_anyorder(
        white_moves.iter(),
        [(vec![m(5, 2, 4, 3)], vec![])].iter()
    ));
}

#[test]
fn multiple_capture_man() {
    let board = [
        [None, None, None, None, None, None, None, None, None, None],
        [None, None, None, None, None, None, None, None, None, None],
        [
            None,
            p('M', 'B'),
            None,
            None,
            None,
            None,
            None,
            None,
            None,
            None,
        ],
        [None, None, None, None, None, None, None, None, None, None],
        [
            None,
            p('M', 'B'),
            None,
            None,
            None,
            None,
            None,
            None,
            None,
            None,
        ],
        [
            None,
            None,
            p('M', 'W'),
            None,
            None,
            None,
            None,
            None,
            None,
            None,
        ],
        [None, None, None, None, None, None, None, None, None, None],
        [None, None, None, None, None, None, None, None, None, None],
        [None, None, None, None, None, None, None, None, None, None],
        [None, None, None, None, None, None, None, None, None, None],
    ];

    let (white_moves, black_moves) = list(board);

    assert_eq!(white_moves.len(), 1);
    assert!(iters_equal_anyorder(
        white_moves.iter(),
        [(vec![m(5, 2, 3, 0), m(3, 0, 1, 2)], vec![(4, 1), (2, 1)])].iter()
    ));

    assert_eq!(black_moves.len(), 1);
    assert!(iters_equal_anyorder(
        black_moves.iter(),
        [(vec![m(4, 1, 6, 3)], vec![(5, 2)])].iter()
    ));
}

#[test]
fn multiple_capture_backwards_man() {
    let board = [
        [None, None, None, None, None, None, None, None, None, None],
        [None, None, None, None, None, None, None, None, None, None],
        [None, None, None, None, None, None, None, None, None, None],
        [None, None, None, None, None, None, None, None, None, None],
        [
            None,
            None,
            None,
            p('M', 'B'),
            None,
            p('M', 'B'),
            None,
            None,
            None,
            None,
        ],
        [
            None,
            None,
            p('M', 'W'),
            None,
            None,
            None,
            None, //
            None,
            None,
            None,
        ],
        [None, None, None, None, None, None, None, None, None, None],
        [None, None, None, None, None, None, None, None, None, None],
        [None, None, None, None, None, None, None, None, None, None],
        [None, None, None, None, None, None, None, None, None, None],
    ];

    let (white_moves, black_moves) = list(board);

    assert_eq!(white_moves.len(), 1);
    assert!(iters_equal_anyorder(
        white_moves.iter(),
        [(vec![m(5, 2, 3, 4), m(3, 4, 5, 6)], vec![(4, 3), (4, 5)])].iter()
    ));

    assert_eq!(black_moves.len(), 1);
    assert!(iters_equal_anyorder(
        black_moves.iter(),
        [(vec![m(4, 3, 6, 1)], vec![(5, 2)])].iter()
    ));
}

#[test]
fn trivial_king() {
    let board = [
        [None, None, None, None, None, None, None, None, None, None],
        [None, None, None, None, None, None, None, None, None, None],
        [None, None, None, None, None, None, None, None, None, None],
        [None, None, None, None, None, None, None, None, None, None],
        [None, None, None, None, None, None, None, None, None, None],
        [
            None,
            None,
            p('K', 'W'),
            None,
            None,
            None,
            None,
            None,
            None,
            None,
        ],
        [None, None, None, None, None, None, None, None, None, None],
        [None, None, None, None, None, None, None, None, None, None],
        [None, None, None, None, None, None, None, None, None, None],
        [None, None, None, None, None, None, None, None, None, None],
    ];

    let (white_moves, black_moves) = list(board);

    assert_eq!(white_moves.len(), 13);
    assert!(iters_equal_anyorder(
        white_moves.iter(),
        [
            (vec![m(5, 2, 3, 0)], vec![]),
            (vec![m(5, 2, 4, 1)], vec![]),
            (vec![m(5, 2, 6, 3)], vec![]),
            (vec![m(5, 2, 7, 4)], vec![]),
            (vec![m(5, 2, 8, 5)], vec![]),
            (vec![m(5, 2, 9, 6)], vec![]),
            (vec![m(5, 2, 7, 0)], vec![]),
            (vec![m(5, 2, 6, 1)], vec![]),
            (vec![m(5, 2, 4, 3)], vec![]),
            (vec![m(5, 2, 3, 4)], vec![]),
            (vec![m(5, 2, 2, 5)], vec![]),
            (vec![m(5, 2, 1, 6)], vec![]),
            (vec![m(5, 2, 0, 7)], vec![]),
        ]
        .iter()
    ));

    assert!(black_moves.is_empty());
}
