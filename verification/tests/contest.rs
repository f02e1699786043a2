use backend::contest::{
    game_result, has_room_for_game, record_game, record_result, schedule_games, tally_games,
    GameResult, Record,
};
use backend::game::{GameStatus, Player};
use rand::rngs::SmallRng;
use rand::SeedableRng;
use std::collections::HashSet;

#[test]
fn round_robin_schedule() {
    let mut rng = SmallRng::seed_from_u64(7);
    let games = schedule_games(4, &mut rng);
    assert_eq!(games.len(), 12);
    let set: HashSet<(usize, usize)> = games.iter().copied().collect();
    assert_eq!(set.len(), 12);
    for a in 0..4 {
        for b in 0..4 {
            assert_eq!(set.contains(&(a, b)), a != b);
        }
    }
    let mut ordered = games.clone();
    ordered.sort();
    assert_ne!(games, ordered);
    assert!(schedule_games(1, &mut rng).is_empty());
    assert!(schedule_games(0, &mut rng).is_empty());
}

#[test]
fn results_of_games() {
    assert_eq!(game_result(0, GameStatus::Running), None);
    assert_eq!(
        game_result(0, GameStatus::Draw),
        Some(GameResult { winner: Player::White, loser: Player::Black, draw: true })
    );
    assert_eq!(
        game_result(3, GameStatus::Victory(Player::Black)),
        Some(GameResult { winner: Player::Black, loser: Player::White, draw: false })
    );
    assert_eq!(
        game_result(100, GameStatus::Victory(Player::Black)),
        Some(GameResult { winner: Player::White, loser: Player::Black, draw: true })
    );
}

#[test]
fn records_of_players() {
    let a = Record { wins: 2, losses: 1, draws: 0 };
    let b = Record::default();
    assert_eq!(b, Record { wins: 0, losses: 0, draws: 0 });
    assert_eq!(
        record_result(a, b, false),
        (Record { wins: 3, losses: 1, draws: 0 }, Record { wins: 0, losses: 1, draws: 0 })
    );
    assert_eq!(
        record_result(a, b, true),
        (Record { wins: 2, losses: 1, draws: 1 }, Record { wins: 0, losses: 0, draws: 1 })
    );
}

#[test]
fn records_by_contestant() {
    let mut records = vec![Record::default(); 3];
    record_game(&mut records, 2, 0, false);
    record_game(&mut records, 0, 1, true);
    assert_eq!(records[0], Record { wins: 0, losses: 1, draws: 1 });
    assert_eq!(records[1], Record { wins: 0, losses: 0, draws: 1 });
    assert_eq!(records[2], Record { wins: 1, losses: 0, draws: 0 });
    let full = Record { wins: u16::MAX, losses: 0, draws: 0 };
    assert!(!has_room_for_game(full, Record::default(), false));
    assert!(has_room_for_game(full, Record::default(), true));
}

#[test]
fn tallying_a_tournament() {
    let games = vec![(0, 1, false), (1, 2, false), (2, 0, true), (0, 2, false), (1, 0, true)];
    let records = tally_games(4, &games);
    assert_eq!(records.len(), 4);
    assert_eq!(records[0], Record { wins: 2, losses: 0, draws: 2 });
    assert_eq!(records[1], Record { wins: 1, losses: 1, draws: 1 });
    assert_eq!(records[2], Record { wins: 0, losses: 2, draws: 1 });
    assert_eq!(records[3], Record::default());
    let wins: u16 = records.iter().map(|r| r.wins).sum();
    let losses: u16 = records.iter().map(|r| r.losses).sum();
    let draws: u16 = records.iter().map(|r| r.draws).sum();
    assert_eq!(wins, losses);
    assert_eq!(draws, 4);
    assert!(tally_games(2, &vec![]).iter().all(|r| *r == Record::default()));
}

#[test]
fn everyone_plays_twice_against_each_other() {
    let mut rng = SmallRng::seed_from_u64(3);
    let games = schedule_games(5, &mut rng);
    for c in 0..5 {
        assert_eq!(games.iter().filter(|g| g.0 == c || g.1 == c).count(), 8);
    }
}
