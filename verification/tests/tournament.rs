use tournament_core::player::Player;
use tournament_core::swiss::{default_scoring, Outcome};
use tournament_core::tournament::{Tournament, TournamentError};

fn generate_players(number: u16) -> Vec<Player> {
    (1..number + 1).map(|num| Player::new(num.to_string(), num)).collect()
}

fn pool_numbers(tournament: &Tournament) -> Vec<u16> {
    let mut numbers: Vec<u16> = tournament.get_players().iter().map(|p| p.get_number()).collect();
    numbers.sort();
    numbers
}

#[test]
fn two_plus_two() {
    assert_eq!(2 + 2, 4);
}

#[test]
fn default_scoring_is_three_nought_one() {
    let scoring = default_scoring();
    assert_eq!((scoring.win, scoring.loss, scoring.tie), (3, 0, 1));
}

#[test]
fn new_tournament_has_pool_and_no_round() {
    let tournament = Tournament::new("Open".to_string(), generate_players(6));
    assert_eq!(tournament.get_players().len(), 6);
    assert!(tournament.get_pairings().is_empty());
}

#[test]
fn start_round_pairs_the_whole_pool() {
    let mut tournament = Tournament::new("Open".to_string(), generate_players(6));
    assert!(tournament.start_round().is_ok());
    assert!(tournament.get_players().is_empty());
    assert_eq!(tournament.get_pairings().len(), 3);
    let mut numbers = Vec::new();
    for pairing in tournament.get_pairings() {
        let (p1, p2) = pairing.get_players();
        numbers.push(p1.get_number());
        numbers.push(p2.unwrap().get_number());
    }
    numbers.sort();
    assert_eq!(numbers, vec![1, 2, 3, 4, 5, 6]);
}

#[test]
fn start_round_on_empty_pool_is_turned_down() {
    let mut tournament = Tournament::new("Open".to_string(), Vec::new());
    assert!(matches!(tournament.start_round(), Err(TournamentError::RoundAlreadyStarted)));
    assert!(tournament.get_pairings().is_empty());
}

#[test]
fn start_round_twice_is_turned_down() {
    let mut tournament = Tournament::new("Open".to_string(), generate_players(4));
    assert!(tournament.start_round().is_ok());
    assert!(matches!(tournament.start_round(), Err(TournamentError::RoundAlreadyStarted)));
    assert_eq!(tournament.get_pairings().len(), 2);
}

#[test]
fn start_round_with_late_entry_keeps_the_round() {
    let mut tournament = Tournament::new("Open".to_string(), generate_players(4));
    assert!(tournament.start_round().is_ok());
    tournament.add_player(Player::new("late".to_string(), 9));
    assert!(matches!(tournament.start_round(), Err(TournamentError::RoundAlreadyStarted)));
    assert_eq!(tournament.get_pairings().len(), 2);
    assert_eq!(pool_numbers(&tournament), vec![9]);
}

#[test]
fn report_without_round_is_turned_down() {
    let mut tournament = Tournament::new("Open".to_string(), generate_players(4));
    assert!(matches!(
        tournament.report_match(0, Outcome::Win),
        Err(TournamentError::RoundNotImprogress)
    ));
}

#[test]
fn report_with_bad_index_is_turned_down() {
    let mut tournament = Tournament::new("Open".to_string(), generate_players(4));
    assert!(tournament.start_round().is_ok());
    assert!(matches!(
        tournament.report_match(2, Outcome::Win),
        Err(TournamentError::InvalidMatchIndex(2))
    ));
    assert!(matches!(
        tournament.report_match(5, Outcome::Tie),
        Err(TournamentError::InvalidMatchIndex(5))
    ));
    assert!(tournament.get_pairings().iter().all(|p| !p.is_delcared()));
}

#[test]
fn report_declares_only_the_named_pairing() {
    let mut tournament = Tournament::new("Open".to_string(), generate_players(4));
    assert!(tournament.start_round().is_ok());
    assert!(tournament.report_match(1, Outcome::Loss).is_ok());
    assert_eq!(tournament.get_pairing(0).get_outcome(), None);
    assert_eq!(tournament.get_pairing(1).get_outcome(), Some(Outcome::Loss));
    assert!(tournament.report_match(1, Outcome::Tie).is_ok());
    assert_eq!(tournament.get_pairing(1).get_outcome(), Some(Outcome::Tie));
}

#[test]
fn finish_before_all_results_is_turned_down() {
    let mut tournament = Tournament::new("Open".to_string(), generate_players(4));
    assert!(tournament.start_round().is_ok());
    assert!(tournament.report_match(0, Outcome::Win).is_ok());
    assert!(matches!(tournament.finilze_round(), Err(TournamentError::GamesNotFinished)));
    assert_eq!(tournament.get_pairings().len(), 2);
    assert!(tournament.get_players().is_empty());
}

#[test]
fn finish_returns_the_players_in_pairing_order() {
    let mut tournament = Tournament::new("Open".to_string(), generate_players(5));
    assert!(tournament.start_round().is_ok());
    let mut expected = Vec::new();
    for idx in 0..3 {
        let outcome = if idx == 0 { Outcome::Win } else { Outcome::Tie };
        assert!(tournament.report_match(idx, outcome).is_ok());
        let (p1, p2) = tournament.get_pairing(idx).get_players();
        expected.push(p1.get_number());
        if let Some(p2) = p2 {
            expected.push(p2.get_number());
        }
    }
    assert!(tournament.finilze_round().is_ok());
    assert!(tournament.get_pairings().is_empty());
    let order: Vec<u16> = tournament.get_players().iter().map(|p| p.get_number()).collect();
    assert_eq!(order, expected);
    let records: Vec<(u8, u8, u8)> =
        tournament.get_players().iter().map(|p| p.extract_record()).collect();
    assert_eq!(records, vec![(1, 0, 0), (0, 1, 0), (0, 0, 1), (0, 0, 1), (1, 0, 0)]);
    assert_eq!(tournament.get_players()[4].get_last_opponent(), Some((0, Outcome::Win)));
}

#[test]
fn finish_without_round_changes_nothing() {
    let mut tournament = Tournament::new("Open".to_string(), generate_players(3));
    assert!(tournament.finilze_round().is_ok());
    assert_eq!(pool_numbers(&tournament), vec![1, 2, 3]);
    assert!(tournament.get_pairings().is_empty());
}

#[test]
fn two_players_cannot_play_a_second_round() {
    let mut tournament = Tournament::new("Duel".to_string(), generate_players(2));
    assert!(tournament.start_round().is_ok());
    assert!(tournament.report_match(0, Outcome::Win).is_ok());
    assert!(tournament.finilze_round().is_ok());
    assert!(matches!(tournament.start_round(), Err(TournamentError::StrandedRematch)));
    assert_eq!(pool_numbers(&tournament), vec![1, 2]);
    assert!(tournament.get_pairings().is_empty());
}

#[test]
fn rounds_follow_each_other() {
    let mut tournament = Tournament::new("Open".to_string(), generate_players(32));
    for _ in 0..5 {
        assert!(tournament.start_round().is_ok());
        for idx in 0..tournament.get_pairings().len() {
            assert!(tournament.report_match(idx, Outcome::Win).is_ok());
        }
        assert!(tournament.finilze_round().is_ok());
        assert_eq!(pool_numbers(&tournament), (1..33).collect::<Vec<u16>>());
    }
    for player in tournament.get_players() {
        let (wins, losses, ties) = player.extract_record();
        assert_eq!(wins + losses + ties, 5);
        assert_eq!(player.get_matches().len(), 5);
    }
}

#[test]
fn number_lookup_sees_the_pool() {
    let mut tournament = Tournament::new("Open".to_string(), generate_players(3));
    assert!(tournament.has_player_number(2));
    assert!(!tournament.has_player_number(4));
    tournament.add_player(Player::new("four".to_string(), 4));
    assert!(tournament.has_player_number(4));
}

#[test]
fn finished_rounds_are_counted() {
    let mut tournament = Tournament::new("Open".to_string(), generate_players(4));
    assert_eq!(tournament.get_name(), "Open");
    assert_eq!(tournament.get_round_number(), 0);
    assert!(tournament.finilze_round().is_ok());
    assert_eq!(tournament.get_round_number(), 0);
    for round in 1..4u16 {
        assert!(tournament.start_round().is_ok());
        assert_eq!(tournament.get_round_number(), round - 1);
        for idx in 0..tournament.get_pairings().len() {
            assert!(tournament.report_match(idx, Outcome::Tie).is_ok());
        }
        assert!(tournament.finilze_round().is_ok());
        assert_eq!(tournament.get_round_number(), round);
        assert!(tournament.get_players().iter().all(|p| p.get_matches().len() == round as usize));
    }
}

#[test]
fn refused_finish_counts_no_round() {
    let mut tournament = Tournament::new("Open".to_string(), generate_players(4));
    assert!(tournament.start_round().is_ok());
    assert!(matches!(tournament.finilze_round(), Err(TournamentError::GamesNotFinished)));
    assert_eq!(tournament.get_round_number(), 0);
}
