use tournament_core::player::Player;
use tournament_core::swiss::{Outcome, ScoreConfig};

#[test]
fn new_player_has_an_empty_record() {
    let player = Player::new("Bob".to_string(), 7);
    assert_eq!(player.get_name(), "Bob");
    assert_eq!(player.get_number(), 7);
    assert_eq!(player.extract_record(), (0, 0, 0));
    assert_eq!(player.get_record(), (0, 0, 0));
    assert_eq!(player.get_last_opponent(), None);
    assert!(player.get_matches().is_empty());
}

#[test]
fn from_information_keeps_every_part() {
    let history = vec![(3, Outcome::Win), (5, Outcome::Tie), (0, Outcome::Win)];
    let player = Player::from_information("Alice".to_string(), 2, (2, 0, 1), history.clone());
    assert_eq!(player.get_name(), "Alice");
    assert_eq!(player.get_number(), 2);
    assert_eq!(player.get_record(), (2, 0, 1));
    assert_eq!(player.get_matches(), &history[..]);
    assert_eq!(player.get_last_opponent(), Some((0, Outcome::Win)));
}

#[test]
fn match_points_weigh_the_record() {
    let player = Player::from_information("p".to_string(), 1, (2, 1, 3), Vec::new());
    assert_eq!(player.caluculate_match_points(ScoreConfig { win: 3, loss: 0, tie: 1 }), 9);
    assert_eq!(player.caluculate_match_points(ScoreConfig { win: 2, loss: 1, tie: 0 }), 5);
    assert_eq!(player.caluculate_match_points(ScoreConfig { win: 0, loss: 0, tie: 0 }), 0);
    assert_eq!(player.caluculate_match_points(ScoreConfig { win: 10, loss: 20, tie: 30 }), 130);
}

#[test]
fn match_points_depend_on_the_record_alone() {
    let scoring = ScoreConfig { win: 3, loss: 0, tie: 1 };
    let one = Player::from_information("one".to_string(), 1, (4, 2, 1), Vec::new());
    let other = Player::from_information(
        "other".to_string(),
        900,
        (4, 2, 1),
        vec![(1, Outcome::Loss), (2, Outcome::Win)],
    );
    assert_eq!(one.caluculate_match_points(scoring), 13);
    assert_eq!(other.caluculate_match_points(scoring), 13);
    assert_eq!(one.caluculate_match_points(scoring), one.caluculate_match_points(scoring));
}

#[test]
fn match_points_fit_tells_the_byte_limit() {
    let scoring = ScoreConfig { win: 3, loss: 0, tie: 1 };
    let at_limit = Player::from_information("a".to_string(), 1, (85, 200, 0), Vec::new());
    assert!(at_limit.match_points_fit(scoring));
    assert_eq!(at_limit.caluculate_match_points(scoring), 255);
    let over = Player::from_information("b".to_string(), 2, (85, 0, 1), Vec::new());
    assert!(!over.match_points_fit(scoring));
    let far_over = Player::from_information("c".to_string(), 3, (255, 255, 255), Vec::new());
    assert!(!far_over.match_points_fit(ScoreConfig { win: 255, loss: 255, tie: 255 }));
}

#[test]
fn mark_result_counts_and_leaves_the_history() {
    let mut player = Player::new("p".to_string(), 1);
    player.mark_result(Outcome::Win);
    player.mark_result(Outcome::Win);
    player.mark_result(Outcome::Loss);
    player.mark_result(Outcome::Tie);
    assert_eq!(player.extract_record(), (2, 1, 1));
    assert!(player.get_matches().is_empty());
}

#[test]
fn add_opponent_records_and_leaves_the_counters() {
    let mut player = Player::new("p".to_string(), 1);
    player.add_opponent(4, Outcome::Loss);
    player.add_opponent(9, Outcome::Tie);
    assert_eq!(player.extract_record(), (0, 0, 0));
    assert_eq!(player.get_matches(), &[(4, Outcome::Loss), (9, Outcome::Tie)][..]);
    assert_eq!(player.get_last_opponent(), Some((9, Outcome::Tie)));
}
