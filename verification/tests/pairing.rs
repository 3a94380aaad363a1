use tournament_core::player::Player;
use tournament_core::swiss::{Outcome, Pairing, BYE_PLAYER_NUMBER};

fn player(number: u16) -> Player {
    Player::new(number.to_string(), number)
}

#[test]
fn new_pairing_is_undeclared() {
    let pairing = Pairing::new(player(1), Some(player(2)));
    assert!(!pairing.is_delcared());
    assert_eq!(pairing.get_outcome(), None);
    let (p1, p2) = pairing.get_players();
    assert_eq!(p1.get_number(), 1);
    assert_eq!(p2.unwrap().get_number(), 2);
}

#[test]
fn undeclared_pairing_hands_players_back_unchanged() {
    let pairing = Pairing::new(player(1), Some(player(2)));
    let (p1, p2) = pairing.extract_players();
    assert_eq!(p1, player(1));
    assert_eq!(p2, Some(player(2)));
}

#[test]
fn win_credits_primary_win_and_secondary_loss() {
    let mut pairing = Pairing::new(player(1), Some(player(2)));
    pairing.give_outcome(Outcome::Win);
    assert!(pairing.is_delcared());
    let (p1, p2) = pairing.extract_players();
    let p2 = p2.unwrap();
    assert_eq!(p1.extract_record(), (1, 0, 0));
    assert_eq!(p2.extract_record(), (0, 1, 0));
    assert_eq!(p1.get_matches(), &[(2, Outcome::Win)][..]);
    assert_eq!(p2.get_matches(), &[(1, Outcome::Loss)][..]);
}

#[test]
fn loss_credits_primary_loss_and_secondary_win() {
    let mut pairing = Pairing::new(player(1), Some(player(2)));
    pairing.give_outcome(Outcome::Loss);
    let (p1, p2) = pairing.extract_players();
    let p2 = p2.unwrap();
    assert_eq!(p1.extract_record(), (0, 1, 0));
    assert_eq!(p2.extract_record(), (1, 0, 0));
    assert_eq!(p1.get_last_opponent(), Some((2, Outcome::Loss)));
    assert_eq!(p2.get_last_opponent(), Some((1, Outcome::Win)));
}

#[test]
fn tie_credits_both_with_a_tie() {
    let mut pairing = Pairing::new(player(1), Some(player(2)));
    pairing.give_outcome(Outcome::Tie);
    let (p1, p2) = pairing.extract_players();
    let p2 = p2.unwrap();
    assert_eq!(p1.extract_record(), (0, 0, 1));
    assert_eq!(p2.extract_record(), (0, 0, 1));
    assert_eq!(p1.get_last_opponent(), Some((2, Outcome::Tie)));
    assert_eq!(p2.get_last_opponent(), Some((1, Outcome::Tie)));
}

#[test]
fn bye_credits_a_win_against_the_reserved_number() {
    let mut pairing = Pairing::new(player(5), None);
    pairing.give_outcome(Outcome::Win);
    let (p1, p2) = pairing.extract_players();
    assert!(p2.is_none());
    assert_eq!(p1.extract_record(), (1, 0, 0));
    assert_eq!(BYE_PLAYER_NUMBER, 0);
    assert_eq!(p1.get_matches(), &[(BYE_PLAYER_NUMBER, Outcome::Win)][..]);
}

#[test]
fn bye_is_a_win_whatever_is_declared() {
    for declared in [Outcome::Loss, Outcome::Tie, Outcome::Win] {
        let mut pairing = Pairing::new(player(5), None);
        pairing.give_outcome(declared);
        assert_eq!(pairing.get_outcome(), Some(Outcome::Win));
        let (p1, _) = pairing.extract_players();
        assert_eq!(p1.extract_record(), (1, 0, 0));
        assert_eq!(p1.get_last_opponent(), Some((0, Outcome::Win)));
    }
}

#[test]
fn later_declaration_replaces_the_earlier() {
    let mut pairing = Pairing::new(player(1), Some(player(2)));
    pairing.give_outcome(Outcome::Win);
    pairing.give_outcome(Outcome::Tie);
    assert_eq!(pairing.get_outcome(), Some(Outcome::Tie));
    let (p1, p2) = pairing.extract_players();
    assert_eq!(p1.extract_record(), (0, 0, 1));
    assert_eq!(p2.unwrap().extract_record(), (0, 0, 1));
}

#[test]
fn p1_wins_and_p2_wins_declare_from_the_primary_side() {
    let mut pairing = Pairing::new(player(1), Some(player(2)));
    pairing.p1_wins();
    assert_eq!(pairing.get_outcome(), Some(Outcome::Win));
    pairing.p2_wins();
    assert_eq!(pairing.get_outcome(), Some(Outcome::Loss));
    let (p1, p2) = pairing.extract_players();
    assert_eq!(p1.extract_record(), (0, 1, 0));
    assert_eq!(p2.unwrap().extract_record(), (1, 0, 0));
}

#[test]
fn resolution_keeps_history_as_long_as_the_record() {
    let mut p1 = player(1);
    let mut p2 = player(2);
    for outcome in [Outcome::Win, Outcome::Tie, Outcome::Loss, Outcome::Win] {
        let mut pairing = Pairing::new(p1, Some(p2));
        pairing.give_outcome(outcome);
        let (a, b) = pairing.extract_players();
        p1 = a;
        p2 = b.unwrap();
        for p in [&p1, &p2] {
            let (wins, losses, ties) = p.extract_record();
            assert_eq!(p.get_matches().len(), (wins + losses + ties) as usize);
        }
    }
    assert_eq!(p1.extract_record(), (2, 1, 1));
    assert_eq!(p2.extract_record(), (1, 2, 1));
}

#[test]
fn can_be_resolved_sees_a_full_counter() {
    let full = Player::from_information("full".to_string(), 1, (255, 0, 0), Vec::new());
    let mut pairing = Pairing::new(full, Some(player(2)));
    assert!(pairing.can_be_resolved());
    pairing.give_outcome(Outcome::Win);
    assert!(!pairing.can_be_resolved());
    pairing.give_outcome(Outcome::Loss);
    assert!(pairing.can_be_resolved());
    let full = Player::from_information("full".to_string(), 1, (0, 255, 0), Vec::new());
    let mut pairing = Pairing::new(player(2), Some(full));
    pairing.give_outcome(Outcome::Win);
    assert!(!pairing.can_be_resolved());
}
