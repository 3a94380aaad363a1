use tournament_core::player::Player;
use tournament_core::swiss::{
    generate_pairings, Outcome, Pairing, PairingError, ScoreConfig,
};

const SCORES: ScoreConfig = ScoreConfig { win: 3, tie: 1, loss: 0 };

fn generate_players(number: u16) -> Vec<Player> {
    (1..number + 1).map(|num| Player::new(num.to_string(), num)).collect()
}

fn collect_players(matches: Vec<Pairing>) -> Vec<Player> {
    matches
        .into_iter()
        .flat_map(|e| {
            let (p1, p2) = e.extract_players();
            [Some(p1), p2]
        })
        .flatten()
        .collect::<Vec<Player>>()
}

fn numbers_of(matches: &[Pairing]) -> Vec<u16> {
    let mut numbers = Vec::new();
    for pair in matches {
        let (p1, p2) = pair.get_players();
        numbers.push(p1.get_number());
        if let Some(p2) = p2 {
            numbers.push(p2.get_number());
        }
    }
    numbers.sort();
    numbers
}

#[test]
fn four_player_all_tie() {
    let mut players = generate_players(4);

    let mut matches = generate_pairings(&mut players, SCORES).expect("round 1");
    for pair in &mut matches {
        pair.give_outcome(Outcome::Tie);
    }

    let mut players = matches
        .into_iter()
        .flat_map(|e| {
            let (p1, p2) = e.extract_players();
            [Some(p1), p2]
        })
        .flatten()
        .collect::<Vec<Player>>();

    assert!(players.iter().all(|p| p.extract_record() == (0, 0, 1)));

    matches = generate_pairings(&mut players, SCORES).expect("round 2");
    assert_eq!(2, matches.len());
}

#[test]
fn four_players_one_down_pair() {
    let mut players = generate_players(4);
    let mut matches = generate_pairings(&mut players, SCORES).expect("round 1");

    matches[0].give_outcome(Outcome::Win);
    matches[1].give_outcome(Outcome::Tie);

    let mut players = matches
        .into_iter()
        .flat_map(|e| {
            let (p1, p2) = e.extract_players();
            [Some(p1), p2]
        })
        .flatten()
        .collect::<Vec<Player>>();

    matches = generate_pairings(&mut players, SCORES).expect("round 2");
    let (p1, p2) = matches[0].get_players();
    assert_eq!(p1.extract_record(), (1, 0, 0));
    assert_eq!(p2.unwrap().extract_record(), (0, 0, 1));

    let (p1, p2) = matches[1].get_players();
    assert_eq!(p1.extract_record(), (0, 0, 1));
    assert_eq!(p2.unwrap().extract_record(), (0, 1, 0));
}

#[test]
#[should_panic]
fn two_players_round_2() {
    let mut players = generate_players(2);
    let mut matches = generate_pairings(&mut players, SCORES).expect("round 1");
    matches[0].give_outcome(Outcome::Win);

    let mut players = matches
        .into_iter()
        .flat_map(|e| {
            let (p1, p2) = e.extract_players();
            [Some(p1), p2]
        })
        .flatten()
        .collect::<Vec<Player>>();

    let _matches = generate_pairings(&mut players, SCORES).expect("round 2");
}

#[test]
fn stress_test() {
    let mut players = generate_players(64);
    for _ in 0..12 {
        let mut matches = generate_pairings(&mut players, SCORES).expect("round");
        for m in &mut matches[1..] {
            m.give_outcome(Outcome::Win);
        }

        // throw some chaos in there !
        matches[0].give_outcome(Outcome::Tie);

        players = matches
            .into_iter()
            .flat_map(|e| {
                let (p1, p2) = e.extract_players();
                [Some(p1), p2]
            })
            .flatten()
            .collect::<Vec<Player>>();
    }
}

#[test]
fn not_test() {
    assert_eq!(!Outcome::Win, Outcome::Loss);
    assert_eq!(!Outcome::Loss, Outcome::Win);
    assert_eq!(!Outcome::Tie, Outcome::Tie)
}

#[test]
fn four_fresh_players_make_two_full_pairings() {
    let mut players = generate_players(4);
    let matches = generate_pairings(&mut players, SCORES).expect("round 1");
    assert!(players.is_empty());
    assert_eq!(matches.len(), 2);
    for pair in &matches {
        assert!(pair.get_players().1.is_some());
        assert!(!pair.is_delcared());
    }
    assert_eq!(numbers_of(&matches), vec![1, 2, 3, 4]);
}

#[test]
fn all_tie_round_two_repeats_no_match() {
    for _ in 0..50 {
        let mut players = generate_players(4);
        let mut matches = generate_pairings(&mut players, SCORES).expect("round 1");
        let mut met: Vec<(u16, u16)> = Vec::new();
        for pair in &mut matches {
            pair.give_outcome(Outcome::Tie);
            let (p1, p2) = pair.get_players();
            met.push((p1.get_number(), p2.unwrap().get_number()));
        }
        let mut players = collect_players(matches);
        assert!(players.iter().all(|p| p.caluculate_match_points(SCORES) == 1));
        let matches = generate_pairings(&mut players, SCORES).expect("round 2");
        assert_eq!(matches.len(), 2);
        assert_eq!(numbers_of(&matches), vec![1, 2, 3, 4]);
        for pair in &matches {
            let (p1, p2) = pair.get_players();
            let a = p1.get_number();
            let b = p2.unwrap().get_number();
            assert!(!met.contains(&(a, b)));
            assert!(!met.contains(&(b, a)));
        }
    }
}

#[test]
fn stranded_rematch_gives_the_pool_back() {
    let mut players = generate_players(2);
    let mut matches = generate_pairings(&mut players, SCORES).expect("round 1");
    matches[0].give_outcome(Outcome::Win);
    let mut players = collect_players(matches);
    let round = generate_pairings(&mut players, SCORES);
    assert_eq!(round, Err(PairingError::StrandedRematch));
    assert_eq!(players.len(), 2);
    let mut numbers: Vec<u16> = players.iter().map(|p| p.get_number()).collect();
    numbers.sort();
    assert_eq!(numbers, vec![1, 2]);
    let mut records: Vec<(u8, u8, u8)> = players.iter().map(|p| p.extract_record()).collect();
    records.sort();
    assert_eq!(records, vec![(0, 1, 0), (1, 0, 0)]);
}

#[test]
fn two_tied_players_strand_in_round_two() {
    let mut players = generate_players(2);
    let mut matches = generate_pairings(&mut players, SCORES).expect("round 1");
    matches[0].give_outcome(Outcome::Tie);
    let mut players = collect_players(matches);
    assert_eq!(generate_pairings(&mut players, SCORES), Err(PairingError::StrandedRematch));
    assert_eq!(players.len(), 2);
}

#[test]
fn empty_pool_makes_no_pairing() {
    let mut players: Vec<Player> = Vec::new();
    let matches = generate_pairings(&mut players, SCORES).expect("empty round");
    assert!(matches.is_empty());
}

#[test]
fn single_player_gets_the_bye() {
    let mut players = generate_players(1);
    let matches = generate_pairings(&mut players, SCORES).expect("round");
    assert_eq!(matches.len(), 1);
    let (p1, p2) = matches[0].get_players();
    assert_eq!(p1.get_number(), 1);
    assert!(p2.is_none());
}

#[test]
fn odd_pool_has_one_bye_and_it_is_last() {
    for count in [3u16, 5, 7, 9, 33] {
        let mut players = generate_players(count);
        let matches = generate_pairings(&mut players, SCORES).expect("round");
        assert!(players.is_empty());
        assert_eq!(matches.len(), (count as usize + 1) / 2);
        let byes = matches.iter().filter(|m| m.get_players().1.is_none()).count();
        assert_eq!(byes, 1);
        assert!(matches.last().unwrap().get_players().1.is_none());
        let expected: Vec<u16> = (1..count + 1).collect();
        assert_eq!(numbers_of(&matches), expected);
    }
}

#[test]
fn even_pool_has_no_bye() {
    for count in [2u16, 4, 6, 10, 64] {
        let mut players = generate_players(count);
        let matches = generate_pairings(&mut players, SCORES).expect("round");
        assert_eq!(matches.len(), count as usize / 2);
        assert!(matches.iter().all(|m| m.get_players().1.is_some()));
        let expected: Vec<u16> = (1..count + 1).collect();
        assert_eq!(numbers_of(&matches), expected);
    }
}

#[test]
fn every_round_keeps_every_player_once() {
    let mut players = generate_players(17);
    for _ in 0..5 {
        let mut matches = generate_pairings(&mut players, SCORES).expect("round");
        let expected: Vec<u16> = (1..18).collect();
        assert_eq!(numbers_of(&matches), expected);
        for m in &mut matches {
            m.give_outcome(Outcome::Win);
        }
        players = collect_players(matches);
        assert_eq!(players.len(), 17);
    }
}

#[test]
fn rematch_only_where_the_primary_was_carried_down() {
    for _ in 0..20 {
        let mut players = generate_players(16);
        for round in 0..6 {
            let mut matches = generate_pairings(&mut players, SCORES).expect("round");
            for pair in &matches {
                let (p1, p2) = pair.get_players();
                if let Some(p2) = p2 {
                    let repeats = match p1.get_last_opponent() {
                        Some((number, _)) => number == p2.get_number(),
                        None => false,
                    };
                    let carried_down =
                        p1.caluculate_match_points(SCORES) > p2.caluculate_match_points(SCORES);
                    assert!(!repeats || carried_down);
                    if round == 0 {
                        assert!(!repeats);
                    }
                }
            }
            for (idx, m) in matches.iter_mut().enumerate() {
                m.give_outcome(if idx % 3 == 0 { Outcome::Tie } else { Outcome::Win });
            }
            players = collect_players(matches);
        }
    }
}

#[test]
fn players_meet_within_their_score() {
    let mut players = Vec::new();
    for num in 1..5u16 {
        players.push(Player::from_information(num.to_string(), num, (2, 0, 0), Vec::new()));
    }
    for num in 5..9u16 {
        players.push(Player::from_information(num.to_string(), num, (0, 2, 0), Vec::new()));
    }
    let matches = generate_pairings(&mut players, SCORES).expect("round");
    assert_eq!(matches.len(), 4);
    for (idx, pair) in matches.iter().enumerate() {
        let (p1, p2) = pair.get_players();
        let p2 = p2.unwrap();
        assert_eq!(p1.extract_record(), p2.extract_record());
        if idx < 2 {
            assert_eq!(p1.caluculate_match_points(SCORES), 6);
        } else {
            assert_eq!(p1.caluculate_match_points(SCORES), 0);
        }
    }
}

#[test]
fn the_bucket_order_is_left_to_chance() {
    let mut seen: Vec<Vec<(u16, u16)>> = Vec::new();
    for _ in 0..20 {
        let mut players = generate_players(64);
        let matches = generate_pairings(&mut players, SCORES).expect("round");
        let order: Vec<(u16, u16)> = matches
            .iter()
            .map(|m| {
                let (p1, p2) = m.get_players();
                (p1.get_number(), p2.unwrap().get_number())
            })
            .collect();
        seen.push(order);
    }
    let unshuffled: Vec<(u16, u16)> = (0..32u16).map(|i| (2 * i + 1, 2 * i + 2)).collect();
    assert!(seen.iter().any(|order| *order != unshuffled));
    assert!(seen.iter().any(|order| *order != seen[0]));
}

#[test]
fn running_tournament_repeats_no_match_at_all() {
    for count in [16u16, 17] {
        let mut players = generate_players(count);
        for _ in 0..5 {
            let mut matches = generate_pairings(&mut players, SCORES).expect("round");
            for pair in &matches {
                let (p1, p2) = pair.get_players();
                if let Some(p2) = p2 {
                    assert_ne!(p1.get_last_opponent().map(|last| last.0), Some(p2.get_number()));
                    assert_ne!(p2.get_last_opponent().map(|last| last.0), Some(p1.get_number()));
                }
            }
            for (idx, m) in matches.iter_mut().enumerate() {
                m.give_outcome(if count == 16 && idx % 3 == 0 { Outcome::Tie } else { Outcome::Win });
            }
            players = collect_players(matches);
        }
    }
}
