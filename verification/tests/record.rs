use tournament_core::player::Player;
use tournament_core::record::{
    append, append_history, append_u16, count_results, read_history, read_name, read_player,
    read_players, read_u16,
};
use tournament_core::swiss::Outcome;
use tournament_core::tournament::{Tournament, TournamentIOError};

fn two_round_record() -> Vec<u8> {
    let mut bytes = Vec::new();
    bytes.extend_from_slice(b"Spring Open\n");
    bytes.extend_from_slice(&[2, 0]);
    bytes.extend_from_slice(&[2, 0]);
    bytes.extend_from_slice(b"Bob\n");
    bytes.extend_from_slice(&[1, 0]);
    bytes.extend_from_slice(&[0x02, 0x01, 0]);
    bytes.extend_from_slice(&[0, 0, 0]);
    bytes.extend_from_slice("Zo\u{eb}\n".as_bytes());
    bytes.extend_from_slice(&[0x02, 0x01]);
    bytes.extend_from_slice(&[1, 0, 1]);
    bytes.extend_from_slice(&[7, 0, 2]);
    bytes
}

#[test]
fn outcome_codes_are_nought_one_two() {
    assert_eq!(Outcome::Win.code(), 0);
    assert_eq!(Outcome::Loss.code(), 1);
    assert_eq!(Outcome::Tie.code(), 2);
    assert_eq!(Outcome::from_code(0), Some(Outcome::Win));
    assert_eq!(Outcome::from_code(1), Some(Outcome::Loss));
    assert_eq!(Outcome::from_code(2), Some(Outcome::Tie));
    assert_eq!(Outcome::from_code(3), None);
    assert_eq!(Outcome::from_code(255), None);
}

#[test]
fn numbers_are_stored_low_byte_first() {
    let mut out = vec![9];
    append_u16(&mut out, 0x0102);
    append_u16(&mut out, 0);
    append_u16(&mut out, 65535);
    append_u16(&mut out, 256);
    assert_eq!(out, vec![9, 2, 1, 0, 0, 255, 255, 0, 1]);
    assert_eq!(read_u16(&out, 1), Ok((0x0102, 3)));
    assert_eq!(read_u16(&out, 5), Ok((65535, 7)));
    assert_eq!(read_u16(&out, 7), Ok((256, 9)));
    assert_eq!(read_u16(&out, 8), Err(TournamentIOError::UnexpectedEnd));
    assert_eq!(read_u16(&out, 9), Err(TournamentIOError::UnexpectedEnd));
}

#[test]
fn append_puts_the_bytes_behind() {
    let mut out = vec![1, 2];
    append(&mut out, &[3, 4, 5]);
    append(&mut out, &[]);
    assert_eq!(out, vec![1, 2, 3, 4, 5]);
}

#[test]
fn history_is_stored_to_the_round_number() {
    let matches = [(258, Outcome::Loss), (3, Outcome::Tie), (0, Outcome::Win)];
    let mut out = Vec::new();
    append_history(&mut out, &matches, 2);
    assert_eq!(out, vec![2, 1, 1, 3, 0, 2]);
    let mut all = Vec::new();
    append_history(&mut all, &matches, 3);
    assert_eq!(all, vec![2, 1, 1, 3, 0, 2, 0, 0, 0]);
    let mut none = vec![7];
    append_history(&mut none, &matches, 0);
    assert_eq!(none, vec![7]);
}

#[test]
fn names_end_at_the_line_feed() {
    let bytes = b"ab\ncd\n\nrest";
    assert_eq!(read_name(bytes, 0), Ok(("ab".to_string(), 3)));
    assert_eq!(read_name(bytes, 1), Ok(("b".to_string(), 3)));
    assert_eq!(read_name(bytes, 3), Ok(("cd".to_string(), 6)));
    assert_eq!(read_name(bytes, 6), Ok((String::new(), 7)));
    assert_eq!(read_name(bytes, 7), Err(TournamentIOError::UnexpectedEnd));
    assert_eq!(read_name(bytes, 11), Err(TournamentIOError::UnexpectedEnd));
}

#[test]
fn names_are_utf8() {
    let bytes = "Zo\u{eb} \u{4e2d}\n".as_bytes();
    assert_eq!(read_name(bytes, 0), Ok(("Zo\u{eb} \u{4e2d}".to_string(), bytes.len())));
    assert_eq!(read_name(&[b'a', 0xff, b'\n'], 0), Err(TournamentIOError::InvalidName));
    assert_eq!(read_name(&[0xc3, b'\n'], 0), Err(TournamentIOError::InvalidName));
    assert_eq!(read_name(&[0xff], 0), Err(TournamentIOError::InvalidName));
}

#[test]
fn history_reads_as_many_matches_as_rounds() {
    let bytes = [9, 2, 1, 1, 3, 0, 2, 0, 0, 0];
    assert_eq!(
        read_history(&bytes, 1, 3),
        Ok((vec![(258, Outcome::Loss), (3, Outcome::Tie), (0, Outcome::Win)], 10))
    );
    assert_eq!(read_history(&bytes, 1, 1), Ok((vec![(258, Outcome::Loss)], 4)));
    assert_eq!(read_history(&bytes, 1, 0), Ok((Vec::new(), 1)));
    assert_eq!(read_history(&bytes, 1, 4), Err(TournamentIOError::UnexpectedEnd));
    assert_eq!(read_history(&bytes, 8, 1), Err(TournamentIOError::UnexpectedEnd));
    assert_eq!(read_history(&bytes, 0, 1), Ok((vec![(521, Outcome::Loss)], 3)));
}

#[test]
fn bad_result_code_is_named() {
    assert_eq!(read_history(&[1, 0, 3], 0, 1), Err(TournamentIOError::InvalidResultFound(3)));
    assert_eq!(
        read_history(&[1, 0, 0, 1, 0, 200], 0, 2),
        Err(TournamentIOError::InvalidResultFound(200))
    );
    assert_eq!(
        read_history(&[1, 0, 9, 1, 0], 0, 2),
        Err(TournamentIOError::InvalidResultFound(9))
    );
}

#[test]
fn results_are_counted_by_outcome() {
    let history = vec![
        (1, Outcome::Win),
        (2, Outcome::Tie),
        (3, Outcome::Win),
        (4, Outcome::Loss),
        (5, Outcome::Win),
    ];
    assert_eq!(count_results(&history), (3, 1, 1));
    assert_eq!(count_results(&Vec::new()), (0, 0, 0));
}

#[test]
fn player_is_read_with_counted_record() {
    let bytes = b"Bob\n\x05\x00\x02\x00\x00\x03\x00\x02\x04\x00\x00rest";
    let (player, next) = read_player(bytes, 0, 3).expect("player");
    assert_eq!(next, 15);
    assert_eq!(player.get_name(), "Bob");
    assert_eq!(player.get_number(), 5);
    assert_eq!(player.get_record(), (2, 0, 1));
    assert_eq!(
        player.get_matches(),
        &[(2, Outcome::Win), (3, Outcome::Tie), (4, Outcome::Win)][..]
    );
    assert_eq!(read_player(bytes, 0, 4).err(), Some(TournamentIOError::InvalidResultFound(b's')));
    assert_eq!(read_player(&bytes[..15], 0, 4).err(), Some(TournamentIOError::UnexpectedEnd));
    assert_eq!(read_player(b"Bob", 0, 0).err(), Some(TournamentIOError::UnexpectedEnd));
    assert_eq!(read_player(b"Bob\n\x05", 0, 0).err(), Some(TournamentIOError::UnexpectedEnd));
}

#[test]
fn players_are_read_one_after_the_other() {
    let bytes = b"a\n\x01\x00b\n\x02\x00c\n\x03\x00";
    let (players, next) = read_players(bytes, 0, 3, 0).expect("players");
    assert_eq!(next, bytes.len());
    let numbers: Vec<u16> = players.iter().map(|p| p.get_number()).collect();
    assert_eq!(numbers, vec![1, 2, 3]);
    let (two, next) = read_players(bytes, 0, 2, 0).expect("players");
    assert_eq!((two.len(), next), (2, 8));
    assert_eq!(read_players(bytes, 0, 4, 0).err(), Some(TournamentIOError::UnexpectedEnd));
    assert_eq!(read_players(bytes, 0, 0, 0), Ok((Vec::new(), 0)));
}

#[test]
fn too_many_results_of_one_kind_are_refused() {
    let mut bytes = Vec::new();
    bytes.extend_from_slice(b"Bob\n\x01\x00");
    for _ in 0..256 {
        bytes.extend_from_slice(&[2, 0, 0]);
    }
    assert_eq!(
        read_player(&bytes, 0, 256).err(),
        Some(TournamentIOError::PlayerHasTooManyRounds(255, 256))
    );
    let (player, _) = read_player(&bytes, 0, 255).expect("player");
    assert_eq!(player.get_record(), (255, 0, 0));
}

#[test]
fn new_tournament_is_stored_without_matches() {
    let players = vec![Player::new("Bob".to_string(), 1), Player::new("Alice".to_string(), 513)];
    let tournament = Tournament::new("Open".to_string(), players);
    assert!(tournament.can_be_stored());
    assert_eq!(tournament.encode(), b"Open\n\x00\x00\x02\x00Bob\n\x01\x00Alice\n\x01\x02".to_vec());
}

#[test]
fn empty_tournament_is_stored_as_its_head() {
    let tournament = Tournament::new(String::new(), Vec::new());
    assert_eq!(tournament.encode(), vec![b'\n', 0, 0, 0, 0]);
    let read = Tournament::decode(&[b'\n', 0, 0, 0, 0]).expect("record");
    assert!(read.get_players().is_empty());
    assert!(read.get_pairings().is_empty());
}

#[test]
fn record_is_read_with_histories_and_counted_records() {
    let tournament = Tournament::decode(&two_round_record()).expect("record");
    let players = tournament.get_players();
    assert_eq!(players.len(), 2);
    assert!(tournament.get_pairings().is_empty());
    assert_eq!(players[0].get_name(), "Bob");
    assert_eq!(players[0].get_number(), 1);
    assert_eq!(players[0].get_record(), (2, 0, 0));
    assert_eq!(players[0].get_matches(), &[(258, Outcome::Win), (0, Outcome::Win)][..]);
    assert_eq!(players[1].get_name(), "Zo\u{eb}");
    assert_eq!(players[1].get_number(), 258);
    assert_eq!(players[1].get_record(), (0, 1, 1));
    assert_eq!(players[1].get_matches(), &[(1, Outcome::Loss), (7, Outcome::Tie)][..]);
}

#[test]
fn reading_and_writing_again_gives_the_same_record() {
    let record = two_round_record();
    let tournament = Tournament::decode(&record).expect("record");
    assert!(tournament.can_be_stored());
    assert_eq!(tournament.encode(), record);
}

#[test]
fn writing_and_reading_again_keeps_records_and_points() {
    let mut tournament = Tournament::new("Open".to_string(), Vec::new());
    for num in 1..9u16 {
        tournament.add_player(Player::new(format!("player {}", num), num));
    }
    let read = Tournament::decode(&tournament.encode()).expect("record");
    assert_eq!(read.get_players(), tournament.get_players());

    let stored = Tournament::decode(&two_round_record()).expect("record");
    let again = Tournament::decode(&stored.encode()).expect("record");
    assert_eq!(again.get_players(), stored.get_players());
    let scoring = tournament_core::swiss::default_scoring();
    for (before, after) in stored.get_players().iter().zip(again.get_players()) {
        assert_eq!(
            before.caluculate_match_points(scoring),
            after.caluculate_match_points(scoring)
        );
    }
    assert_eq!(again.get_players()[0].caluculate_match_points(scoring), 6);
    assert_eq!(again.get_players()[1].caluculate_match_points(scoring), 1);
}

#[test]
fn bytes_behind_the_last_player_are_not_read() {
    let mut record = two_round_record();
    record.extend_from_slice(&[0xff, 0xff, 0xff]);
    let tournament = Tournament::decode(&record).expect("record");
    assert_eq!(tournament.get_players().len(), 2);
}

#[test]
fn cut_record_is_refused_at_every_length() {
    let record = two_round_record();
    for len in 0..record.len() {
        let expected = if len == 31 {
            // the cut falls into the two bytes of a letter of the second name
            TournamentIOError::InvalidName
        } else {
            TournamentIOError::UnexpectedEnd
        };
        assert_eq!(Tournament::decode(&record[..len]).err(), Some(expected), "cut at {}", len);
    }
}

#[test]
fn record_with_bad_result_is_refused() {
    let mut record = two_round_record();
    let last = record.len() - 1;
    record[last] = 3;
    assert_eq!(Tournament::decode(&record).err(), Some(TournamentIOError::InvalidResultFound(3)));
}

#[test]
fn record_with_bad_name_is_refused() {
    let mut record = two_round_record();
    record[0] = 0xff;
    assert_eq!(Tournament::decode(&record).err(), Some(TournamentIOError::InvalidName));
    let mut record = two_round_record();
    record[16] = 0x80;
    assert_eq!(Tournament::decode(&record).err(), Some(TournamentIOError::InvalidName));
}

#[test]
fn late_entry_without_history_cannot_be_stored() {
    let mut tournament = Tournament::decode(&two_round_record()).expect("record");
    assert!(tournament.can_be_stored());
    tournament.add_player(Player::new("late".to_string(), 9));
    assert!(!tournament.can_be_stored());
}

#[test]
fn longer_history_is_stored_to_the_round_number() {
    let history = vec![(2, Outcome::Win), (3, Outcome::Loss)];
    let player = Player::from_information("Bob".to_string(), 1, (1, 1, 0), history);
    let tournament = Tournament::new("Open".to_string(), vec![player]);
    assert!(tournament.can_be_stored());
    assert_eq!(tournament.encode(), b"Open\n\x00\x00\x01\x00Bob\n\x01\x00".to_vec());
}

#[test]
fn tournament_comes_back_after_rounds_with_records_and_points() {
    let players = (1..10u16).map(|num| Player::new(format!("player {}", num), num)).collect();
    let mut tournament = Tournament::new("Autumn Open".to_string(), players);
    for round in 0..4 {
        assert!(tournament.start_round().is_ok());
        for idx in 0..tournament.get_pairings().len() {
            let outcome = match (idx + round) % 3 {
                0 => Outcome::Win,
                1 => Outcome::Loss,
                _ => Outcome::Tie,
            };
            assert!(tournament.report_match(idx, outcome).is_ok());
        }
        assert!(tournament.finilze_round().is_ok());
    }
    assert!(tournament.can_be_stored());
    let record = tournament.encode();
    let read = Tournament::decode(&record).expect("record");
    assert_eq!(read.get_name(), "Autumn Open");
    assert_eq!(read.get_round_number(), 4);
    assert_eq!(read.get_players(), tournament.get_players());
    let scoring = tournament_core::swiss::default_scoring();
    for (before, after) in tournament.get_players().iter().zip(read.get_players()) {
        assert_eq!(before.get_record(), after.get_record());
        assert_eq!(
            before.caluculate_match_points(scoring),
            after.caluculate_match_points(scoring)
        );
        assert_eq!(after.get_matches().len(), 4);
    }
    assert_eq!(read.encode(), record);
}
