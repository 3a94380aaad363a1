//! The stored form of a tournament: a flat record of bytes.
//!
//! The record holds the tournament's name, a line feed, the round number and
//! the number of competitors, each as two bytes with the low byte first, and
//! then one entry per competitor of the pool: the name, a line feed, the
//! number as two bytes, and for each round that the round number counts the
//! opponent's number as two bytes and one byte for the outcome. Names are
//! stored as UTF-8. The counts of wins, losses and ties are not stored: they
//! are counted again from the histories. The pairings of a round in progress
//! are not stored either.

use vstd::prelude::*;
use vstd::slice::{slice_subrange, slice_to_vec};
use vstd::utf8::{decode_utf8, encode_utf8, encode_utf8_decode_utf8, valid_utf8};

use crate::player::{tally, views, Player, PlayerView};
use crate::swiss::Outcome;
use crate::tournament::{TournamentIOError, TournamentView};

verus! {

/// The byte that ends a name.
pub const LINE_FEED: u8 = 10;

/// The byte that stands for an outcome.
pub open spec fn outcome_code(outcome: Outcome) -> u8 {
    match outcome {
        Outcome::Win => 0,
        Outcome::Loss => 1,
        Outcome::Tie => 2,
    }
}

/// The outcome that a byte stands for, if any.
pub open spec fn outcome_of(code: u8) -> Option<Outcome> {
    if code == 0 {
        Some(Outcome::Win)
    } else if code == 1 {
        Some(Outcome::Loss)
    } else if code == 2 {
        Some(Outcome::Tie)
    } else {
        None
    }
}

/// A number as two bytes, the low byte first.
pub open spec fn le16(number: u16) -> Seq<u8> {
    seq![(number % 256) as u8, (number / 256) as u8]
}

/// The number that two bytes stand for, the low byte first.
pub open spec fn from_le16(low: u8, high: u8) -> u16 {
    (low + 256 * high) as u16
}

/// One match of a history: the opponent's number, then the outcome.
pub open spec fn entry_record(entry: (u16, Outcome)) -> Seq<u8> {
    le16(entry.0).push(outcome_code(entry.1))
}

/// The matches of a history one after the other.
pub open spec fn history_record(history: Seq<(u16, Outcome)>) -> Seq<u8>
    decreases history.len(),
{
    if history.len() == 0 {
        Seq::empty()
    } else {
        entry_record(history.first()) + history_record(history.drop_first())
    }
}

/// One competitor: name, line feed, number, and the first `rounds` matches.
pub open spec fn player_record(player: PlayerView, rounds: int) -> Seq<u8> {
    encode_utf8(player.name).push(LINE_FEED) + le16(player.number) + history_record(
        player.history.take(rounds),
    )
}

/// The competitors one after the other.
pub open spec fn players_record(players: Seq<PlayerView>, rounds: int) -> Seq<u8>
    decreases players.len(),
{
    if players.len() == 0 {
        Seq::empty()
    } else {
        player_record(players.first(), rounds) + players_record(players.drop_first(), rounds)
    }
}

/// The whole record.
pub open spec fn tournament_record(tournament: TournamentView) -> Seq<u8> {
    encode_utf8(tournament.name).push(LINE_FEED) + le16(tournament.round_number) + le16(
        tournament.players.len() as u16,
    ) + players_record(tournament.players, tournament.round_number as int)
}

/// The record can be written: the number of competitors fits two bytes, and
/// every competitor has played the rounds that the round number counts.
pub open spec fn is_storable(tournament: TournamentView) -> bool {
    &&& tournament.players.len() <= u16::MAX
    &&& forall|i: int|
        0 <= i < tournament.players.len() ==> (#[trigger] tournament.players[i]).history.len()
            >= tournament.round_number
}

/// A history grows at its end as its record does.
pub proof fn lemma_history_record_push(history: Seq<(u16, Outcome)>, entry: (u16, Outcome))
    ensures
        history_record(history.push(entry)) == history_record(history) + entry_record(entry),
    decreases history.len(),
{
    let longer = history.push(entry);
    if history.len() == 0 {
        assert(longer.drop_first() == Seq::<(u16, Outcome)>::empty());
        assert(history_record(longer.drop_first()) == Seq::<u8>::empty());
        assert(history_record(longer) == history_record(history) + entry_record(entry));
    } else {
        lemma_history_record_push(history.drop_first(), entry);
        assert(longer.drop_first() == history.drop_first().push(entry));
        assert(history_record(longer) == history_record(history) + entry_record(entry));
    }
}

/// A list of competitors grows at its end as its record does.
pub proof fn lemma_players_record_push(players: Seq<PlayerView>, player: PlayerView, rounds: int)
    ensures
        players_record(players.push(player), rounds) == players_record(players, rounds)
            + player_record(player, rounds),
    decreases players.len(),
{
    let longer = players.push(player);
    if players.len() == 0 {
        assert(longer.drop_first() == Seq::<PlayerView>::empty());
        assert(players_record(longer.drop_first(), rounds) == Seq::<u8>::empty());
        assert(players_record(longer, rounds) == players_record(players, rounds) + player_record(
            player,
            rounds,
        ));
    } else {
        lemma_players_record_push(players.drop_first(), player, rounds);
        assert(longer.drop_first() == players.drop_first().push(player));
        assert(players_record(longer, rounds) == players_record(players, rounds) + player_record(
            player,
            rounds,
        ));
    }
}

/// Appends the bytes to the record under construction.
pub fn append(out: &mut Vec<u8>, bytes: &[u8])
    ensures
        final(out)@ == old(out)@ + bytes@,
{
    let mut idx: usize = 0;
    while idx < bytes.len()
        invariant
            idx <= bytes@.len(),
            out@ == old(out)@ + bytes@.take(idx as int),
        decreases bytes@.len() - idx,
    {
        out.push(bytes[idx]);
        assert(bytes@.take(idx + 1) == bytes@.take(idx as int).push(bytes@[idx as int]));
        idx += 1;
    }
    assert(bytes@.take(bytes@.len() as int) == bytes@);
}

/// Appends a number as two bytes, the low byte first.
pub fn append_u16(out: &mut Vec<u8>, number: u16)
    ensures
        final(out)@ == old(out)@ + le16(number),
{
    out.push((number % 256) as u8);
    out.push((number / 256) as u8);
    assert(out@ == old(out)@ + le16(number));
}

impl Outcome {
    /// The byte that stands for the outcome in a record.
    pub fn code(self) -> (code: u8)
        ensures
            code == outcome_code(self),
    {
        match self {
            Outcome::Win => 0,
            Outcome::Loss => 1,
            Outcome::Tie => 2,
        }
    }

    /// The outcome that a byte of a record stands for, if any.
    pub fn from_code(code: u8) -> (outcome: Option<Outcome>)
        ensures
            outcome == outcome_of(code),
    {
        if code == 0 {
            Some(Outcome::Win)
        } else if code == 1 {
            Some(Outcome::Loss)
        } else if code == 2 {
            Some(Outcome::Tie)
        } else {
            None
        }
    }
}

/// Appends the first `rounds` matches of a history.
pub fn append_history(out: &mut Vec<u8>, matches: &[(u16, Outcome)], rounds: u16)
    requires
        rounds <= matches@.len(),
    ensures
        final(out)@ == old(out)@ + history_record(matches@.take(rounds as int)),
{
    let mut idx: usize = 0;
    assert(matches@.take(0) == Seq::<(u16, Outcome)>::empty());
    while idx < rounds as usize
        invariant
            idx <= rounds <= matches@.len(),
            out@ == old(out)@ + history_record(matches@.take(idx as int)),
        decreases rounds - idx,
    {
        let (opp_num, outcome) = matches[idx];
        let ghost before = out@;
        append_u16(out, opp_num);
        out.push(outcome.code());
        proof {
            let done = matches@.take(idx as int);
            assert(matches@.take(idx + 1) == done.push(matches@[idx as int]));
            lemma_history_record_push(done, matches@[idx as int]);
            assert(out@ == before + entry_record(matches@[idx as int]));
        }
        idx += 1;
    }
}

/// Where the line that starts at `from` ends: at the first line feed from
/// there on, or at the end of the bytes where there is none.
pub open spec fn line_end(bytes: Seq<u8>, from: int) -> int
    decreases bytes.len() - from,
{
    if from < 0 || from >= bytes.len() {
        bytes.len() as int
    } else if bytes[from] == LINE_FEED {
        from
    } else {
        line_end(bytes, from + 1)
    }
}

/// A name read at `from`, and where reading goes on: behind the line feed.
pub open spec fn parse_name(bytes: Seq<u8>, from: int) -> Result<
    (Seq<char>, int),
    TournamentIOError,
> {
    let end = line_end(bytes, from);
    let line = bytes.subrange(from, end);
    if !valid_utf8(line) {
        Err(TournamentIOError::InvalidName)
    } else if end >= bytes.len() {
        Err(TournamentIOError::UnexpectedEnd)
    } else {
        Ok((decode_utf8(line), end + 1))
    }
}

/// A number read at `from`, and where reading goes on.
pub open spec fn parse_u16(bytes: Seq<u8>, from: int) -> Result<(u16, int), TournamentIOError> {
    if from + 2 <= bytes.len() {
        Ok((from_le16(bytes[from], bytes[from + 1]), from + 2))
    } else {
        Err(TournamentIOError::UnexpectedEnd)
    }
}

/// The result of reading on after `done` was read: what comes is appended.
pub open spec fn after<T>(done: Seq<T>, rest: Result<(Seq<T>, int), TournamentIOError>) -> Result<
    (Seq<T>, int),
    TournamentIOError,
> {
    match rest {
        Ok((later, end)) => Ok((done + later, end)),
        Err(fault) => Err(fault),
    }
}

/// The matches of `rounds` rounds read at `from`, and where reading goes on.
pub open spec fn parse_history(bytes: Seq<u8>, from: int, rounds: nat) -> Result<
    (Seq<(u16, Outcome)>, int),
    TournamentIOError,
>
    decreases rounds,
{
    if rounds == 0 {
        Ok((Seq::empty(), from))
    } else if from + 3 > bytes.len() {
        Err(TournamentIOError::UnexpectedEnd)
    } else {
        match outcome_of(bytes[from + 2]) {
            Some(outcome) => after(
                seq![(from_le16(bytes[from], bytes[from + 1]), outcome)],
                parse_history(bytes, from + 3, (rounds - 1) as nat),
            ),
            None => Err(TournamentIOError::InvalidResultFound(bytes[from + 2])),
        }
    }
}

/// One competitor read at `from`, and where reading goes on. The record of
/// wins, losses and ties is counted from the matches.
pub open spec fn parse_player(bytes: Seq<u8>, from: int, rounds: nat) -> Result<
    (PlayerView, int),
    TournamentIOError,
> {
    match parse_name(bytes, from) {
        Ok((name, at_number)) => match parse_u16(bytes, at_number) {
            Ok((number, at_history)) => match parse_history(bytes, at_history, rounds) {
                Ok((history, end)) => if tally(history, Outcome::Win) > u8::MAX || tally(
                    history,
                    Outcome::Loss,
                ) > u8::MAX || tally(history, Outcome::Tie) > u8::MAX {
                    Err(TournamentIOError::PlayerHasTooManyRounds(u8::MAX as u16, rounds as u16))
                } else {
                    Ok(
                        (
                            PlayerView {
                                name,
                                number,
                                wins: tally(history, Outcome::Win),
                                losses: tally(history, Outcome::Loss),
                                ties: tally(history, Outcome::Tie),
                                history,
                            },
                            end,
                        ),
                    )
                },
                Err(fault) => Err(fault),
            },
            Err(fault) => Err(fault),
        },
        Err(fault) => Err(fault),
    }
}

/// `count` competitors read at `from`, and where reading goes on.
pub open spec fn parse_players(bytes: Seq<u8>, from: int, count: nat, rounds: nat) -> Result<
    (Seq<PlayerView>, int),
    TournamentIOError,
>
    decreases count,
{
    if count == 0 {
        Ok((Seq::empty(), from))
    } else {
        match parse_player(bytes, from, rounds) {
            Ok((player, next)) => after(
                seq![player],
                parse_players(bytes, next, (count - 1) as nat, rounds),
            ),
            Err(fault) => Err(fault),
        }
    }
}

/// The tournament that a record stands for, or the first fault met in reading
/// it from the start. Bytes behind the last competitor are not looked at.
pub open spec fn parse_tournament(bytes: Seq<u8>) -> Result<TournamentView, TournamentIOError> {
    match parse_name(bytes, 0) {
        Ok((name, at_round)) => match parse_u16(bytes, at_round) {
            Ok((round_number, at_count)) => match parse_u16(bytes, at_count) {
                Ok((count, at_players)) => match parse_players(
                    bytes,
                    at_players,
                    count as nat,
                    round_number as nat,
                ) {
                    Ok((players, _)) => Ok(
                        TournamentView { name, round_number, players, pairings: Seq::empty() },
                    ),
                    Err(fault) => Err(fault),
                },
                Err(fault) => Err(fault),
            },
            Err(fault) => Err(fault),
        },
        Err(fault) => Err(fault),
    }
}

/// `String::from_utf8` of std, with its error dropped: a string comes back
/// exactly where the bytes are UTF-8, and it holds these bytes.
#[verifier::external_body]
fn text_from_utf8(bytes: Vec<u8>) -> (text: Option<String>)
    ensures
        text is Some <==> valid_utf8(bytes@),
        text matches Some(t) ==> encode_utf8(t@) == bytes@,
{
    String::from_utf8(bytes).ok()
}

/// Reads a name at `from`.
pub fn read_name(bytes: &[u8], from: usize) -> (read: Result<(String, usize), TournamentIOError>)
    requires
        from <= bytes@.len(),
    ensures
        match read {
            Ok((name, next)) => {
                &&& parse_name(bytes@, from as int) matches Ok(parsed)
                &&& parsed == (name@, next as int)
                &&& next <= bytes@.len()
            },
            Err(fault) => parse_name(bytes@, from as int) matches Err(met) && met == fault,
        },
{
    let mut end: usize = from;
    while end < bytes.len() && bytes[end] != LINE_FEED
        invariant
            from <= end <= bytes@.len(),
            line_end(bytes@, from as int) == line_end(bytes@, end as int),
        decreases bytes@.len() - end,
    {
        end += 1;
    }
    let line = slice_to_vec(slice_subrange(bytes, from, end));
    match text_from_utf8(line) {
        Some(name) => {
            if end >= bytes.len() {
                Err(TournamentIOError::UnexpectedEnd)
            } else {
                proof {
                    encode_utf8_decode_utf8(name@);
                }
                Ok((name, end + 1))
            }
        },
        None => Err(TournamentIOError::InvalidName),
    }
}

/// Reads a number at `from`.
pub fn read_u16(bytes: &[u8], from: usize) -> (read: Result<(u16, usize), TournamentIOError>)
    requires
        from <= bytes@.len(),
    ensures
        match read {
            Ok((number, next)) => {
                &&& parse_u16(bytes@, from as int) matches Ok(parsed)
                &&& parsed == (number, next as int)
                &&& next <= bytes@.len()
            },
            Err(fault) => parse_u16(bytes@, from as int) matches Err(met) && met == fault,
        },
{
    if bytes.len() - from < 2 {
        return Err(TournamentIOError::UnexpectedEnd);
    }
    let low: u16 = bytes[from] as u16;
    let high: u16 = bytes[from + 1] as u16;
    Ok((low + 256 * high, from + 2))
}

/// Reads the matches of `rounds` rounds at `from`.
pub fn read_history(bytes: &[u8], from: usize, rounds: u16) -> (read: Result<
    (Vec<(u16, Outcome)>, usize),
    TournamentIOError,
>)
    requires
        from <= bytes@.len(),
    ensures
        match read {
            Ok((history, next)) => {
                &&& parse_history(bytes@, from as int, rounds as nat) matches Ok(parsed)
                &&& parsed == (history@, next as int)
                &&& next <= bytes@.len()
            },
            Err(fault) => parse_history(bytes@, from as int, rounds as nat) matches Err(met) && met
                == fault,
        },
{
    let ghost whole = parse_history(bytes@, from as int, rounds as nat);
    let mut matches: Vec<(u16, Outcome)> = Vec::new();
    let mut at: usize = from;
    let mut round: u16 = 0;
    assert(matches@ + Seq::<(u16, Outcome)>::empty() == matches@);
    while round < rounds
        invariant
            round <= rounds,
            at <= bytes@.len(),
            whole == parse_history(bytes@, from as int, rounds as nat),
            after(matches@, parse_history(bytes@, at as int, (rounds - round) as nat)) == whole,
        decreases rounds - round,
    {
        if bytes.len() - at < 3 {
            return Err(TournamentIOError::UnexpectedEnd);
        }
        let low: u16 = bytes[at] as u16;
        let high: u16 = bytes[at + 1] as u16;
        let opp_number: u16 = low + 256 * high;
        let outcome = match Outcome::from_code(bytes[at + 2]) {
            Some(outcome) => outcome,
            None => {
                return Err(TournamentIOError::InvalidResultFound(bytes[at + 2]));
            },
        };
        proof {
            let rest = parse_history(bytes@, at + 3, (rounds - round - 1) as nat);
            match rest {
                Ok((later, end)) => {
                    assert(matches@.push((opp_number, outcome)) + later == matches@ + (seq![
                        (opp_number, outcome),
                    ] + later));
                },
                Err(_) => {},
            }
        }
        matches.push((opp_number, outcome));
        at += 3;
        round += 1;
    }
    assert(matches@ + Seq::<(u16, Outcome)>::empty() == matches@);
    Ok((matches, at))
}

/// Counts the matches of a history by outcome: wins, losses, ties.
pub fn count_results(history: &Vec<(u16, Outcome)>) -> (counts: (usize, usize, usize))
    ensures
        counts.0 == tally(history@, Outcome::Win),
        counts.1 == tally(history@, Outcome::Loss),
        counts.2 == tally(history@, Outcome::Tie),
{
    let mut wins: usize = 0;
    let mut losses: usize = 0;
    let mut ties: usize = 0;
    let mut idx: usize = 0;
    assert(history@.take(0) == Seq::<(u16, Outcome)>::empty());
    while idx < history.len()
        invariant
            idx <= history@.len(),
            wins == tally(history@.take(idx as int), Outcome::Win),
            losses == tally(history@.take(idx as int), Outcome::Loss),
            ties == tally(history@.take(idx as int), Outcome::Tie),
            wins + losses + ties == idx,
        decreases history@.len() - idx,
    {
        assert(history@.take(idx + 1).drop_last() == history@.take(idx as int));
        match history[idx].1 {
            Outcome::Win => wins += 1,
            Outcome::Loss => losses += 1,
            Outcome::Tie => ties += 1,
        }
        idx += 1;
    }
    assert(history@.take(history@.len() as int) == history@);
    (wins, losses, ties)
}

/// Reads one competitor at `from`, with the matches of `rounds` rounds.
pub fn read_player(bytes: &[u8], from: usize, rounds: u16) -> (read: Result<
    (Player, usize),
    TournamentIOError,
>)
    requires
        from <= bytes@.len(),
    ensures
        match read {
            Ok((player, next)) => {
                &&& parse_player(bytes@, from as int, rounds as nat) matches Ok(parsed)
                &&& parsed == (player@, next as int)
                &&& next <= bytes@.len()
            },
            Err(fault) => parse_player(bytes@, from as int, rounds as nat) matches Err(met) && met
                == fault,
        },
{
    let (player_name, at_number) = match read_name(bytes, from) {
        Ok(read) => read,
        Err(fault) => {
            return Err(fault);
        },
    };
    let (player_number, at_history) = match read_u16(bytes, at_number) {
        Ok(read) => read,
        Err(fault) => {
            return Err(fault);
        },
    };
    let (matches, next) = match read_history(bytes, at_history, rounds) {
        Ok(read) => read,
        Err(fault) => {
            return Err(fault);
        },
    };
    let (wins, losses, ties) = count_results(&matches);
    if wins > 255 || losses > 255 || ties > 255 {
        return Err(TournamentIOError::PlayerHasTooManyRounds(255, rounds));
    }
    let player = Player::from_information(
        player_name,
        player_number,
        (wins as u8, losses as u8, ties as u8),
        matches,
    );
    Ok((player, next))
}

/// Reads `count` competitors at `from`, each with the matches of `rounds`
/// rounds.
pub fn read_players(bytes: &[u8], from: usize, count: u16, rounds: u16) -> (read: Result<
    (Vec<Player>, usize),
    TournamentIOError,
>)
    requires
        from <= bytes@.len(),
    ensures
        match read {
            Ok((players, next)) => {
                &&& parse_players(bytes@, from as int, count as nat, rounds as nat) matches Ok(
                    parsed,
                )
                &&& parsed == (views(players@), next as int)
                &&& next <= bytes@.len()
            },
            Err(fault) => parse_players(bytes@, from as int, count as nat, rounds as nat) matches Err(
                met,
            ) && met == fault,
        },
{
    let ghost whole = parse_players(bytes@, from as int, count as nat, rounds as nat);
    let mut players: Vec<Player> = Vec::new();
    let mut at: usize = from;
    let mut idx: u16 = 0;
    assert(views(players@) + Seq::<PlayerView>::empty() == views(players@));
    while idx < count
        invariant
            idx <= count,
            at <= bytes@.len(),
            whole == parse_players(bytes@, from as int, count as nat, rounds as nat),
            after(
                views(players@),
                parse_players(bytes@, at as int, (count - idx) as nat, rounds as nat),
            ) == whole,
        decreases count - idx,
    {
        let (player, next) = match read_player(bytes, at, rounds) {
            Ok(read) => read,
            Err(fault) => {
                return Err(fault);
            },
        };
        proof {
            let rest = parse_players(bytes@, next as int, (count - idx - 1) as nat, rounds as nat);
            assert(views(players@.push(player)) == views(players@).push(player@));
            match rest {
                Ok((later, end)) => {
                    assert(views(players@).push(player@) + later == views(players@) + (seq![
                        player@,
                    ] + later));
                },
                Err(_) => {},
            }
        }
        players.push(player);
        at = next;
        idx += 1;
    }
    assert(views(players@) + Seq::<PlayerView>::empty() == views(players@));
    Ok((players, at))
}

} // verus!
