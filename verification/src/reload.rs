//! Which tournaments can be written as a record, and why a tournament that is
//! written and read again comes back as it was.

use vstd::prelude::*;
use vstd::seq_lib::to_multiset_contains;
use vstd::utf8::{
    char_is_scalar, char_u32_cast, encode_scalar, encode_utf8, encode_utf8_decode_utf8,
    encode_utf8_valid_utf8, is_scalar,
};

use crate::player::{lemma_tallied_is_consistent, PlayerView};
use crate::record::{
    entry_record, from_le16, history_record, is_storable, le16, line_end, outcome_code,
    outcome_of, parse_history, parse_name, parse_player, parse_players, parse_tournament,
    parse_u16, player_record, players_record, tournament_record, LINE_FEED,
};
use crate::round::enrolled;
use crate::steps::lemma_paired_is_enrolled;
use crate::swiss::{Outcome, PairingView, ScoreConfig};
use crate::tournament::{resolved_roster, TournamentView};

verus! {

/// The name has no line feed in it.
pub open spec fn is_one_line(name: Seq<char>) -> bool {
    forall|i: int| 0 <= i < name.len() ==> name[i] != '\n'
}

/// The stored form of a character other than the line feed has no byte that
/// is the line feed.
proof fn lemma_scalar_has_no_feed(scalar: u32)
    requires
        is_scalar(scalar),
        scalar != 10,
    ensures
        forall|i: int|
            0 <= i < encode_scalar(scalar).len() ==> encode_scalar(scalar)[i] != LINE_FEED,
{
    assert(scalar <= 0x7F && scalar != 10 ==> (scalar & 0x7F) as u8 != 10u8) by (bit_vector);
    assert(0xC0u8 | ((scalar >> 6) & 0x1F) as u8 != 10u8) by (bit_vector);
    assert(0xE0u8 | ((scalar >> 12) & 0x0F) as u8 != 10u8) by (bit_vector);
    assert(0xF0u8 | ((scalar >> 18) & 0x7) as u8 != 10u8) by (bit_vector);
    assert(0x80u8 | (scalar & 0x3F) as u8 != 10u8) by (bit_vector);
    assert(0x80u8 | ((scalar >> 6) & 0x3F) as u8 != 10u8) by (bit_vector);
    assert(0x80u8 | ((scalar >> 12) & 0x3F) as u8 != 10u8) by (bit_vector);
}

/// The stored form of a name that is one line has no line feed in it, so the
/// line feed behind it is the first.
pub proof fn lemma_one_line_has_no_feed(name: Seq<char>)
    requires
        is_one_line(name),
    ensures
        forall|i: int| 0 <= i < encode_utf8(name).len() ==> encode_utf8(name)[i] != LINE_FEED,
    decreases name.len(),
{
    if name.len() > 0 {
        let first = name[0] as u32;
        let later = name.drop_first();
        char_is_scalar(name[0]);
        char_u32_cast(name[0], first);
        assert(10u32 as char == '\n');
        assert(first != 10);
        lemma_scalar_has_no_feed(first);
        assert forall|i: int| 0 <= i < later.len() implies later[i] != '\n' by {
            assert(later[i] == name[i + 1]);
        }
        lemma_one_line_has_no_feed(later);
        let head = encode_scalar(first);
        let tail = encode_utf8(later);
        assert(encode_utf8(name) == head + tail);
        assert forall|i: int| 0 <= i < encode_utf8(name).len() implies encode_utf8(name)[i]
            != LINE_FEED by {
            if i < head.len() {
                assert((head + tail)[i] == head[i]);
            } else {
                assert((head + tail)[i] == tail[i - head.len()]);
            }
        }
    }
}

/// The competitor comes back from a record of `rounds` rounds as it is: its
/// name is one line, it has played exactly these rounds, and its record of
/// wins, losses and ties is counted from them and fits the counters.
pub open spec fn player_reloads(player: PlayerView, rounds: int) -> bool {
    &&& is_one_line(player.name)
    &&& player.history.len() == rounds
    &&& player.is_tallied()
    &&& player.wins <= u8::MAX
    &&& player.losses <= u8::MAX
    &&& player.ties <= u8::MAX
}

/// The tournament comes back from its record as it is: no round is in
/// progress, the number of competitors fits two bytes, the names are one line
/// each, and every competitor comes back as it is.
pub open spec fn reloads(tournament: TournamentView) -> bool {
    &&& tournament.pairings == Seq::<PairingView>::empty()
    &&& tournament.players.len() <= u16::MAX
    &&& is_one_line(tournament.name)
    &&& forall|i: int|
        0 <= i < tournament.players.len() ==> player_reloads(
            #[trigger] tournament.players[i],
            tournament.round_number as int,
        )
}

/// The part of the bytes from `from` on starts with `part`.
pub open spec fn holds_at(bytes: Seq<u8>, from: int, part: Seq<u8>) -> bool {
    &&& 0 <= from
    &&& from + part.len() <= bytes.len()
    &&& bytes.subrange(from, from + part.len()) == part
}

/// Bytes that start with two parts in a row start with the first, and go on
/// with the second.
pub proof fn lemma_holds_split(bytes: Seq<u8>, from: int, first: Seq<u8>, second: Seq<u8>)
    requires
        holds_at(bytes, from, first + second),
    ensures
        holds_at(bytes, from, first),
        holds_at(bytes, from + first.len(), second),
{
    let whole = first + second;
    assert forall|i: int| 0 <= i < first.len() implies bytes.subrange(from, from + first.len())[i]
        == first[i] by {
        assert(bytes.subrange(from, from + whole.len())[i] == whole[i]);
    }
    assert(bytes.subrange(from, from + first.len()) == first);
    assert forall|i: int| 0 <= i < second.len() implies bytes.subrange(
        from + first.len(),
        from + first.len() + second.len(),
    )[i] == second[i] by {
        assert(bytes.subrange(from, from + whole.len())[first.len() + i] == whole[first.len() + i]);
    }
    assert(bytes.subrange(from + first.len(), from + first.len() + second.len()) == second);
}

/// A line without a line feed in it ends at the line feed behind it.
proof fn lemma_line_end(bytes: Seq<u8>, from: int, line: Seq<u8>, at: int)
    requires
        holds_at(bytes, from, line.push(LINE_FEED)),
        forall|i: int| 0 <= i < line.len() ==> line[i] != LINE_FEED,
        0 <= at <= line.len(),
    ensures
        line_end(bytes, from + at) == from + line.len(),
    decreases line.len() - at,
{
    let with_feed = line.push(LINE_FEED);
    assert(bytes.subrange(from, from + with_feed.len())[at] == with_feed[at]);
    if at < line.len() {
        lemma_line_end(bytes, from, line, at + 1);
    }
}

/// A stored name that is one line is read back as it was.
pub proof fn lemma_name_reloads(bytes: Seq<u8>, from: int, name: Seq<char>)
    requires
        is_one_line(name),
        holds_at(bytes, from, encode_utf8(name).push(LINE_FEED)),
    ensures
        parse_name(bytes, from) matches Ok(read) && read == (
            name,
            from + encode_utf8(name).len() + 1,
        ),
{
    let line = encode_utf8(name);
    lemma_one_line_has_no_feed(name);
    lemma_line_end(bytes, from, line, 0);
    assert(line.push(LINE_FEED) == line + seq![LINE_FEED]);
    lemma_holds_split(bytes, from, line, seq![LINE_FEED]);
    encode_utf8_valid_utf8(name);
    encode_utf8_decode_utf8(name);
}

/// A stored number is read back as it was.
pub proof fn lemma_u16_reloads(bytes: Seq<u8>, from: int, number: u16)
    requires
        holds_at(bytes, from, le16(number)),
    ensures
        parse_u16(bytes, from) matches Ok(read) && read == (number, from + 2),
{
    let stored = le16(number);
    assert(bytes.subrange(from, from + 2)[0] == stored[0]);
    assert(bytes.subrange(from, from + 2)[1] == stored[1]);
}

/// The record of a history has three bytes for each match.
pub proof fn lemma_history_record_len(history: Seq<(u16, Outcome)>)
    ensures
        history_record(history).len() == 3 * history.len(),
    decreases history.len(),
{
    if history.len() > 0 {
        lemma_history_record_len(history.drop_first());
    }
}

/// A stored history is read back as it was.
pub proof fn lemma_history_reloads(bytes: Seq<u8>, from: int, history: Seq<(u16, Outcome)>)
    requires
        holds_at(bytes, from, history_record(history)),
    ensures
        parse_history(bytes, from, history.len()) matches Ok(read) && read == (
            history,
            from + history_record(history).len(),
        ),
    decreases history.len(),
{
    if history.len() > 0 {
        let first = history.first();
        let later = history.drop_first();
        let stored = entry_record(first);
        lemma_holds_split(bytes, from, stored, history_record(later));
        lemma_history_reloads(bytes, from + 3, later);
        assert(bytes.subrange(from, from + 3)[0] == stored[0]);
        assert(bytes.subrange(from, from + 3)[1] == stored[1]);
        assert(bytes.subrange(from, from + 3)[2] == stored[2]);
        assert(outcome_of(outcome_code(first.1)) == Some(first.1));
        assert(from_le16(bytes[from], bytes[from + 1]) == first.0);
        assert(seq![first] + later == history);
        assert(later.len() == (history.len() - 1) as nat);
        lemma_history_record_len(history);
        lemma_history_record_len(later);
    } else {
        assert(history == Seq::<(u16, Outcome)>::empty());
    }
}

/// A stored competitor is read back as it was.
pub proof fn lemma_player_reloads(bytes: Seq<u8>, from: int, player: PlayerView, rounds: int)
    requires
        0 <= rounds,
        player_reloads(player, rounds),
        holds_at(bytes, from, player_record(player, rounds)),
    ensures
        parse_player(bytes, from, rounds as nat) matches Ok(read) && read == (
            player,
            from + player_record(player, rounds).len(),
        ),
{
    let name = encode_utf8(player.name).push(LINE_FEED);
    let number = le16(player.number);
    let history = history_record(player.history.take(rounds));
    assert(player.history.take(rounds) == player.history);
    assert(player_record(player, rounds) == name + (number + history));
    lemma_holds_split(bytes, from, name, number + history);
    lemma_holds_split(bytes, from + name.len(), number, history);
    lemma_name_reloads(bytes, from, player.name);
    lemma_u16_reloads(bytes, from + name.len(), player.number);
    lemma_history_reloads(bytes, from + name.len() + 2, player.history);
}

/// Stored competitors are read back as they were.
pub proof fn lemma_players_reload(
    bytes: Seq<u8>,
    from: int,
    players: Seq<PlayerView>,
    rounds: int,
)
    requires
        0 <= rounds,
        forall|i: int| 0 <= i < players.len() ==> player_reloads(#[trigger] players[i], rounds),
        holds_at(bytes, from, players_record(players, rounds)),
    ensures
        parse_players(bytes, from, players.len(), rounds as nat) matches Ok(read) && read == (
            players,
            from + players_record(players, rounds).len(),
        ),
    decreases players.len(),
{
    if players.len() > 0 {
        let first = players.first();
        let later = players.drop_first();
        let stored = player_record(first, rounds);
        lemma_holds_split(bytes, from, stored, players_record(later, rounds));
        lemma_player_reloads(bytes, from, first, rounds);
        assert forall|i: int| 0 <= i < later.len() implies player_reloads(
            #[trigger] later[i],
            rounds,
        ) by {
            assert(later[i] == players[i + 1]);
        }
        lemma_players_reload(bytes, from + stored.len(), later, rounds);
        assert(seq![first] + later == players);
        assert(later.len() == (players.len() - 1) as nat);
    } else {
        assert(players == Seq::<PlayerView>::empty());
    }
}

/// A tournament between rounds that is written and read again comes back as
/// it was: name, round number, and every competitor with name, number, history
/// and the record of wins, losses and ties.
pub proof fn lemma_tournament_reloads(tournament: TournamentView)
    requires
        reloads(tournament),
    ensures
        parse_tournament(tournament_record(tournament)) matches Ok(read) && read == tournament,
{
    let bytes = tournament_record(tournament);
    let name = encode_utf8(tournament.name).push(LINE_FEED);
    let round = le16(tournament.round_number);
    let count = le16(tournament.players.len() as u16);
    let players = players_record(tournament.players, tournament.round_number as int);
    assert(bytes == name + (round + (count + players)));
    assert(bytes.subrange(0, bytes.len() as int) == bytes);
    let at_round = name.len() as int;
    lemma_holds_split(bytes, 0, name, round + (count + players));
    lemma_holds_split(bytes, at_round, round, count + players);
    lemma_holds_split(bytes, at_round + 2, count, players);
    lemma_name_reloads(bytes, 0, tournament.name);
    lemma_u16_reloads(bytes, at_round, tournament.round_number);
    lemma_u16_reloads(bytes, at_round + 2, tournament.players.len() as u16);
    lemma_players_reload(
        bytes,
        at_round + 4,
        tournament.players,
        tournament.round_number as int,
    );
}

/// Reloading keeps the match points: every competitor of a tournament that is
/// written and read again has, under any scoring, the match points that it had
/// before.
pub proof fn lemma_reload_keeps_points(tournament: TournamentView, scoring: ScoreConfig)
    requires
        reloads(tournament),
    ensures
        parse_tournament(tournament_record(tournament)) matches Ok(reloaded) && {
            &&& reloaded.players.len() == tournament.players.len()
            &&& forall|i: int|
                0 <= i < tournament.players.len() ==> (#[trigger] reloaded.players[i]).match_points(
                    scoring,
                ) == tournament.players[i].match_points(scoring)
        },
{
    lemma_tournament_reloads(tournament);
}

/// A history that was read has one match for each round.
pub proof fn lemma_read_history_len(bytes: Seq<u8>, from: int, rounds: nat)
    ensures
        parse_history(bytes, from, rounds) matches Ok(read) ==> read.0.len() == rounds,
    decreases rounds,
{
    if rounds > 0 {
        lemma_read_history_len(bytes, from + 3, (rounds - 1) as nat);
    }
}

/// Competitors that were read have played the rounds of the record, and their
/// records of wins, losses and ties are counted from their histories.
pub proof fn lemma_read_players_are_tallied(bytes: Seq<u8>, from: int, count: nat, rounds: nat)
    ensures
        parse_players(bytes, from, count, rounds) matches Ok(read) ==> {
            &&& read.0.len() == count
            &&& forall|i: int|
                0 <= i < read.0.len() ==> {
                    &&& (#[trigger] read.0[i]).history.len() == rounds
                    &&& read.0[i].is_tallied()
                    &&& read.0[i].is_consistent()
                }
        },
    decreases count,
{
    if count > 0 {
        match parse_player(bytes, from, rounds) {
            Ok((player, next)) => {
                lemma_read_players_are_tallied(bytes, next, (count - 1) as nat, rounds);
                match parse_name(bytes, from) {
                    Ok((_, at_number)) => match parse_u16(bytes, at_number) {
                        Ok((_, at_history)) => {
                            lemma_read_history_len(bytes, at_history, rounds);
                        },
                        Err(_) => {},
                    },
                    Err(_) => {},
                }
                lemma_tallied_is_consistent(player);
                match parse_players(bytes, next, (count - 1) as nat, rounds) {
                    Ok((later, _)) => {
                        let all = seq![player] + later;
                        assert forall|i: int| 0 <= i < all.len() implies {
                            &&& (#[trigger] all[i]).history.len() == rounds
                            &&& all[i].is_tallied()
                            &&& all[i].is_consistent()
                        } by {
                            if i > 0 {
                                assert(all[i] == later[i - 1]);
                            }
                        }
                    },
                    Err(_) => {},
                }
            },
            Err(_) => {},
        }
    }
}

/// A tournament that was read is between rounds, and each of its competitors
/// has a history of as many matches as the round number says, with a record
/// of wins, losses and ties that is counted from it, so that the history is as
/// long as the record is large.
pub proof fn lemma_read_tournament_is_consistent(bytes: Seq<u8>)
    ensures
        parse_tournament(bytes) matches Ok(read) ==> {
            &&& read.pairings.len() == 0
            &&& forall|i: int|
                0 <= i < read.players.len() ==> {
                    &&& (#[trigger] read.players[i]).history.len() == read.round_number
                    &&& read.players[i].is_tallied()
                    &&& read.players[i].is_consistent()
                }
        },
{
    match parse_name(bytes, 0) {
        Ok((_, at_round)) => match parse_u16(bytes, at_round) {
            Ok((round_number, at_count)) => match parse_u16(bytes, at_count) {
                Ok((count, at_players)) => {
                    lemma_read_players_are_tallied(
                        bytes,
                        at_players,
                        count as nat,
                        round_number as nat,
                    );
                },
                Err(_) => {},
            },
            Err(_) => {},
        },
        Err(_) => {},
    }
}

/// A round that is started on a tournament in step leaves it in step: the
/// pairings hold the competitors of the pool, and no round is counted yet.
pub proof fn lemma_started_round_in_step(before: TournamentView, after: TournamentView)
    requires
        before.in_step(),
        after.round_number == before.round_number,
        after.players.len() == 0,
        enrolled(after.pairings) == before.players.to_multiset(),
    ensures
        after.in_step(),
{
    assert forall|i: int| 0 <= i < after.pairings.len() implies {
        &&& (#[trigger] after.pairings[i]).primary.history.len() == after.round_number
        &&& after.pairings[i].secondary matches Some(secondary) ==> secondary.history.len()
            == after.round_number
    } by {
        lemma_paired_is_enrolled(after.pairings, i);
        let primary = after.pairings[i].primary;
        to_multiset_contains(before.players, primary);
        let at = choose|at: int| 0 <= at < before.players.len() && before.players[at] == primary;
        assert(before.players[at].history.len() == before.round_number);
        match after.pairings[i].secondary {
            Some(secondary) => {
                to_multiset_contains(before.players, secondary);
                let at = choose|at: int|
                    0 <= at < before.players.len() && before.players[at] == secondary;
                assert(before.players[at].history.len() == before.round_number);
            },
            None => {},
        }
    }
}

/// The competitors of resolved pairings have each played one match more than
/// before, where every pairing had a declared result.
pub proof fn lemma_resolved_roster_grows(pairs: Seq<PairingView>, rounds: int, at: int)
    requires
        forall|i: int| 0 <= i < pairs.len() ==> (#[trigger] pairs[i]).outcome is Some,
        forall|i: int|
            0 <= i < pairs.len() ==> {
                &&& (#[trigger] pairs[i]).primary.history.len() == rounds
                &&& pairs[i].secondary matches Some(secondary) ==> secondary.history.len()
                    == rounds
            },
        0 <= at < resolved_roster(pairs).len(),
    ensures
        resolved_roster(pairs)[at].history.len() == rounds + 1,
    decreases pairs.len(),
{
    if pairs.len() > 0 {
        let last = pairs.last();
        let earlier = pairs.drop_last();
        assert(forall|i: int| 0 <= i < earlier.len() ==> (#[trigger] earlier[i]) == pairs[i]);
        if at < resolved_roster(earlier).len() {
            lemma_resolved_roster_grows(earlier, rounds, at);
        }
    }
}

/// A round that is finished on a tournament in step leaves it in step, where
/// nobody was waiting in the pool: everybody has played one match more, and
/// one round more is counted.
pub proof fn lemma_finished_round_in_step(before: TournamentView)
    requires
        before.in_step(),
        before.all_declared(),
        before.players.len() == 0 || before.pairings.len() == 0,
        before.round_number < u16::MAX,
    ensures
        before.finished().in_step(),
{
    let after = before.finished();
    if before.pairings.len() > 0 {
        assert(before.players + resolved_roster(before.pairings) == resolved_roster(
            before.pairings,
        ));
        assert forall|i: int| 0 <= i < after.players.len() implies (
        #[trigger] after.players[i]).history.len() == after.round_number by {
            lemma_resolved_roster_grows(before.pairings, before.round_number as int, i);
        }
    }
}

/// A tournament in step that is between rounds can be written as a record,
/// where the number of its competitors fits two bytes.
pub proof fn lemma_in_step_is_storable(tournament: TournamentView)
    requires
        tournament.in_step(),
        tournament.players.len() <= u16::MAX,
    ensures
        is_storable(tournament),
{
}

} // verus!
