//! The rounds of a tournament: start a round, report results, finish it; and
//! the tournament as a record of bytes.

use vstd::prelude::*;

use crate::laws::lemma_resolved_round_is_mutual;
use crate::player::{views, Player, PlayerView};
use crate::record::{
    append, append_history, append_u16, is_storable, lemma_players_record_push, parse_tournament,
    player_record, players_record, read_name, read_players, read_u16, tournament_record,
    LINE_FEED,
};
use crate::round::{
    avoids_rematches, can_strand, distinct_numbers, enrolled, is_lone_rematch, is_mutual,
    is_round_of, no_rematch_possible, no_reserved_number, points_fit, repeats_nothing,
};
use crate::swiss::{
    default_scoring, generate_pairings, pairing_views, Outcome, Pairing, PairingView,
};

verus! {

/// A tournament as plain mathematical values.
pub struct TournamentView {
    pub name: Seq<char>,
    pub round_number: u16,
    /// The pool: the competitors who are in no pairing.
    pub players: Seq<PlayerView>,
    /// The pairings of the round in progress.
    pub pairings: Seq<PairingView>,
}

impl TournamentView {
    /// Every pairing has a declared result.
    pub open spec fn all_declared(self) -> bool {
        forall|i: int| 0 <= i < self.pairings.len() ==> (#[trigger] self.pairings[i]).outcome is Some
    }

    /// Every pairing can be resolved without overflowing a counter.
    pub open spec fn can_resolve(self) -> bool {
        forall|i: int| 0 <= i < self.pairings.len() ==> (#[trigger] self.pairings[i]).can_resolve()
    }

    /// Every competitor, in the pool or in a pairing, has played as many
    /// matches as rounds are counted.
    pub open spec fn in_step(self) -> bool {
        &&& forall|i: int|
            0 <= i < self.players.len() ==> (#[trigger] self.players[i]).history.len()
                == self.round_number
        &&& forall|i: int|
            0 <= i < self.pairings.len() ==> {
                &&& (#[trigger] self.pairings[i]).primary.history.len() == self.round_number
                &&& self.pairings[i].secondary matches Some(secondary) ==> secondary.history.len()
                    == self.round_number
            }
    }

    /// The tournament after the round in progress: the pairings are resolved,
    /// their competitors are behind those of the pool, and the round is
    /// counted. With no round in progress it is the tournament itself.
    pub open spec fn finished(self) -> TournamentView {
        if self.pairings.len() == 0 {
            TournamentView { pairings: Seq::empty(), ..self }
        } else {
            TournamentView {
                round_number: (self.round_number + 1) as u16,
                players: self.players + resolved_roster(self.pairings),
                pairings: Seq::empty(),
                ..self
            }
        }
    }
}

/// The competitors of resolved pairings, in the order of the pairings, the
/// primary of each before its secondary.
pub open spec fn resolved_roster(pairs: Seq<PairingView>) -> Seq<PlayerView>
    decreases pairs.len(),
{
    if pairs.len() == 0 {
        Seq::empty()
    } else {
        let last = pairs.last();
        let front = resolved_roster(pairs.drop_last()).push(last.resolved_primary());
        match last.resolved_secondary() {
            Some(secondary) => front.push(secondary),
            None => front,
        }
    }
}

/// Why a request to the tournament was turned down.
#[derive(Debug)]
pub enum TournamentError {
    /// No round can start: one is in progress, or the pool is empty.
    RoundAlreadyStarted,
    /// No round is in progress.
    RoundNotImprogress,
    /// The index names no pairing of the round in progress.
    InvalidMatchIndex(usize),
    /// A pairing of the round in progress has no declared result.
    GamesNotFinished,
    /// The round could not be paired: two competitors who met in the match
    /// played last were left with nobody to part them.
    StrandedRematch,
}

/// Why a record is not the stored form of a tournament.
#[derive(Clone, Copy, Debug, PartialEq, Eq)]
pub enum TournamentIOError {
    /// The record ends where more bytes are due.
    UnexpectedEnd,
    /// A name is not UTF-8 text.
    InvalidName,
    /// A competitor's matches of one outcome are more than a counter holds:
    /// the most it holds, and the rounds that the record counts.
    PlayerHasTooManyRounds(u16, u16),
    /// The byte stands for no outcome.
    InvalidResultFound(u8),
}

/// A tournament between rounds or within one.
pub struct Tournament {
    round_number: u16,
    players: Vec<Player>,
    pairings: Vec<Pairing>,
    name: String,
}

impl View for Tournament {
    type V = TournamentView;

    closed spec fn view(&self) -> TournamentView {
        TournamentView {
            name: self.name@,
            round_number: self.round_number,
            players: views(self.players@),
            pairings: pairing_views(self.pairings@),
        }
    }
}

impl Tournament {
    /// Opens a tournament with the given competitors and no round in progress.
    pub fn new(name: String, players: Vec<Player>) -> (tournament: Tournament)
        ensures
            tournament@ == (TournamentView {
                name: name@,
                round_number: 0,
                players: views(players@),
                pairings: Seq::empty(),
            }),
    {
        let tournament = Tournament { round_number: 0, players, pairings: Vec::new(), name };
        assert(pairing_views(tournament.pairings@) == Seq::<PairingView>::empty());
        tournament
    }

    pub fn get_name(&self) -> (name: &str)
        ensures
            name@ == self@.name,
    {
        self.name.as_str()
    }

    /// The number of rounds finished.
    pub fn get_round_number(&self) -> (round_number: u16)
        ensures
            round_number == self@.round_number,
    {
        self.round_number
    }

    /// Enters one more competitor into the pool.
    pub fn add_player(&mut self, player: Player)
        ensures
            final(self)@ == (TournamentView {
                players: old(self)@.players.push(player@),
                ..old(self)@
            }),
    {
        self.players.push(player);
        assert(views(self.players@) == views(old(self).players@).push(player@));
    }

    /// The pool: the competitors who are in no pairing.
    pub fn get_players(&self) -> (players: &[Player])
        ensures
            views(players@) == self@.players,
    {
        self.players.as_slice()
    }

    /// The pairings of the round in progress.
    pub fn get_pairings(&self) -> (pairings: &[Pairing])
        ensures
            pairing_views(pairings@) == self@.pairings,
    {
        self.pairings.as_slice()
    }

    /// One pairing of the round in progress.
    pub fn get_pairing(&self, match_idx: usize) -> (pairing: &Pairing)
        requires
            match_idx < self@.pairings.len(),
        ensures
            pairing@ == self@.pairings[match_idx as int],
    {
        &self.pairings[match_idx]
    }

    /// Whether a competitor of the pool carries the number.
    pub fn has_player_number(&self, number: u16) -> (taken: bool)
        ensures
            taken == exists|i: int|
                0 <= i < self@.players.len() && (#[trigger] self@.players[i]).number == number,
    {
        let mut idx: usize = 0;
        while idx < self.players.len()
            invariant
                idx <= self.players@.len(),
                forall|i: int| 0 <= i < idx ==> (#[trigger] self@.players[i]).number != number,
            decreases self.players@.len() - idx,
        {
            if self.players[idx].get_number() == number {
                assert(self@.players[idx as int].number == number);
                return true;
            }
            idx += 1;
        }
        false
    }

    /// Pairs the pool for the next round. Turned down while a round is in
    /// progress and where the pool is empty; the tournament is then unchanged.
    pub fn start_round(&mut self) -> (started: Result<(), TournamentError>)
        requires
            points_fit(old(self)@.players, default_scoring()),
        ensures
            final(self)@.name == old(self)@.name,
            final(self)@.round_number == old(self)@.round_number,
            old(self)@.players.len() == 0 || old(self)@.pairings.len() > 0 <==> started matches Err(
                TournamentError::RoundAlreadyStarted,
            ),
            match started {
                Ok(_) => {
                    let pairs = final(self)@.pairings;
                    let pool = old(self)@.players;
                    &&& final(self)@.players.len() == 0
                    &&& is_round_of(pairs, pool, default_scoring())
                    &&& enrolled(pairs) == pool.to_multiset()
                    &&& pairs.len() == (pool.len() + 1) / 2
                    &&& forall|i: int|
                        0 <= i < pairs.len() && (#[trigger] pairs[i]).is_bye() ==> i == pairs.len()
                            - 1
                    &&& forall|i: int| 0 <= i < pairs.len() ==> (#[trigger] pairs[i]).outcome is None
                    &&& (pairs.last().is_bye() <==> pool.len() % 2 == 1)
                    &&& distinct_numbers(pool) ==> avoids_rematches(pairs, pool, default_scoring())
                    &&& distinct_numbers(pool) && is_mutual(pool) ==> repeats_nothing(pairs)
                },
                Err(TournamentError::RoundAlreadyStarted) => final(self)@ == old(self)@,
                Err(_) => {
                    &&& started matches Err(TournamentError::StrandedRematch)
                    &&& final(self)@.pairings == old(self)@.pairings
                    &&& final(self)@.players.to_multiset() == old(self)@.players.to_multiset()
                    &&& can_strand(old(self)@.players, default_scoring())
                },
            },
            no_rematch_possible(old(self)@.players) ==> !(started matches Err(
                TournamentError::StrandedRematch,
            )),
            is_lone_rematch(old(self)@.players) && old(self)@.pairings.len() == 0
                ==> started matches Err(TournamentError::StrandedRematch),
    {
        if self.players.is_empty() || !self.pairings.is_empty() {
            return Err(TournamentError::RoundAlreadyStarted);
        }
        match generate_pairings(&mut self.players, default_scoring()) {
            Ok(pairings) => {
                self.pairings = pairings;
                Ok(())
            },
            Err(_) => Err(TournamentError::StrandedRematch),
        }
    }

    /// Declares the result of one pairing of the round in progress, from its
    /// primary's side. Turned down while no round is in progress and where the
    /// index names no pairing; the tournament is then unchanged.
    pub fn report_match(&mut self, match_idx: usize, outcome: Outcome) -> (reported: Result<
        (),
        TournamentError,
    >)
        ensures
            match reported {
                Ok(_) => {
                    &&& match_idx < old(self)@.pairings.len()
                    &&& final(self)@ == (TournamentView {
                        pairings: old(self)@.pairings.update(
                            match_idx as int,
                            PairingView {
                                outcome: Some(old(self)@.pairings[match_idx as int].admitted(outcome)),
                                ..old(self)@.pairings[match_idx as int]
                            },
                        ),
                        ..old(self)@
                    })
                },
                Err(TournamentError::RoundNotImprogress) => {
                    &&& old(self)@.pairings.len() == 0
                    &&& final(self)@ == old(self)@
                },
                Err(TournamentError::InvalidMatchIndex(idx)) => {
                    &&& idx == match_idx
                    &&& 0 < old(self)@.pairings.len() <= match_idx
                    &&& final(self)@ == old(self)@
                },
                Err(_) => false,
            },
    {
        if self.pairings.is_empty() {
            return Err(TournamentError::RoundNotImprogress);
        }
        if match_idx >= self.pairings.len() {
            return Err(TournamentError::InvalidMatchIndex(match_idx));
        }
        let ghost before = self.pairings@;
        self.pairings[match_idx].give_outcome(outcome);
        assert(pairing_views(self.pairings@) == pairing_views(before).update(
            match_idx as int,
            self.pairings@[match_idx as int]@,
        ));
        Ok(())
    }

    /// Ends the round in progress: every pairing is resolved, its competitors
    /// go back to the pool, in the order of the pairings, and the round is
    /// counted. Turned down while a pairing has no declared result; the
    /// tournament is then unchanged. With no round in progress nothing
    /// changes either.
    ///
    /// Where the whole pool played the round, the last meetings in the pool
    /// are mutual afterwards, so that the next round repeats no match.
    pub fn finilze_round(&mut self) -> (finished: Result<(), TournamentError>)
        requires
            old(self)@.can_resolve(),
            old(self)@.pairings.len() > 0 ==> old(self)@.round_number < u16::MAX,
        ensures
            match finished {
                Ok(_) => {
                    &&& old(self)@.all_declared()
                    &&& final(self)@ == old(self)@.finished()
                    &&& old(self)@.players.len() == 0 && distinct_numbers(final(self)@.players)
                        && no_reserved_number(final(self)@.players) ==> is_mutual(
                        final(self)@.players,
                    )
                },
                Err(TournamentError::GamesNotFinished) => {
                    &&& !old(self)@.all_declared()
                    &&& final(self)@ == old(self)@
                },
                Err(_) => false,
            },
    {
        let mut idx: usize = 0;
        while idx < self.pairings.len()
            invariant
                *self == *old(self),
                idx <= self.pairings@.len(),
                forall|i: int| 0 <= i < idx ==> (#[trigger] self@.pairings[i]).outcome is Some,
            decreases self.pairings@.len() - idx,
        {
            if !self.pairings[idx].is_delcared() {
                assert(self@.pairings[idx as int].outcome is None);
                return Err(TournamentError::GamesNotFinished);
            }
            idx += 1;
        }
        let ghost pool = views(self.players@);
        let ghost pairs = pairing_views(self.pairings@);
        if self.pairings.is_empty() {
            assert(pairs == Seq::<PairingView>::empty());
            assert(pool + resolved_roster(pairs) == pool);
            return Ok(());
        }
        let mut resolved: Vec<Pairing> = Vec::new();
        std::mem::swap(&mut self.pairings, &mut resolved);
        assert(pairing_views(self.pairings@) == Seq::<PairingView>::empty());
        assert(pairs.take(0) == Seq::<PairingView>::empty());
        for pairing in it: resolved
            invariant
                self.name == old(self).name,
                self.round_number == old(self).round_number,
                self.pairings@.len() == 0,
                old(self)@.all_declared(),
                pool == old(self)@.players,
                pairs == old(self)@.pairings,
                pairing_views(it.seq()) == pairs,
                forall|i: int| 0 <= i < pairs.len() ==> (#[trigger] pairs[i]).can_resolve(),
                views(self.players@) == pool + resolved_roster(pairs.take(it.index() as int)),
        {
            let ghost before = views(self.players@);
            let ghost done = pairs.take(it.index() as int);
            assert(pairing@ == pairs[it.index() as int]);
            let (p1, p2) = pairing.extract_players();
            self.players.push(p1);
            let ghost between = views(self.players@);
            assert(between == before.push(p1@));
            if let Some(p2) = p2 {
                self.players.push(p2);
                assert(views(self.players@) == between.push(p2@));
            }
            proof {
                let now = pairs.take(it.index() + 1);
                assert(now.drop_last() == done);
                assert(now.last() == pairing@);
                let front = resolved_roster(done).push(pairing@.resolved_primary());
                assert(pool + front == (pool + resolved_roster(done)).push(
                    pairing@.resolved_primary(),
                ));
                match pairing@.resolved_secondary() {
                    Some(secondary) => {
                        assert(pool + front.push(secondary) == (pool + front).push(secondary));
                    },
                    None => {},
                }
            }
        }
        self.round_number += 1;
        proof {
            assert(pairs.take(pairs.len() as int) == pairs);
            assert(pairing_views(self.pairings@) == Seq::<PairingView>::empty());
            if pool.len() == 0 {
                assert(pool + resolved_roster(pairs) == resolved_roster(pairs));
                if distinct_numbers(resolved_roster(pairs)) && no_reserved_number(
                    resolved_roster(pairs),
                ) {
                    lemma_resolved_round_is_mutual(pairs);
                }
            }
        }
        Ok(())
    }

    /// Whether the tournament can be written as a record: the number of
    /// competitors fits two bytes, and every competitor of the pool has played
    /// the rounds that the round number counts.
    pub fn can_be_stored(&self) -> (storable: bool)
        ensures
            storable == is_storable(self@),
    {
        if self.players.len() > 65535 {
            return false;
        }
        let mut idx: usize = 0;
        while idx < self.players.len()
            invariant
                idx <= self.players@.len(),
                forall|i: int|
                    0 <= i < idx ==> (#[trigger] self@.players[i]).history.len()
                        >= self@.round_number,
            decreases self.players@.len() - idx,
        {
            if self.players[idx].get_matches().len() < self.round_number as usize {
                assert(self@.players[idx as int].history.len() < self@.round_number);
                return false;
            }
            idx += 1;
        }
        true
    }

    /// The record of the tournament: its name, its round number, and the
    /// competitors of the pool with the matches of the rounds played.
    pub fn encode(&self) -> (bytes: Vec<u8>)
        requires
            is_storable(self@),
        ensures
            bytes@ == tournament_record(self@),
    {
        let mut out: Vec<u8> = Vec::new();
        append(&mut out, self.name.as_str().as_bytes());
        out.push(LINE_FEED);
        append_u16(&mut out, self.round_number);
        append_u16(&mut out, self.players.len() as u16);
        let ghost head = out@;
        let ghost rounds = self.round_number as int;
        assert(self@.players.take(0) == Seq::<PlayerView>::empty());
        let mut idx: usize = 0;
        while idx < self.players.len()
            invariant
                idx <= self.players@.len(),
                is_storable(self@),
                rounds == self.round_number,
                out@ == head + players_record(self@.players.take(idx as int), rounds),
            decreases self.players@.len() - idx,
        {
            let player = &self.players[idx];
            let ghost before = out@;
            assert(player@ == self@.players[idx as int]);
            append(&mut out, player.get_name().as_bytes());
            out.push(LINE_FEED);
            append_u16(&mut out, player.get_number());
            append_history(&mut out, player.get_matches(), self.round_number);
            proof {
                let done = self@.players.take(idx as int);
                assert(self@.players.take(idx + 1) == done.push(player@));
                lemma_players_record_push(done, player@, rounds);
                assert(out@ == before + player_record(player@, rounds));
            }
            idx += 1;
        }
        assert(self@.players.take(self@.players.len() as int) == self@.players);
        out
    }

    /// Reads a tournament from its record. The competitors come back with
    /// their records counted from their matches, and no round is in progress.
    /// Bytes behind the last competitor are not looked at.
    pub fn decode(bytes: &[u8]) -> (read: Result<Tournament, TournamentIOError>)
        ensures
            match read {
                Ok(tournament) => parse_tournament(bytes@) matches Ok(parsed) && parsed
                    == tournament@,
                Err(fault) => parse_tournament(bytes@) matches Err(met) && met == fault,
            },
    {
        let (name, at_round) = match read_name(bytes, 0) {
            Ok(read) => read,
            Err(fault) => {
                return Err(fault);
            },
        };
        let (round_number, at_count) = match read_u16(bytes, at_round) {
            Ok(read) => read,
            Err(fault) => {
                return Err(fault);
            },
        };
        let (number_of_players, at_players) = match read_u16(bytes, at_count) {
            Ok(read) => read,
            Err(fault) => {
                return Err(fault);
            },
        };
        let (players, _) = match read_players(bytes, at_players, number_of_players, round_number) {
            Ok(read) => read,
            Err(fault) => {
                return Err(fault);
            },
        };
        let tournament = Tournament { name, round_number, players, pairings: Vec::new() };
        assert(pairing_views(tournament.pairings@) == Seq::<PairingView>::empty());
        Ok(tournament)
    }
}

} // verus!
