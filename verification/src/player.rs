//! Competitors and their records.

use vstd::prelude::*;
use crate::swiss::{Outcome, ScoreConfig};

verus! {

/// What a competitor is, as plain mathematical values.
pub struct PlayerView {
    pub name: Seq<char>,
    pub number: u16,
    pub wins: nat,
    pub losses: nat,
    pub ties: nat,
    /// One entry per match played, oldest first: the opponent's number and the
    /// outcome from this competitor's side.
    pub history: Seq<(u16, Outcome)>,
}

/// How many entries of a history carry the given outcome.
pub open spec fn tally(history: Seq<(u16, Outcome)>, outcome: Outcome) -> nat
    decreases history.len(),
{
    if history.len() == 0 {
        0
    } else {
        tally(history.drop_last(), outcome) + if history.last().1 == outcome {
            1nat
        } else {
            0nat
        }
    }
}

impl PlayerView {
    /// A competitor who has not played yet.
    pub open spec fn fresh(name: Seq<char>, number: u16) -> PlayerView {
        PlayerView { name, number, wins: 0, losses: 0, ties: 0, history: Seq::empty() }
    }

    /// The ranking score: each counter weighted by what the scoring awards for it.
    pub open spec fn match_points(self, scoring: ScoreConfig) -> nat {
        self.wins * scoring.win as nat + self.losses * scoring.loss as nat + self.ties
            * scoring.tie as nat
    }

    /// The number of the opponent met most recently, if any match was played.
    pub open spec fn last_opponent(self) -> Option<u16> {
        if self.history.len() > 0 {
            Some(self.history.last().0)
        } else {
            None
        }
    }

    /// The counter that the given outcome adds to.
    pub open spec fn counter(self, outcome: Outcome) -> nat {
        match outcome {
            Outcome::Win => self.wins,
            Outcome::Loss => self.losses,
            Outcome::Tie => self.ties,
        }
    }

    /// The same competitor with one more result counted.
    pub open spec fn credited(self, outcome: Outcome) -> PlayerView {
        match outcome {
            Outcome::Win => PlayerView { wins: self.wins + 1, ..self },
            Outcome::Loss => PlayerView { losses: self.losses + 1, ..self },
            Outcome::Tie => PlayerView { ties: self.ties + 1, ..self },
        }
    }

    /// The same competitor with one more match at the end of the history.
    pub open spec fn recorded(self, opponent: u16, outcome: Outcome) -> PlayerView {
        PlayerView { history: self.history.push((opponent, outcome)), ..self }
    }

    /// The same competitor after a match: the result counted and the match recorded.
    pub open spec fn after_match(self, opponent: u16, outcome: Outcome) -> PlayerView {
        self.credited(outcome).recorded(opponent, outcome)
    }

    /// The history has one entry per counted result.
    pub open spec fn is_consistent(self) -> bool {
        self.history.len() == self.wins + self.losses + self.ties
    }

    /// Each counter is the number of history entries with its outcome.
    pub open spec fn is_tallied(self) -> bool {
        &&& self.wins == tally(self.history, Outcome::Win)
        &&& self.losses == tally(self.history, Outcome::Loss)
        &&& self.ties == tally(self.history, Outcome::Tie)
    }
}

/// A competitor: identity, running record and match history.
#[derive(Debug, PartialEq, Eq)]
pub struct Player {
    name: String,
    wins: u8,
    losses: u8,
    ties: u8,
    player_number: u16,
    opponents: Vec<(u16, Outcome)>,
}

impl View for Player {
    type V = PlayerView;

    closed spec fn view(&self) -> PlayerView {
        PlayerView {
            name: self.name@,
            number: self.player_number,
            wins: self.wins as nat,
            losses: self.losses as nat,
            ties: self.ties as nat,
            history: self.opponents@,
        }
    }
}

/// The competitors of a list, in its order, as plain values.
pub open spec fn views(players: Seq<Player>) -> Seq<PlayerView> {
    players.map_values(|p: Player| p@)
}

/// A competitor that may be absent, as a plain value.
pub open spec fn option_view(player: Option<Player>) -> Option<PlayerView> {
    match player {
        Some(p) => Some(p@),
        None => None,
    }
}

impl Player {
    /// Enters a competitor who has not played yet.
    pub fn new(name: String, player_number: u16) -> (player: Player)
        ensures
            player@ == PlayerView::fresh(name@, player_number),
    {
        Player { name, wins: 0, losses: 0, ties: 0, player_number, opponents: Vec::new() }
    }

    /// Rebuilds a competitor from stored parts: the record as (wins, losses,
    /// ties) and the history oldest first.
    pub fn from_information(
        name: String,
        player_number: u16,
        score: (u8, u8, u8),
        opponents: Vec<(u16, Outcome)>,
    ) -> (player: Player)
        ensures
            player@ == (PlayerView {
                name: name@,
                number: player_number,
                wins: score.0 as nat,
                losses: score.1 as nat,
                ties: score.2 as nat,
                history: opponents@,
            }),
    {
        Player {
            name,
            player_number,
            wins: score.0,
            losses: score.1,
            ties: score.2,
            opponents,
        }
    }

    /// The record as (wins, losses, ties).
    pub fn extract_record(&self) -> (record: (u8, u8, u8))
        ensures
            record.0 == self@.wins,
            record.1 == self@.losses,
            record.2 == self@.ties,
    {
        (self.wins, self.losses, self.ties)
    }

    /// Counts one more result; the history is left alone.
    pub fn mark_result(&mut self, outcome: Outcome)
        requires
            old(self)@.counter(outcome) < u8::MAX,
        ensures
            final(self)@ == old(self)@.credited(outcome),
    {
        match outcome {
            Outcome::Win => self.wins += 1,
            Outcome::Loss => self.losses += 1,
            Outcome::Tie => self.ties += 1,
        }
    }

    /// The match points under the given scoring.
    pub fn caluculate_match_points(&self, score_config: ScoreConfig) -> (points: u8)
        requires
            self@.match_points(score_config) <= u8::MAX,
        ensures
            points == self@.match_points(score_config),
    {
        proof {
            lemma_terms_bounded(
                self.wins as nat,
                score_config.win as nat,
                self.losses as nat,
                score_config.loss as nat,
                self.ties as nat,
                score_config.tie as nat,
            );
        }
        (self.wins * score_config.win) + (self.losses * score_config.loss) + (self.ties
            * score_config.tie)
    }

    /// Whether the match points under the given scoring fit the byte that
    /// `caluculate_match_points` returns.
    pub fn match_points_fit(&self, score_config: ScoreConfig) -> (fits: bool)
        ensures
            fits == (self@.match_points(score_config) <= u8::MAX),
    {
        let wins: u32 = self.wins as u32;
        let losses: u32 = self.losses as u32;
        let ties: u32 = self.ties as u32;
        let win: u32 = score_config.win as u32;
        let loss: u32 = score_config.loss as u32;
        let tie: u32 = score_config.tie as u32;
        proof {
            lemma_product_bounded(wins as nat, win as nat);
            lemma_product_bounded(losses as nat, loss as nat);
            lemma_product_bounded(ties as nat, tie as nat);
        }
        wins * win + losses * loss + ties * tie <= 255
    }

    pub fn get_number(&self) -> (number: u16)
        ensures
            number == self@.number,
    {
        self.player_number
    }

    /// The most recent match: the opponent's number and the outcome.
    pub fn get_last_opponent(&self) -> (last: Option<(u16, Outcome)>)
        ensures
            last == (if self@.history.len() > 0 {
                Some(self@.history.last())
            } else {
                None
            }),
    {
        let played: usize = self.opponents.len();
        if played == 0 {
            None
        } else {
            Some(self.opponents[played - 1])
        }
    }

    /// The whole history, oldest match first.
    pub fn get_matches(&self) -> (matches: &[(u16, Outcome)])
        ensures
            matches@ == self@.history,
    {
        self.opponents.as_slice()
    }

    pub fn get_name(&self) -> (name: &str)
        ensures
            name@ == self@.name,
    {
        self.name.as_str()
    }

    /// Records one more match at the end of the history; the counters are left
    /// alone.
    pub fn add_opponent(&mut self, op_number: u16, outcome: Outcome)
        ensures
            final(self)@ == old(self)@.recorded(op_number, outcome),
    {
        self.opponents.push((op_number, outcome));
    }

    /// The record as (wins, losses, ties).
    pub fn get_record(&self) -> (record: (u8, u8, u8))
        ensures
            record.0 == self@.wins,
            record.1 == self@.losses,
            record.2 == self@.ties,
    {
        (self.wins, self.losses, self.ties)
    }
}

proof fn lemma_product_bounded(count: nat, weight: nat)
    requires
        count <= u8::MAX,
        weight <= u8::MAX,
    ensures
        0 <= count * weight <= 255 * 255,
{
    assert(0 <= count * weight <= 255 * 255) by (nonlinear_arith)
        requires
            count <= 255,
            weight <= 255,
    ;
}

proof fn lemma_terms_bounded(a: nat, x: nat, b: nat, y: nat, c: nat, z: nat)
    requires
        a * x + b * y + c * z <= u8::MAX,
    ensures
        a * x <= u8::MAX,
        b * y <= u8::MAX,
        a * x + b * y <= u8::MAX,
{
    assert(0 <= a * x && 0 <= b * y && 0 <= c * z) by (nonlinear_arith);
}

/// Counting a result and recording the match keeps the history as long as the
/// record is large, and keeps the counters equal to the tallies.
pub proof fn lemma_after_match_keeps_record(player: PlayerView, opponent: u16, outcome: Outcome)
    ensures
        player.is_consistent() ==> player.after_match(opponent, outcome).is_consistent(),
        player.is_tallied() ==> player.after_match(opponent, outcome).is_tallied(),
{
    let after = player.after_match(opponent, outcome);
    assert(after.history.drop_last() == player.history);
}

/// Counters that tally a history add up to its length.
pub proof fn lemma_tallied_is_consistent(player: PlayerView)
    requires
        player.is_tallied(),
    ensures
        player.is_consistent(),
{
    lemma_tallies_cover(player.history);
}

/// Every entry of a history is a win, a loss or a tie.
pub proof fn lemma_tallies_cover(history: Seq<(u16, Outcome)>)
    ensures
        tally(history, Outcome::Win) + tally(history, Outcome::Loss) + tally(history, Outcome::Tie)
            == history.len(),
    decreases history.len(),
{
    if history.len() > 0 {
        lemma_tallies_cover(history.drop_last());
    }
}

} // verus!
