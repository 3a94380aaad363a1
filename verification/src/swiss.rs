//! Outcomes, scoring, pairings, and the engine that pairs a pool for a round.

use core::ops::Not;
use std::collections::HashMap;

use rand::rngs::ThreadRng;
use rand::seq::SliceRandom;
use vstd::multiset::Multiset;
use vstd::prelude::*;
use vstd::seq_lib::{to_multiset_build, to_multiset_contains, to_multiset_len};
use vstd::std_specs::ops::NotSpecImpl;

use crate::bags::{lemma_empty_bag, lemma_mapped_bags, lemma_pair_bag};
use crate::laws::{
    lemma_round_avoids_rematches, lemma_round_byes, lemma_round_conserves,
    lemma_round_repeats_nothing, lemma_round_succeeds, lemma_two_who_met_strand,
};
use crate::player::{option_view, views, Player, PlayerView};
use crate::steps::{lemma_sweep_conserves, lemma_sweep_matches};
use crate::round::{
    all_matched, avoids_rematches, bucket_step, can_strand, distinct_numbers, enrolled, is_draw,
    is_layered, is_lone_rematch, is_mutual, is_rematch, is_round_of, no_rematch_possible,
    pair_pool, points_fit, pooled, repeats_nothing, round_pairs, sweep, Carry, Sweep,
};

verus! {

/// The result of one match, seen from one side.
#[derive(Clone, Copy, Debug, PartialEq, Eq, Structural)]
pub enum Outcome {
    Win,
    Loss,
    Tie,
}

impl Outcome {
    /// The same match seen from the other side.
    pub open spec fn complement(self) -> Outcome {
        match self {
            Outcome::Win => Outcome::Loss,
            Outcome::Loss => Outcome::Win,
            Outcome::Tie => Outcome::Tie,
        }
    }
}

impl Not for Outcome {
    type Output = Outcome;

    fn not(self) -> (flipped: Outcome) {
        match self {
            Outcome::Win => Outcome::Loss,
            Outcome::Loss => Outcome::Win,
            Outcome::Tie => Outcome::Tie,
        }
    }
}

impl NotSpecImpl for Outcome {
    open spec fn obeys_not_spec() -> bool {
        true
    }

    open spec fn not_req(self) -> bool {
        true
    }

    open spec fn not_spec(self) -> Outcome {
        self.complement()
    }
}

/// Points awarded per win, per loss and per tie.
#[derive(Clone, Copy, Debug)]
pub struct ScoreConfig {
    pub win: u8,
    pub loss: u8,
    pub tie: u8,
}

/// The usual scoring: three points for a win, one for a tie, none for a loss.
pub open spec fn spec_default_scoring() -> ScoreConfig {
    ScoreConfig { win: 3, loss: 0, tie: 1 }
}

/// The usual scoring: three points for a win, one for a tie, none for a loss.
#[verifier::when_used_as_spec(spec_default_scoring)]
pub fn default_scoring() -> (scoring: ScoreConfig)
    ensures
        scoring == spec_default_scoring(),
{
    ScoreConfig { win: 3, loss: 0, tie: 1 }
}

/// The number recorded as the opponent of a competitor who sat a round out.
/// No competitor carries it.
pub const BYE_PLAYER_NUMBER: u16 = 0;

/// One matchup as plain mathematical values.
pub struct PairingView {
    pub primary: PlayerView,
    /// Absent in a bye.
    pub secondary: Option<PlayerView>,
    /// The declared result from the primary's side; absent until declared.
    pub outcome: Option<Outcome>,
}

impl PairingView {
    /// A matchup on which nothing has been declared.
    pub open spec fn fresh(primary: PlayerView, secondary: Option<PlayerView>) -> PairingView {
        PairingView { primary, secondary, outcome: None }
    }

    pub open spec fn is_bye(self) -> bool {
        self.secondary is None
    }

    /// The competitors of the matchup, primary first.
    pub open spec fn roster(self) -> Seq<PlayerView> {
        match self.secondary {
            Some(secondary) => seq![self.primary, secondary],
            None => seq![self.primary],
        }
    }

    /// The number that the primary's history gets: the secondary's, or the
    /// reserved one in a bye.
    pub open spec fn opponent_number(self) -> u16 {
        match self.secondary {
            Some(secondary) => secondary.number,
            None => BYE_PLAYER_NUMBER,
        }
    }

    /// What a declaration stores: the outcome given, but in a bye always a win.
    pub open spec fn admitted(self, outcome: Outcome) -> Outcome {
        if self.is_bye() {
            Outcome::Win
        } else {
            outcome
        }
    }

    /// A declared bye is a win.
    pub open spec fn is_sound(self) -> bool {
        self.is_bye() && self.outcome is Some ==> self.outcome == Some(Outcome::Win)
    }

    /// Folding the declared result into the records would not overflow a counter.
    pub open spec fn can_resolve(self) -> bool {
        match self.outcome {
            Some(outcome) => {
                &&& self.primary.counter(outcome) < u8::MAX
                &&& match self.secondary {
                    Some(secondary) => secondary.counter(outcome.complement()) < u8::MAX,
                    None => true,
                }
            },
            None => true,
        }
    }

    /// The primary after resolution.
    pub open spec fn resolved_primary(self) -> PlayerView {
        match self.outcome {
            Some(outcome) => self.primary.after_match(self.opponent_number(), outcome),
            None => self.primary,
        }
    }

    /// The secondary after resolution.
    pub open spec fn resolved_secondary(self) -> Option<PlayerView> {
        match (self.outcome, self.secondary) {
            (Some(outcome), Some(secondary)) => Some(
                secondary.after_match(self.primary.number, outcome.complement()),
            ),
            _ => self.secondary,
        }
    }
}

/// Whether the counter that the outcome adds to can take one more.
fn has_room(player: &Player, outcome: Outcome) -> (room: bool)
    ensures
        room == (player@.counter(outcome) < u8::MAX),
{
    let (wins, losses, ties) = player.extract_record();
    match outcome {
        Outcome::Win => wins < u8::MAX,
        Outcome::Loss => losses < u8::MAX,
        Outcome::Tie => ties < u8::MAX,
    }
}

/// One matchup of a round: a primary competitor, a secondary one unless it is a
/// bye, and the declared result once there is one.
#[derive(Debug, PartialEq)]
pub struct Pairing {
    p1: Player,
    p2: Option<Player>,
    winner: Option<Outcome>,
}

impl View for Pairing {
    type V = PairingView;

    closed spec fn view(&self) -> PairingView {
        PairingView {
            primary: self.p1@,
            secondary: option_view(self.p2),
            outcome: self.winner,
        }
    }
}

impl Pairing {
    #[verifier::type_invariant]
    spec fn bye_is_win(self) -> bool {
        self.p2 is None && self.winner is Some ==> self.winner == Some(Outcome::Win)
    }

    /// Sets up a matchup with nothing declared.
    pub fn new(p1: Player, p2: Option<Player>) -> (pairing: Pairing)
        ensures
            pairing@ == PairingView::fresh(p1@, option_view(p2)),
    {
        Pairing { p1, p2, winner: None }
    }

    /// Declares the result from the primary's side. A later declaration
    /// replaces an earlier one. A bye is a win whatever is declared.
    pub fn give_outcome(&mut self, outcome: Outcome)
        ensures
            final(self)@ == (PairingView {
                outcome: Some(old(self)@.admitted(outcome)),
                ..old(self)@
            }),
            final(self)@.is_sound(),
    {
        if self.p2.is_none() {
            self.winner = Some(Outcome::Win);
        } else {
            self.winner = Some(outcome);
        }
    }

    /// Declares a win of the primary.
    pub fn p1_wins(&mut self)
        ensures
            final(self)@ == (PairingView { outcome: Some(Outcome::Win), ..old(self)@ }),
    {
        self.give_outcome(Outcome::Win);
    }

    /// Declares a win of the secondary.
    pub fn p2_wins(&mut self)
        ensures
            final(self)@ == (PairingView {
                outcome: Some(old(self)@.admitted(Outcome::Loss)),
                ..old(self)@
            }),
    {
        self.give_outcome(Outcome::Loss);
    }

    pub fn is_delcared(&self) -> (declared: bool)
        ensures
            declared == (self@.outcome is Some),
            self@.is_sound(),
    {
        proof {
            use_type_invariant(self);
        }
        self.winner.is_some()
    }

    /// The declared result, if any.
    pub fn get_outcome(&self) -> (outcome: Option<Outcome>)
        ensures
            outcome == self@.outcome,
            self@.is_sound(),
    {
        proof {
            use_type_invariant(self);
        }
        self.winner
    }

    /// Whether resolving would keep every counter within its byte.
    pub fn can_be_resolved(&self) -> (fits: bool)
        ensures
            fits == self@.can_resolve(),
    {
        match self.winner {
            Some(outcome) => {
                let primary_fits = has_room(&self.p1, outcome);
                match &self.p2 {
                    Some(p2) => primary_fits && has_room(p2, outcome.not()),
                    None => primary_fits,
                }
            },
            None => true,
        }
    }

    /// The competitors of the matchup.
    pub fn get_players(&self) -> (players: (&Player, Option<&Player>))
        ensures
            players.0@ == self@.primary,
            match players.1 {
                Some(p) => self@.secondary == Some(p@),
                None => self@.secondary is None,
            },
    {
        (&self.p1, self.p2.as_ref())
    }

    /// Folds the declared result into the records and hands the competitors
    /// back. With nothing declared they come back unchanged.
    pub fn extract_players(self) -> (players: (Player, Option<Player>))
        requires
            self@.can_resolve(),
        ensures
            self@.is_sound(),
            players.0@ == self@.resolved_primary(),
            option_view(players.1) == self@.resolved_secondary(),
    {
        proof {
            use_type_invariant(&self);
        }
        let Pairing { p1, p2, winner } = self;
        let mut p1 = p1;
        let outcome: Outcome = match winner {
            Some(outcome) => outcome,
            None => {
                return (p1, p2);
            },
        };
        p1.mark_result(outcome);
        match p2 {
            Some(p2) => {
                let mut p2 = p2;
                p1.add_opponent(p2.get_number(), outcome);
                p2.mark_result(outcome.not());
                p2.add_opponent(p1.get_number(), outcome.not());
                (p1, Some(p2))
            },
            None => {
                p1.add_opponent(BYE_PLAYER_NUMBER, outcome);
                (p1, None)
            },
        }
    }
}

/// The matchups of a list, in its order, as plain values.
pub open spec fn pairing_views(pairings: Seq<Pairing>) -> Seq<PairingView> {
    pairings.map_values(|p: Pairing| p@)
}

/// Pairs the members of one bucket. The bucket is taken from its end, so its
/// order decides who meets whom. `first` and `second` are the competitors
/// carried into the bucket; the competitors carried out of it are returned in
/// the same order. The new pairings are appended to `pairings`.
pub fn pair_bucket(
    bucket: Vec<Player>,
    first: Option<Player>,
    second: Option<Player>,
    pairings: &mut Vec<Pairing>,
) -> (carried: (Option<Player>, Option<Player>))
    requires
        second is Some ==> bucket@.len() > 0,
    ensures
        ({
            let step = bucket_step(
                views(bucket@),
                Carry { first: option_view(first), second: option_view(second) },
            );
            &&& pairing_views(final(pairings)@) == pairing_views(old(pairings)@) + step.pairs
            &&& option_view(carried.0) == step.carry.first
            &&& option_view(carried.1) == step.carry.second
        }),
{
    let ghost step = bucket_step(
        views(bucket@),
        Carry { first: option_view(first), second: option_view(second) },
    );
    let ghost target = pairing_views(pairings@) + step.pairs;
    let ghost earlier = pairing_views(pairings@);
    let mut pool = bucket;
    if let Some(left_over) = second {
        let p2 = pool.pop().unwrap();
        pairings.push(Pairing::new(left_over, Some(p2)));
        assert(views(pool@) == views(bucket@).drop_last());
        assert(pairing_views(pairings@) == earlier + seq![
            PairingView::fresh(left_over@, Some(views(bucket@).last())),
        ]);
    } else {
        assert(pairing_views(pairings@) == earlier + Seq::<PairingView>::empty());
    }
    let ghost remaining = views(pool@);
    let ghost forced = pairing_views(pairings@);
    if let Some(left_over) = first {
        pool.push(left_over);
        assert(views(pool@) == remaining.push(left_over@));
    }
    assert(forced + pair_pool(views(pool@)).pairs == target);
    let mut left_1: Option<Player> = None;
    let mut left_2: Option<Player> = None;
    while pool.len() > 1
        invariant_except_break
            left_1 is None,
            left_2 is None,
            pairing_views(pairings@) + pair_pool(views(pool@)).pairs == target,
            pair_pool(views(pool@)).carry == step.carry,
        ensures
            pairing_views(pairings@) == target,
            pool@.len() <= 1,
            left_1 is Some ==> pool@.len() == 0,
            step.carry.first == (if pool@.len() == 1 {
                Some(pool@[0]@)
            } else {
                option_view(left_1)
            }),
            step.carry.second == option_view(left_2),
        decreases pool@.len(),
    {
        let ghost before = views(pool@);
        let p1 = pool.pop().unwrap();
        let p2 = pool.pop().unwrap();
        assert(views(pool@) == before.take(before.len() - 2));
        let rematch = match p1.get_last_opponent() {
            Some((p1_prev, _)) => p1_prev == p2.get_number(),
            None => false,
        };
        assert(rematch == is_rematch(p1@, p2@));
        if rematch {
            if pool.is_empty() {
                left_1 = Some(p1);
                left_2 = Some(p2);
                break ;
            } else {
                let ghost rest = views(pool@);
                let p3 = pool.pop().unwrap();
                pairings.push(Pairing::new(p1, Some(p3)));
                pool.push(p2);
                assert(views(pool@) == rest.drop_last().push(p2@));
                continue ;
            }
        }
        pairings.push(Pairing::new(p1, Some(p2)));
    }
    if !pool.is_empty() {
        left_1 = pool.pop();
    }
    (left_1, left_2)
}

/// Why a round could not be paired.
#[derive(Clone, Copy, Debug, PartialEq, Eq)]
pub enum PairingError {
    /// The sweep ended with two competitors who met in the match played last
    /// and nobody left to part them.
    StrandedRematch,
}

/// `ThreadRng` of rand: a handle to the calling thread's random generator.
/// Nothing is known of what it holds.
#[verifier::external_type_specification]
#[verifier::external_body]
pub struct ExThreadRng(ThreadRng);

/// `rand::rng` hands out the calling thread's random generator, which the
/// operating system seeds on first use; where that fails, rand ends the
/// program. Nothing is claimed of the generator.
pub assume_specification[ rand::rng ]() -> (generator: ThreadRng)
;

/// `SliceRandom::shuffle` of rand, on the bucket as a slice: it reorders the
/// bucket in place by swapping its items. The claim is that the bucket holds
/// the same competitors afterwards, each as often as before; nothing is
/// claimed of their order.
#[verifier::external_body]
fn shuffle_bucket(bucket: &mut Vec<Player>, generator: &mut ThreadRng)
    ensures
        final(bucket)@.to_multiset() == old(bucket)@.to_multiset(),
{
    bucket.shuffle(generator);
}

/// The competitors of the buckets with a score below the limit, as a bag.
spec fn stock(buckets: Map<u8, Vec<Player>>, limit: int) -> Multiset<PlayerView>
    decreases limit,
{
    if limit <= 0 {
        Multiset::empty()
    } else {
        let score = (limit - 1) as u8;
        stock(buckets, limit - 1).add(
            if buckets.contains_key(score) {
                views(buckets[score]@).to_multiset()
            } else {
                Multiset::empty()
            },
        )
    }
}

/// No bucket is empty, none has a score above the top, and the members of a
/// bucket have its score.
spec fn shelved(buckets: Map<u8, Vec<Player>>, scoring: ScoreConfig, top: int) -> bool {
    forall|score: u8| #[trigger]
        buckets.contains_key(score) ==> {
            &&& score <= top
            &&& buckets[score]@.len() > 0
            &&& forall|j: int|
                0 <= j < buckets[score]@.len() ==> (#[trigger] buckets[score]@[j])@.match_points(
                    scoring,
                ) == score
        }
}

/// What one bucket holds can be counted apart from the rest.
proof fn lemma_stock_apart(buckets: Map<u8, Vec<Player>>, score: u8, limit: int)
    requires
        0 <= limit <= 256,
    ensures
        stock(buckets, limit) == stock(buckets.remove(score), limit).add(
            if buckets.contains_key(score) && score < limit {
                views(buckets[score]@).to_multiset()
            } else {
                Multiset::empty()
            },
        ),
    decreases limit,
{
    broadcast use vstd::multiset::group_multiset_axioms;

    if limit > 0 {
        lemma_stock_apart(buckets, score, limit - 1);
        let here = (limit - 1) as u8;
        if here != score {
            assert(buckets.remove(score).contains_key(here) == buckets.contains_key(here));
        }
    }
    assert(stock(buckets, limit) =~= stock(buckets.remove(score), limit).add(
        if buckets.contains_key(score) && score < limit {
            views(buckets[score]@).to_multiset()
        } else {
            Multiset::empty()
        },
    ));
}

/// Buckets without a key hold nobody.
proof fn lemma_stock_of_nothing(buckets: Map<u8, Vec<Player>>, limit: int)
    requires
        forall|score: u8| !buckets.contains_key(score),
    ensures
        stock(buckets, limit) == Multiset::<PlayerView>::empty(),
    decreases limit,
{
    broadcast use vstd::multiset::group_multiset_axioms;

    if limit > 0 {
        lemma_stock_of_nothing(buckets, limit - 1);
        assert(stock(buckets, limit) =~= Multiset::<PlayerView>::empty());
    }
}

/// Sorts the pool into buckets by match points and empties it. Returns the
/// buckets and the highest score met.
fn fill_buckets(players: &mut Vec<Player>, scoring: ScoreConfig) -> (filled: (
    HashMap<u8, Vec<Player>>,
    u8,
))
    requires
        points_fit(views(old(players)@), scoring),
    ensures
        final(players)@.len() == 0,
        stock(filled.0@, 256) == views(old(players)@).to_multiset(),
        shelved(filled.0@, scoring, filled.1 as int),
{
    broadcast use vstd::std_specs::hash::group_hash_axioms;
    broadcast use vstd::multiset::group_multiset_axioms;

    let ghost pool = views(players@);
    let mut map: HashMap<u8, Vec<Player>> = HashMap::new();
    let mut max_mp: u8 = 0;
    proof {
        lemma_stock_of_nothing(map@, 256);
    }
    loop
        invariant
            views(players@).to_multiset().add(stock(map@, 256)) == pool.to_multiset(),
            shelved(map@, scoring, max_mp as int),
            points_fit(views(players@), scoring),
        ensures
            players@.len() == 0,
        decreases players@.len(),
    {
        let ghost waiting = players@;
        let ghost shelf = map@;
        let player = match players.pop() {
            Some(player) => player,
            None => {
                break ;
            },
        };
        assert(player@ == views(waiting)[waiting.len() - 1]);
        assert forall|i: int| 0 <= i < players@.len() implies (#[trigger] views(
            players@,
        )[i]).match_points(scoring) <= u8::MAX by {
            assert(views(players@)[i] == views(waiting)[i]);
        }
        let match_points: u8 = player.caluculate_match_points(scoring);
        if match_points > max_mp {
            max_mp = match_points;
        }
        let e = map.entry(match_points).or_insert(Vec::new());
        e.push(player);
        proof {
            let grown = if shelf.contains_key(match_points) {
                shelf[match_points]@.push(player)
            } else {
                Seq::<Player>::empty().push(player)
            };
            assert(map@ == shelf.insert(match_points, map@[match_points]));
            assert(map@[match_points]@ == grown);
            lemma_stock_apart(shelf, match_points, 256);
            lemma_stock_apart(map@, match_points, 256);
            assert(map@.remove(match_points) == shelf.remove(match_points));
            assert(views(waiting) == views(players@).push(player@));
            to_multiset_build(views(players@), player@);
            if shelf.contains_key(match_points) {
                assert(views(grown) == views(shelf[match_points]@).push(player@));
                to_multiset_build(views(shelf[match_points]@), player@);
            } else {
                assert(views(grown) == Seq::<PlayerView>::empty().push(player@));
                to_multiset_build(Seq::<PlayerView>::empty(), player@);
                lemma_empty_bag::<PlayerView>();
            }
            assert(views(players@).to_multiset().add(stock(map@, 256)) =~= pool.to_multiset());
        }
    }
    proof {
        assert(views(players@) == Seq::<PlayerView>::empty());
        lemma_empty_bag::<PlayerView>();
        assert(stock(map@, 256) =~= pool.to_multiset());
    }
    (map, max_mp)
}

/// The members of a list all have the given match points.
spec fn all_score(bucket: Seq<PlayerView>, scoring: ScoreConfig, score: int) -> bool {
    forall|j: int| 0 <= j < bucket.len() ==> (#[trigger] bucket[j]).match_points(scoring) == score
}

/// A shuffled bucket holds the same competitors as plain values, and they
/// still have the bucket's score.
proof fn lemma_shuffled_bucket(
    before: Seq<Player>,
    after: Seq<Player>,
    scoring: ScoreConfig,
    score: int,
)
    requires
        before.to_multiset() == after.to_multiset(),
        forall|j: int|
            0 <= j < before.len() ==> (#[trigger] before[j])@.match_points(scoring) == score,
    ensures
        views(after).to_multiset() == views(before).to_multiset(),
        after.len() == before.len(),
        all_score(views(after), scoring, score),
{
    lemma_mapped_bags(before, after, |p: Player| p@);
    to_multiset_len(before);
    to_multiset_len(after);
    assert forall|j: int| 0 <= j < views(after).len() implies (#[trigger] views(
        after,
    )[j]).match_points(scoring) == score by {
        to_multiset_contains(after, after[j]);
        to_multiset_contains(before, after[j]);
        let at = choose|at: int| 0 <= at < before.len() && before[at] == after[j];
        assert(before[at]@.match_points(scoring) == score);
    }
}

/// Visits the buckets from the highest score down: each is shuffled and
/// paired, and who finds no partner is carried into the next. Returns the
/// pairings made and the competitors carried out of the last bucket.
fn sweep_buckets(buckets: HashMap<u8, Vec<Player>>, top: u8, scoring: ScoreConfig) -> (swept: (
    Vec<Pairing>,
    Option<Player>,
    Option<Player>,
    Ghost<Seq<Seq<PlayerView>>>,
))
    requires
        shelved(buckets@, scoring, top as int),
    ensures
        is_layered(swept.3@, scoring),
        pooled(swept.3@) == stock(buckets@, 256),
        sweep(swept.3@) == (Sweep {
            pairs: pairing_views(swept.0@),
            carry: Carry { first: option_view(swept.1), second: option_view(swept.2) },
        }),
{
    broadcast use vstd::std_specs::hash::group_hash_axioms;
    broadcast use vstd::multiset::group_multiset_axioms;

    let ghost full = buckets@;
    let mut map = buckets;
    let mut max_mp: u8 = top;
    let mut pairings: Vec<Pairing> = Vec::new();
    let mut left_1: Option<Player> = None;
    let mut left_2: Option<Player> = None;
    let ghost mut order: Seq<Seq<PlayerView>> = Seq::empty();
    proof {
        assert(pairing_views(pairings@) == Seq::<PairingView>::empty());
        assert(pooled(order).add(stock(map@, 256)) =~= stock(full, 256));
    }
    loop
        invariant
            shelved(map@, scoring, max_mp as int),
            is_layered(order, scoring),
            forall|i: int, score: u8|
                0 <= i < order.len() && #[trigger] map@.contains_key(score) ==> (
                #[trigger] order[i])[0].match_points(scoring) > score,
            pooled(order).add(stock(map@, 256)) == stock(full, 256),
            sweep(order) == (Sweep {
                pairs: pairing_views(pairings@),
                carry: Carry { first: option_view(left_1), second: option_view(left_2) },
            }),
        ensures
            forall|score: u8| !map@.contains_key(score),
        decreases max_mp, (if map@.contains_key(max_mp) { 1int } else { 0int }),
    {
        let ghost shelf = map@;
        let mut bucket = match map.remove(&max_mp) {
            Some(e) => e,
            None => {
                assert(map@ == shelf);
                if max_mp == 0 {
                    break ;
                } else {
                    max_mp -= 1;
                    continue ;
                }
            },
        };
        let ghost unshuffled = bucket@;
        let mut rng = rand::rng();
        shuffle_bucket(&mut bucket, &mut rng);
        proof {
            lemma_shuffled_bucket(unshuffled, bucket@, scoring, max_mp as int);
            lemma_stock_apart(shelf, max_mp, 256);
            let taken = views(bucket@);
            let longer = order.push(taken);
            assert(longer.drop_last() == order);
            assert(pooled(longer).add(stock(map@, 256)) =~= stock(full, 256));
            assert(is_layered(longer, scoring)) by {
                assert forall|i: int| 0 <= i < longer.len() implies (#[trigger] longer[i]).len()
                    > 0 by {
                    if i < order.len() {
                        assert(longer[i] == order[i]);
                    }
                }
                assert forall|i: int, j: int|
                    0 <= i < longer.len() && 0 <= j < longer[i].len() implies (
                #[trigger] longer[i][j]).match_points(scoring) == longer[i][0].match_points(
                    scoring,
                ) by {
                    if i < order.len() {
                        assert(longer[i] == order[i]);
                    }
                }
                assert forall|i: int, j: int| 0 <= i < j < longer.len() implies (
                #[trigger] longer[i])[0].match_points(scoring) > (
                #[trigger] longer[j])[0].match_points(scoring) by {
                    assert(longer[i] == order[i]);
                    if j < order.len() {
                        assert(longer[j] == order[j]);
                    } else {
                        assert(shelf.contains_key(max_mp));
                    }
                }
            }
            assert forall|i: int, score: u8|
                0 <= i < longer.len() && #[trigger] map@.contains_key(score) implies (
            #[trigger] longer[i])[0].match_points(scoring) > score by {
                assert(shelf.contains_key(score));
                if i < order.len() {
                    assert(longer[i] == order[i]);
                }
            }
            order = longer;
        }
        let carried = pair_bucket(bucket, left_1, left_2, &mut pairings);
        left_1 = carried.0;
        left_2 = carried.1;
    }
    proof {
        lemma_stock_of_nothing(map@, 256);
        assert(pooled(order) =~= stock(full, 256));
    }
    (pairings, left_1, left_2, Ghost(order))
}

/// Takes undeclared pairings of two apart again and puts their competitors
/// back into the pool.
fn dissolve(pairings: Vec<Pairing>, players: &mut Vec<Player>)
    requires
        all_matched(pairing_views(pairings@)),
    ensures
        views(final(players)@).to_multiset() == views(old(players)@).to_multiset().add(
            enrolled(pairing_views(pairings@)),
        ),
{
    broadcast use vstd::multiset::group_multiset_axioms;

    let ghost made = pairing_views(pairings@);
    let ghost pool = views(players@).to_multiset();
    let mut pairings = pairings;
    loop
        invariant
            all_matched(pairing_views(pairings@)),
            views(players@).to_multiset().add(enrolled(pairing_views(pairings@))) == pool.add(
                enrolled(made),
            ),
        ensures
            pairings@.len() == 0,
            views(players@).to_multiset() == pool.add(enrolled(made)),
        decreases pairings@.len(),
    {
        let ghost open = pairing_views(pairings@);
        let ghost waiting = views(players@);
        let pairing = match pairings.pop() {
            Some(pairing) => pairing,
            None => {
                assert(open == Seq::<PairingView>::empty());
                break ;
            },
        };
        assert(pairing@ == open.last());
        assert(pairing_views(pairings@) == open.drop_last());
        let (p1, p2) = pairing.extract_players();
        players.push(p1);
        let ghost between = views(players@);
        assert(between == waiting.push(p1@));
        if let Some(p2) = p2 {
            players.push(p2);
            proof {
                assert(views(players@) == between.push(p2@));
                to_multiset_build(waiting, p1@);
                to_multiset_build(between, p2@);
                lemma_pair_bag(p1@, p2@);
                assert(pairing@.roster() == seq![p1@, p2@]);
            }
        }
    }
}

/// Pairs the pool for one round and empties it.
///
/// The competitors are sorted into buckets by match points, and the buckets
/// are visited from the highest score down. Each bucket is shuffled, so who
/// meets whom within a score is left to chance. A competitor who finds no
/// partner is carried into the next bucket; the one left over at the end gets
/// a bye, which is the last pairing. An empty pool gives no pairing.
///
/// The rematch rule looks at the match played last and at nothing before it,
/// and at the primary's history only. Where the last two of a pool met, the
/// first of them is paired with a third and the second tried again; where
/// there is no third, both are carried. The second of two carried competitors
/// is then paired with a member of the next bucket without a look at their
/// histories. So, where the competitors carry distinct numbers, a pairing can
/// repeat the primary's last match only if the primary was carried down.
///
/// The round fails where the sweep ends on two competitors who met in the
/// match played last. Then the pool gets all its competitors back, in some
/// order. That cannot happen where nobody in the pool met anybody in the pool
/// in the match played last, and it must happen where the pool is two
/// competitors who met each other.
pub fn generate_pairings(players: &mut Vec<Player>, scoring: ScoreConfig) -> (round: Result<
    Vec<Pairing>,
    PairingError,
>)
    requires
        points_fit(views(old(players)@), scoring),
    ensures
        match round {
            Ok(pairings) => {
                let pairs = pairing_views(pairings@);
                &&& final(players)@.len() == 0
                &&& is_round_of(pairs, views(old(players)@), scoring)
                &&& enrolled(pairs) == views(old(players)@).to_multiset()
                &&& forall|i: int|
                    0 <= i < pairs.len() && (#[trigger] pairs[i]).is_bye() ==> i == pairs.len() - 1
                &&& forall|i: int| 0 <= i < pairs.len() ==> (#[trigger] pairs[i]).outcome is None
                &&& (pairs.len() > 0 && pairs.last().is_bye()) <==> old(players)@.len() % 2 == 1
                &&& pairs.len() == (old(players)@.len() + 1) / 2
                &&& distinct_numbers(views(old(players)@)) ==> avoids_rematches(
                    pairs,
                    views(old(players)@),
                    scoring,
                )
                &&& distinct_numbers(views(old(players)@)) && is_mutual(views(old(players)@))
                    ==> repeats_nothing(pairs)
            },
            Err(_) => {
                &&& views(final(players)@).to_multiset() == views(old(players)@).to_multiset()
                &&& can_strand(views(old(players)@), scoring)
            },
        },
        no_rematch_possible(views(old(players)@)) ==> round is Ok,
        is_lone_rematch(views(old(players)@)) ==> round is Err,
{
    broadcast use vstd::multiset::group_multiset_axioms;

    let ghost pool = views(players@);
    let (map, max_mp) = fill_buckets(players, scoring);
    let (pairings, left_1, left_2, Ghost(order)) = sweep_buckets(map, max_mp, scoring);
    let mut pairings = pairings;
    proof {
        assert(is_draw(order, pool, scoring));
        lemma_round_conserves(order, pool, scoring);
        lemma_round_byes(order, pool, scoring);
        lemma_sweep_conserves(order);
        lemma_sweep_matches(order);
        if distinct_numbers(pool) {
            lemma_round_avoids_rematches(order, pool, scoring);
            if is_mutual(pool) {
                lemma_round_repeats_nothing(order, pool, scoring);
            }
        }
        if no_rematch_possible(pool) {
            lemma_round_succeeds(order, pool, scoring);
        }
        if is_lone_rematch(pool) {
            lemma_two_who_met_strand(order, pool, scoring);
        }
    }
    match left_2 {
        Some(stranded) => {
            let ghost made = pairing_views(pairings@);
            proof {
                assert(views(players@) == Seq::<PlayerView>::empty());
                lemma_empty_bag::<PlayerView>();
            }
            dissolve(pairings, players);
            let ghost dissolved = views(players@);
            assert(dissolved.to_multiset() =~= enrolled(made));
            if let Some(left_over) = left_1 {
                players.push(left_over);
                proof {
                    assert(views(players@) == dissolved.push(left_over@));
                    to_multiset_build(dissolved, left_over@);
                }
            }
            let ghost nearly = views(players@);
            players.push(stranded);
            proof {
                assert(views(players@) == nearly.push(stranded@));
                to_multiset_build(nearly, stranded@);
                assert(round_pairs(order) is None);
                assert(views(players@).to_multiset() =~= enrolled(made).add(sweep(order).carry.bag()));
            }
            Err(PairingError::StrandedRematch)
        },
        None => {
            let ghost made = pairing_views(pairings@);
            if let Some(left_over) = left_1 {
                pairings.push(Pairing::new(left_over, None));
                assert(pairing_views(pairings@) == made.push(PairingView::fresh(left_over@, None)));
            }
            assert(round_pairs(order) == Some(pairing_views(pairings@)));
            Ok(pairings)
        },
    }
}

} // verus!
