//! What holds of every round and of every resolved pairing.

use vstd::multiset::Multiset;
use vstd::prelude::*;
use vstd::seq_lib::{to_multiset_contains, to_multiset_len};

use crate::bags::{lemma_empty_bag, lemma_pair_bag, lemma_single_bag};
use crate::player::{lemma_after_match_keeps_record, PlayerView};
use crate::round::{
    avoids_rematches, distinct_numbers, enrolled, is_draw, is_lone_rematch, is_mutual,
    is_rematch, no_rematch_possible, no_reserved_number, pair_pool, pooled, repeats,
    repeats_nothing, round_pairs, steps_down, sweep, was_stranded, Carry,
};
use crate::steps::{
    forced_in, lemma_distinct_list_unique_bag, lemma_matched_count, lemma_paired_is_enrolled,
    lemma_pooled_count, lemma_sweep_avoids_rematches, lemma_sweep_conserves,
    lemma_sweep_matches, lemma_sweep_strands_nobody, lemma_two_in_some_order,
};
use crate::swiss::{Outcome, PairingView, ScoreConfig, BYE_PLAYER_NUMBER};
use crate::tournament::resolved_roster;

verus! {

broadcast use vstd::multiset::group_multiset_axioms;

/// Every competitor of the pool is in exactly one pairing of the round, as
/// primary or as secondary, and nobody else is.
pub proof fn lemma_round_conserves(
    order: Seq<Seq<PlayerView>>,
    pool: Seq<PlayerView>,
    scoring: ScoreConfig,
)
    requires
        is_draw(order, pool, scoring),
    ensures
        match round_pairs(order) {
            Some(pairs) => enrolled(pairs) == pool.to_multiset(),
            None => true,
        },
{
    let swept = sweep(order);
    lemma_sweep_conserves(order);
    if swept.carry.second is None {
        match swept.carry.first {
            Some(floater) => {
                let bye = PairingView::fresh(floater, None);
                let pairs = swept.pairs.push(bye);
                assert(pairs.drop_last() == swept.pairs);
                assert(bye.roster() == seq![floater]);
                lemma_single_bag(floater);
                assert(enrolled(pairs) =~= pool.to_multiset());
            },
            None => {
                assert(enrolled(swept.pairs) =~= pool.to_multiset());
            },
        }
    }
}

/// A round has at most one bye, it is the last pairing, and there is one
/// exactly when the number of competitors is odd. So the round has half as many
/// pairings as the pool has competitors, rounded up, and nothing is declared
/// on any of them.
pub proof fn lemma_round_byes(
    order: Seq<Seq<PlayerView>>,
    pool: Seq<PlayerView>,
    scoring: ScoreConfig,
)
    requires
        is_draw(order, pool, scoring),
    ensures
        match round_pairs(order) {
            Some(pairs) => {
                &&& forall|i: int|
                    0 <= i < pairs.len() && (#[trigger] pairs[i]).is_bye() ==> i == pairs.len() - 1
                &&& forall|i: int| 0 <= i < pairs.len() ==> (#[trigger] pairs[i]).outcome is None
                &&& (pairs.len() > 0 && pairs.last().is_bye()) <==> pool.len() % 2 == 1
                &&& pairs.len() == (pool.len() + 1) / 2
            },
            None => true,
        },
{
    let swept = sweep(order);
    lemma_sweep_conserves(order);
    lemma_sweep_matches(order);
    lemma_matched_count(swept.pairs);
    to_multiset_len(pool);
    if swept.carry.second is None {
        match swept.carry.first {
            Some(floater) => {
                assert(swept.carry.bag() =~= Multiset::singleton(floater));
            },
            None => {
                assert(swept.carry.bag() =~= Multiset::empty());
            },
        }
    }
}

/// Where no two competitors of the pool carry the same number, no pairing of
/// the round brings a competitor together with the opponent of the match
/// played last, unless that competitor was carried down from a bucket above
/// after it was stranded there with somebody else.
pub proof fn lemma_round_avoids_rematches(
    order: Seq<Seq<PlayerView>>,
    pool: Seq<PlayerView>,
    scoring: ScoreConfig,
)
    requires
        is_draw(order, pool, scoring),
        distinct_numbers(pool),
    ensures
        match round_pairs(order) {
            Some(pairs) => avoids_rematches(pairs, pool, scoring),
            None => true,
        },
{
    lemma_distinct_list_unique_bag(pool);
    lemma_sweep_avoids_rematches(order, scoring);
    let swept = sweep(order);
    match round_pairs(order) {
        Some(pairs) => {
            assert forall|i: int| 0 <= i < pairs.len() && repeats(#[trigger] pairs[i]) implies steps_down(
                pairs[i],
                scoring,
            ) && was_stranded(pairs[i], pool) by {
                assert(pairs[i] == swept.pairs[i]);
                assert(forced_in(swept.pairs[i], pooled(order), scoring));
                let other = choose|other: PlayerView| #[trigger]
                    pooled(order).count(other) > 0 && is_rematch(other, pairs[i].primary)
                        && other.number != pairs[i].opponent_number();
                to_multiset_contains(pool, other);
                let j = choose|j: int| 0 <= j < pool.len() && pool[j] == other;
                assert(is_rematch(pool[j], pairs[i].primary));
            }
        },
        None => {},
    }
}

/// Where no two competitors of the pool carry the same number and the last
/// meetings in the pool are mutual, as they are after rounds that all of the
/// pool played, no pairing of the round brings a competitor together with the
/// opponent of the match played last.
pub proof fn lemma_round_repeats_nothing(
    order: Seq<Seq<PlayerView>>,
    pool: Seq<PlayerView>,
    scoring: ScoreConfig,
)
    requires
        is_draw(order, pool, scoring),
        distinct_numbers(pool),
        is_mutual(pool),
    ensures
        match round_pairs(order) {
            Some(pairs) => repeats_nothing(pairs),
            None => true,
        },
{
    lemma_round_avoids_rematches(order, pool, scoring);
    lemma_round_conserves(order, pool, scoring);
    match round_pairs(order) {
        Some(pairs) => {
            assert forall|i: int| 0 <= i < pairs.len() implies !repeats(#[trigger] pairs[i]) by {
                if repeats(pairs[i]) {
                    let primary = pairs[i].primary;
                    let j = choose|j: int|
                        0 <= j < pool.len() && is_rematch(#[trigger] pool[j], pairs[i].primary)
                            && pool[j].number != pairs[i].opponent_number();
                    lemma_paired_is_enrolled(pairs, i);
                    to_multiset_contains(pool, primary);
                    let k = choose|k: int| 0 <= k < pool.len() && pool[k] == primary;
                    assert(is_rematch(pool[j], pool[k]));
                    assert(is_rematch(pool[k], pool[j]));
                }
            }
        },
        None => {},
    }
}

/// Where no competitor of the pool met a competitor of the pool in the match
/// played last, the round has its pairings, whatever the order.
pub proof fn lemma_round_succeeds(
    order: Seq<Seq<PlayerView>>,
    pool: Seq<PlayerView>,
    scoring: ScoreConfig,
)
    requires
        is_draw(order, pool, scoring),
        no_rematch_possible(pool),
    ensures
        round_pairs(order) is Some,
{
    let bag = pool.to_multiset();
    assert forall|a: PlayerView, b: PlayerView|
        bag.count(a) > 0 && bag.count(b) > 0 implies !is_rematch(a, b) by {
        to_multiset_contains(pool, a);
        to_multiset_contains(pool, b);
        let i = choose|i: int| 0 <= i < pool.len() && pool[i] == a;
        let j = choose|j: int| 0 <= j < pool.len() && pool[j] == b;
        assert(!is_rematch(pool[i], pool[j]));
    }
    lemma_sweep_strands_nobody(order);
}

/// Two competitors who met each other in the match played last cannot be
/// paired when they are the whole pool: whatever the order, the round ends on
/// a stranded rematch.
pub proof fn lemma_two_who_met_strand(
    order: Seq<Seq<PlayerView>>,
    pool: Seq<PlayerView>,
    scoring: ScoreConfig,
)
    requires
        is_draw(order, pool, scoring),
        is_lone_rematch(pool),
    ensures
        round_pairs(order) is None,
{
    to_multiset_len(pool);
    lemma_pooled_count(order);
    lemma_empty_bag::<PlayerView>();
    if order.len() == 1 {
        let bucket = order[0];
        assert(order.drop_last() == Seq::<Seq<PlayerView>>::empty());
        assert(pooled(order.drop_last()) == Multiset::<PlayerView>::empty());
        assert(pooled(order) =~= bucket.to_multiset());
        to_multiset_len(bucket);
        lemma_two_in_some_order(bucket, pool);
        assert(is_rematch(bucket[1], bucket[0]));
        assert(bucket.take(0) == Seq::<PlayerView>::empty());
        assert(sweep(order.drop_last()).carry == Carry::none());
        assert(pair_pool(bucket).carry.second is Some);
    } else {
        let earlier = order.drop_last();
        assert(forall|i: int| 0 <= i < earlier.len() ==> (#[trigger] earlier[i]) == order[i]);
        lemma_pooled_count(earlier);
        assert(order.len() == 2);
        let high = order[0];
        let low = order[1];
        assert(earlier.drop_last() == Seq::<Seq<PlayerView>>::empty());
        assert(pooled(earlier.drop_last()) == Multiset::<PlayerView>::empty());
        assert(pooled(earlier) =~= high.to_multiset());
        to_multiset_len(high);
        to_multiset_len(low);
        assert(high.len() == 1 && low.len() == 1);
        assert(high == seq![high[0]]);
        assert(low == seq![low[0]]);
        lemma_single_bag(high[0]);
        lemma_single_bag(low[0]);
        lemma_pair_bag(high[0], low[0]);
        assert(seq![high[0], low[0]].to_multiset() =~= pool.to_multiset());
        lemma_two_in_some_order(seq![high[0], low[0]], pool);
        assert(is_rematch(high[0], low[0]));
        assert(sweep(earlier.drop_last()).carry == Carry::none());
        assert(sweep(earlier).carry == (Carry { first: Some(high[0]), second: None }));
        let pooled_low = low.push(high[0]);
        assert(pooled_low.take(0) == Seq::<PlayerView>::empty());
        assert(pair_pool(pooled_low).carry.second is Some);
    }
}

/// The complement of a win is a loss and the other way round, a tie is its own
/// complement, and the complement of the complement is the outcome itself.
pub proof fn lemma_complement(outcome: Outcome)
    ensures
        Outcome::Win.complement() == Outcome::Loss,
        Outcome::Loss.complement() == Outcome::Win,
        Outcome::Tie.complement() == Outcome::Tie,
        outcome.complement().complement() == outcome,
{
}

/// What resolving a pairing does to the records. A declared win credits the
/// primary with a win and the secondary with a loss, a loss the other way
/// round, a tie credits both with a tie; a declared bye credits its one
/// competitor with a win. Each competitor's history gets one entry, with the
/// other's number, or the reserved number in a bye. With nothing declared,
/// nothing changes.
pub proof fn lemma_resolution_credits(pair: PairingView)
    requires
        pair.is_sound(),
    ensures
        pair.outcome is None ==> pair.resolved_primary() == pair.primary
            && pair.resolved_secondary() == pair.secondary,
        pair.outcome matches Some(outcome) ==> {
            let primary = pair.resolved_primary();
            &&& primary.wins == pair.primary.wins + if outcome == Outcome::Win { 1nat } else { 0nat }
            &&& primary.losses == pair.primary.losses + if outcome == Outcome::Loss { 1nat } else { 0nat }
            &&& primary.ties == pair.primary.ties + if outcome == Outcome::Tie { 1nat } else { 0nat }
            &&& primary.history == pair.primary.history.push((pair.opponent_number(), outcome))
            &&& primary.name == pair.primary.name
            &&& primary.number == pair.primary.number
        },
        pair.outcome is Some && pair.is_bye() ==> {
            &&& pair.resolved_primary().wins == pair.primary.wins + 1
            &&& pair.resolved_primary().losses == pair.primary.losses
            &&& pair.resolved_primary().ties == pair.primary.ties
            &&& pair.resolved_primary().last_opponent() == Some(BYE_PLAYER_NUMBER)
            &&& pair.resolved_secondary() is None
        },
        (pair.outcome, pair.secondary) matches (Some(outcome), Some(before)) ==> {
            &&& pair.resolved_secondary() matches Some(secondary)
            &&& secondary.wins == before.wins + if outcome == Outcome::Loss { 1nat } else { 0nat }
            &&& secondary.losses == before.losses + if outcome == Outcome::Win { 1nat } else { 0nat }
            &&& secondary.ties == before.ties + if outcome == Outcome::Tie { 1nat } else { 0nat }
            &&& secondary.history == before.history.push(
                (pair.primary.number, outcome.complement()),
            )
            &&& secondary.name == before.name
            &&& secondary.number == before.number
        },
{
}

/// Resolving a pairing keeps each record as large as its history is long, and
/// keeps counters that tally the history so.
pub proof fn lemma_resolution_keeps_records(pair: PairingView)
    ensures
        pair.primary.is_consistent() ==> pair.resolved_primary().is_consistent(),
        pair.primary.is_tallied() ==> pair.resolved_primary().is_tallied(),
        (pair.secondary, pair.resolved_secondary()) matches (Some(before), Some(after)) ==> {
            &&& before.is_consistent() ==> after.is_consistent()
            &&& before.is_tallied() ==> after.is_tallied()
        },
{
    match pair.outcome {
        Some(outcome) => {
            lemma_after_match_keeps_record(pair.primary, pair.opponent_number(), outcome);
            match pair.secondary {
                Some(secondary) => {
                    lemma_after_match_keeps_record(
                        secondary,
                        pair.primary.number,
                        outcome.complement(),
                    );
                },
                None => {},
            }
        },
        None => {},
    }
}

/// The competitor at the place met nobody in the match played last, or
/// somebody of the list who met the competitor in the match played last.
spec fn is_answered(roster: Seq<PlayerView>, at: int) -> bool {
    roster[at].last_opponent() matches Some(number) && (number == BYE_PLAYER_NUMBER || exists|
        by: int,
    |
        0 <= by < roster.len() && (#[trigger] roster[by]).number == number
            && roster[by].last_opponent() == Some(roster[at].number))
}

/// After a round each competitor's last match is a bye or a match that the
/// opponent has as the last match, too.
proof fn lemma_resolved_round_is_answered(pairs: Seq<PairingView>)
    requires
        forall|i: int| 0 <= i < pairs.len() ==> (#[trigger] pairs[i]).outcome is Some,
    ensures
        forall|at: int|
            0 <= at < resolved_roster(pairs).len() ==> is_answered(resolved_roster(pairs), at),
    decreases pairs.len(),
{
    if pairs.len() > 0 {
        let earlier = pairs.drop_last();
        let last = pairs.last();
        let before = resolved_roster(earlier);
        let after = resolved_roster(pairs);
        assert(forall|i: int| 0 <= i < earlier.len() ==> (#[trigger] earlier[i]) == pairs[i]);
        lemma_resolved_round_is_answered(earlier);
        let primary = last.resolved_primary();
        assert(after[before.len() as int] == primary);
        assert forall|at: int| 0 <= at < after.len() implies is_answered(after, at) by {
            if at < before.len() {
                assert(is_answered(before, at));
                assert(after[at] == before[at]);
                let number = before[at].last_opponent()->Some_0;
                if number != BYE_PLAYER_NUMBER {
                    let by = choose|by: int|
                        0 <= by < before.len() && (#[trigger] before[by]).number == number
                            && before[by].last_opponent() == Some(before[at].number);
                    assert(after[by] == before[by]);
                }
            } else if at == before.len() {
                match last.secondary {
                    Some(_) => {
                        let secondary = last.resolved_secondary()->Some_0;
                        assert(after[before.len() as int + 1] == secondary);
                    },
                    None => {},
                }
            } else {
                assert(after[at] == last.resolved_secondary()->Some_0);
            }
        }
    }
}

/// After a round the last meetings are mutual: where nobody carries the
/// number reserved for the bye and no two carry the same number, whoever met
/// somebody in the match played last was met by that one in it.
pub proof fn lemma_resolved_round_is_mutual(pairs: Seq<PairingView>)
    requires
        forall|i: int| 0 <= i < pairs.len() ==> (#[trigger] pairs[i]).outcome is Some,
        distinct_numbers(resolved_roster(pairs)),
        no_reserved_number(resolved_roster(pairs)),
    ensures
        is_mutual(resolved_roster(pairs)),
{
    let roster = resolved_roster(pairs);
    lemma_resolved_round_is_answered(pairs);
    assert forall|i: int, j: int|
        0 <= i < roster.len() && 0 <= j < roster.len() && is_rematch(
            #[trigger] roster[i],
            #[trigger] roster[j],
        ) implies is_rematch(roster[j], roster[i]) by {
        assert(is_answered(roster, i));
        let number = roster[i].last_opponent()->Some_0;
        assert(number == roster[j].number);
        let by = choose|by: int|
            0 <= by < roster.len() && (#[trigger] roster[by]).number == number
                && roster[by].last_opponent() == Some(roster[i].number);
        if by < j {
            assert(roster[by].number != roster[j].number);
        } else if j < by {
            assert(roster[j].number != roster[by].number);
        }
    }
}

/// The match points depend on the record and the scoring alone: competitors
/// with the same wins, losses and ties have the same match points, whatever
/// their names, numbers and histories.
pub proof fn lemma_points_from_record(one: PlayerView, other: PlayerView, scoring: ScoreConfig)
    requires
        one.wins == other.wins,
        one.losses == other.losses,
        one.ties == other.ties,
    ensures
        one.match_points(scoring) == other.match_points(scoring),
{
}

} // verus!
