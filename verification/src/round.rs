//! What one round of pairing is, in mathematical terms.
//!
//! The competitors are sorted into buckets by match points. The buckets are
//! visited from the highest score down, each in some order of its members.
//! Within a bucket a pool is worked off from its end, two competitors at a
//! time; competitors that find no partner are carried into the next bucket.

use vstd::prelude::*;
use vstd::multiset::Multiset;
use crate::player::PlayerView;
use crate::swiss::{PairingView, ScoreConfig, BYE_PLAYER_NUMBER};

verus! {

/// The first competitor met the second one in the match played last.
pub open spec fn is_rematch(first: PlayerView, second: PlayerView) -> bool {
    first.last_opponent() == Some(second.number)
}

/// The competitors carried from one bucket into the next: none, one, or the two
/// of a stranded rematch.
pub struct Carry {
    pub first: Option<PlayerView>,
    pub second: Option<PlayerView>,
}

impl Carry {
    pub open spec fn none() -> Carry {
        Carry { first: None, second: None }
    }

    /// The carried competitors as a bag.
    pub open spec fn bag(self) -> Multiset<PlayerView> {
        let first = match self.first {
            Some(p) => Multiset::singleton(p),
            None => Multiset::empty(),
        };
        let second = match self.second {
            Some(p) => Multiset::singleton(p),
            None => Multiset::empty(),
        };
        first.add(second)
    }
}

/// The pairings made so far and the competitors still carried.
pub struct Sweep {
    pub pairs: Seq<PairingView>,
    pub carry: Carry,
}

/// Works a pool off from its end. The last two competitors are paired unless
/// the last met the one before in the match played last. Then the last is
/// paired with the third from the end and the one before goes back on the
/// pool; where there is no third, both are carried.
pub open spec fn pair_pool(pool: Seq<PlayerView>) -> Sweep
    decreases pool.len(),
{
    if pool.len() == 0 {
        Sweep { pairs: Seq::empty(), carry: Carry::none() }
    } else if pool.len() == 1 {
        Sweep { pairs: Seq::empty(), carry: Carry { first: Some(pool[0]), second: None } }
    } else {
        let top = pool[pool.len() - 1];
        let next = pool[pool.len() - 2];
        let rest = pool.take(pool.len() - 2);
        if !is_rematch(top, next) {
            let later = pair_pool(rest);
            Sweep {
                pairs: seq![PairingView::fresh(top, Some(next))] + later.pairs,
                carry: later.carry,
            }
        } else if rest.len() == 0 {
            Sweep { pairs: Seq::empty(), carry: Carry { first: Some(top), second: Some(next) } }
        } else {
            let later = pair_pool(rest.drop_last().push(next));
            Sweep {
                pairs: seq![PairingView::fresh(top, Some(rest.last()))] + later.pairs,
                carry: later.carry,
            }
        }
    }
}

/// One bucket, given in the order in which its members are taken (from the
/// end), and what was carried into it. A second carried competitor is paired at
/// once with the bucket's last member, whoever that is. A first carried
/// competitor goes on top of the pool, which is then worked off.
pub open spec fn bucket_step(bucket: Seq<PlayerView>, carry: Carry) -> Sweep {
    let forced = match carry.second {
        Some(floater) => seq![PairingView::fresh(floater, Some(bucket.last()))],
        None => Seq::empty(),
    };
    let remaining = match carry.second {
        Some(_) => bucket.drop_last(),
        None => bucket,
    };
    let pool = match carry.first {
        Some(floater) => remaining.push(floater),
        None => remaining,
    };
    let worked = pair_pool(pool);
    Sweep { pairs: forced + worked.pairs, carry: worked.carry }
}

/// The buckets taken one after the other, the first given first.
pub open spec fn sweep(order: Seq<Seq<PlayerView>>) -> Sweep
    decreases order.len(),
{
    if order.len() == 0 {
        Sweep { pairs: Seq::empty(), carry: Carry::none() }
    } else {
        let before = sweep(order.drop_last());
        let step = bucket_step(order.last(), before.carry);
        Sweep { pairs: before.pairs + step.pairs, carry: step.carry }
    }
}

/// The pairings of the round once every bucket was taken: a competitor carried
/// out of the last bucket gets a bye. Two carried competitors are a stranded
/// rematch, and the round has no pairings.
pub open spec fn round_pairs(order: Seq<Seq<PlayerView>>) -> Option<Seq<PairingView>> {
    let swept = sweep(order);
    if swept.carry.second is Some {
        None
    } else {
        match swept.carry.first {
            Some(floater) => Some(swept.pairs.push(PairingView::fresh(floater, None))),
            None => Some(swept.pairs),
        }
    }
}

/// The competitors of all buckets as a bag.
pub open spec fn pooled(order: Seq<Seq<PlayerView>>) -> Multiset<PlayerView>
    decreases order.len(),
{
    if order.len() == 0 {
        Multiset::empty()
    } else {
        pooled(order.drop_last()).add(order.last().to_multiset())
    }
}

/// The competitors of all pairings as a bag.
pub open spec fn enrolled(pairs: Seq<PairingView>) -> Multiset<PlayerView>
    decreases pairs.len(),
{
    if pairs.len() == 0 {
        Multiset::empty()
    } else {
        enrolled(pairs.drop_last()).add(pairs.last().roster().to_multiset())
    }
}

/// No bucket is empty, the members of a bucket have the same match points, and
/// the buckets come in strictly falling order of match points.
pub open spec fn is_layered(order: Seq<Seq<PlayerView>>, scoring: ScoreConfig) -> bool {
    &&& forall|i: int| 0 <= i < order.len() ==> (#[trigger] order[i]).len() > 0
    &&& forall|i: int, j: int|
        0 <= i < order.len() && 0 <= j < order[i].len() ==> (#[trigger] order[i][j]).match_points(
            scoring,
        ) == order[i][0].match_points(scoring)
    &&& forall|i: int, j: int|
        0 <= i < j < order.len() ==> (#[trigger] order[i])[0].match_points(scoring) > (
        #[trigger] order[j])[0].match_points(scoring)
}

/// The order is one in which a round may take the pool: layered, and holding
/// exactly the competitors of the pool.
pub open spec fn is_draw(
    order: Seq<Seq<PlayerView>>,
    pool: Seq<PlayerView>,
    scoring: ScoreConfig,
) -> bool {
    &&& is_layered(order, scoring)
    &&& pooled(order) == pool.to_multiset()
}

/// The match points of every competitor of the list fit a byte.
pub open spec fn points_fit(pool: Seq<PlayerView>, scoring: ScoreConfig) -> bool {
    forall|i: int| 0 <= i < pool.len() ==> (#[trigger] pool[i]).match_points(scoring) <= u8::MAX
}

/// No two competitors of the list carry the same number.
pub open spec fn distinct_numbers(pool: Seq<PlayerView>) -> bool {
    forall|i: int, j: int|
        0 <= i < j < pool.len() ==> (#[trigger] pool[i]).number != (#[trigger] pool[j]).number
}

/// No competitor of the list met a competitor of the list in the match played
/// last.
pub open spec fn no_rematch_possible(pool: Seq<PlayerView>) -> bool {
    forall|i: int, j: int|
        0 <= i < pool.len() && 0 <= j < pool.len() ==> !is_rematch(
            #[trigger] pool[i],
            #[trigger] pool[j],
        )
}

/// The pairing brings two competitors together of whom the primary met the
/// secondary in the match played last.
pub open spec fn repeats(pair: PairingView) -> bool {
    match pair.secondary {
        Some(secondary) => is_rematch(pair.primary, secondary),
        None => false,
    }
}

/// The primary has more match points than the secondary: it was carried down
/// from a bucket above.
pub open spec fn steps_down(pair: PairingView, scoring: ScoreConfig) -> bool {
    match pair.secondary {
        Some(secondary) => pair.primary.match_points(scoring) > secondary.match_points(scoring),
        None => false,
    }
}

/// Every pairing of the list has two competitors and no declared result.
pub open spec fn all_matched(pairs: Seq<PairingView>) -> bool {
    forall|i: int|
        0 <= i < pairs.len() ==> (#[trigger] pairs[i]).secondary is Some && pairs[i].outcome
            is None
}

/// Somebody of the pool other than the pairing's secondary met its primary in
/// the match played last: the two were stranded together.
pub open spec fn was_stranded(pair: PairingView, pool: Seq<PlayerView>) -> bool {
    exists|j: int|
        0 <= j < pool.len() && is_rematch(#[trigger] pool[j], pair.primary) && pool[j].number
            != pair.opponent_number()
}

/// No pairing of the list repeats a match, unless its primary was carried down
/// after it was stranded with somebody else.
pub open spec fn avoids_rematches(
    pairs: Seq<PairingView>,
    pool: Seq<PlayerView>,
    scoring: ScoreConfig,
) -> bool {
    forall|i: int|
        0 <= i < pairs.len() && repeats(#[trigger] pairs[i]) ==> steps_down(pairs[i], scoring)
            && was_stranded(pairs[i], pool)
}

/// Nobody of the list carries the number that is reserved for the bye.
pub open spec fn no_reserved_number(pool: Seq<PlayerView>) -> bool {
    forall|i: int| 0 <= i < pool.len() ==> (#[trigger] pool[i]).number != BYE_PLAYER_NUMBER
}

/// No pairing of the list repeats a match.
pub open spec fn repeats_nothing(pairs: Seq<PairingView>) -> bool {
    forall|i: int| 0 <= i < pairs.len() ==> !repeats(#[trigger] pairs[i])
}

/// Whoever of the list met somebody of the list in the match played last was
/// met by that one in the match played last, too.
pub open spec fn is_mutual(pool: Seq<PlayerView>) -> bool {
    forall|i: int, j: int|
        0 <= i < pool.len() && 0 <= j < pool.len() && is_rematch(
            #[trigger] pool[i],
            #[trigger] pool[j],
        ) ==> is_rematch(pool[j], pool[i])
}

/// The pool is two competitors who met each other in the match played last.
pub open spec fn is_lone_rematch(pool: Seq<PlayerView>) -> bool {
    &&& pool.len() == 2
    &&& is_rematch(pool[0], pool[1])
    &&& is_rematch(pool[1], pool[0])
}

/// The pairings are those of a round on the pool, for some order in which its
/// buckets may be taken.
pub open spec fn is_round_of(
    pairs: Seq<PairingView>,
    pool: Seq<PlayerView>,
    scoring: ScoreConfig,
) -> bool {
    exists|order: Seq<Seq<PlayerView>>|
        is_draw(order, pool, scoring) && #[trigger] round_pairs(order) == Some(pairs)
}

/// There is an order of the pool's buckets in which the round ends on a
/// stranded rematch.
pub open spec fn can_strand(pool: Seq<PlayerView>, scoring: ScoreConfig) -> bool {
    exists|order: Seq<Seq<PlayerView>>|
        is_draw(order, pool, scoring) && #[trigger] round_pairs(order) is None
}

} // verus!
