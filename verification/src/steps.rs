//! How pools, buckets and sweeps behave step by step: what the laws of a round
//! are proved from.

use vstd::multiset::Multiset;
use vstd::prelude::*;
use vstd::seq_lib::{to_multiset_build, to_multiset_contains, to_multiset_len};

use crate::bags::{lemma_bag_sums_chain, lemma_empty_bag, lemma_pair_bag, lemma_single_bag};
use crate::player::PlayerView;
use crate::round::{
    all_matched, bucket_step, distinct_numbers, enrolled, is_layered,
    is_rematch, no_rematch_possible, pair_pool, pooled, repeats, steps_down, sweep, Carry,
};
use crate::swiss::{PairingView, ScoreConfig};

verus! {

broadcast use vstd::multiset::group_multiset_axioms;

/// The competitors of two lists of pairings put together are those of the one
/// and those of the other.
pub proof fn lemma_enrolled_concat(front: Seq<PairingView>, back: Seq<PairingView>)
    ensures
        enrolled(front + back) == enrolled(front).add(enrolled(back)),
    decreases back.len(),
{
    if back.len() == 0 {
        assert(front + back == front);
        assert(enrolled(front + back) =~= enrolled(front).add(enrolled(back)));
    } else {
        lemma_enrolled_concat(front, back.drop_last());
        assert((front + back).drop_last() == front + back.drop_last());
        assert(enrolled(front + back) =~= enrolled(front).add(enrolled(back)));
    }
}

/// A single pairing of two enrolls exactly those two.
pub proof fn lemma_enrolled_pair(primary: PlayerView, secondary: PlayerView)
    ensures
        enrolled(seq![PairingView::fresh(primary, Some(secondary))]) == Multiset::singleton(
            primary,
        ).add(Multiset::singleton(secondary)),
{
    let pair = PairingView::fresh(primary, Some(secondary));
    let single = seq![pair];
    lemma_pair_bag(primary, secondary);
    assert(single.drop_last() == Seq::<PairingView>::empty());
    assert(enrolled(single.drop_last()) == Multiset::<PlayerView>::empty());
    assert(pair.roster() == seq![primary, secondary]);
    assert(enrolled(single) =~= Multiset::singleton(primary).add(Multiset::singleton(secondary)));
}

/// Working a pool off loses nobody and invents nobody: the competitors of the
/// pairings made and those carried are exactly the pool.
pub proof fn lemma_pair_pool_conserves(pool: Seq<PlayerView>)
    ensures
        enrolled(pair_pool(pool).pairs).add(pair_pool(pool).carry.bag()) == pool.to_multiset(),
    decreases pool.len(),
{
    let worked = pair_pool(pool);
    lemma_empty_bag::<PlayerView>();
    if pool.len() == 0 {
        assert(pool == Seq::<PlayerView>::empty());
        assert(enrolled(worked.pairs).add(worked.carry.bag()) =~= pool.to_multiset());
    } else if pool.len() == 1 {
        assert(pool == seq![pool[0]]);
        lemma_single_bag(pool[0]);
        assert(enrolled(worked.pairs).add(worked.carry.bag()) =~= pool.to_multiset());
    } else {
        let top = pool[pool.len() - 1];
        let next = pool[pool.len() - 2];
        let rest = pool.take(pool.len() - 2);
        assert(pool == rest.push(next).push(top));
        to_multiset_build(rest, next);
        to_multiset_build(rest.push(next), top);
        if !is_rematch(top, next) {
            let later = pair_pool(rest);
            lemma_pair_pool_conserves(rest);
            lemma_enrolled_pair(top, next);
            lemma_enrolled_concat(seq![PairingView::fresh(top, Some(next))], later.pairs);
            assert(enrolled(worked.pairs).add(worked.carry.bag()) =~= pool.to_multiset());
        } else if rest.len() == 0 {
            assert(rest == Seq::<PlayerView>::empty());
            assert(worked.pairs == Seq::<PairingView>::empty());
            assert(enrolled(worked.pairs) == Multiset::<PlayerView>::empty());
            assert(worked.carry.bag() == Multiset::singleton(top).add(Multiset::singleton(next)));
            assert(rest.to_multiset() == Multiset::<PlayerView>::empty());
            assert(pool.to_multiset() == rest.to_multiset().insert(next).insert(top));
            assert(pool.to_multiset() =~= Multiset::singleton(top).add(Multiset::singleton(next)));
            assert(enrolled(worked.pairs).add(worked.carry.bag()) =~= pool.to_multiset());
        } else {
            let third = rest.last();
            let retried = rest.drop_last().push(next);
            let later = pair_pool(retried);
            lemma_pair_pool_conserves(retried);
            lemma_enrolled_pair(top, third);
            lemma_enrolled_concat(seq![PairingView::fresh(top, Some(third))], later.pairs);
            assert(rest == rest.drop_last().push(third));
            to_multiset_build(rest.drop_last(), third);
            to_multiset_build(rest.drop_last(), next);
            let below = rest.drop_last().to_multiset();
            let paired = Multiset::singleton(top).add(Multiset::singleton(third));
            assert(pool.to_multiset() == below.insert(third).insert(next).insert(top));
            assert(enrolled(later.pairs).add(later.carry.bag()) == below.insert(next));
            assert(enrolled(worked.pairs) == paired.add(enrolled(later.pairs)));
            assert forall|v: PlayerView|
                enrolled(worked.pairs).add(worked.carry.bag()).count(v) == pool.to_multiset().count(
                    v,
                ) by {
                assert(enrolled(later.pairs).add(later.carry.bag()).count(v) == below.insert(
                    next,
                ).count(v));
            }
            assert(enrolled(worked.pairs).add(worked.carry.bag()) =~= pool.to_multiset());
        }
    }
}

/// Taking a bucket loses nobody and invents nobody: the competitors of the
/// pairings made and those carried out are the bucket and those carried in.
pub proof fn lemma_bucket_step_conserves(bucket: Seq<PlayerView>, carry: Carry)
    requires
        carry.second is Some ==> bucket.len() > 0,
    ensures
        enrolled(bucket_step(bucket, carry).pairs).add(bucket_step(bucket, carry).carry.bag())
            == bucket.to_multiset().add(carry.bag()),
{
    let step = bucket_step(bucket, carry);
    let forced = match carry.second {
        Some(floater) => seq![PairingView::fresh(floater, Some(bucket.last()))],
        None => Seq::empty(),
    };
    let remaining = match carry.second {
        Some(_) => bucket.drop_last(),
        None => bucket,
    };
    let pool = match carry.first {
        Some(floater) => remaining.push(floater),
        None => remaining,
    };
    let worked = pair_pool(pool);
    lemma_pair_pool_conserves(pool);
    lemma_enrolled_concat(forced, worked.pairs);
    match carry.second {
        Some(floater) => {
            lemma_enrolled_pair(floater, bucket.last());
            assert(bucket == remaining.push(bucket.last()));
            to_multiset_build(remaining, bucket.last());
        },
        None => {
            assert(enrolled(forced) == Multiset::<PlayerView>::empty());
        },
    }
    match carry.first {
        Some(floater) => {
            to_multiset_build(remaining, floater);
        },
        None => {},
    }
    assert(enrolled(step.pairs).add(step.carry.bag()) =~= bucket.to_multiset().add(carry.bag()));
}

/// A whole sweep loses nobody and invents nobody.
pub proof fn lemma_sweep_conserves(order: Seq<Seq<PlayerView>>)
    requires
        forall|i: int| 0 <= i < order.len() ==> (#[trigger] order[i]).len() > 0,
    ensures
        enrolled(sweep(order).pairs).add(sweep(order).carry.bag()) == pooled(order),
    decreases order.len(),
{
    if order.len() == 0 {
        assert(enrolled(sweep(order).pairs) == Multiset::<PlayerView>::empty());
        assert(enrolled(sweep(order).pairs).add(sweep(order).carry.bag()) =~= pooled(order));
    } else {
        let before = sweep(order.drop_last());
        let step = bucket_step(order.last(), before.carry);
        lemma_sweep_conserves(order.drop_last());
        lemma_bucket_step_conserves(order.last(), before.carry);
        lemma_enrolled_concat(before.pairs, step.pairs);
        assert(forall|i: int|
            0 <= i < order.drop_last().len() ==> (#[trigger] order.drop_last()[i]) == order[i]);
        lemma_bag_sums_chain(
            enrolled(before.pairs),
            before.carry.bag(),
            pooled(order.drop_last()),
            enrolled(step.pairs),
            step.carry.bag(),
            order.last().to_multiset(),
        );
    }
}

/// Working a pool off makes pairings of two, with nothing declared.
pub proof fn lemma_pair_pool_matches(pool: Seq<PlayerView>)
    ensures
        all_matched(pair_pool(pool).pairs),
    decreases pool.len(),
{
    if pool.len() >= 2 {
        let top = pool[pool.len() - 1];
        let next = pool[pool.len() - 2];
        let rest = pool.take(pool.len() - 2);
        if !is_rematch(top, next) {
            lemma_pair_pool_matches(rest);
        } else if rest.len() > 0 {
            lemma_pair_pool_matches(rest.drop_last().push(next));
        }
    }
}

/// A sweep makes pairings of two, with nothing declared.
pub proof fn lemma_sweep_matches(order: Seq<Seq<PlayerView>>)
    ensures
        all_matched(sweep(order).pairs),
    decreases order.len(),
{
    if order.len() > 0 {
        let before = sweep(order.drop_last());
        lemma_sweep_matches(order.drop_last());
        let carry = before.carry;
        let bucket = order.last();
        let remaining = match carry.second {
            Some(_) => bucket.drop_last(),
            None => bucket,
        };
        let pool = match carry.first {
            Some(floater) => remaining.push(floater),
            None => remaining,
        };
        lemma_pair_pool_matches(pool);
    }
}

/// Pairings of two enroll twice as many competitors as there are pairings.
pub proof fn lemma_matched_count(pairs: Seq<PairingView>)
    requires
        all_matched(pairs),
    ensures
        enrolled(pairs).len() == 2 * pairs.len(),
    decreases pairs.len(),
{
    if pairs.len() > 0 {
        lemma_matched_count(pairs.drop_last());
        let last = pairs.last();
        assert(last.roster() == seq![last.primary, last.secondary->Some_0]);
        to_multiset_len(last.roster());
    }
}

/// No two competitors of the bag carry the same number, and none is in it twice.
pub open spec fn bag_numbers_unique(bag: Multiset<PlayerView>) -> bool {
    forall|a: PlayerView, b: PlayerView|
        #![trigger bag.count(a), bag.count(b)]
        bag.count(a) > 0 && bag.count(b) > 0 && a.number == b.number ==> a == b && bag.count(a)
            == 1
}

/// No competitor of the bag met a competitor of the bag in the match played last.
pub open spec fn bag_rematch_free(bag: Multiset<PlayerView>) -> bool {
    forall|a: PlayerView, b: PlayerView|
        #![trigger bag.count(a), bag.count(b)]
        bag.count(a) > 0 && bag.count(b) > 0 ==> !is_rematch(a, b)
}

/// Part of a bag with unique numbers has unique numbers.
pub proof fn lemma_unique_bag_part(part: Multiset<PlayerView>, bag: Multiset<PlayerView>)
    requires
        bag_numbers_unique(bag),
        part.subset_of(bag),
    ensures
        bag_numbers_unique(part),
{
    assert forall|a: PlayerView, b: PlayerView|
        part.count(a) > 0 && part.count(b) > 0 && a.number == b.number implies a == b
        && part.count(a) == 1 by {
        assert(part.count(a) <= bag.count(a));
        assert(part.count(b) <= bag.count(b));
        assert(bag.count(a) > 0 && bag.count(b) > 0);
    }
}

/// A list with distinct numbers is a bag with unique numbers.
pub proof fn lemma_distinct_list_unique_bag(pool: Seq<PlayerView>)
    requires
        distinct_numbers(pool),
    ensures
        bag_numbers_unique(pool.to_multiset()),
{
    let bag = pool.to_multiset();
    assert(pool.no_duplicates());
    pool.lemma_multiset_has_no_duplicates();
    assert forall|a: PlayerView, b: PlayerView|
        bag.count(a) > 0 && bag.count(b) > 0 && a.number == b.number implies a == b && bag.count(a)
        == 1 by {
        to_multiset_contains(pool, a);
        to_multiset_contains(pool, b);
        let i = choose|i: int| 0 <= i < pool.len() && pool[i] == a;
        let j = choose|j: int| 0 <= j < pool.len() && pool[j] == b;
        assert(i == j);
    }
}

/// A list drawn from a bag with unique numbers has distinct numbers.
pub proof fn lemma_unique_bag_distinct_list(pool: Seq<PlayerView>, bag: Multiset<PlayerView>)
    requires
        bag_numbers_unique(bag),
        pool.to_multiset().subset_of(bag),
    ensures
        distinct_numbers(pool),
{
    assert forall|x: PlayerView| pool.to_multiset().contains(x) implies pool.to_multiset().count(x)
        == 1 by {
        assert(pool.to_multiset().count(x) <= bag.count(x));
        assert(bag.count(x) > 0);
        assert(bag.count(x) > 0 && bag.count(x) > 0 && x.number == x.number);
    }
    pool.lemma_multiset_has_no_duplicates_conv();
    assert forall|i: int, j: int| 0 <= i < j < pool.len() implies pool[i].number
        != pool[j].number by {
        to_multiset_contains(pool, pool[i]);
        to_multiset_contains(pool, pool[j]);
        assert(pool.to_multiset().count(pool[i]) <= bag.count(pool[i]));
        assert(pool.to_multiset().count(pool[j]) <= bag.count(pool[j]));
        assert(bag.count(pool[i]) > 0 && bag.count(pool[j]) > 0);
    }
}

/// Worked off a pool with distinct numbers, no pairing repeats a match.
pub proof fn lemma_pair_pool_avoids_rematches(pool: Seq<PlayerView>)
    requires
        distinct_numbers(pool),
    ensures
        forall|i: int|
            0 <= i < pair_pool(pool).pairs.len() ==> !repeats(#[trigger] pair_pool(pool).pairs[i]),
    decreases pool.len(),
{
    if pool.len() >= 2 {
        let top = pool[pool.len() - 1];
        let next = pool[pool.len() - 2];
        let rest = pool.take(pool.len() - 2);
        if !is_rematch(top, next) {
            lemma_pair_pool_avoids_rematches(rest);
        } else if rest.len() > 0 {
            let third = rest.last();
            assert(third == pool[pool.len() - 3]);
            assert(next.number != third.number);
            let retried = rest.drop_last().push(next);
            assert forall|i: int, j: int| 0 <= i < j < retried.len() implies retried[i].number
                != retried[j].number by {
                assert(retried[i] == pool[i]);
                if j < retried.len() - 1 {
                    assert(retried[j] == pool[j]);
                } else {
                    assert(retried[j] == pool[pool.len() - 2]);
                }
            }
            lemma_pair_pool_avoids_rematches(retried);
        }
    }
}

/// Worked off a pool in which no rematch is possible, at most one competitor
/// is carried.
pub proof fn lemma_pair_pool_strands_nobody(pool: Seq<PlayerView>)
    requires
        no_rematch_possible(pool),
    ensures
        pair_pool(pool).carry.second is None,
    decreases pool.len(),
{
    if pool.len() >= 2 {
        let top = pool[pool.len() - 1];
        let next = pool[pool.len() - 2];
        let rest = pool.take(pool.len() - 2);
        assert(!is_rematch(top, next));
        assert forall|i: int, j: int| 0 <= i < rest.len() && 0 <= j < rest.len() implies !is_rematch(
            rest[i],
            rest[j],
        ) by {
            assert(rest[i] == pool[i] && rest[j] == pool[j]);
        }
        lemma_pair_pool_strands_nobody(rest);
    }
}

/// Whoever is among the pooled competitors stands in one of the buckets.
pub proof fn lemma_pooled_member(order: Seq<Seq<PlayerView>>, member: PlayerView)
    requires
        pooled(order).count(member) > 0,
    ensures
        exists|i: int, j: int|
            0 <= i < order.len() && 0 <= j < order[i].len() && #[trigger] order[i][j] == member,
    decreases order.len(),
{
    if order.len() > 0 {
        if order.last().to_multiset().count(member) > 0 {
            to_multiset_contains(order.last(), member);
            let j = choose|j: int| 0 <= j < order.last().len() && order.last()[j] == member;
            assert(order[order.len() - 1][j] == member);
        } else {
            lemma_pooled_member(order.drop_last(), member);
            let (i, j) = choose|i: int, j: int|
                0 <= i < order.drop_last().len() && 0 <= j < order.drop_last()[i].len()
                    && #[trigger] order.drop_last()[i][j] == member;
            assert(order[i][j] == member);
        }
    }
}

/// In a layered order, whoever stands in an earlier bucket has more match
/// points than the members of the last one.
pub proof fn lemma_layered_above(
    order: Seq<Seq<PlayerView>>,
    scoring: ScoreConfig,
    member: PlayerView,
)
    requires
        is_layered(order, scoring),
        order.len() > 0,
        pooled(order.drop_last()).count(member) > 0,
    ensures
        forall|j: int|
            0 <= j < order.last().len() ==> member.match_points(scoring) > (
            #[trigger] order.last()[j]).match_points(scoring),
{
    let earlier = order.drop_last();
    lemma_pooled_member(earlier, member);
    let (i, k) = choose|i: int, k: int|
        0 <= i < earlier.len() && 0 <= k < earlier[i].len() && #[trigger] earlier[i][k] == member;
    assert(order[i][k] == member);
    let last = order.len() - 1;
    assert(order[i][0].match_points(scoring) > order[last][0].match_points(scoring));
    assert forall|j: int| 0 <= j < order.last().len() implies member.match_points(scoring) > (
    #[trigger] order.last()[j]).match_points(scoring) by {
        assert(order[last][j].match_points(scoring) == order[last][0].match_points(scoring));
    }
}

/// Where a pool strands two, the first of them met the second in the match
/// played last.
pub proof fn lemma_pair_pool_strands_a_rematch(pool: Seq<PlayerView>)
    ensures
        pair_pool(pool).carry.second matches Some(second) ==> pair_pool(pool).carry.first matches Some(
            first,
        ) && is_rematch(first, second),
    decreases pool.len(),
{
    if pool.len() >= 2 {
        let top = pool[pool.len() - 1];
        let next = pool[pool.len() - 2];
        let rest = pool.take(pool.len() - 2);
        if !is_rematch(top, next) {
            lemma_pair_pool_strands_a_rematch(rest);
        } else if rest.len() > 0 {
            lemma_pair_pool_strands_a_rematch(rest.drop_last().push(next));
        }
    }
}

/// Where a sweep carries two, the first of them met the second in the match
/// played last.
pub proof fn lemma_sweep_strands_a_rematch(order: Seq<Seq<PlayerView>>)
    ensures
        sweep(order).carry.second matches Some(second) ==> sweep(order).carry.first matches Some(
            first,
        ) && is_rematch(first, second),
{
    if order.len() > 0 {
        let carry = sweep(order.drop_last()).carry;
        let bucket = order.last();
        let remaining = match carry.second {
            Some(_) => bucket.drop_last(),
            None => bucket,
        };
        let pool = match carry.first {
            Some(floater) => remaining.push(floater),
            None => remaining,
        };
        lemma_pair_pool_strands_a_rematch(pool);
    }
}

/// The pairing's primary has more match points than its secondary, and
/// somebody of the bag other than the secondary met the primary in the match
/// played last.
pub open spec fn forced_in(
    pair: PairingView,
    bag: Multiset<PlayerView>,
    scoring: ScoreConfig,
) -> bool {
    &&& steps_down(pair, scoring)
    &&& exists|other: PlayerView| #[trigger]
        bag.count(other) > 0 && is_rematch(other, pair.primary) && other.number
            != pair.opponent_number()
}

/// A sweep over a layered order with unique numbers repeats no match, unless
/// the primary of the pairing was carried down after it was stranded with
/// somebody else.
pub proof fn lemma_sweep_avoids_rematches(order: Seq<Seq<PlayerView>>, scoring: ScoreConfig)
    requires
        is_layered(order, scoring),
        bag_numbers_unique(pooled(order)),
    ensures
        forall|i: int|
            0 <= i < sweep(order).pairs.len() && repeats(#[trigger] sweep(order).pairs[i])
                ==> forced_in(sweep(order).pairs[i], pooled(order), scoring),
    decreases order.len(),
{
    if order.len() > 0 {
        let earlier = order.drop_last();
        let bucket = order.last();
        let before = sweep(earlier);
        let carry = before.carry;
        assert(forall|i: int| 0 <= i < earlier.len() ==> (#[trigger] earlier[i]) == order[i]);
        assert(is_layered(earlier, scoring));
        assert(pooled(earlier).subset_of(pooled(order)));
        lemma_unique_bag_part(pooled(earlier), pooled(order));
        lemma_sweep_avoids_rematches(earlier, scoring);
        lemma_sweep_conserves(earlier);
        lemma_sweep_strands_a_rematch(earlier);
        let forced = match carry.second {
            Some(floater) => seq![PairingView::fresh(floater, Some(bucket.last()))],
            None => Seq::empty(),
        };
        let remaining = match carry.second {
            Some(_) => bucket.drop_last(),
            None => bucket,
        };
        let pool = match carry.first {
            Some(floater) => remaining.push(floater),
            None => remaining,
        };
        let worked = pair_pool(pool);
        match carry.second {
            Some(floater) => {
                let partner = carry.first->Some_0;
                let met = bucket.last();
                assert(carry.bag().count(floater) > 0);
                assert(carry.bag().count(partner) > 0);
                lemma_layered_above(order, scoring, floater);
                assert(steps_down(forced[0], scoring));
                assert(bucket == remaining.push(met));
                to_multiset_build(remaining, met);
                assert(pooled(earlier).count(partner) > 0);
                assert(bucket.to_multiset().count(met) > 0);
                assert(pooled(order).count(partner) > 0 && pooled(order).count(met) > 0);
                if partner.number == met.number {
                    assert(partner == met);
                    assert(pooled(order).count(partner) >= 2);
                }
                assert(forced_in(forced[0], pooled(order), scoring));
            },
            None => {},
        }
        match carry.first {
            Some(floater) => {
                assert(carry.bag().count(floater) > 0);
                to_multiset_build(remaining, floater);
            },
            None => {},
        }
        assert(pool.to_multiset().subset_of(pooled(order))) by {
            assert forall|v: PlayerView| pool.to_multiset().count(v) <= pooled(order).count(v) by {
                assert(carry.bag().count(v) <= pooled(earlier).count(v));
            }
        }
        lemma_unique_bag_distinct_list(pool, pooled(order));
        lemma_pair_pool_avoids_rematches(pool);
        let pairs = sweep(order).pairs;
        assert(pairs == before.pairs + (forced + worked.pairs));
        assert forall|i: int| 0 <= i < pairs.len() && repeats(#[trigger] pairs[i]) implies forced_in(
            pairs[i],
            pooled(order),
            scoring,
        ) by {
            if i < before.pairs.len() {
                assert(pairs[i] == before.pairs[i]);
                assert(forced_in(before.pairs[i], pooled(earlier), scoring));
                let other = choose|other: PlayerView| #[trigger]
                    pooled(earlier).count(other) > 0 && is_rematch(other, pairs[i].primary)
                        && other.number != pairs[i].opponent_number();
                assert(pooled(order).count(other) > 0);
            } else if i < before.pairs.len() + forced.len() {
                assert(pairs[i] == forced[0]);
            } else {
                assert(pairs[i] == worked.pairs[i - before.pairs.len() - forced.len()]);
            }
        }
    }
}

/// Whoever stands in a pairing of the list is among its competitors.
pub proof fn lemma_paired_is_enrolled(pairs: Seq<PairingView>, at: int)
    requires
        0 <= at < pairs.len(),
    ensures
        enrolled(pairs).count(pairs[at].primary) > 0,
        pairs[at].secondary matches Some(secondary) ==> enrolled(pairs).count(secondary) > 0,
    decreases pairs.len(),
{
    let last = pairs.last();
    if at == pairs.len() - 1 {
        to_multiset_contains(last.roster(), last.primary);
        assert(last.roster()[0] == last.primary);
        match last.secondary {
            Some(secondary) => {
                to_multiset_contains(last.roster(), secondary);
                assert(last.roster()[1] == secondary);
            },
            None => {},
        }
    } else {
        lemma_paired_is_enrolled(pairs.drop_last(), at);
    }
}

/// A sweep over competitors among whom no rematch is possible strands nobody.
pub proof fn lemma_sweep_strands_nobody(order: Seq<Seq<PlayerView>>)
    requires
        forall|i: int| 0 <= i < order.len() ==> (#[trigger] order[i]).len() > 0,
        bag_rematch_free(pooled(order)),
    ensures
        sweep(order).carry.second is None,
    decreases order.len(),
{
    if order.len() > 0 {
        let earlier = order.drop_last();
        let bucket = order.last();
        assert(forall|i: int| 0 <= i < earlier.len() ==> (#[trigger] earlier[i]) == order[i]);
        assert(bag_rematch_free(pooled(earlier))) by {
            assert forall|a: PlayerView, b: PlayerView|
                pooled(earlier).count(a) > 0 && pooled(earlier).count(b) > 0 implies !is_rematch(
                a,
                b,
            ) by {
                assert(pooled(order).count(a) > 0 && pooled(order).count(b) > 0);
            }
        }
        lemma_sweep_strands_nobody(earlier);
        lemma_sweep_conserves(earlier);
        let carry = sweep(earlier).carry;
        let pool = match carry.first {
            Some(floater) => bucket.push(floater),
            None => bucket,
        };
        match carry.first {
            Some(floater) => {
                assert(carry.bag().count(floater) > 0);
                to_multiset_build(bucket, floater);
            },
            None => {},
        }
        assert forall|i: int, j: int| 0 <= i < pool.len() && 0 <= j < pool.len() implies !is_rematch(
            pool[i],
            pool[j],
        ) by {
            to_multiset_contains(pool, pool[i]);
            to_multiset_contains(pool, pool[j]);
            assert(pool.to_multiset().count(pool[i]) <= pooled(order).count(pool[i]));
            assert(pool.to_multiset().count(pool[j]) <= pooled(order).count(pool[j]));
            assert(pooled(order).count(pool[i]) > 0 && pooled(order).count(pool[j]) > 0);
        }
        lemma_pair_pool_strands_nobody(pool);
    }
}

/// Buckets of which none is empty hold at least as many competitors as there
/// are buckets.
pub proof fn lemma_pooled_count(order: Seq<Seq<PlayerView>>)
    requires
        forall|i: int| 0 <= i < order.len() ==> (#[trigger] order[i]).len() > 0,
    ensures
        pooled(order).len() >= order.len(),
        order.len() > 0 ==> pooled(order).len() == pooled(order.drop_last()).len()
            + order.last().len(),
    decreases order.len(),
{
    if order.len() > 0 {
        let earlier = order.drop_last();
        assert(forall|i: int| 0 <= i < earlier.len() ==> (#[trigger] earlier[i]) == order[i]);
        lemma_pooled_count(earlier);
        to_multiset_len(order.last());
    }
}

/// Two lists of two that hold the same competitors hold them in the same
/// order or the other way round.
pub proof fn lemma_two_in_some_order(one: Seq<PlayerView>, other: Seq<PlayerView>)
    requires
        one.len() == 2,
        other.len() == 2,
        one.to_multiset() == other.to_multiset(),
    ensures
        (one[0] == other[0] && one[1] == other[1]) || (one[0] == other[1] && one[1] == other[0]),
{
    assert(one == seq![one[0], one[1]]);
    assert(other == seq![other[0], other[1]]);
    lemma_pair_bag(one[0], one[1]);
    lemma_pair_bag(other[0], other[1]);
    assert(one.to_multiset().count(one[0]) == other.to_multiset().count(one[0]));
    assert(one.to_multiset().count(one[1]) == other.to_multiset().count(one[1]));
    assert(one.to_multiset().count(other[0]) == other.to_multiset().count(other[0]));
    assert(one.to_multiset().count(other[1]) == other.to_multiset().count(other[1]));
    let in_one = Multiset::singleton(one[0]).add(Multiset::singleton(one[1]));
    let in_other = Multiset::singleton(other[0]).add(Multiset::singleton(other[1]));
    assert(in_one.count(one[0]) == in_other.count(one[0]));
    assert(in_one.count(one[1]) == in_other.count(one[1]));
    assert(in_one.count(other[0]) == in_other.count(other[0]));
    assert(in_one.count(other[1]) == in_other.count(other[1]));
    assert(Multiset::singleton(one[0]).count(one[0]) == 1);
    assert(Multiset::singleton(one[1]).count(one[1]) == 1);
    assert(Multiset::singleton(other[0]).count(other[0]) == 1);
    assert(Multiset::singleton(other[1]).count(other[1]) == 1);
}

} // verus!
