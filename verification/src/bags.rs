//! Lists seen as bags: what holds of a list whatever its order.

use vstd::prelude::*;
use vstd::multiset::{axiom_multiset_add, lemma_multiset_empty_len, Multiset};
use vstd::seq_lib::{to_multiset_build, to_multiset_contains, to_multiset_len, to_multiset_remove};

verus! {

/// The empty list is the empty bag.
pub proof fn lemma_empty_bag<A>()
    ensures
        Seq::<A>::empty().to_multiset() == Multiset::<A>::empty(),
{
    let nothing = Seq::<A>::empty();
    to_multiset_len(nothing);
    lemma_multiset_empty_len(nothing.to_multiset());
}

/// A list of one is a bag of one.
pub proof fn lemma_single_bag<A>(item: A)
    ensures
        seq![item].to_multiset() == Multiset::singleton(item),
{
    lemma_empty_bag::<A>();
    to_multiset_build(Seq::<A>::empty(), item);
    assert(seq![item] == Seq::<A>::empty().push(item));
    assert(Multiset::<A>::empty().insert(item) =~= Multiset::singleton(item));
}

/// A list of two is a bag of two.
pub proof fn lemma_pair_bag<A>(one: A, other: A)
    ensures
        seq![one, other].to_multiset() == Multiset::singleton(one).add(Multiset::singleton(other)),
{
    lemma_single_bag(one);
    to_multiset_build(seq![one], other);
    assert(seq![one, other] == seq![one].push(other));
}

/// The books of one step: where `kept` and `handed_on` make up what was there
/// `before`, and `made` and `left` make up what was `added` and `handed_on`,
/// there `kept`, `made` and `left` make up `before` and `added`.
pub proof fn lemma_bag_sums_chain<A>(
    kept: Multiset<A>,
    handed_on: Multiset<A>,
    before: Multiset<A>,
    made: Multiset<A>,
    left: Multiset<A>,
    added: Multiset<A>,
)
    requires
        kept.add(handed_on) == before,
        made.add(left) == added.add(handed_on),
    ensures
        kept.add(made).add(left) == before.add(added),
{
    assert forall|v: A| #[trigger] kept.add(made).add(left).count(v) == before.add(added).count(v) by {
        axiom_multiset_add(kept, handed_on, v);
        axiom_multiset_add(made, left, v);
        axiom_multiset_add(added, handed_on, v);
        axiom_multiset_add(kept, made, v);
        axiom_multiset_add(kept.add(made), left, v);
        axiom_multiset_add(before, added, v);
    }
    assert(kept.add(made).add(left) =~= before.add(added));
}

/// Two lists that hold the same items hold the same images of them, whatever
/// the order of either.
pub proof fn lemma_mapped_bags<A, B>(one: Seq<A>, other: Seq<A>, image: spec_fn(A) -> B)
    requires
        one.to_multiset() == other.to_multiset(),
    ensures
        one.map_values(image).to_multiset() == other.map_values(image).to_multiset(),
    decreases one.len(),
{
    broadcast use vstd::multiset::group_multiset_axioms;

    to_multiset_len(one);
    to_multiset_len(other);
    if one.len() == 0 {
        assert(one.map_values(image) == other.map_values(image));
    } else {
        let item = one.last();
        let shorter = one.drop_last();
        assert(one == shorter.push(item));
        to_multiset_build(shorter, item);
        to_multiset_contains(other, item);
        let at = choose|at: int| 0 <= at < other.len() && other[at] == item;
        let without = other.remove(at);
        to_multiset_remove(other, at);
        assert(shorter.to_multiset() =~= without.to_multiset());
        lemma_mapped_bags(shorter, without, image);
        assert(one.map_values(image) == shorter.map_values(image).push(image(item)));
        to_multiset_build(shorter.map_values(image), image(item));
        assert(other.map_values(image).remove(at) == without.map_values(image));
        to_multiset_remove(other.map_values(image), at);
        to_multiset_contains(other.map_values(image), image(item));
        assert(other.map_values(image)[at] == image(item));
        assert(one.map_values(image).to_multiset() =~= other.map_values(image).to_multiset());
    }
}

} // verus!
