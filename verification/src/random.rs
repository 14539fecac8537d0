//! Random choices.

use crate::config::Config;
use rand::prelude::SliceRandom;
use rand::{Rng, SeedableRng};
use rand_pcg::Pcg64Mcg;
use vstd::prelude::*;

verus! {

/// The generator that schedules are drawn from.
#[verifier::external_type_specification]
#[verifier::external_body]
pub struct ExPcg64Mcg(rand_pcg::Pcg64Mcg);

/// The generator that `rand::SeedableRng::seed_from_u64` makes of a seed.
pub uninterp spec fn generator_from(seed: u64) -> rand_pcg::Pcg64Mcg;

/// The generator that starts from `seed`, from
/// `rand::SeedableRng::seed_from_u64`: one seed gives one generator.
#[verifier::external_body]
pub(crate) fn seeded_rng(seed: u64) -> (rng: Pcg64Mcg)
    ensures
        rng == generator_from(seed),
{
    Pcg64Mcg::seed_from_u64(seed)
}

/// The generator that the schedules of an exploration are drawn from.
pub fn schedule_rng(conf: &Config) -> (rng: Pcg64Mcg)
    ensures
        rng == generator_from(conf.seed),
{
    seeded_rng(conf.seed)
}

/// A number from `low` to `high`, both included, from `rand::Rng::gen_range` on
/// the generator of the running thread. Which one is left to chance.
#[verifier::external_body]
pub(crate) fn random_between(low: usize, high: usize) -> (r: usize)
    requires
        low <= high,
    ensures
        low <= r <= high,
{
    rand::thread_rng().gen_range(low..=high)
}

/// All of `items` in a random order, from
/// `rand::seq::SliceRandom::choose_multiple`. Which order is left to chance.
#[verifier::external_body]
pub(crate) fn shuffled(items: &Vec<usize>, rng: &mut Pcg64Mcg) -> (r: Vec<usize>)
    ensures
        r@.to_multiset() == items@.to_multiset(),
{
    items.choose_multiple(rng, items.len()).copied().collect()
}

/// The numbers below `n`, in order.
pub fn ascending_upto(n: usize) -> (r: Vec<usize>)
    ensures
        r@ == Seq::new(n as nat, |i: int| i as usize),
{
    let mut r: Vec<usize> = Vec::new();
    let mut i: usize = 0;
    while i < n
        invariant
            i <= n,
            r@.len() == i,
            forall|k: int| 0 <= k < i ==> r@[k] == k as usize,
        decreases n - i,
    {
        r.push(i);
        i += 1;
    }
    assert(r@ =~= Seq::new(n as nat, |i: int| i as usize));
    r
}

/// Whether `order` has each number below `n` once.
pub open spec fn is_order(order: Seq<usize>, n: nat) -> bool {
    order.to_multiset() == Seq::new(n, |i: int| i as usize).to_multiset()
}

/// The numbers of an order of the numbers below `n` are below `n`.
pub proof fn lemma_order(order: Seq<usize>, n: nat)
    requires
        is_order(order, n),
        n <= usize::MAX,
    ensures
        order.len() == n,
        forall|i: int| 0 <= i < order.len() ==> #[trigger] order[i] < n,
{
    let plain = Seq::new(n, |i: int| i as usize);
    order.to_multiset_ensures();
    plain.to_multiset_ensures();
    assert(order.len() == order.to_multiset().len());
    assert(plain.len() == plain.to_multiset().len());
    assert forall|i: int| 0 <= i < order.len() implies #[trigger] order[i] < n by {
        assert(order.contains(order[i]));
        assert(order.to_multiset().count(order[i]) > 0);
        assert(plain.contains(order[i]));
        let k = choose|k: int| 0 <= k < plain.len() && plain[k] == order[i];
        assert(plain[k] == k as usize);
    }
}

} // verus!
