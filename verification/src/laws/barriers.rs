//! Laws of barriers.
use crate::barriers;
use crate::barriers::{BarrierRepo, BarrierState, Outcome, Reaction};
use vstd::prelude::*;

verus! {

/// Removing a barrier leaves all others, in their order.
pub proof fn law_removing_a_barrier_leaves_the_others(all: Seq<BarrierState>, id: u128)
    ensures
        barriers::without(all, id, all.len() as int) == all.filter(|b: BarrierState| b.id != id),
{
    lemma_without(all, id, all.len() as int);
    assert(all.take(all.len() as int) =~= all);
}

proof fn lemma_without(all: Seq<BarrierState>, id: u128, n: int)
    requires
        0 <= n <= all.len(),
    ensures
        barriers::without(all, id, n) == all.take(n).filter(|b: BarrierState| b.id != id),
    decreases n,
{
    reveal(Seq::filter);
    if n > 0 {
        lemma_without(all, id, n - 1);
        assert(all.take(n).drop_last() =~= all.take(n - 1));
    } else {
        assert(all.take(0).filter(|b: BarrierState| b.id != id) =~= Seq::empty());
    }
}

/// A trigger meets the barrier that was registered first of those whose condition holds, and
/// that one's reaction decides what it comes to. Where no condition holds the code goes on.
pub proof fn law_trigger_meets_the_first_barrier(all: Seq<BarrierState>, holds: Seq<bool>, i: int)
    requires
        holds.len() == all.len() <= usize::MAX,
        0 <= i <= all.len(),
        i < all.len() ==> holds[i],
        forall|j: int| 0 <= j < i ==> !#[trigger] holds[j],
    ensures
        i == all.len() ==> barriers::outcome(all, holds) == Outcome::Ignored,
        i < all.len() && all[i].reaction == Reaction::Noop ==> barriers::outcome(all, holds)
            == Outcome::Notified(i as usize),
        i < all.len() && all[i].reaction == Reaction::Suspend ==> barriers::outcome(all, holds)
            == Outcome::Suspended(i as usize),
        i < all.len() && all[i].reaction == Reaction::Panic ==> barriers::outcome(all, holds)
            == Outcome::Panics,
        barriers::first_holding(holds, 0) == i,
{
    lemma_first_holding(holds, i, 0);
}

proof fn lemma_first_holding(holds: Seq<bool>, i: int, k: int)
    requires
        0 <= k <= i <= holds.len(),
        i < holds.len() ==> holds[i],
        forall|j: int| 0 <= j < i ==> !#[trigger] holds[j],
    ensures
        barriers::first_holding(holds, k) == i,
    decreases i - k,
{
    if k < i {
        assert(!holds[k]);
        lemma_first_holding(holds, i, k + 1);
    }
}

/// Where the code cannot wait, a trigger that would have it wait is refused instead, and any
/// other comes to what it comes to elsewhere.
pub proof fn law_calls_of_triggers(
    repo: &BarrierRepo,
    holds: &Vec<bool>,
    waiting: Outcome,
    going_on: Outcome,
    i: int,
)
    requires
        holds@.len() == repo@.len() <= usize::MAX,
        0 <= i < repo@.len(),
        holds@[i],
        forall|j: int| 0 <= j < i ==> !#[trigger] holds@[j],
        call_ensures(barriers::trigger, (repo, holds), waiting),
        call_ensures(barriers::trigger_noop, (repo, holds), going_on),
    ensures
        repo@[i].reaction == Reaction::Suspend ==> waiting == Outcome::Suspended(i as usize)
            && going_on == Outcome::CannotSuspend,
        repo@[i].reaction == Reaction::Noop ==> waiting == Outcome::Notified(i as usize)
            && going_on == waiting,
        repo@[i].reaction == Reaction::Panic ==> waiting == Outcome::Panics && going_on == waiting,
{
    law_trigger_meets_the_first_barrier(repo@, holds@, i);
}

} // verus!
