//! Barriers let a test watch and stop the code that it tests.
//!
//! The code names points of interest by values that it triggers with. A test registers barriers
//! for some of these values, each with a reaction.
use uuid::Uuid;
use vstd::prelude::*;

verus! {

/// What happens where a barrier is triggered.
#[derive(Clone, Copy, Debug, PartialEq, Eq, Structural)]
pub enum Reaction {
    /// The code goes on at once.
    Noop,
    /// The code waits until the test lets it go on.
    Suspend,
    /// The code panics.
    Panic,
}

/// A barrier that is registered.
#[derive(Clone, Copy, Debug, PartialEq, Eq, Structural)]
pub struct BarrierState {
    /// Its number.
    pub id: u128,
    /// What happens where it is triggered.
    pub reaction: Reaction,
}

/// The barriers, in the order in which they were registered.
pub struct BarrierRepo {
    barriers: Vec<BarrierState>,
}

impl View for BarrierRepo {
    type V = Seq<BarrierState>;

    closed spec fn view(&self) -> Seq<BarrierState> {
        self.barriers@
    }
}

/// The barriers without those that have the number.
pub open spec fn without(barriers: Seq<BarrierState>, id: u128, n: int) -> Seq<BarrierState>
    decreases n,
{
    if n <= 0 {
        Seq::empty()
    } else {
        let rest = without(barriers, id, n - 1);
        if barriers[n - 1].id == id {
            rest
        } else {
            rest.push(barriers[n - 1])
        }
    }
}

/// The index of the first barrier, from the given one on, whose condition holds, or their
/// number.
pub open spec fn first_holding(holds: Seq<bool>, i: int) -> int
    decreases holds.len() - i,
{
    if i >= holds.len() {
        holds.len() as int
    } else if holds[i] {
        i
    } else {
        first_holding(holds, i + 1)
    }
}

/// `Uuid::new_v4`: a random number that identifies something.
#[verifier::external_body]
fn new_uuid() -> (r: u128) {
    Uuid::new_v4().as_u128()
}

impl BarrierRepo {
    /// No barrier.
    pub fn new() -> (r: BarrierRepo)
        ensures
            r@ == Seq::<BarrierState>::empty(),
    {
        BarrierRepo { barriers: Vec::new() }
    }

    /// Registers a barrier.
    pub fn insert(&mut self, barrier: BarrierState)
        ensures
            final(self)@ == old(self)@.push(barrier),
    {
        self.barriers.push(barrier);
    }

    /// Removes the barrier with the number.
    pub fn drop(&mut self, id: u128)
        ensures
            final(self)@ == without(old(self)@, id, old(self)@.len() as int),
    {
        let ghost all = self@;
        let n: usize = self.barriers.len();
        let mut kept: Vec<BarrierState> = Vec::new();
        let mut i: usize = 0;
        while i < n
            invariant
                i <= n,
                n == all.len(),
                self.barriers@ == all,
                kept@ == without(all, id, i as int),
            decreases n - i,
        {
            let b = self.barriers[i];
            if b.id != id {
                kept.push(b);
            }
            i = i + 1;
        }
        self.barriers = kept;
    }

    /// The index of the barrier that is triggered: the first whose condition holds.
    pub fn barrier(&self, holds: &Vec<bool>) -> (r: Option<usize>)
        requires
            holds@.len() == self@.len(),
        ensures
            match r {
                Some(i) => i == first_holding(holds@, 0) && i < self@.len(),
                None => first_holding(holds@, 0) == self@.len(),
            },
    {
        let mut i: usize = 0;
        while i < holds.len()
            invariant
                i <= holds@.len(),
                holds@.len() == self@.len(),
                first_holding(holds@, 0) == first_holding(holds@, i as int),
            decreases holds.len() - i,
        {
            if holds[i] {
                return Some(i);
            }
            i = i + 1;
        }
        None
    }

    /// The number of barriers.
    pub fn len(&self) -> (r: usize)
        ensures
            r == self@.len(),
    {
        self.barriers.len()
    }
}

/// What a trigger comes to.
#[derive(Clone, Copy, Debug, PartialEq, Eq, Structural)]
pub enum Outcome {
    /// No barrier is triggered: the code goes on.
    Ignored,
    /// The test of the barrier at the index is told, and the code goes on.
    Notified(usize),
    /// The test of the barrier at the index is told, and the code waits for it.
    Suspended(usize),
    /// The code panics.
    Panics,
    /// The code would have to wait where it cannot, and panics.
    CannotSuspend,
}

/// What triggering the barriers comes to, where the code can wait.
pub open spec fn outcome(barriers: Seq<BarrierState>, holds: Seq<bool>) -> Outcome {
    let i = first_holding(holds, 0);
    if i >= barriers.len() {
        Outcome::Ignored
    } else {
        match barriers[i].reaction {
            Reaction::Noop => Outcome::Notified(i as usize),
            Reaction::Suspend => Outcome::Suspended(i as usize),
            Reaction::Panic => Outcome::Panics,
        }
    }
}

/// Triggers the barriers where the code can wait. For each barrier it is given whether its
/// condition holds.
pub fn trigger(repo: &BarrierRepo, holds: &Vec<bool>) -> (r: Outcome)
    requires
        holds@.len() == repo@.len(),
    ensures
        r == outcome(repo@, holds@),
{
    match repo.barrier(holds) {
        None => Outcome::Ignored,
        Some(i) => match repo.barriers[i].reaction {
            Reaction::Noop => Outcome::Notified(i),
            Reaction::Suspend => Outcome::Suspended(i),
            Reaction::Panic => Outcome::Panics,
        },
    }
}

/// Triggers the barriers where the code cannot wait. For each barrier it is given whether its
/// condition holds.
pub fn trigger_noop(repo: &BarrierRepo, holds: &Vec<bool>) -> (r: Outcome)
    requires
        holds@.len() == repo@.len(),
    ensures
        r == (if outcome(repo@, holds@) is Suspended {
            Outcome::CannotSuspend
        } else {
            outcome(repo@, holds@)
        }),
{
    match trigger(repo, holds) {
        Outcome::Suspended(_) => Outcome::CannotSuspend,
        other => other,
    }
}

/// A barrier that a test has registered.
#[derive(Clone, Copy, Debug, PartialEq, Eq, Structural)]
pub struct Barrier {
    /// Its number.
    pub id: u128,
}

impl Barrier {
    /// Registers a barrier that only watches.
    pub fn new(repo: &mut BarrierRepo) -> (r: Barrier)
        ensures
            final(repo)@ == old(repo)@.push(BarrierState { id: r.id, reaction: Reaction::Noop }),
    {
        Barrier::build(repo, Reaction::Noop)
    }

    /// Registers a barrier with the reaction, under a fresh number.
    pub fn build(repo: &mut BarrierRepo, reaction: Reaction) -> (r: Barrier)
        ensures
            final(repo)@ == old(repo)@.push(BarrierState { id: r.id, reaction }),
    {
        let id: u128 = new_uuid();
        repo.insert(BarrierState { id, reaction });
        Barrier { id }
    }
}

/// A value that a barrier was triggered with. Where the code waits, it goes on once this is
/// given up.
pub struct Triggered<T> {
    /// The value.
    pub data: T,
    /// The number of the code that waits.
    pub release: Option<u64>,
}

impl<T> Triggered<T> {
    /// The value.
    pub fn get(&self) -> (r: &T)
        ensures
            *r == self.data,
    {
        &self.data
    }

    /// Gives it up. Returns the number of the code that goes on.
    pub fn finish(self) -> (r: Option<u64>)
        ensures
            r == self.release,
    {
        self.release
    }
}

/// A barrier that is removed is triggered no more, and those with other numbers stay in their
/// order.
pub proof fn law_removed_barrier_is_gone(barriers: Seq<BarrierState>, id: u128)
    ensures
        ({
            let rest = without(barriers, id, barriers.len() as int);
            &&& forall|i: int| 0 <= i < rest.len() ==> (#[trigger] rest[i]).id != id
            &&& forall|i: int|
                0 <= i < barriers.len() && (#[trigger] barriers[i]).id != id ==> rest.contains(
                    barriers[i],
                )
        }),
{
    lemma_without(barriers, id, barriers.len() as int);
}

proof fn lemma_without(barriers: Seq<BarrierState>, id: u128, n: int)
    requires
        0 <= n <= barriers.len(),
    ensures
        ({
            let rest = without(barriers, id, n);
            &&& forall|i: int| 0 <= i < rest.len() ==> (#[trigger] rest[i]).id != id
            &&& forall|i: int|
                0 <= i < n && (#[trigger] barriers[i]).id != id ==> rest.contains(barriers[i])
        }),
    decreases n,
{
    if n > 0 {
        lemma_without(barriers, id, n - 1);
        let before = without(barriers, id, n - 1);
        let rest = without(barriers, id, n);
        assert forall|i: int| 0 <= i < n && (#[trigger] barriers[i]).id != id implies rest.contains(
            barriers[i],
        ) by {
            if i == n - 1 {
                assert(rest[rest.len() - 1] == barriers[i]);
            } else {
                assert(before.contains(barriers[i]));
                let j = choose|j: int| 0 <= j < before.len() && before[j] == barriers[i];
                assert(rest[j] == barriers[i]);
            }
        }
    }
}

/// Of the barriers whose conditions hold the one that was registered first is triggered, and at
/// most one is.
pub proof fn law_first_registered_wins(holds: Seq<bool>, i: int)
    requires
        0 <= i < holds.len(),
        holds[i],
        forall|j: int| 0 <= j < i ==> !holds[j],
    ensures
        first_holding(holds, 0) == i,
{
    lemma_first_holding(holds, i, 0);
}

proof fn lemma_first_holding(holds: Seq<bool>, i: int, k: int)
    requires
        0 <= k <= i < holds.len(),
        holds[i],
        forall|j: int| 0 <= j < i ==> !holds[j],
    ensures
        first_holding(holds, k) == i,
    decreases i - k,
{
    if k < i {
        lemma_first_holding(holds, i, k + 1);
    }
}

} // verus!
