//! Barriers, and the code that triggers them.
use turmoil::barriers::{trigger_noop, Barrier, BarrierRepo, Outcome, Reaction, Triggered};

#[derive(Clone, Debug, PartialEq, Eq)]
enum TestTrigger {
    First,
    Second,
    Third(usize),
}

/// Barriers with their conditions, and what triggered each.
struct Test {
    repo: BarrierRepo,
    conditions: Vec<fn(&TestTrigger) -> bool>,
    seen: Vec<Vec<Triggered<TestTrigger>>>,
}

impl Test {
    fn new() -> Self {
        Test { repo: BarrierRepo::new(), conditions: vec![], seen: vec![] }
    }

    fn build(&mut self, reaction: Reaction, condition: fn(&TestTrigger) -> bool) -> Barrier {
        self.conditions.push(condition);
        self.seen.push(vec![]);
        Barrier::build(&mut self.repo, reaction)
    }

    fn watch(&mut self, condition: fn(&TestTrigger) -> bool) -> Barrier {
        self.conditions.push(condition);
        self.seen.push(vec![]);
        Barrier::new(&mut self.repo)
    }

    fn holds(&self, t: &TestTrigger) -> Vec<bool> {
        self.conditions.iter().map(|c| c(t)).collect()
    }

    /// Whether the code goes on at once.
    fn react(&mut self, outcome: Outcome, t: TestTrigger) -> bool {
        match outcome {
            Outcome::Ignored => true,
            Outcome::Notified(i) => {
                self.seen[i].push(Triggered { data: t, release: None });
                true
            }
            Outcome::Suspended(i) => {
                self.seen[i].push(Triggered { data: t, release: Some(1) });
                false
            }
            Outcome::Panics => panic!("Injected panic from barrier"),
            Outcome::CannotSuspend => {
                panic!("trigger_noop() cannot be used with Reaction::Suspend")
            }
        }
    }

    fn trigger(&mut self, t: TestTrigger) -> bool {
        let outcome = turmoil::barriers::trigger(&self.repo, &self.holds(&t));
        self.react(outcome, t)
    }

    fn trigger_noop(&mut self, t: TestTrigger) -> bool {
        let outcome = trigger_noop(&self.repo, &self.holds(&t));
        self.react(outcome, t)
    }
}

/// Triggers without any registered barriers should be no-ops.
#[test]
fn trigger_no_barrier() {
    let mut test = Test::new();
    assert!(test.trigger(TestTrigger::First));
    assert!(test.trigger(TestTrigger::Second));
    assert!(test.trigger(TestTrigger::Third(1738)));
}

/// Sync triggers without any registered barriers should be no-ops.
#[test]
fn trigger_noop_no_barrier() {
    let mut test = Test::new();
    assert!(test.trigger_noop(TestTrigger::First));
    assert!(test.trigger_noop(TestTrigger::Second));
    assert!(test.trigger_noop(TestTrigger::Third(1738)));
}

/// Test that barriers can observe triggers.
#[test]
fn barrier_observes_trigger() {
    let mut test = Test::new();
    test.watch(|t| t == &TestTrigger::Third(1738));
    assert!(test.trigger(TestTrigger::First));
    assert!(test.seen[0].is_empty());
    assert!(test.trigger(TestTrigger::Third(1738)));
    assert_eq!(test.seen[0][0].get(), &TestTrigger::Third(1738));
}

/// Test that dropping a barrier doesn't affect source code execution.
#[test]
fn dropped_barrier() {
    let mut test = Test::new();
    let barrier = test.watch(|t| t == &TestTrigger::Third(1738));
    assert!(test.trigger(TestTrigger::First));
    assert!(test.seen[0].is_empty());
    test.repo.drop(barrier.id);
    test.conditions.remove(0);
    assert_eq!(test.repo.len(), 0);
    assert!(test.trigger(TestTrigger::Third(1738)));
    assert!(test.seen[0].is_empty());
}

/// Test that Suspend reaction holds source code until Triggered is dropped.
#[test]
fn suspend_holds_execution() {
    let mut test = Test::new();
    test.build(Reaction::Suspend, |t| t == &TestTrigger::Third(1738));
    // The source is suspended
    assert!(!test.trigger(TestTrigger::Third(1738)));
    let triggered = test.seen[0].remove(0);
    assert_eq!(triggered.get(), &TestTrigger::Third(1738));
    // What is told to go on is the source that waits
    assert_eq!(triggered.finish(), Some(1));
}

/// Test that Noop reaction doesn't hold execution.
#[test]
fn noop_does_not_hold() {
    let mut test = Test::new();
    test.watch(|t| t == &TestTrigger::Third(1738));
    assert!(test.trigger(TestTrigger::Third(1738)));
    assert_eq!(test.seen[0].remove(0).finish(), None);
}

/// Test that barriers only match their specific condition.
#[test]
fn barrier_matches_condition() {
    let mut test = Test::new();
    // This barrier should only match Third(200)
    test.watch(|t| matches!(t, TestTrigger::Third(n) if *n > 150));
    assert!(test.trigger(TestTrigger::First));
    assert!(test.trigger(TestTrigger::Second));
    assert!(test.trigger(TestTrigger::Third(100)));
    assert!(test.trigger(TestTrigger::Third(200)));
    assert_eq!(test.seen[0].len(), 1);
    assert_eq!(test.seen[0][0].get(), &TestTrigger::Third(200));
}

/// Test that trigger_noop works for observation.
#[test]
fn trigger_noop_for_observation() {
    let mut test = Test::new();
    test.watch(|t| t == &TestTrigger::First);
    assert!(test.trigger_noop(TestTrigger::First));
    assert_eq!(test.seen[0].len(), 1);
}

/// Test that Panic reaction causes a panic.
#[test]
#[should_panic(expected = "Injected panic from barrier")]
fn panic_reaction() {
    let mut test = Test::new();
    test.build(Reaction::Panic, |t| t == &TestTrigger::First);
    test.trigger(TestTrigger::First);
}

/// Test that trigger_noop panics with Suspend reaction.
#[test]
#[should_panic(expected = "trigger_noop() cannot be used with Reaction::Suspend")]
fn trigger_noop_panics_with_suspend() {
    let mut test = Test::new();
    test.build(Reaction::Suspend, |t| t == &TestTrigger::First);
    test.trigger_noop(TestTrigger::First);
}

/// Test that trigger_noop panics with Panic reaction.
#[test]
#[should_panic(expected = "Injected panic from barrier")]
fn trigger_noop_with_panic_reaction() {
    let mut test = Test::new();
    test.build(Reaction::Panic, |t| t == &TestTrigger::First);
    test.trigger_noop(TestTrigger::First);
}

#[test]
fn the_first_barrier_that_holds_is_triggered() {
    let mut repo = BarrierRepo::new();
    let watch = Barrier::new(&mut repo);
    let stop = Barrier::build(&mut repo, Reaction::Suspend);
    let fatal = Barrier::build(&mut repo, Reaction::Panic);
    assert!(watch.id != stop.id && stop.id != fatal.id && watch.id != fatal.id);
    assert_eq!(repo.len(), 3);
    let outcome = |repo: &BarrierRepo, holds| turmoil::barriers::trigger(repo, &holds);
    assert!(matches!(outcome(&repo, vec![true, true, true]), Outcome::Notified(0)));
    assert!(matches!(outcome(&repo, vec![false, true, true]), Outcome::Suspended(1)));
    assert!(matches!(outcome(&repo, vec![false, false, true]), Outcome::Panics));
    assert!(matches!(outcome(&repo, vec![false, false, false]), Outcome::Ignored));
    assert!(matches!(trigger_noop(&repo, &vec![false, true, true]), Outcome::CannotSuspend));
    repo.drop(watch.id);
    assert!(matches!(outcome(&repo, vec![true, true]), Outcome::Suspended(0)));
}
