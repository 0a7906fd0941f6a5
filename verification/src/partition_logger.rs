//! Keeps track of hosts between which messages are dropped.
use crate::addr::{IpAddr, Key};
use crate::ordered;
use crate::ordered::{Entries, KeyMap};
use crate::time::Duration;
use crate::top;
use crate::top::Pair;
use vstd::prelude::*;

verus! {

/// The pairs of hosts between which messages are dropped, each with the time since when.
pub struct PartitionLogger {
    since: KeyMap<(Pair, Duration)>,
    slow_connection_threshold: Duration,
}

/// What a repair is reported as.
#[derive(Clone, Copy, Debug, PartialEq, Eq, Structural)]
pub struct RepairReport {
    /// How long messages were dropped.
    pub duration: Duration,
    /// Whether that was long.
    pub slow: bool,
}

spec fn held_wf(e: Entries<Key, (Pair, Duration)>) -> bool {
    &&& e.wf()
    &&& forall|k: Key| #[trigger] e.has(k) ==> e.map[k].0.key() == k
}

spec fn shown(e: Entries<Key, (Pair, Duration)>) -> Map<Pair, Duration> {
    ordered::rekeyed(e, top::pair_key()).map_values(|h: (Pair, Duration)| h.1)
}

/// The pairs of hosts between which messages are dropped.
#[verifier::ext_equal]
pub struct PartitionLoggerView {
    /// The time since when messages are dropped between the hosts of each pair.
    pub since: Map<Pair, Duration>,
    /// From which time on that is long.
    pub threshold: Duration,
}

impl View for PartitionLogger {
    type V = PartitionLoggerView;

    closed spec fn view(&self) -> PartitionLoggerView {
        PartitionLoggerView {
            since: shown(self.since@),
            threshold: self.slow_connection_threshold,
        }
    }
}

/// How much time has passed since the start.
pub open spec fn passed(start: Duration, now: Duration) -> Duration {
    Duration {
        nanos: if now.nanos > start.nanos {
            (now.nanos - start.nanos) as u128
        } else {
            0
        },
    }
}

fn ordered_pair(src: IpAddr, dst: IpAddr) -> (r: Pair)
    ensures
        r == top::pair(src, dst),
{
    if src.precedes(dst) {
        Pair(src, dst)
    } else {
        Pair(dst, src)
    }
}

impl PartitionLogger {
    /// Whether the collection is well formed.
    pub closed spec fn wf(&self) -> bool {
        held_wf(self.since@)
    }

    /// Messages are dropped nowhere.
    pub fn new(slow_connection_threshold: Duration) -> (r: Self)
        ensures
            r.wf(),
            r@ == (PartitionLoggerView {
                since: Map::empty(),
                threshold: slow_connection_threshold,
            }),
    {
        let r = PartitionLogger { since: KeyMap::new(), slow_connection_threshold };
        assert(r@.since =~= Map::empty());
        r
    }

    /// Notes that messages between the hosts are dropped. Returns whether that is new, and so
    /// is to be reported.
    pub fn log_partition(&mut self, src: IpAddr, dst: IpAddr, now: Duration) -> (r: bool)
        requires
            old(self).wf(),
        ensures
            final(self).wf(),
            r == !old(self)@.since.contains_key(top::pair(src, dst)),
            final(self)@ == (if r {
                PartitionLoggerView {
                    since: old(self)@.since.insert(top::pair(src, dst), now),
                    ..old(self)@
                }
            } else {
                old(self)@
            }),
    {
        let p = ordered_pair(src, dst);
        let key = p.key();
        let ghost before = self.since@;
        proof {
            top::lemma_pair_keys();
            assert(top::pair_key()(p) == key);
        }
        match self.since.get(key) {
            Some(_) => false,
            None => {
                let _ = self.since.insert(key, (p, now));
                proof {
                    before.lemma_with(key, (p, now));
                    ordered::lemma_rekeyed_with(before, top::pair_key(), p, (p, now));
                    assert(shown(self.since@) =~= shown(before).insert(p, now));
                    assert forall|k: Key| #[trigger] self.since@.has(k) implies self.since@.map[k].0.key()
                        == k by {
                        if k != key {
                            assert(before.has(k));
                        }
                    }
                }
                true
            },
        }
    }

    /// Notes that messages between the hosts pass again. Returns what is to be reported.
    pub fn log_repair(&mut self, src: IpAddr, dst: IpAddr, now: Duration) -> (r: Option<
        RepairReport,
    >)
        requires
            old(self).wf(),
        ensures
            final(self).wf(),
            final(self)@ == (PartitionLoggerView {
                since: old(self)@.since.remove(top::pair(src, dst)),
                ..old(self)@
            }),
            ({
                let p = top::pair(src, dst);
                r == (if old(self)@.since.contains_key(p) {
                    let duration = passed(old(self)@.since[p], now);
                    Some(
                        RepairReport {
                            duration,
                            slow: duration.nanos >= old(self)@.threshold.nanos,
                        },
                    )
                } else {
                    None
                })
            }),
    {
        let p = ordered_pair(src, dst);
        let key = p.key();
        let ghost before = self.since@;
        proof {
            top::lemma_pair_keys();
            assert(top::pair_key()(p) == key);
            before.lemma_swapped_out(key);
            ordered::lemma_rekeyed_without(before, top::pair_key(), p);
            assert(shown(before.swapped_out(key)) =~= shown(before).remove(p));
            assert forall|k: Key| #[trigger] before.swapped_out(key).has(k) implies
                before.swapped_out(key).map[k].0.key() == k by {
                assert(before.has(k));
            }
        }
        match self.since.swap_remove(key) {
            Some(held) => {
                let duration = now.saturating_sub(held.1);
                Some(
                    RepairReport {
                        duration,
                        slow: duration.nanos >= self.slow_connection_threshold.nanos,
                    },
                )
            },
            None => None,
        }
    }

    /// The pairs of hosts between which messages have been dropped for long, each with how
    /// long.
    pub fn check_slow_connections(&self, now: Duration) -> (r: Vec<(Pair, Duration)>)
        requires
            self.wf(),
        ensures
            forall|i: int|
                0 <= i < r@.len() ==> {
                    let e = #[trigger] r@[i];
                    &&& self@.since.contains_key(e.0)
                    &&& e.1 == passed(self@.since[e.0], now)
                    &&& e.1.nanos >= self@.threshold.nanos
                },
            forall|p: Pair| #[trigger]
                self@.since.contains_key(p) && passed(self@.since[p], now).nanos
                    >= self@.threshold.nanos ==> r@.contains((p, passed(self@.since[p], now))),
            forall|i: int, j: int|
                0 <= i < j < r@.len() ==> (#[trigger] r@[i]).0 != (#[trigger] r@[j]).0,
    {
        let n: usize = self.since.len();
        let ghost e = self.since@;
        let mut out: Vec<(Pair, Duration)> = Vec::new();
        let mut i: usize = 0;
        proof {
            top::lemma_pair_keys();
        }
        while i < n
            invariant
                i <= n,
                e == self.since@,
                n == e.order.len(),
                held_wf(e),
                ordered::is_faithful(top::pair_key()),
                forall|k: int|
                    0 <= k < out@.len() ==> {
                        let x = #[trigger] out@[k];
                        &&& self@.since.contains_key(x.0)
                        &&& x.1 == passed(self@.since[x.0], now)
                        &&& x.1.nanos >= self@.threshold.nanos
                    },
                forall|k: int|
                    0 <= k < out@.len() ==> exists|j: int|
                        0 <= j < i && (#[trigger] out@[k]).0.key() == #[trigger] e.order[j],
                forall|k: int, m: int|
                    0 <= k < m < out@.len() ==> (#[trigger] out@[k]).0 != (#[trigger] out@[m]).0,
                forall|k: int|
                    #![trigger e.order[k]]
                    0 <= k < i && passed(e.nth(k).1, now).nanos >= self@.threshold.nanos
                        ==> out@.contains((e.nth(k).0, passed(e.nth(k).1, now))),
            decreases n - i,
        {
            match self.since.get_index(i) {
                Some((_, held)) => {
                    let duration = now.saturating_sub(held.1);
                    proof {
                        e.lemma_nth(i as int);
                        assert(top::pair_key()(held.0) == e.order[i as int]);
                    }
                    if duration.nanos >= self.slow_connection_threshold.nanos {
                        let ghost before = out@;
                        proof {
                            assert(held.0.key() == e.order[i as int]);
                            assert forall|k: int| 0 <= k < before.len() implies (
                            #[trigger] before[k]).0 != held.0 by {
                                let j = choose|j: int|
                                    0 <= j < i && before[k].0.key() == #[trigger] e.order[j];
                                assert(e.order[j] != e.order[i as int]);
                            }
                        }
                        out.push((held.0, duration));
                        proof {
                            assert(out@[before.len() as int] == (held.0, duration));
                            assert forall|x: (Pair, Duration)| before.contains(x) implies out@.contains(
                                x,
                            ) by {
                                let j = choose|j: int| 0 <= j < before.len() && before[j] == x;
                                assert(out@[j] == x);
                            }
                        }
                    }
                },
                None => {},
            }
            i = i + 1;
        }
        proof {
            assert forall|p: Pair| #[trigger]
                self@.since.contains_key(p) && passed(self@.since[p], now).nanos
                    >= self@.threshold.nanos implies out@.contains(
                (p, passed(self@.since[p], now)),
            ) by {
                assert(top::pair_key()(p) == p.key());
                let k = e.lemma_index(p.key());
                assert(top::pair_key()(e.nth(k).0) == top::pair_key()(p));
                assert(e.order[k] == p.key());
            }
        }
        out
    }
}

/// Noting a partition and then its repair leaves what was noted before.
pub proof fn law_repair_undoes_partition(v: PartitionLoggerView, p: Pair, now: Duration)
    requires
        !v.since.contains_key(p),
    ensures
        v.since.insert(p, now).remove(p) =~= v.since,
{
}

} // verus!
