//! What holds of the queues of every factory, and that every operation on them
//! keeps it.

use vstd::prelude::*;

use crate::ids::{kind, K_SRC};
use crate::model::{Place, Queues, SLOTS};
use crate::seqs::{lemma_ahead, lemma_append, lemma_behind, lemma_prepend};

verus! {

// ------------------------------------------------------------------- queues

impl Queues {
    /// The node `id` is in the queue that its place names.
    pub open spec fn at_home(self, now: int, id: u32) -> bool {
        match self.place[id] {
            Place::Ready => self.ready.contains(id),
            Place::Wheel(t) => now <= t < now + SLOTS && self.wheel[t % (SLOTS as int)].contains(
                id,
            ),
            Place::Far(t) => now <= t && self.far.contains((t, id)),
            Place::Waiting(t) => kind(t) == K_SRC || self.waits[t].contains(id),
        }
    }

    /// What is on the wheel is there by its place.
    pub open spec fn wheel_ok(self) -> bool {
        forall|s: int, k: int|
            0 <= s < SLOTS && 0 <= k < self.wheel[s].len() ==> {
                let id = #[trigger] self.wheel[s][k];
                &&& self.holds(id)
                &&& self.place[id] is Wheel
                &&& self.place[id]->Wheel_0 % (SLOTS as int) == s
            }
    }

    /// What is ready is so by its place.
    pub open spec fn ready_ok(self) -> bool {
        forall|k: int|
            0 <= k < self.ready.len() ==> {
                let id = #[trigger] self.ready[k];
                self.holds(id) && self.place[id] == Place::Ready
            }
    }

    /// What waits for a node does so by its place.
    pub open spec fn waits_ok(self) -> bool {
        forall|t: u32, k: int|
            0 <= k < self.waits[t].len() ==> {
                let id = #[trigger] self.waits[t][k];
                self.holds(id) && self.place[id] == Place::Waiting(t)
            }
    }

    /// What is among the far timers is there by its place.
    pub open spec fn far_ok(self) -> bool {
        forall|p: (int, u32)| #[trigger]
            self.far.contains(p) ==> self.holds(p.1) && self.place[p.1] == Place::Far(p.0)
    }

    /// No list names a node twice.
    pub open spec fn no_node_twice(self) -> bool {
        &&& forall|s: int| 0 <= s < SLOTS ==> (#[trigger] self.wheel[s]).no_duplicates()
        &&& self.ready.no_duplicates()
        &&& forall|t: u32| (#[trigger] self.waits[t]).no_duplicates()
    }

    /// Every queued node is in exactly one queue, once; a timer is on the wheel
    /// slot of its tick, and no timer is for a tick that has passed.
    pub open spec fn consistent(self, now: int) -> bool {
        &&& 0 <= now
        &&& self.wheel.len() == SLOTS
        &&& self.far.finite()
        &&& self.wheel_ok()
        &&& self.ready_ok()
        &&& self.waits_ok()
        &&& self.far_ok()
        &&& self.no_node_twice()
        &&& forall|id: u32| #[trigger] self.holds(id) ==> self.at_home(now, id)
    }

    /// A timer is set for the node `id`, for tick `t`.
    pub open spec fn timer(self, id: u32, t: int) -> bool {
        self.holds(id) && (self.place[id] == Place::Wheel(t) || self.place[id] == Place::Far(t))
    }

    /// The timers for tick `now` and before are those of `pre`, and none of the
    /// others is lost.
    pub open spec fn keeps_timers(self, pre: Queues, now: int) -> bool {
        let s = now % (SLOTS as int);
        &&& self.wheel[s] == pre.wheel[s]
        &&& forall|p: (int, u32)|
            p.0 <= now ==> (#[trigger] self.far.contains(p) <==> pre.far.contains(p))
        &&& forall|id: u32, t: int| #![trigger self.timer(id, t)]
            #![trigger pre.timer(id, t)] pre.timer(id, t) ==> self.timer(id, t)
    }
}

/// A node that is in no queue is in none of the lists.
pub proof fn lemma_unlisted(q: Queues, now: int, id: u32)
    requires
        q.consistent(now),
        !q.holds(id),
    ensures
        !q.ready.contains(id),
        forall|s: int| 0 <= s < SLOTS ==> !(#[trigger] q.wheel[s]).contains(id),
        forall|t: u32| !(#[trigger] q.waits[t]).contains(id),
        forall|t: int| !q.far.contains((t, id)),
{
    assert forall|t: int| !q.far.contains((t, id)) by {
        if q.far.contains((t, id)) {
            assert(q.holds((t, id).1));
        }
    }
}

pub proof fn lemma_enqueue(q: Queues, now: int, id: u32, when: int)
    requires
        q.consistent(now),
        !q.holds(id),
    ensures
        q.enqueue(now, id, when).consistent(now),
        q.enqueue(now, id, when).keeps_timers(q, now),
{
    let r = q.enqueue(now, id, when);
    lemma_unlisted(q, now, id);
    if when <= now {
        lemma_append(q.ready, id);
    } else if when - now >= SLOTS {
        assert(r.far.contains((when, id)));
    } else {
        let s = when % (SLOTS as int);
        lemma_prepend(q.wheel[s], id);
        assert forall|u: int, k: int| 0 <= u < SLOTS && 0 <= k < r.wheel[u].len() implies {
            let x = #[trigger] r.wheel[u][k];
            &&& r.holds(x)
            &&& r.place[x] is Wheel
            &&& r.place[x]->Wheel_0 % (SLOTS as int) == u
        } by {
            if u == s && k > 0 {
                assert(r.wheel[u][k] == q.wheel[u][k - 1]);
            } else if u != s {
                assert(r.wheel[u][k] == q.wheel[u][k]);
            }
        }
    }
    assert forall|x: u32| #[trigger] r.holds(x) implies r.at_home(now, x) by {
        if x != id {
            assert(q.holds(x));
            assert(q.at_home(now, x));
        }
    }
}

pub proof fn lemma_park(q: Queues, now: int, target: u32, id: u32)
    requires
        q.consistent(now),
        !q.holds(id),
    ensures
        q.park(target, id).consistent(now),
        q.park(target, id).keeps_timers(q, now),
{
    let r = q.park(target, id);
    lemma_unlisted(q, now, id);
    lemma_prepend(q.waits[target], id);
    if kind(target) != K_SRC {
        assert forall|t: u32, k: int| 0 <= k < r.waits[t].len() implies {
            let x = #[trigger] r.waits[t][k];
            r.holds(x) && r.place[x] == Place::Waiting(t)
        } by {
            if t == target && k > 0 {
                assert(r.waits[t][k] == q.waits[t][k - 1]);
            } else if t != target {
                assert(r.waits[t][k] == q.waits[t][k]);
            }
        }
    }
    assert forall|x: u32| #[trigger] r.holds(x) implies r.at_home(now, x) by {
        if x != id {
            assert(q.holds(x));
            assert(q.at_home(now, x));
        }
    }
}

pub proof fn lemma_unpark(q: Queues, now: int, target: u32)
    requires
        q.consistent(now),
        q.waits[target].len() > 0,
    ensures
        q.unpark(target).consistent(now),
        q.unpark(target).keeps_timers(q, now),
        q.holds(q.waits[target][0]),
        q.place[q.waits[target][0]] == Place::Waiting(target),
        !q.unpark(target).holds(q.waits[target][0]),
{
    let r = q.unpark(target);
    let id = q.waits[target][0];
    lemma_behind(q.waits[target]);
    assert(q.holds(id));
    assert forall|t: u32, k: int| 0 <= k < r.waits[t].len() implies {
        let x = #[trigger] r.waits[t][k];
        r.holds(x) && r.place[x] == Place::Waiting(t)
    } by {
        if t == target {
            assert(r.waits[t][k] == q.waits[t][k + 1]);
        } else {
            assert(r.waits[t][k] == q.waits[t][k]);
        }
    }
    assert forall|x: u32| #[trigger] r.holds(x) implies r.at_home(now, x) by {
        assert(q.holds(x));
        assert(q.at_home(now, x));
    }
}

pub proof fn lemma_take_ready(q: Queues, now: int)
    requires
        q.consistent(now),
        q.ready.len() > 0,
    ensures
        q.take_ready().consistent(now),
        q.take_ready().keeps_timers(q, now),
        q.holds(q.ready.last()),
        q.place[q.ready.last()] == Place::Ready,
        !q.take_ready().holds(q.ready.last()),
{
    let r = q.take_ready();
    lemma_ahead(q.ready);
    assert(q.holds(q.ready[q.ready.len() - 1]));
    assert forall|x: u32| #[trigger] r.holds(x) implies r.at_home(now, x) by {
        assert(q.holds(x));
        assert(q.at_home(now, x));
    }
}

pub proof fn lemma_take_slot(q: Queues, now: int)
    requires
        q.consistent(now),
        q.wheel[now % (SLOTS as int)].len() > 0,
    ensures
        ({
            let s = now % (SLOTS as int);
            let id = q.wheel[s][0];
            &&& q.take_slot(s).consistent(now)
            &&& q.holds(id)
            &&& q.place[id] == Place::Wheel(now)
            &&& !q.take_slot(s).holds(id)
        }),
{
    let s = now % (SLOTS as int);
    let r = q.take_slot(s);
    let id = q.wheel[s][0];
    lemma_behind(q.wheel[s]);
    assert(q.holds(id));
    assert(q.at_home(now, id));
    assert(q.place[id] is Wheel);
    let t = q.place[id]->Wheel_0;
    assert(t == now);
    assert forall|u: int, k: int| 0 <= u < SLOTS && 0 <= k < r.wheel[u].len() implies {
        let x = #[trigger] r.wheel[u][k];
        &&& r.holds(x)
        &&& r.place[x] is Wheel
        &&& r.place[x]->Wheel_0 % (SLOTS as int) == u
    } by {
        if u == s {
            assert(r.wheel[u][k] == q.wheel[u][k + 1]);
        } else {
            assert(r.wheel[u][k] == q.wheel[u][k]);
        }
    }
    assert forall|x: u32| #[trigger] r.holds(x) implies r.at_home(now, x) by {
        assert(q.holds(x));
        assert(q.at_home(now, x));
    }
}

pub proof fn lemma_take_far(q: Queues, now: int, p: (int, u32))
    requires
        q.consistent(now),
        q.far.contains(p),
    ensures
        q.take_far(p).consistent(now),
        q.holds(p.1),
        q.place[p.1] == Place::Far(p.0),
        now <= p.0,
        !q.take_far(p).holds(p.1),
{
    let r = q.take_far(p);
    assert(q.at_home(now, p.1));
    assert forall|x: u32| #[trigger] r.holds(x) implies r.at_home(now, x) by {
        assert(q.holds(x));
        assert(q.at_home(now, x));
    }
}

/// Once the timers of a tick are handled, the clock can move on.
pub proof fn lemma_advance(q: Queues, now: int)
    requires
        q.consistent(now),
        q.wheel[now % (SLOTS as int)].len() == 0,
        forall|p: (int, u32)| #[trigger] q.far.contains(p) ==> p.0 > now,
    ensures
        q.consistent(now + 1),
{
    assert forall|x: u32| #[trigger] q.holds(x) implies q.at_home(now + 1, x) by {
        assert(q.at_home(now, x));
    }
}

/// The queues after all nodes that wait for `target` were woken: nobody waits
/// for it any more, the same nodes are queued, and only those that waited for it
/// have a new place.
pub proof fn lemma_wake(q: Queues, now: int, target: u32, when: int)
    requires
        q.consistent(now),
    ensures
        ({
            let r = q.wake(now, target, when);
            &&& r.consistent(now)
            &&& r.keeps_timers(q, now)
            &&& r.waits[target].len() == 0
            &&& forall|t: u32| t != target ==> #[trigger] r.waits[t] == q.waits[t]
            &&& forall|id: u32| #[trigger] r.holds(id) <==> q.holds(id)
            &&& forall|id: u32|
                q.holds(id) ==> #[trigger] r.place[id] == (if q.waits[target].contains(id) {
                    timer_place(now, when)
                } else {
                    q.place[id]
                })
        }),
    decreases q.waits[target].len(),
{
    if q.waits[target].len() > 0 {
        let id = q.waits[target][0];
        let u = q.unpark(target);
        let e = u.enqueue(now, id, when);
        lemma_unpark(q, now, target);
        lemma_enqueue(u, now, id, when);
        lemma_behind(q.waits[target]);
        lemma_wake(e, now, target, when);
        let r = e.wake(now, target, when);
        assert(e.keeps_timers(q, now));
        assert forall|x: u32| q.holds(x) implies #[trigger] r.place[x] == (if q.waits[target].contains(
            x,
        ) {
            timer_place(now, when)
        } else {
            q.place[x]
        }) by {
            assert(e.holds(x));
        }
        assert forall|x: u32| #[trigger] r.holds(x) <==> q.holds(x) by {
            assert(e.holds(x) <==> q.holds(x));
        }
        assert forall|t: u32| t != target implies #[trigger] r.waits[t] == q.waits[t] by {
            assert(e.waits[t] == q.waits[t]);
        }
    }
}

/// The place of a node that is to be handled at tick `when`.
pub open spec fn timer_place(now: int, when: int) -> Place {
    if when <= now {
        Place::Ready
    } else if when - now >= SLOTS {
        Place::Far(when)
    } else {
        Place::Wheel(when)
    }
}

} // verus!
