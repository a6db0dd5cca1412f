//! When a factory rests: what is blocked costs nothing, and what has a timer is
//! left alone until then.

use vstd::prelude::*;

use crate::ids::{node, K_BELT, K_MACH};
use crate::model::{Model, Place, Queues, SLOTS};
use crate::order::lemma_by_id_short;
use crate::queues::lemma_wake;
use crate::stages::{lemma_tick_stages, past_queues, taken};
use crate::ticks::{lemma_run, lemma_step};
use crate::valid::lemma_fire;

verus! {

impl Queues {
    /// No node is to be handled, now or later, unless another one wakes it.
    pub open spec fn asleep(self) -> bool {
        &&& self.ready.len() == 0
        &&& self.wheel.len() == SLOTS
        &&& self.far == Set::<(int, u32)>::empty()
        &&& forall|s: int| 0 <= s < SLOTS ==> (#[trigger] self.wheel[s]).len() == 0
    }
}

// --------------------------------------------------------------------- queues

/// Just those nodes are queued that have something to do: belts that carry
/// something, machines that work or hold a product, and all sources.
pub proof fn law_queued_if_engaged(m: Model, id: u32)
    requires
        m.valid(),
    ensures
        m.q.holds(id) <==> m.live(id) && m.engaged(id),
{
}

/// A node is in one queue at most: on one slot of the wheel, among the far timers,
/// among the nodes of the current tick, or waiting for one other node.
pub proof fn law_one_queue(m: Model, id: u32, s: int, t: u32, when: int)
    requires
        m.valid(),
        0 <= s < SLOTS,
    ensures
        m.q.wheel[s].contains(id) ==> !m.q.waits[t].contains(id) && !m.q.ready.contains(id)
            && !m.q.far.contains((when, id)) && forall|u: int|
            0 <= u < SLOTS && (#[trigger] m.q.wheel[u]).contains(id) ==> u == s,
        m.q.waits[t].contains(id) ==> !m.q.ready.contains(id) && !m.q.far.contains((when, id))
            && forall|u: u32| (#[trigger] m.q.waits[u]).contains(id) ==> u == t,
        m.q.ready.contains(id) ==> !m.q.far.contains((when, id)),
{
    let q = m.q;
    assert forall|u: int| 0 <= u < SLOTS && (#[trigger] q.wheel[u]).contains(
        id,
    ) implies q.place[id] is Wheel && q.place[id]->Wheel_0 % (SLOTS as int) == u by {
        let k = choose|k: int| 0 <= k < q.wheel[u].len() && q.wheel[u][k] == id;
        assert(q.place[q.wheel[u][k]] is Wheel);
    }
    assert forall|u: u32| (#[trigger] q.waits[u]).contains(id) implies q.place[id]
        == Place::Waiting(u) by {
        let k = choose|k: int| 0 <= k < q.waits[u].len() && q.waits[u][k] == id;
        assert(q.place[q.waits[u][k]] == Place::Waiting(u));
    }
    assert(q.ready.contains(id) ==> q.place[id] == Place::Ready) by {
        if q.ready.contains(id) {
            let k = choose|k: int| 0 <= k < q.ready.len() && q.ready[k] == id;
            assert(q.place[q.ready[k]] == Place::Ready);
        }
    }
    assert(q.far.contains((when, id)) ==> q.place[id] == Place::Far(when)) by {
        if q.far.contains((when, id)) {
            assert(q.holds((when, id).1));
        }
    }
}

// --------------------------------------------------------------------- blocked

/// A node that waits for another has no timer and is not to be handled: it costs
/// nothing until it is woken.
pub proof fn law_waiting_costs_nothing(m: Model, id: u32)
    requires
        m.valid(),
        m.q.holds(id),
        m.q.place[id] is Waiting,
    ensures
        !m.q.ready.contains(id),
        forall|s: int| 0 <= s < SLOTS ==> !(#[trigger] m.q.wheel[s]).contains(id),
        forall|t: int| !m.q.far.contains((t, id)),
{
    assert forall|s: int| 0 <= s < SLOTS implies !(#[trigger] m.q.wheel[s]).contains(id) by {
        if m.q.wheel[s].contains(id) {
            let k = choose|k: int| 0 <= k < m.q.wheel[s].len() && m.q.wheel[s][k] == id;
            assert(m.q.place[m.q.wheel[s][k]] is Wheel);
        }
    }
    assert forall|t: int| !m.q.far.contains((t, id)) by {
        if m.q.far.contains((t, id)) {
            assert(m.q.place[(t, id).1] == Place::Far(t));
        }
    }
    if m.q.ready.contains(id) {
        let k = choose|k: int| 0 <= k < m.q.ready.len() && m.q.ready[k] == id;
        assert(m.q.place[m.q.ready[k]] == Place::Ready);
    }
}

/// A factory in which every node that has something to do waits for another is
/// asleep.
pub proof fn law_all_waiting_is_asleep(m: Model)
    requires
        m.valid(),
        forall|id: u32| #[trigger] m.q.holds(id) ==> m.q.place[id] is Waiting,
    ensures
        m.q.asleep(),
{
    let q = m.q;
    if q.ready.len() > 0 {
        assert(q.holds(q.ready[0]));
        assert(q.place[q.ready[0]] == Place::Ready);
    }
    assert forall|s: int| 0 <= s < SLOTS implies (#[trigger] q.wheel[s]).len() == 0 by {
        if q.wheel[s].len() > 0 {
            assert(q.holds(q.wheel[s][0]));
            assert(q.place[q.wheel[s][0]] is Wheel);
        }
    }
    assert forall|p: (int, u32)| !q.far.contains(p) by {
        if q.far.contains(p) {
            assert(q.holds(p.1));
        }
    }
    assert(q.far =~= Set::<(int, u32)>::empty());
}

/// In a factory that is asleep nothing happens, however long it runs: there is
/// no event, and nothing changes but the clock.
pub proof fn law_asleep_is_free(m: Model, n: nat)
    requires
        m.q.asleep(),
        0 <= m.now,
    ensures
        m.run(n) == (Model { now: m.now + n, ..m }),
        m.run(n).events == m.events,
        m.run(n).tick_ends(),
    decreases n,
{
    if n > 0 {
        law_asleep_is_free(m, (n - 1) as nat);
        lemma_idle_tick(m.run((n - 1) as nat));
    }
    lemma_idle_tick(m.run(n));
}

/// A tick of a factory that is asleep.
pub proof fn lemma_idle_tick(m: Model)
    requires
        m.q.asleep(),
        0 <= m.now,
    ensures
        m.step() == (Model { now: m.now + 1, ..m }),
        m.timers() == m,
        m.timers_fit(),
        m.tick_ends(),
{
    assert(!m.far_due());
    let m1 = m.drain_far(m.q.far.len());
    assert(m1 == m);
    assert(m.q.wheel[m.slot()].len() == 0);
    lemma_by_id_short(m.q.wheel[m.slot()]);
    assert(m.reorder().q.wheel =~= m.q.wheel);
    assert(m.reorder() == m);
    assert(m.timers() == m);
    assert(m.timers().settles_within(0));
}

/// When a node makes progress, everything that waits for it is to be handled at
/// the given tick, and nothing else is disturbed.
pub proof fn law_progress_wakes(m: Model, target: u32, when: int, id: u32)
    requires
        m.valid(),
        m.q.holds(id),
        m.now <= when,
    ensures
        ({
            let q = m.wake(target, when).q;
            &&& q.waits[target].len() == 0
            &&& q.holds(id)
            &&& m.q.waits[target].contains(id) ==> (if when == m.now {
                q.place[id] == Place::Ready && q.ready.contains(id)
            } else {
                q.timer(id, when)
            })
            &&& !m.q.waits[target].contains(id) ==> q.place[id] == m.q.place[id]
        }),
{
    lemma_wake(m.q, m.now, target, when);
    let q = m.wake(target, when).q;
    assert(q.holds(id));
    assert(q.at_home(m.now, id));
}

/// No machine waits idly: it never holds more than it needs, it is not at work
/// while it holds a product, and one that does neither lacks input. One at work is
/// done neither before the current tick nor later than it takes.
pub proof fn law_machines(m: Model, i: int)
    requires
        m.valid(),
        0 <= i < m.machines.len(),
    ensures
        ({
            let c = m.machines[i];
            &&& 0 <= c.have <= c.need
            &&& !(c.busy && c.has_out)
            &&& !c.busy && !c.has_out ==> c.have < c.need
            &&& c.busy ==> m.now <= c.until <= m.now + c.dur
            &&& c.busy && m.between_ticks() ==> c.until <= m.now - 1 + c.dur
        }),
{
    let c = m.machines[i];
    let id = node(K_MACH, i);
    assert(c.ok());
    assert(!m.starts(i));
    if c.busy {
        assert(m.live(id) && m.engaged(id));
        assert(m.timely(id));
        assert(m.q.at_home(m.now, id));
    }
}

// ---------------------------------------------------------------------- timers

/// Timers for later ticks stand from `a` to `b`.
spec fn timers_stand(a: Model, b: Model) -> bool {
    &&& b.now == a.now
    &&& forall|id: u32, t: int| t > a.now && #[trigger] a.q.timer(id, t) ==> b.q.timer(id, t)
}

/// A tick leaves the timers of later ticks alone.
proof fn lemma_step_keeps(m: Model, id: u32, t: int)
    requires
        m.valid(),
        m.linked() || m.tick_fits(),
        m.q.timer(id, t),
        t > m.now,
    ensures
        m.step().q.timer(id, t),
{
    let rel = |a: Model, b: Model| timers_stand(a, b);
    assert forall|a: Model, a1: Model, x: u32| #[trigger] taken(a, a1, x) implies rel(
        a,
        a1.fire(x),
    ) by {
        lemma_fire(a1, x);
        assert forall|id: u32, t: int| t > a.now && #[trigger] a.q.timer(
            id,
            t,
        ) implies a1.fire(x).q.timer(id, t) by {
            assert(a1.q.timer(id, t));
        }
    }
    assert(past_queues(rel)) by {
        assert forall|a: Model, q: Queues| q.place == a.q.place implies rel(
            a,
            #[trigger] a.with_queues(q),
        ) by {}
    }
    lemma_tick_stages(m, rel);
    assert(timers_stand(m, m.events_done()));
}

/// A node with a timer for tick `t` is left alone before tick `t`, whatever
/// happens to others.
pub proof fn law_timer_stands(m: Model, id: u32, t: int, n: nat)
    requires
        m.valid(),
        m.linked() || m.ticks_fit(n),
        m.now + n <= t,
        m.q.timer(id, t),
    ensures
        m.run(n).q.timer(id, t),
    decreases n,
{
    if n > 0 {
        law_timer_stands(m, id, t, (n - 1) as nat);
        lemma_run(m, (n - 1) as nat);
        lemma_step_keeps(m.run((n - 1) as nat), id, t);
    }
}

/// A timer goes off at its tick: no timer for that tick or an earlier one is left
/// when the clock moves on.
pub proof fn law_timer_goes_off(m: Model, id: u32, t: int)
    requires
        m.valid(),
        m.linked() || m.tick_fits(),
        t <= m.now,
    ensures
        !m.step().q.timer(id, t),
{
    lemma_step(m);
    if m.step().q.timer(id, t) {
        assert(m.step().q.at_home(m.now + 1, id));
    }
}

/// What is under way is handled just when it gets there: a belt in motion has
/// its timer for the tick at which its first item is due at the head.
pub proof fn law_belt_timer(m: Model, i: int)
    requires
        m.valid(),
        0 <= i < m.belts.len(),
        m.belts[i].runs.len() > 0,
        m.belts[i].due > m.now,
    ensures
        m.q.timer(node(K_BELT, i), m.belts[i].due),
{
    let id = node(K_BELT, i);
    assert(m.live(id) && m.engaged(id));
    assert(m.belts[i].ok(m.now));
    assert(m.timely(id));
}

/// What is being made is handled just when it is done: a machine at work has its
/// timer for that tick.
pub proof fn law_machine_timer(m: Model, i: int)
    requires
        m.valid(),
        0 <= i < m.machines.len(),
        m.machines[i].busy,
    ensures
        m.q.timer(node(K_MACH, i), m.machines[i].until),
        m.now <= m.machines[i].until,
{
    let id = node(K_MACH, i);
    assert(m.live(id) && m.engaged(id));
    assert(m.timely(id));
    assert(m.q.at_home(m.now, id));
}

} // verus!
