//! What holds of every factory, and that every operation keeps it.

use vstd::prelude::*;

use crate::belts::{
    lemma_extent_empty, lemma_lead, lemma_ok_later, lemma_with_item, lemma_without_first,
};
use crate::ids::{idx, kind, node, K_BELT, K_MACH, K_SINK, K_SRC};
use crate::model::{wrap, BeltV, MachineV, Model, Place, Queues, SinkV, SourceV, SLOTS};
use crate::queues::{
    lemma_advance, lemma_enqueue, lemma_park, lemma_take_far, lemma_take_ready, lemma_take_slot,
    lemma_unpark, lemma_wake, timer_place,
};

verus! {

impl MachineV {
    /// What holds of every machine.
    pub open spec fn ok(self) -> bool {
        &&& 1 <= self.need <= 0xff
        &&& 1 <= self.dur <= 0xffff
        &&& 0 <= self.have <= self.need
        &&& !(self.busy && self.has_out)
    }
}

impl SinkV {
    /// What holds of every sink.
    pub open spec fn ok(self) -> bool {
        0 <= self.count < wrap()
    }
}

impl SourceV {
    /// What holds of every source.
    pub open spec fn ok(self) -> bool {
        &&& 1 <= self.period <= 0xffff
    }
}

impl Model {
    /// The node `id` has something to do: a belt carries an item, a machine
    /// works or holds a product; a source always has.
    pub open spec fn engaged(self, id: u32) -> bool {
        if kind(id) == K_BELT {
            self.belts[idx(id)].runs.len() > 0
        } else if kind(id) == K_MACH {
            self.machines[idx(id)].busy || self.machines[idx(id)].has_out
        } else {
            true
        }
    }

    /// The queued node `id` is queued for the right time: a belt in motion for
    /// the tick at which its first item is due at the head, a machine at work
    /// for the tick at which it is done, a source for no tick before its next
    /// item.
    pub open spec fn timely(self, id: u32) -> bool {
        if kind(id) == K_MACH {
            let c = self.machines[idx(id)];
            c.busy ==> c.until <= self.now + c.dur && (self.q.place[id] == Place::Wheel(c.until)
                || self.q.place[id] == Place::Far(c.until))
        } else if kind(id) == K_SRC {
            self.sources[idx(id)].until <= (match self.q.place[id] {
                Place::Wheel(t) => t,
                Place::Far(t) => t,
                _ => self.now,
            })
        } else {
            let b = self.belts[idx(id)];
            b.blocked || self.q.place[id] == Place::Wheel(b.due) || self.q.place[id] == Place::Far(
                b.due,
            ) || (self.q.place[id] == Place::Ready && b.due <= self.now)
        }
    }

    /// Every node is in order.
    pub open spec fn nodes_ok(self) -> bool {
        &&& forall|i: int| 0 <= i < self.belts.len() ==> (#[trigger] self.belts[i]).ok(self.now)
        &&& forall|i: int| 0 <= i < self.machines.len() ==> (#[trigger] self.machines[i]).ok()
        &&& forall|i: int| 0 <= i < self.sinks.len() ==> (#[trigger] self.sinks[i]).ok()
        &&& forall|i: int| 0 <= i < self.sources.len() ==> (#[trigger] self.sources[i]).ok()
    }

    /// The factory fits its identifiers and its counters.
    pub open spec fn sizes_ok(self) -> bool {
        &&& 0 <= self.events < wrap()
        &&& self.belts.len() <= 0x4000_0000
        &&& self.machines.len() <= 0x4000_0000
        &&& self.sinks.len() <= 0x4000_0000
        &&& self.sources.len() <= 0x3fff_ffff
    }

    /// Outside `ex` the queued nodes are those that have something to do, each
    /// for the right time, and no machine that could begin to work is idle; nodes
    /// in `ex` are not queued. A node is waited for only if it can make progress.
    pub open spec fn tied(self, ex: Set<u32>) -> bool {
        &&& forall|id: u32| #[trigger]
            self.q.holds(id) ==> self.live(id) && self.engaged(id) && self.timely(id)
                && !ex.contains(id)
        &&& forall|id: u32|
            self.live(id) && #[trigger] self.engaged(id) && !ex.contains(id) ==> self.q.holds(id)
        &&& forall|i: int| #![trigger self.machines[i]]
            0 <= i < self.machines.len() && !ex.contains(node(K_MACH, i)) ==> !self.starts(i)
        &&& forall|t: u32|
            (#[trigger] self.q.waits[t]).len() > 0 ==> self.reachable(t) && kind(t) != K_SRC
    }

    /// Every node in a list is a node of the factory.
    pub open spec fn tied_lists(self) -> bool {
        &&& forall|s: int, k: int|
            0 <= s < self.q.wheel.len() && 0 <= k < self.q.wheel[s].len() ==> self.live(
                #[trigger] self.q.wheel[s][k],
            )
        &&& forall|t: u32, k: int|
            0 <= k < self.q.waits[t].len() ==> self.live(#[trigger] self.q.waits[t][k])
        &&& forall|t: u32|
            (#[trigger] self.q.waits[t]).len() > 0 ==> self.reachable(t) && kind(t) != K_SRC
    }

    /// The queues are consistent and name nodes of the factory only.
    pub open spec fn orderly(self) -> bool {
        &&& self.sizes_ok()
        &&& self.q.consistent(self.now)
        &&& self.tied_lists()
    }

    /// What holds of a factory in the midst of an event, while the nodes in
    /// `ex` are out of their queues.
    pub open spec fn valid_except(self, ex: Set<u32>) -> bool {
        &&& self.sizes_ok()
        &&& self.nodes_ok()
        &&& self.q.consistent(self.now)
        &&& self.tied(ex)
    }

    /// What holds of a factory in the midst of an event, whatever nodes are out
    /// of their queues.
    pub open spec fn sound(self) -> bool {
        exists|ex: Set<u32>| self.valid_except(ex)
    }

    /// What holds of every factory: its nodes are in order, its queues name each
    /// node once, and exactly the nodes that have something to do are queued.
    pub open spec fn valid(self) -> bool {
        self.valid_except(Set::empty())
    }

    /// What holds of every factory between two ticks besides: machines at work
    /// began before the current tick.
    pub open spec fn between_ticks(self) -> bool {
        forall|i: int|
            0 <= i < self.machines.len() && (#[trigger] self.machines[i]).busy
                ==> self.machines[i].until < self.now + self.machines[i].dur
    }

    /// The same nodes, joined in the same way.
    pub open spec fn same_layout(self, pre: Model) -> bool {
        &&& self.belts.len() == pre.belts.len()
        &&& self.machines.len() == pre.machines.len()
        &&& self.sinks.len() == pre.sinks.len()
        &&& self.sources.len() == pre.sources.len()
        &&& forall|i: int|
            0 <= i < self.belts.len() ==> {
                &&& (#[trigger] self.belts[i]).out == pre.belts[i].out
                &&& self.belts[i].cap == pre.belts[i].cap
                &&& self.belts[i].period == pre.belts[i].period
            }
        &&& forall|i: int|
            0 <= i < self.machines.len() ==> {
                &&& (#[trigger] self.machines[i]).out == pre.machines[i].out
                &&& self.machines[i].in_item == pre.machines[i].in_item
                &&& self.machines[i].out_item == pre.machines[i].out_item
                &&& self.machines[i].dur == pre.machines[i].dur
                &&& self.machines[i].need == pre.machines[i].need
            }
        &&& forall|i: int|
            0 <= i < self.sources.len() ==> {
                &&& (#[trigger] self.sources[i]).out == pre.sources[i].out
                &&& self.sources[i].item == pre.sources[i].item
                &&& self.sources[i].period == pre.sources[i].period
            }
    }

    /// Later in the same tick: the layout, the clock and the timers of this tick
    /// are those of `pre`.
    pub open spec fn follows(self, pre: Model) -> bool {
        &&& self.same_layout(pre)
        &&& self.q.keeps_timers(pre.q, self.now)
        &&& self.now == pre.now
        &&& self.sort_events == pre.sort_events
    }

    /// Every node delivers to a node of the factory, or to nothing.
    pub open spec fn linked(self) -> bool {
        &&& forall|i: int| 0 <= i < self.belts.len() ==> self.reachable(
            (#[trigger] self.belts[i]).out,
        )
        &&& forall|i: int| 0 <= i < self.machines.len() ==> self.reachable(
            (#[trigger] self.machines[i]).out,
        )
        &&& forall|i: int| 0 <= i < self.sources.len() ==> self.reachable(
            (#[trigger] self.sources[i]).out,
        )
    }

    /// The node `id` may be queued for tick `when`.
    pub open spec fn may_queue(self, id: u32, when: int) -> bool {
        &&& self.live(id)
        &&& self.engaged(id)
        &&& kind(id) == K_BELT && !self.belts[idx(id)].blocked ==> when
            == self.belts[idx(id)].due
        &&& kind(id) == K_MACH && self.machines[idx(id)].busy ==> self.now < when <= self.now
            + self.machines[idx(id)].dur && self.machines[idx(id)].until == when
        &&& kind(id) == K_SRC ==> self.sources[idx(id)].until <= when
            || self.sources[idx(id)].until <= self.now
    }

    /// The node `id`, out of its queues, may be handled now.
    pub open spec fn may_fire(self, id: u32) -> bool {
        &&& self.live(id)
        &&& self.engaged(id)
        &&& kind(id) == K_BELT && !self.belts[idx(id)].blocked ==> self.belts[idx(id)].due
            <= self.now
        &&& kind(id) == K_MACH && self.machines[idx(id)].busy ==> self.machines[idx(id)].until
            == self.now
        &&& kind(id) == K_SRC ==> self.sources[idx(id)].until <= self.now
    }
}

/// The nodes in the lists of a valid factory are its nodes.
pub proof fn lemma_orderly(m: Model, ex: Set<u32>)
    requires
        m.valid_except(ex),
    ensures
        m.orderly(),
{
}

/// What holds in the midst of an event.
pub proof fn lemma_sound(m: Model)
    requires
        m.sound(),
    ensures
        m.orderly(),
        m.nodes_ok(),
        forall|id: u32| #[trigger] m.q.holds(id) ==> m.engaged(id),
{
    let ex = choose|ex: Set<u32>| m.valid_except(ex);
    lemma_orderly(m, ex);
}

pub proof fn lemma_orderly_schedule(m: Model, id: u32, when: int)
    requires
        m.orderly(),
        m.live(id),
        !m.q.holds(id),
    ensures
        m.schedule(id, when).orderly(),
{
    lemma_enqueue(m.q, m.now, id, when);
    let r = m.schedule(id, when);
    assert forall|s: int, k: int|
        0 <= s < r.q.wheel.len() && 0 <= k < r.q.wheel[s].len() implies r.live(
        #[trigger] r.q.wheel[s][k],
    ) by {
        if m.now < when && when - m.now < SLOTS && s == when % (SLOTS as int) {
            if k > 0 {
                assert(r.q.wheel[s][k] == m.q.wheel[s][k - 1]);
            }
        } else {
            assert(r.q.wheel[s][k] == m.q.wheel[s][k]);
        }
    }
    assert forall|t: u32, k: int| 0 <= k < r.q.waits[t].len() implies r.live(
        #[trigger] r.q.waits[t][k],
    ) by {
        assert(m.live(m.q.waits[t][k]));
    }
}

pub proof fn lemma_orderly_unpark(m: Model, target: u32)
    requires
        m.orderly(),
        m.q.waits[target].len() > 0,
    ensures
        m.with_queues(m.q.unpark(target)).orderly(),
        m.live(m.q.waits[target][0]),
        !m.q.unpark(target).holds(m.q.waits[target][0]),
{
    lemma_unpark(m.q, m.now, target);
    let r = m.with_queues(m.q.unpark(target));
    assert forall|s: int, k: int|
        0 <= s < r.q.wheel.len() && 0 <= k < r.q.wheel[s].len() implies r.live(
        #[trigger] r.q.wheel[s][k],
    ) by {
        assert(m.live(m.q.wheel[s][k]));
    }
    assert forall|t: u32, k: int| 0 <= k < r.q.waits[t].len() implies r.live(
        #[trigger] r.q.waits[t][k],
    ) by {
        if t == target {
            assert(r.q.waits[t][k] == m.q.waits[t][k + 1]);
        } else {
            assert(r.q.waits[t][k] == m.q.waits[t][k]);
        }
    }
    assert forall|t: u32| (#[trigger] r.q.waits[t]).len() > 0 implies r.reachable(t) && kind(t)
        != K_SRC by {
        assert(m.q.waits[t].len() > 0);
    }
}

// ------------------------------------------------------------------- queueing

pub proof fn lemma_schedule(m: Model, ex: Set<u32>, id: u32, when: int)
    requires
        m.valid_except(ex),
        ex.contains(id),
        m.may_queue(id, when),
    ensures
        m.schedule(id, when).valid_except(ex.remove(id)),
        m.schedule(id, when).follows(m),
{
    lemma_enqueue(m.q, m.now, id, when);
    let r = m.schedule(id, when);
    assert forall|x: u32| #[trigger] r.q.holds(x) implies r.live(x) && r.engaged(x) && r.timely(x)
        && !ex.remove(id).contains(x) by {
        if x != id {
            assert(m.q.holds(x));
        }
    }
    assert forall|x: u32|
        r.live(x) && #[trigger] r.engaged(x) && !ex.remove(id).contains(x) implies r.q.holds(x) by {
        if x != id {
            assert(m.engaged(x));
        }
    }
}

pub proof fn lemma_park_model(m: Model, ex: Set<u32>, target: u32, id: u32)
    requires
        m.valid_except(ex),
        ex.contains(id),
        m.may_queue(id, m.now),
        kind(id) == K_BELT ==> m.belts[idx(id)].blocked,
        m.reachable(target),
    ensures
        m.with_queues(m.q.park(target, id)).valid_except(ex.remove(id)),
        m.with_queues(m.q.park(target, id)).follows(m),
{
    lemma_park(m.q, m.now, target, id);
    let r = m.with_queues(m.q.park(target, id));
    assert forall|x: u32| #[trigger] r.q.holds(x) implies r.live(x) && r.engaged(x) && r.timely(x)
        && !ex.remove(id).contains(x) by {
        if x != id {
            assert(m.q.holds(x));
        }
    }
    assert forall|x: u32|
        r.live(x) && #[trigger] r.engaged(x) && !ex.remove(id).contains(x) implies r.q.holds(x) by {
        if x != id {
            assert(m.engaged(x));
        }
    }
}

pub proof fn lemma_wake_model(m: Model, ex: Set<u32>, target: u32, when: int)
    requires
        m.valid_except(ex),
        m.now <= when,
    ensures
        m.wake(target, when).valid_except(ex),
        m.wake(target, when).follows(m),
        m.wake(target, when).q.waits[target].len() == 0,
{
    lemma_wake(m.q, m.now, target, when);
    let r = m.wake(target, when);
    assert forall|x: u32| #[trigger] r.q.holds(x) implies r.live(x) && r.engaged(x) && r.timely(x)
        && !ex.contains(x) by {
        assert(m.q.holds(x));
        if m.q.waits[target].contains(x) {
            let k = choose|k: int| 0 <= k < m.q.waits[target].len() && m.q.waits[target][k] == x;
            assert(m.q.place[x] == Place::Waiting(target));
        }
        assert(r.q.place[x] == (if m.q.waits[target].contains(x) {
            timer_place(m.now, when)
        } else {
            m.q.place[x]
        }));
    }
    assert forall|x: u32|
        r.live(x) && #[trigger] r.engaged(x) && !ex.contains(x) implies r.q.holds(x) by {
        assert(m.engaged(x));
    }
}

/// A node with nothing to do needs no queue.
pub proof fn lemma_release(m: Model, ex: Set<u32>, id: u32)
    requires
        m.valid_except(ex),
        !m.engaged(id),
        kind(id) == K_MACH ==> !m.starts(idx(id)),
    ensures
        m.valid_except(ex.remove(id)),
{
}

/// A node with nothing to do is in no queue.
pub proof fn lemma_hold(m: Model, ex: Set<u32>, id: u32)
    requires
        m.valid_except(ex),
        !m.engaged(id),
    ensures
        m.valid_except(ex.insert(id)),
        !m.q.holds(id),
{
}

// ---------------------------------------------------------------------- nodes

/// A belt changes while it is out of its queues, or without changing whether it
/// carries anything and when that is due.
pub proof fn lemma_change_belt(m: Model, ex: Set<u32>, i: int, b: BeltV)
    requires
        m.valid_except(ex),
        0 <= i < m.belts.len(),
        b.ok(m.now),
        b.out == m.belts[i].out,
        b.cap == m.belts[i].cap,
        b.period == m.belts[i].period,
        ex.contains(node(K_BELT, i)) || ((b.runs.len() > 0 <==> m.belts[i].runs.len() > 0)
            && b.due == m.belts[i].due && b.blocked == m.belts[i].blocked),
    ensures
        m.with_belt(i, b).valid_except(ex),
        m.with_belt(i, b).follows(m),
{
    let r = m.with_belt(i, b);
    assert forall|x: u32| #[trigger] r.q.holds(x) implies r.live(x) && r.engaged(x) && r.timely(x)
        && !ex.contains(x) by {
        assert(m.q.holds(x));
        assert(m.engaged(x));
    }
    assert forall|x: u32|
        r.live(x) && #[trigger] r.engaged(x) && !ex.contains(x) implies r.q.holds(x) by {
        assert(m.engaged(x));
    }
}

/// A machine changes while it is out of its queues, or without changing what it
/// is doing.
pub proof fn lemma_change_machine(m: Model, ex: Set<u32>, i: int, c: MachineV)
    requires
        m.valid_except(ex),
        0 <= i < m.machines.len(),
        c.ok(),
        c.out == m.machines[i].out,
        c.in_item == m.machines[i].in_item,
        c.out_item == m.machines[i].out_item,
        c.dur == m.machines[i].dur,
        c.need == m.machines[i].need,
        ex.contains(node(K_MACH, i)) || (c.busy == m.machines[i].busy && c.has_out
            == m.machines[i].has_out && c.until == m.machines[i].until && (c.busy || c.has_out
            || c.have < c.need)),
    ensures
        m.with_machine(i, c).valid_except(ex),
        m.with_machine(i, c).follows(m),
{
    let r = m.with_machine(i, c);
    assert forall|x: u32| #[trigger] r.q.holds(x) implies r.live(x) && r.engaged(x) && r.timely(x)
        && !ex.contains(x) by {
        assert(m.q.holds(x));
        assert(m.engaged(x));
    }
    assert forall|x: u32|
        r.live(x) && #[trigger] r.engaged(x) && !ex.contains(x) implies r.q.holds(x) by {
        assert(m.engaged(x));
    }
}

/// A source changes while it is out of its queues.
pub proof fn lemma_change_source(m: Model, ex: Set<u32>, i: int, c: SourceV)
    requires
        m.valid_except(ex),
        0 <= i < m.sources.len(),
        c.ok(),
        c.out == m.sources[i].out,
        c.item == m.sources[i].item,
        c.period == m.sources[i].period,
        ex.contains(node(K_SRC, i)),
    ensures
        m.with_source(i, c).valid_except(ex),
        m.with_source(i, c).follows(m),
{
    let r = m.with_source(i, c);
    assert forall|x: u32| #[trigger] r.q.holds(x) implies r.live(x) && r.engaged(x) && r.timely(x)
        && !ex.contains(x) by {
        assert(m.q.holds(x));
        assert(m.engaged(x));
    }
    assert forall|x: u32|
        r.live(x) && #[trigger] r.engaged(x) && !ex.contains(x) implies r.q.holds(x) by {
        assert(m.engaged(x));
    }
}

// --------------------------------------------------------------- moving items

/// The nodes out of their queues after machine `i` began to work if it could.
pub open spec fn out_after_start(m: Model, ex: Set<u32>, i: int) -> Set<u32> {
    if m.starts(i) {
        ex.remove(node(K_MACH, i))
    } else {
        ex
    }
}

pub proof fn lemma_start(m: Model, ex: Set<u32>, i: int)
    requires
        m.valid_except(ex),
        0 <= i < m.machines.len(),
    ensures
        m.start(i).valid_except(out_after_start(m, ex, i)),
        m.start(i).follows(m),
{
    let c = m.machines[i];
    let id = node(K_MACH, i);
    assert(c.ok());
    if m.starts(i) {
        let until = m.now + c.dur;
        lemma_hold(m, ex, id);
        let ex1 = ex.insert(id);
        let c1 = MachineV { have: c.have - c.need, busy: true, until, ..c };
        lemma_change_machine(m, ex1, i, c1);
        let m1 = m.with_machine(i, c1);
        lemma_schedule(m1, ex1, id, until);
        let m2 = m1.schedule(id, until);
        assert(ex1.remove(id) =~= ex.remove(id));
        lemma_wake_model(m2, ex.remove(id), id, m.now);
    }
}

/// The nodes out of their queues after `target` was given an item.
pub open spec fn out_after_give(m: Model, ex: Set<u32>, target: u32) -> Set<u32> {
    if kind(target) == K_MACH {
        let i = idx(target);
        let c = m.machines[i];
        let m1 = m.with_machine(i, MachineV { have: c.have + 1, ..c });
        if c.have + 1 >= c.need {
            out_after_start(m1, ex, i)
        } else {
            ex
        }
    } else {
        ex
    }
}

pub proof fn lemma_give(m: Model, ex: Set<u32>, target: u32, item: u16)
    requires
        m.valid_except(ex),
        m.reachable(target),
        m.accepts(target, item),
        kind(target) == K_BELT && ex.contains(target) ==> m.belts[idx(target)].runs.len() > 0,
    ensures
        m.give(target, item).valid_except(out_after_give(m, ex, target)),
        m.give(target, item).follows(m),
{
    let i = idx(target);
    if kind(target) == K_BELT {
        let b = m.belts[i];
        let b1 = b.with_item(item, m.now);
        assert(target == node(K_BELT, i));
        lemma_with_item(b, item, m.now);
        if b.runs.len() == 0 {
            lemma_hold(m, ex, target);
            let ex1 = ex.insert(target);
            lemma_change_belt(m, ex1, i, b1);
            lemma_schedule(m.with_belt(i, b1), ex1, target, b1.due);
            assert(ex1.remove(target) =~= ex);
        } else {
            lemma_change_belt(m, ex, i, b1);
        }
    } else if kind(target) == K_MACH {
        let c = m.machines[i];
        let c1 = MachineV { have: c.have + 1, ..c };
        assert(c.ok());
        assert(target == node(K_MACH, i));
        if c.have + 1 >= c.need && !c.busy && !c.has_out {
            lemma_hold(m, ex, target);
            let ex1 = ex.insert(target);
            lemma_change_machine(m, ex1, i, c1);
            lemma_start(m.with_machine(i, c1), ex1, i);
            assert(ex1.remove(target) =~= ex.remove(target));
        } else {
            lemma_change_machine(m, ex, i, c1);
            if c.have + 1 >= c.need {
                lemma_start(m.with_machine(i, c1), ex, i);
            }
        }
    } else {
        let r = m.give(target, item);
        assert forall|x: u32| #[trigger] r.q.holds(x) implies r.live(x) && r.engaged(x) && r.timely(
            x,
        ) && !ex.contains(x) by {
            assert(m.q.holds(x));
        }
        assert forall|x: u32|
            r.live(x) && #[trigger] r.engaged(x) && !ex.contains(x) implies r.q.holds(x) by {
            assert(m.engaged(x));
        }
    }
}

pub proof fn lemma_block(m: Model, ex: Set<u32>, id: u32, target: u32)
    requires
        m.valid_except(ex),
        ex.contains(id),
        m.may_queue(id, m.now),
        kind(id) == K_BELT ==> m.belts[idx(id)].blocked,
        m.reachable(target),
    ensures
        m.block(id, target).valid_except(ex.remove(id)),
        m.block(id, target).follows(m),
{
    let b = m.belts[idx(target)];
    if kind(target) == K_BELT && !b.blocked && b.runs.len() > 0 {
        let next = b.next_move(m.now);
        let when = if next > m.now + 1 {
            next
        } else {
            m.now + 1
        };
        lemma_schedule(m, ex, id, when);
    } else {
        lemma_park_model(m, ex, target, id);
    }
}

// -------------------------------------------------------------------- events

pub proof fn lemma_fire_belt(m: Model, i: int)
    requires
        0 <= i < m.belts.len(),
        m.valid_except(set![node(K_BELT, i)]),
        m.may_fire(node(K_BELT, i)),
        m.reachable(m.belts[i].out),
    ensures
        m.fire_belt(i).valid(),
        m.fire_belt(i).follows(m),
{
    let b = m.belts[i];
    let id = node(K_BELT, i);
    let ex = set![id];
    let none = Set::<u32>::empty();
    assert(ex.remove(id) =~= none);
    assert(b.ok(m.now));
    lemma_lead(b, m.now);
    if b.lead(m.now) > 0 {
        lemma_schedule(m, ex, id, b.due);
    } else if m.accepts(b.out, b.runs[0].item) {
        let item = b.runs[0].item;
        lemma_give(m, ex, b.out, item);
        let m1 = m.give(b.out, item);
        assert(out_after_give(m, ex, b.out) =~= ex);
        lemma_give_keeps_belt(m, b.out, item, i);
        let b1 = m1.belts[i];
        let left = b1.without_first(m.now);
        assert(b1.ok(m.now));
        lemma_without_first(b1, m.now);
        lemma_change_belt(m1, ex, i, left);
        let m2 = m1.with_belt(i, left);
        let m3 = if left.runs.len() > 0 {
            m2.schedule(id, left.due)
        } else {
            m2
        };
        if left.runs.len() > 0 {
            lemma_schedule(m2, ex, id, left.due);
        } else {
            lemma_release(m2, ex, id);
        }
        assert(m3.follows(m));
        lemma_wake_model(m3, none, id, m.now + b.period);
    } else {
        let b1 = BeltV { blocked: true, due: m.now, ..b };
        lemma_lead(b1, m.now);
        lemma_change_belt(m, ex, i, b1);
        lemma_block(m.with_belt(i, b1), ex, id, b.out);
    }
}

/// An item that is given to some node leaves the head of a belt that carries
/// something as it was.
pub proof fn lemma_give_keeps_belt(m: Model, target: u32, item: u16, i: int)
    requires
        m.nodes_ok(),
        m.reachable(target),
        m.accepts(target, item),
        0 <= i < m.belts.len(),
        m.belts[i].runs.len() > 0,
    ensures
        m.give(target, item).belts.len() == m.belts.len(),
        m.give(target, item).belts[i].due == m.belts[i].due,
        m.give(target, item).belts[i].runs.len() > 0,
        m.give(target, item).belts[i].lead(m.now) == m.belts[i].lead(m.now),
        m.give(target, item).belts[i].runs[0].item == m.belts[i].runs[0].item,
{
    if kind(target) == K_BELT {
        assert(m.belts[idx(target)].ok(m.now));
        lemma_with_item(m.belts[idx(target)], item, m.now);
    }
}

pub proof fn lemma_fire_machine(m: Model, i: int)
    requires
        0 <= i < m.machines.len(),
        m.valid_except(set![node(K_MACH, i)]),
        m.may_fire(node(K_MACH, i)),
        m.reachable(m.machines[i].out),
    ensures
        m.fire_machine(i).valid(),
        m.fire_machine(i).follows(m),
{
    let c = m.machines[i];
    let id = node(K_MACH, i);
    let ex = set![id];
    let none = Set::<u32>::empty();
    assert(ex.remove(id) =~= none);
    assert(none.remove(id) =~= none);
    assert(c.ok());
    if c.busy {
        let c1 = MachineV { busy: false, ..c };
        let m1 = m.with_machine(i, c1);
        lemma_change_machine(m, ex, i, c1);
        if m1.accepts(c.out, c.out_item) {
            lemma_give(m1, ex, c.out, c.out_item);
            lemma_finish(m1, ex, i, m1.give(c.out, c.out_item));
        } else {
            let c2 = MachineV { has_out: true, ..c1 };
            assert(m1.machines[i] == c1);
            lemma_change_machine(m1, ex, i, c2);
            lemma_block(m1.with_machine(i, c2), ex, id, c.out);
        }
    } else if m.accepts(c.out, c.out_item) {
        lemma_give(m, ex, c.out, c.out_item);
        let m1 = m.give(c.out, c.out_item);
        assert(out_after_give(m, ex, c.out) =~= ex);
        lemma_give_keeps_product(m, c.out, c.out_item, i);
        let c2 = MachineV { has_out: false, ..m1.machines[i] };
        assert(m1.machines[i].ok());
        lemma_change_machine(m1, ex, i, c2);
        let m2 = m1.with_machine(i, c2);
        assert(m2.follows(m));
        lemma_start(m2, ex, i);
        if !m2.starts(i) {
            lemma_release(m2, ex, id);
        }
    } else {
        lemma_block(m, ex, id, c.out);
    }
}

/// A machine whose product has left it goes on.
proof fn lemma_finish(m: Model, ex: Set<u32>, i: int, m1: Model)
    requires
        0 <= i < m.machines.len(),
        ex == set![node(K_MACH, i)],
        m.nodes_ok(),
        m.reachable(m.machines[i].out),
        m1 == m.give(m.machines[i].out, m.machines[i].out_item),
        m.accepts(m.machines[i].out, m.machines[i].out_item),
        !m.machines[i].busy && !m.machines[i].has_out,
        m1.valid_except(out_after_give(m, ex, m.machines[i].out)),
        m1.follows(m),
    ensures
        m1.start(i).valid(),
        m1.start(i).follows(m),
{
    let c = m.machines[i];
    let id = node(K_MACH, i);
    let none = Set::<u32>::empty();
    let ex1 = out_after_give(m, ex, c.out);
    lemma_start(m1, ex1, i);
    if kind(c.out) == K_MACH && idx(c.out) == i {
        assert(c.out == id);
        let m0 = m.with_machine(i, MachineV { have: c.have + 1, ..c });
        if c.have + 1 >= c.need {
            assert(m0.starts(i));
            assert(ex1 =~= none);
            assert(m1.machines[i].busy);
        } else {
            assert(ex1 == ex);
            assert(!m1.starts(i));
            lemma_release(m1, ex, id);
            assert(ex.remove(id) =~= none);
        }
    } else {
        assert(ex1 =~= ex);
        assert(m1.machines[i] == c);
        if m1.starts(i) {
            assert(ex.remove(id) =~= none);
        } else {
            lemma_release(m1, ex, id);
            assert(ex.remove(id) =~= none);
        }
    }
}

/// An item that is given to some node does not make a machine start that holds
/// a product.
pub proof fn lemma_give_keeps_product(m: Model, target: u32, item: u16, i: int)
    requires
        m.reachable(target),
        0 <= i < m.machines.len(),
        m.machines[i].has_out,
    ensures
        m.give(target, item).machines.len() == m.machines.len(),
        m.give(target, item).machines[i].has_out,
        m.give(target, item).machines[i].busy == m.machines[i].busy,
{
}

pub proof fn lemma_fire_source(m: Model, i: int)
    requires
        0 <= i < m.sources.len(),
        m.sources.len() <= 0x3fff_ffff,
        m.valid_except(set![node(K_SRC, i)]),
        m.may_fire(node(K_SRC, i)),
        m.reachable(m.sources[i].out),
    ensures
        m.fire_source(i).valid(),
        m.fire_source(i).follows(m),
{
    let c = m.sources[i];
    let id = node(K_SRC, i);
    let ex = set![id];
    let none = Set::<u32>::empty();
    assert(ex.remove(id) =~= none);
    assert(c.ok());
    if m.accepts(c.out, c.item) {
        let until = m.now + c.period;
        lemma_give(m, ex, c.out, c.item);
        assert(out_after_give(m, ex, c.out) =~= ex);
        let m1 = m.give(c.out, c.item);
        assert(m1.sources == m.sources);
        let c1 = SourceV { blocked: false, until, ..c };
        lemma_change_source(m1, ex, i, c1);
        let m2 = m1.with_source(i, c1);
        lemma_schedule(m2, ex, id, until);
    } else {
        let c1 = SourceV { blocked: true, ..c };
        lemma_change_source(m, ex, i, c1);
        lemma_block(m.with_source(i, c1), ex, id, c.out);
    }
}

/// In a factory without loose ends every node delivers to a node that is there.
pub proof fn lemma_reaches(m: Model, id: u32)
    requires
        m.live(id),
        m.linked() || m.reachable(m.out_of(id)),
    ensures
        m.reachable(m.out_of(id)),
{
    if m.linked() {
        if kind(id) == K_BELT {
            assert(m.reachable(m.belts[idx(id)].out));
        } else if kind(id) == K_MACH {
            assert(m.reachable(m.machines[idx(id)].out));
        } else {
            assert(m.reachable(m.sources[idx(id)].out));
        }
    }
}

/// A node that is handled leaves the factory in order.
pub proof fn lemma_fire(m: Model, id: u32)
    requires
        m.valid_except(set![id]),
        m.may_fire(id),
        m.linked() || m.reachable(m.out_of(id)),
    ensures
        m.fire(id).valid(),
        m.fire(id).follows(m),
{
    lemma_reaches(m, id);
    let m1 = Model { events: (m.events + 1) % wrap(), ..m };
    let i = idx(id);
    assert(m1.valid_except(set![id])) by {
        assert forall|x: u32| #[trigger] m1.q.holds(x) implies m1.live(x) && m1.engaged(x)
            && m1.timely(x) && !set![id].contains(x) by {
            assert(m.q.holds(x));
        }
        assert forall|x: u32|
            m1.live(x) && #[trigger] m1.engaged(x) && !set![id].contains(x) implies m1.q.holds(
            x,
        ) by {
            assert(m.engaged(x));
        }
    }
    if kind(id) == K_BELT {
        assert(id == node(K_BELT, i));
        lemma_fire_belt(m1, i);
    } else if kind(id) == K_MACH {
        assert(id == node(K_MACH, i));
        lemma_fire_machine(m1, i);
    } else {
        assert(id == node(K_SRC, i));
        lemma_fire_source(m1, i);
    }
}

// ---------------------------------------------------------------------- time

/// The last ready node may be handled.
pub proof fn lemma_next_ready(m: Model)
    requires
        m.valid(),
        m.q.ready.len() > 0,
    ensures
        ({
            let id = m.q.ready.last();
            let m1 = m.with_queues(m.q.take_ready());
            &&& m1.valid_except(set![id])
            &&& m1.may_fire(id)
            &&& m1.follows(m)
        }),
{
    lemma_take_ready(m.q, m.now);
    let id = m.q.ready.last();
    lemma_taken(m, id, m.q.take_ready());
}

/// The first node of the current wheel slot may be handled.
pub proof fn lemma_next_slot(m: Model)
    requires
        m.valid(),
        m.q.wheel[m.slot()].len() > 0,
    ensures
        ({
            let id = m.q.wheel[m.slot()][0];
            let m1 = m.with_queues(m.q.take_slot(m.slot()));
            &&& m1.valid_except(set![id])
            &&& m1.may_fire(id)
            &&& m1.same_layout(m)
        }),
{
    lemma_take_slot(m.q, m.now);
    let id = m.q.wheel[m.slot()][0];
    lemma_taken(m, id, m.q.take_slot(m.slot()));
}

/// A far timer that is due may be handled.
pub proof fn lemma_next_far(m: Model, p: (int, u32))
    requires
        m.valid(),
        m.q.far.contains(p),
        p.0 <= m.now,
    ensures
        ({
            let m1 = m.with_queues(m.q.take_far(p));
            &&& m1.valid_except(set![p.1])
            &&& m1.may_fire(p.1)
            &&& m1.same_layout(m)
        }),
{
    lemma_take_far(m.q, m.now, p);
    lemma_taken(m, p.1, m.q.take_far(p));
}

/// A node that has left its queue for the current tick may be handled.
proof fn lemma_taken(m: Model, id: u32, q: Queues)
    requires
        m.valid(),
        q.consistent(m.now),
        m.q.holds(id),
        m.q.place[id] == Place::Ready || m.q.place[id] == Place::Wheel(m.now) || m.q.place[id]
            == Place::Far(m.now),
        q.place == m.q.place.remove(id),
        q.waits == m.q.waits,
    ensures
        m.with_queues(q).valid_except(set![id]),
        m.with_queues(q).may_fire(id),
{
    let r = m.with_queues(q);
    assert(m.timely(id));
    assert forall|x: u32| #[trigger] r.q.holds(x) implies r.live(x) && r.engaged(x) && r.timely(x)
        && !set![id].contains(x) by {
        assert(m.q.holds(x));
    }
    assert forall|x: u32|
        r.live(x) && #[trigger] r.engaged(x) && !set![id].contains(x) implies r.q.holds(x) by {
        assert(m.engaged(x));
    }
}

/// Once all timers of a tick are handled, the clock can move on.
pub proof fn lemma_tick(m: Model)
    requires
        m.valid(),
        m.q.wheel[m.slot()].len() == 0,
        !m.far_due(),
    ensures
        (Model { now: m.now + 1, ..m }).valid(),
        (Model { now: m.now + 1, ..m }).between_ticks(),
        (Model { now: m.now + 1, ..m }).same_layout(m),
{
    let r = Model { now: m.now + 1, ..m };
    assert forall|i: int|
        0 <= i < r.machines.len() && (
        #[trigger] r.machines[i]).busy implies r.machines[i].until < r.now
        + r.machines[i].dur by {
        let id = node(K_MACH, i);
        assert(m.live(id) && m.engaged(id));
        assert(m.timely(id));
    }
    lemma_advance(m.q, m.now);
    assert forall|i: int| 0 <= i < r.belts.len() implies (#[trigger] r.belts[i]).ok(r.now) by {
        lemma_ok_later(m.belts[i], m.now);
    }
    assert forall|x: u32| #[trigger] r.q.holds(x) implies r.live(x) && r.engaged(x) && r.timely(x)
        && !Set::<u32>::empty().contains(x) by {
        assert(m.q.holds(x));
    }
    assert forall|x: u32|
        r.live(x) && #[trigger] r.engaged(x) && !Set::<u32>::empty().contains(
            x,
        ) implies r.q.holds(x) by {
        assert(m.engaged(x));
    }
}

// ------------------------------------------------------------------- building

/// The factory without nodes is in order.
pub proof fn lemma_empty()
    ensures
        Model::empty().valid(),
{
    let m = Model::empty();
    assert(forall|t: u32| (#[trigger] m.q.waits[t]).len() == 0);
    assert forall|id: u32| !#[trigger] m.live(id) by {}
    assert(m.q.consistent(0));
}

/// Nodes were added that have nothing to do yet.
proof fn lemma_grown(m: Model, r: Model)
    requires
        m.valid(),
        r.q == m.q,
        r.now == m.now,
        r.events == m.events,
        r.sizes_ok(),
        r.nodes_ok(),
        m.belts.len() <= r.belts.len(),
        m.machines.len() <= r.machines.len(),
        m.sinks.len() <= r.sinks.len(),
        m.sources.len() <= r.sources.len(),
        forall|i: int| 0 <= i < m.belts.len() ==> #[trigger] r.belts[i] == m.belts[i],
        forall|i: int| 0 <= i < m.machines.len() ==> #[trigger] r.machines[i] == m.machines[i],
        forall|i: int| 0 <= i < m.sources.len() ==> #[trigger] r.sources[i] == m.sources[i],
    ensures
        r.q.consistent(r.now),
        forall|x: u32| #[trigger]
            r.q.holds(x) ==> r.live(x) && r.engaged(x) && r.timely(x) && m.live(x),
        forall|x: u32| m.live(x) && #[trigger] r.engaged(x) ==> r.q.holds(x),
        forall|t: u32|
            (#[trigger] r.q.waits[t]).len() > 0 ==> m.reachable(t) && r.reachable(t) && kind(t)
                != K_SRC,
{
    assert forall|x: u32| #[trigger] r.q.holds(x) implies r.live(x) && r.engaged(x) && r.timely(x)
        && m.live(x) by {
        assert(m.q.holds(x));
    }
    assert forall|x: u32| m.live(x) && #[trigger] r.engaged(x) implies r.q.holds(x) by {
        assert(m.engaged(x));
    }
    assert forall|t: u32| (#[trigger] r.q.waits[t]).len() > 0 implies m.reachable(t) && r.reachable(
        t,
    ) && kind(t) != K_SRC by {
        assert(m.reachable(t));
    }
}

pub proof fn lemma_add_belt(m: Model, cap: int, period: int, out: u32)
    requires
        m.valid(),
        m.belts.len() < 0x4000_0000,
        1 <= cap <= 0xffff,
        1 <= period <= 0xffff,
    ensures
        m.add_belt(cap, period, out).valid(),
        m.q.waits[node(K_BELT, m.belts.len() as int)].len() == 0,
{
    let r = m.add_belt(cap, period, out);
    let n = m.belts.len() as int;
    assert forall|i: int| 0 <= i < r.belts.len() implies (#[trigger] r.belts[i]).ok(r.now) by {
        if i < n {
            assert(m.belts[i].ok(m.now));
        } else {
            lemma_extent_empty();
        }
    }
    lemma_grown(m, r);
    assert forall|x: u32|
        r.live(x) && #[trigger] r.engaged(x) && !Set::<u32>::empty().contains(
            x,
        ) implies r.q.holds(x) by {
        assert(m.live(x));
    }
    assert(!m.reachable(node(K_BELT, n)));
}

pub proof fn lemma_add_machine(
    m: Model,
    in_item: u16,
    need: int,
    out_item: u16,
    dur: int,
    out: u32,
)
    requires
        m.valid(),
        m.machines.len() < 0x4000_0000,
        1 <= need <= 0xff,
        1 <= dur <= 0xffff,
    ensures
        m.add_machine(in_item, need, out_item, dur, out).valid(),
        m.q.waits[node(K_MACH, m.machines.len() as int)].len() == 0,
{
    let r = m.add_machine(in_item, need, out_item, dur, out);
    let n = m.machines.len() as int;
    assert forall|i: int| 0 <= i < r.machines.len() implies (#[trigger] r.machines[i]).ok() by {
        if i < n {
            assert(m.machines[i].ok());
        }
    }
    lemma_grown(m, r);
    assert forall|x: u32|
        r.live(x) && #[trigger] r.engaged(x) && !Set::<u32>::empty().contains(
            x,
        ) implies r.q.holds(x) by {
        assert(m.live(x));
    }
    assert(!m.reachable(node(K_MACH, n)));
}

pub proof fn lemma_add_sink(m: Model)
    requires
        m.valid(),
        m.sinks.len() < 0x4000_0000,
    ensures
        m.add_sink().valid(),
        m.q.waits[node(K_SINK, m.sinks.len() as int)].len() == 0,
{
    let r = m.add_sink();
    let n = m.sinks.len() as int;
    assert forall|i: int| 0 <= i < r.sinks.len() implies (#[trigger] r.sinks[i]).ok() by {
        if i < n {
            assert(m.sinks[i].ok());
        }
    }
    lemma_grown(m, r);
    assert forall|x: u32|
        r.live(x) && #[trigger] r.engaged(x) && !Set::<u32>::empty().contains(
            x,
        ) implies r.q.holds(x) by {
        assert(m.live(x));
    }
    assert(!m.reachable(node(K_SINK, n)));
}

pub proof fn lemma_add_source(m: Model, item: u16, period: int, out: u32)
    requires
        m.valid(),
        m.sources.len() < 0x3fff_ffff,
        1 <= period <= 0xffff,
    ensures
        m.add_source(item, period, out).valid(),
        ({
            let c = SourceV { out, item, period, until: 0, blocked: false };
            let r = Model { sources: m.sources.push(c), ..m };
            let id = node(K_SRC, m.sources.len() as int);
            &&& r.valid_except(set![id])
            &&& r.live(id)
            &&& r.orderly()
            &&& !r.q.holds(id)
        }),
{
    let n = m.sources.len() as int;
    let c = SourceV { out, item, period, until: 0, blocked: false };
    let r = Model { sources: m.sources.push(c), ..m };
    let id = node(K_SRC, n);
    let ex = set![id];
    assert forall|i: int| 0 <= i < r.sources.len() implies (#[trigger] r.sources[i]).ok() by {
        if i < n {
            assert(m.sources[i].ok());
        }
    }
    lemma_grown(m, r);
    assert(!m.live(id));
    assert forall|x: u32|
        r.live(x) && #[trigger] r.engaged(x) && !ex.contains(x) implies r.q.holds(x) by {
        assert(m.live(x));
    }
    assert(r.valid_except(ex));
    lemma_orderly(r, ex);
    lemma_schedule(r, ex, id, m.now);
    assert(ex.remove(id) =~= Set::<u32>::empty());
}

pub proof fn lemma_set_belt_out(m: Model, i: int, out: u32)
    requires
        m.valid(),
        0 <= i < m.belts.len(),
    ensures
        m.set_belt_out(i, out).valid(),
{
    let r = m.set_belt_out(i, out);
    assert forall|j: int| 0 <= j < r.belts.len() implies (#[trigger] r.belts[j]).ok(r.now) by {
        assert(m.belts[j].ok(m.now));
        assert(r.belts[j].lead(m.now) == m.belts[j].lead(m.now));
    }
    assert forall|x: u32| #[trigger] r.q.holds(x) implies r.live(x) && r.engaged(x) && r.timely(x)
        && !Set::<u32>::empty().contains(x) by {
        assert(m.q.holds(x));
        assert(m.engaged(x));
    }
    assert forall|x: u32|
        r.live(x) && #[trigger] r.engaged(x) && !Set::<u32>::empty().contains(
            x,
        ) implies r.q.holds(x) by {
        assert(m.engaged(x));
    }
}

pub proof fn lemma_set_sink_open(m: Model, sink: u32, open: bool)
    requires
        m.valid(),
        idx(sink) < m.sinks.len(),
    ensures
        m.set_sink_open(sink, open).valid(),
        m.set_sink_open(sink, open).same_layout(m),
        ({
            let i = idx(sink);
            (Model {
                sinks: m.sinks.update(
                    i,
                    SinkV { open: if open { 1 } else { 0 }, ..m.sinks[i] },
                ),
                ..m
            }).valid()
        }),
{
    let i = idx(sink);
    let c = SinkV {
        open: if open {
            1
        } else {
            0
        },
        ..m.sinks[i]
    };
    let r = Model { sinks: m.sinks.update(i, c), ..m };
    assert forall|j: int| 0 <= j < r.sinks.len() implies (#[trigger] r.sinks[j]).ok() by {
        assert(m.sinks[j].ok());
    }
    assert forall|x: u32| #[trigger] r.q.holds(x) implies r.live(x) && r.engaged(x) && r.timely(x)
        && !Set::<u32>::empty().contains(x) by {
        assert(m.q.holds(x));
    }
    assert forall|x: u32|
        r.live(x) && #[trigger] r.engaged(x) && !Set::<u32>::empty().contains(
            x,
        ) implies r.q.holds(x) by {
        assert(m.engaged(x));
    }
    assert(r.valid());
    lemma_wake_model(r, Set::empty(), sink, m.now);
}

pub proof fn lemma_set_sort_events(m: Model, on: bool)
    requires
        m.valid(),
    ensures
        (Model { sort_events: on, ..m }).valid(),
{
    let r = Model { sort_events: on, ..m };
    assert forall|x: u32| #[trigger] r.q.holds(x) implies r.live(x) && r.engaged(x) && r.timely(x)
        && !Set::<u32>::empty().contains(x) by {
        assert(m.q.holds(x));
    }
    assert forall|x: u32|
        r.live(x) && #[trigger] r.engaged(x) && !Set::<u32>::empty().contains(
            x,
        ) implies r.q.holds(x) by {
        assert(m.engaged(x));
    }
}

} // verus!
