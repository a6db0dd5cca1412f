//! Promptness: what can be delivered is delivered, and nothing waits for a node that
//! could take what it has.

use vstd::prelude::*;

use crate::belts::{
    lemma_extent_bounds, lemma_extent_single, lemma_lead, lemma_lead_is, lemma_lead_set,
    lemma_with_item, lemma_without_first,
};
use crate::history::{law_histories_keep_order, Act};
use crate::ids::{idx, kind, node, K_BELT, K_MACH, K_SINK, K_SRC};
use crate::model::{extent, wrap, BeltV, MachineV, Model, Place, Queues, SinkV, SourceV};
use crate::queues::{lemma_wake, timer_place};
use crate::running::law_sure_to_run;
use crate::stages::{lemma_tick_stages, past_queues, taken};
use crate::ticks::{lemma_run, lemma_step};
use crate::valid::{
    lemma_change_belt, lemma_change_machine, lemma_change_source, lemma_empty, lemma_give,
    lemma_give_keeps_belt, lemma_give_keeps_product, lemma_hold, lemma_release, lemma_schedule,
    out_after_give,
};

verus! {

impl Model {
    /// The node `id` has found no room for what it has to deliver.
    pub open spec fn stuck(self, id: u32) -> bool {
        if kind(id) == K_BELT {
            self.belts[idx(id)].blocked
        } else if kind(id) == K_MACH {
            self.machines[idx(id)].has_out
        } else {
            self.sources[idx(id)].blocked
        }
    }

    /// `target` has no room for `item` until it makes progress.
    pub open spec fn refuses(self, target: u32, item: u16) -> bool {
        let i = idx(target);
        if kind(target) == K_BELT {
            self.belts[i].blocked && self.belts[i].runs.len() > 0 && extent(self.belts[i].runs)
                == self.belts[i].cap
        } else if kind(target) == K_MACH {
            self.machines[i].in_item != item || self.machines[i].have >= self.machines[i].need
        } else if kind(target) == K_SINK {
            self.sinks[i].open == 0
        } else {
            true
        }
    }

    /// `target` is a belt that moves on within its period, and if it has more than one
    /// cell, its last cell is taken until tick `when`.
    pub open spec fn full_until(self, target: u32, when: int) -> bool {
        let b = self.belts[idx(target)];
        &&& kind(target) == K_BELT
        &&& idx(target) < self.belts.len()
        &&& when <= self.now + b.period
        &&& when > self.now && b.cap >= 2 ==> {
            &&& b.runs.len() > 0
            &&& b.used(self.now) == b.cap
            &&& b.blocked || b.next_move(self.now) >= when
        }
    }

    /// The queued node `id` is queued where it has to be: it waits only for the node
    /// that it delivers to, and only if that has no room; it tries again when there is
    /// room; and a source whose last item found room has its timer for its next item.
    pub open spec fn fine(self, id: u32) -> bool {
        let b = self.belts[idx(id)];
        let c = self.sources[idx(id)];
        &&& kind(id) == K_SRC && c.blocked ==> c.until <= self.now
        &&& match self.q.place[id] {
            Place::Ready => {
                &&& kind(id) == K_BELT ==> b.blocked || b.due >= self.now
                &&& kind(id) == K_SRC ==> c.until <= self.now
            },
            Place::Waiting(t) => {
                &&& t == self.out_of(id)
                &&& self.reachable(t)
                &&& self.stuck(id)
                &&& self.refuses(t, self.item_of(id))
            },
            Place::Wheel(t) => {
                &&& self.stuck(id) ==> self.full_until(self.out_of(id), t)
                &&& kind(id) == K_SRC && !c.blocked ==> t == c.until
            },
            Place::Far(t) => {
                &&& self.stuck(id) ==> self.full_until(self.out_of(id), t)
                &&& kind(id) == K_SRC && !c.blocked ==> t == c.until
            },
        }
    }

    /// Every queued node is queued where it has to be.
    pub open spec fn prompt(self) -> bool {
        forall|id: u32| #[trigger] self.q.holds(id) ==> self.fine(id)
    }
}

// ------------------------------------------------------------------------ queues

/// Those that wait for `target` are woken.
proof fn lemma_wake_prompt(m: Model, target: u32, when: int)
    requires
        m.q.consistent(m.now),
        kind(target) != K_SRC,
        m.now <= when,
        forall|x: u32| #[trigger]
            m.q.holds(x) ==> if m.q.place[x] == Place::Waiting(target) {
                &&& m.stuck(x)
                &&& m.out_of(x) == target
                &&& kind(x) == K_SRC ==> m.sources[idx(x)].until <= m.now
                &&& when > m.now ==> m.full_until(target, when)
            } else {
                m.fine(x)
            },
    ensures
        m.wake(target, when).prompt(),
{
    lemma_wake(m.q, m.now, target, when);
    let r = m.wake(target, when);
    assert forall|x: u32| #[trigger] r.q.holds(x) implies r.fine(x) by {
        assert(m.q.holds(x));
        assert(m.q.at_home(m.now, x));
        assert(r.q.place[x] == (if m.q.waits[target].contains(x) {
            timer_place(m.now, when)
        } else {
            m.q.place[x]
        }));
        if m.q.waits[target].contains(x) {
            let k = choose|k: int| 0 <= k < m.q.waits[target].len() && m.q.waits[target][k] == x;
            assert(m.q.place[m.q.waits[target][k]] == Place::Waiting(target));
        } else {
            assert(m.q.place[x] != Place::Waiting(target));
            assert(m.fine(x));
        }
    }
}

proof fn lemma_schedule_prompt(m: Model, id: u32, when: int)
    requires
        m.prompt(),
        m.schedule(id, when).fine(id),
    ensures
        m.schedule(id, when).prompt(),
{
    let r = m.schedule(id, when);
    assert forall|x: u32| #[trigger] r.q.holds(x) implies r.fine(x) by {
        if x != id {
            assert(m.q.holds(x));
            assert(m.fine(x));
        }
    }
}

/// Machine `i` begins to work if it can.
proof fn lemma_start_prompt(m: Model, ex: Set<u32>, i: int)
    requires
        m.valid_except(ex),
        m.prompt(),
        0 <= i < m.machines.len(),
    ensures
        m.start(i).prompt(),
{
    let c = m.machines[i];
    let id = node(K_MACH, i);
    assert(c.ok());
    if m.starts(i) {
        let until = m.now + c.dur;
        assert(!m.engaged(id));
        assert(!m.q.holds(id));
        let c1 = MachineV { have: c.have - c.need, busy: true, until, ..c };
        lemma_hold(m, ex, id);
        let ex1 = ex.insert(id);
        lemma_change_machine(m, ex1, i, c1);
        let m1 = m.with_machine(i, c1);
        lemma_schedule(m1, ex1, id, until);
        let m2 = m1.schedule(id, until);
        assert forall|x: u32| #[trigger] m2.q.holds(x) implies if m2.q.place[x]
            == Place::Waiting(id) {
            &&& m2.stuck(x)
            &&& m2.out_of(x) == id
            &&& kind(x) == K_SRC ==> m2.sources[idx(x)].until <= m2.now
        } else {
            m2.fine(x)
        } by {
            if x != id {
                assert(m.q.holds(x));
                assert(m.fine(x));
                assert(m2.q.place[x] == m.q.place[x]);
                if kind(x) == K_MACH {
                    assert(idx(x) != i);
                }
            }
        }
        lemma_wake_prompt(m2, id, m.now);
    }
}

/// An item is given to a node that has room for it.
proof fn lemma_give_prompt(m: Model, ex: Set<u32>, target: u32, item: u16)
    requires
        m.valid_except(ex),
        m.prompt(),
        m.reachable(target),
        m.accepts(target, item),
        kind(target) == K_BELT && ex.contains(target) ==> m.belts[idx(target)].runs.len() > 0,
    ensures
        m.give(target, item).prompt(),
{
    let i = idx(target);
    if kind(target) == K_BELT {
        let b = m.belts[i];
        let b1 = b.with_item(item, m.now);
        assert(target == node(K_BELT, i));
        assert(b.ok(m.now));
        lemma_lead(b, m.now);
        lemma_with_item(b, item, m.now);
        let m1 = m.with_belt(i, b1);
        assert forall|x: u32| #[trigger] m1.q.holds(x) implies m1.fine(x) by {
            assert(m.q.holds(x));
            assert(m.fine(x));
            assert(m.engaged(x));
        }
        if b.runs.len() == 0 {
            assert(!m.engaged(target));
            lemma_schedule_prompt(m1, target, b1.due);
        }
    } else if kind(target) == K_MACH {
        let c = m.machines[i];
        let c1 = MachineV { have: c.have + 1, ..c };
        assert(c.ok());
        assert(target == node(K_MACH, i));
        let m1 = m.with_machine(i, c1);
        let ex1 = ex.insert(target);
        if c.have + 1 >= c.need && !c.busy && !c.has_out {
            lemma_hold(m, ex, target);
            lemma_change_machine(m, ex1, i, c1);
        } else {
            lemma_change_machine(m, ex, i, c1);
        }
        assert forall|x: u32| #[trigger] m1.q.holds(x) implies m1.fine(x) by {
            assert(m.q.holds(x));
            assert(m.fine(x));
        }
        if c.have + 1 >= c.need {
            if !c.busy && !c.has_out {
                lemma_start_prompt(m1, ex1, i);
            } else {
                lemma_start_prompt(m1, ex, i);
            }
        }
    } else {
        let r = m.give(target, item);
        assert forall|x: u32| #[trigger] r.q.holds(x) implies r.fine(x) by {
            assert(m.q.holds(x));
            assert(m.fine(x));
        }
    }
}

/// A node that found no room at the node that it delivers to.
proof fn lemma_block_prompt(m: Model, id: u32)
    requires
        m.valid_except(set![id]),
        m.prompt(),
        m.live(id),
        m.stuck(id),
        kind(id) == K_SRC ==> m.sources[idx(id)].until <= m.now,
        m.reachable(m.out_of(id)),
        !m.accepts(m.out_of(id), m.item_of(id)),
    ensures
        m.block(id, m.out_of(id)).prompt(),
{
    let target = m.out_of(id);
    let r = m.block(id, target);
    let b = m.belts[idx(target)];
    if kind(target) == K_BELT {
        assert(b.ok(m.now));
        lemma_lead(b, m.now);
        lemma_extent_bounds(b.runs);
        assert(b.used(m.now) == b.cap);
        assert(b.runs.len() > 0);
        if !b.blocked {
            assert(target != id);
            assert(m.engaged(target));
            assert(m.q.holds(target));
            assert(m.timely(target));
            assert(m.q.at_home(m.now, target));
            assert(m.fine(target));
            assert(b.due >= m.now);
            assert(m.now < b.next_move(m.now) <= m.now + b.period);
        }
    }
    assert forall|x: u32| #[trigger] r.q.holds(x) implies r.fine(x) by {
        if x != id {
            assert(m.q.holds(x));
            assert(m.fine(x));
        }
    }
}

// ------------------------------------------------------------------------ events

/// The first item of belt `i` has left it: what becomes of another node.
proof fn lemma_popped_fine(m: Model, i: int, x: u32)
    requires
        m.sizes_ok(),
        0 <= i < m.belts.len(),
        m.belts[i].ok(m.now),
        m.belts[i].runs.len() > 0,
        m.belts[i].lead(m.now) == 0,
        m.live(x),
        m.fine(x),
        x != node(K_BELT, i),
    ensures
        ({
            let id = node(K_BELT, i);
            let b = m.belts[i];
            let r = m.with_belt(i, b.without_first(m.now));
            if m.q.place[x] == Place::Waiting(id) {
                &&& r.stuck(x)
                &&& r.out_of(x) == id
                &&& kind(x) == K_SRC ==> r.sources[idx(x)].until <= r.now
                &&& r.full_until(id, m.now + b.period)
            } else {
                r.fine(x)
            }
        }),
{
    let id = node(K_BELT, i);
    let b = m.belts[i];
    let left = b.without_first(m.now);
    let r = m.with_belt(i, left);
    lemma_lead(b, m.now);
    lemma_without_first(b, m.now);
    lemma_lead(left, m.now);
    lemma_left(b, m.now);
    if kind(x) == K_BELT {
        assert(idx(x) != i);
    }
    match m.q.place[x] {
        Place::Waiting(t) => {
            if kind(t) == K_BELT && idx(t) == i {
                assert(t == id);
            }
        },
        Place::Wheel(t) => {
            if m.stuck(x) && idx(m.out_of(x)) == i {
                assert(m.full_until(m.out_of(x), t));
                assert(r.full_until(m.out_of(x), t));
            }
        },
        Place::Far(t) => {
            if m.stuck(x) && idx(m.out_of(x)) == i {
                assert(m.full_until(m.out_of(x), t));
                assert(r.full_until(m.out_of(x), t));
            }
        },
        Place::Ready => {},
    }
}

/// A node is queued where it has to be if it was and nothing but other nodes' places
/// has changed.
proof fn lemma_same_fine(m: Model, r: Model, x: u32)
    requires
        r == m.with_queues(r.q),
        r.q.place[x] == m.q.place[x],
    ensures
        m.fine(x) ==> r.fine(x),
        m.stuck(x) == r.stuck(x),
        m.out_of(x) == r.out_of(x),
        forall|t: u32, when: int| #[trigger]
            m.full_until(t, when) == #[trigger] r.full_until(t, when),
{
}

proof fn lemma_fire_belt_prompt(m: Model, i: int)
    requires
        0 <= i < m.belts.len(),
        m.valid_except(set![node(K_BELT, i)]),
        m.may_fire(node(K_BELT, i)),
        m.reachable(m.belts[i].out),
        m.prompt(),
    ensures
        m.fire_belt(i).prompt(),
{
    let b = m.belts[i];
    let id = node(K_BELT, i);
    let ex = set![id];
    let none = Set::<u32>::empty();
    assert(ex.remove(id) =~= none);
    assert(b.ok(m.now));
    lemma_lead(b, m.now);
    let item = b.runs[0].item;
    if m.accepts(b.out, item) {
        lemma_give(m, ex, b.out, item);
        lemma_give_prompt(m, ex, b.out, item);
        let m1 = m.give(b.out, item);
        assert(out_after_give(m, ex, b.out) =~= ex);
        lemma_give_keeps_belt(m, b.out, item, i);
        let b1 = m1.belts[i];
        let left = b1.without_first(m.now);
        assert(b1.ok(m.now));
        lemma_without_first(b1, m.now);
        lemma_change_belt(m1, ex, i, left);
        let m2 = m1.with_belt(i, left);
        assert(b1.period == b.period);
        let m3 = if left.runs.len() > 0 {
            m2.schedule(id, left.due)
        } else {
            m2
        };
        if left.runs.len() > 0 {
            lemma_schedule(m2, ex, id, left.due);
        } else {
            lemma_release(m2, ex, id);
        }
        let when = m.now + b.period;
        assert forall|x: u32| #[trigger] m3.q.holds(x) implies if m3.q.place[x]
            == Place::Waiting(id) {
            &&& m3.stuck(x)
            &&& m3.out_of(x) == id
            &&& kind(x) == K_SRC ==> m3.sources[idx(x)].until <= m3.now
            &&& when > m3.now ==> m3.full_until(id, when)
        } else {
            m3.fine(x)
        } by {
            if x != id {
                assert(m1.q.holds(x));
                assert(m1.fine(x));
                lemma_popped_fine(m1, i, x);
                lemma_same_fine(m2, m3, x);
            }
        }
        lemma_wake_prompt(m3, id, when);
    } else {
        let b1 = BeltV { blocked: true, due: m.now, ..b };
        lemma_lead(b1, m.now);
        lemma_change_belt(m, ex, i, b1);
        let m1 = m.with_belt(i, b1);
        assert forall|x: u32| #[trigger] m1.q.holds(x) implies m1.fine(x) by {
            assert(m.q.holds(x));
            assert(m.fine(x));
        }
        lemma_block_prompt(m1, id);
    }
}

/// When the first item has left a full belt of more than one cell, the others stay
/// where they are for one period.
proof fn lemma_left(b: BeltV, now: int)
    requires
        b.ok(now),
        b.runs.len() > 0,
        b.lead(now) == 0,
    ensures
        ({
            let left = b.without_first(now);
            &&& b.used(now) == b.cap && b.cap >= 2 ==> left.runs.len() > 0
            &&& left.runs.len() > 0 ==> left.next_move(now) == now + b.period
        }),
{
    let left = b.without_first(now);
    lemma_without_first(b, now);
    lemma_lead(left, now);
    assert(b.runs[0].count >= 1 && b.runs[0].gap == 0);
    if left.runs.len() == 0 {
        assert(b.runs =~= seq![b.runs[0]]);
        lemma_extent_single(b.runs[0]);
    } else {
        let n = if b.runs[0].count > 1 {
            1
        } else {
            b.runs[1].gap + 1
        };
        if b.runs.len() > 1 {
            assert(b.runs[1].gap >= 0);
        }
        lemma_lead_set(left, now, n);
    }
}

proof fn lemma_fire_machine_prompt(m: Model, i: int)
    requires
        0 <= i < m.machines.len(),
        m.valid_except(set![node(K_MACH, i)]),
        m.may_fire(node(K_MACH, i)),
        m.reachable(m.machines[i].out),
        m.prompt(),
    ensures
        m.fire_machine(i).prompt(),
{
    let c = m.machines[i];
    let id = node(K_MACH, i);
    let ex = set![id];
    assert(c.ok());
    if c.busy {
        let c1 = MachineV { busy: false, ..c };
        let m1 = m.with_machine(i, c1);
        lemma_change_machine(m, ex, i, c1);
        assert forall|x: u32| #[trigger] m1.q.holds(x) implies m1.fine(x) by {
            assert(m.q.holds(x));
            assert(m.fine(x));
        }
        if m1.accepts(c.out, c.out_item) {
            lemma_give(m1, ex, c.out, c.out_item);
            lemma_give_prompt(m1, ex, c.out, c.out_item);
            let m2 = m1.give(c.out, c.out_item);
            lemma_start_prompt(m2, out_after_give(m1, ex, c.out), i);
        } else {
            let c2 = MachineV { has_out: true, ..c1 };
            assert(m1.machines[i] == c1);
            lemma_change_machine(m1, ex, i, c2);
            let m2 = m1.with_machine(i, c2);
            assert forall|x: u32| #[trigger] m2.q.holds(x) implies m2.fine(x) by {
                assert(m1.q.holds(x));
                assert(m1.fine(x));
            }
            lemma_block_prompt(m2, id);
        }
    } else if m.accepts(c.out, c.out_item) {
        lemma_give(m, ex, c.out, c.out_item);
        lemma_give_prompt(m, ex, c.out, c.out_item);
        let m1 = m.give(c.out, c.out_item);
        assert(out_after_give(m, ex, c.out) =~= ex);
        lemma_give_keeps_product(m, c.out, c.out_item, i);
        let c2 = MachineV { has_out: false, ..m1.machines[i] };
        assert(m1.machines[i].ok());
        lemma_change_machine(m1, ex, i, c2);
        let m2 = m1.with_machine(i, c2);
        assert forall|x: u32| #[trigger] m2.q.holds(x) implies m2.fine(x) by {
            assert(m1.q.holds(x));
            assert(m1.fine(x));
        }
        lemma_start_prompt(m2, ex, i);
    } else {
        lemma_block_prompt(m, id);
    }
}

proof fn lemma_fire_source_prompt(m: Model, i: int)
    requires
        0 <= i < m.sources.len(),
        m.valid_except(set![node(K_SRC, i)]),
        m.may_fire(node(K_SRC, i)),
        m.reachable(m.sources[i].out),
        m.prompt(),
    ensures
        m.fire_source(i).prompt(),
{
    let c = m.sources[i];
    let id = node(K_SRC, i);
    let ex = set![id];
    assert(c.ok());
    if m.accepts(c.out, c.item) {
        let until = m.now + c.period;
        lemma_give(m, ex, c.out, c.item);
        lemma_give_prompt(m, ex, c.out, c.item);
        assert(out_after_give(m, ex, c.out) =~= ex);
        let m1 = m.give(c.out, c.item);
        assert(m1.sources == m.sources);
        let c1 = SourceV { blocked: false, until, ..c };
        let m2 = m1.with_source(i, c1);
        assert forall|x: u32| #[trigger] m2.q.holds(x) implies m2.fine(x) by {
            assert(m1.q.holds(x));
            assert(m1.fine(x));
        }
        lemma_schedule_prompt(m2, id, until);
    } else {
        let c1 = SourceV { blocked: true, ..c };
        lemma_change_source(m, ex, i, c1);
        let m1 = m.with_source(i, c1);
        assert forall|x: u32| #[trigger] m1.q.holds(x) implies m1.fine(x) by {
            assert(m.q.holds(x));
            assert(m.fine(x));
        }
        lemma_block_prompt(m1, id);
    }
}

proof fn lemma_fire_prompt(m: Model, id: u32)
    requires
        m.valid_except(set![id]),
        m.may_fire(id),
        m.reachable(m.out_of(id)),
        m.prompt(),
    ensures
        m.fire(id).prompt(),
{
    let m1 = Model { events: (m.events + 1) % wrap(), ..m };
    let i = idx(id);
    assert(m1.valid_except(set![id])) by {
        assert forall|x: u32| #[trigger] m1.q.holds(x) implies m1.live(x) && m1.engaged(x)
            && m1.timely(x) && !set![id].contains(x) by {
            assert(m.q.holds(x));
        }
        assert forall|x: u32|
            m1.live(x) && #[trigger] m1.engaged(x) && !set![id].contains(x) implies m1.q.holds(
            x,
        ) by {
            assert(m.engaged(x));
        }
    }
    assert forall|x: u32| #[trigger] m1.q.holds(x) implies m1.fine(x) by {
        assert(m.q.holds(x));
        assert(m.fine(x));
    }
    if kind(id) == K_BELT {
        assert(id == node(K_BELT, i));
        lemma_fire_belt_prompt(m1, i);
    } else if kind(id) == K_MACH {
        assert(id == node(K_MACH, i));
        lemma_fire_machine_prompt(m1, i);
    } else {
        assert(id == node(K_SRC, i));
        lemma_fire_source_prompt(m1, i);
    }
}

// ------------------------------------------------------------------------- ticks

/// A belt in motion that does not move before the tick after next stays as it is.
proof fn lemma_still(b: BeltV, now: int)
    requires
        b.period >= 1,
        b.due > now,
        b.next_move(now) > now + 1,
    ensures
        b.lead(now + 1) == b.lead(now),
        b.next_move(now + 1) == b.next_move(now),
{
    lemma_lead(b, now);
    let n = b.lead(now);
    let p = b.period;
    assert(n * p >= p) by (nonlinear_arith)
        requires
            n >= 1,
            p >= 1,
    ;
    lemma_lead_is(b, now + 1, n);
}

/// The clock moves on after all events of a tick.
proof fn lemma_clock_prompt(e: Model)
    requires
        e.valid(),
        e.prompt(),
        e.timers_done(),
        e.q.ready.len() == 0,
    ensures
        (Model { now: e.now + 1, ..e }).prompt(),
{
    let s = Model { now: e.now + 1, ..e };
    assert forall|x: u32| #[trigger] s.q.holds(x) implies s.fine(x) by {
        assert(e.q.holds(x));
        assert(e.fine(x));
        lemma_timer_left(e, x);
        match e.q.place[x] {
            Place::Wheel(t) => {
                if e.stuck(x) {
                    lemma_full_later(e, e.out_of(x), t);
                }
            },
            Place::Far(t) => {
                if e.stuck(x) {
                    lemma_full_later(e, e.out_of(x), t);
                }
            },
            _ => {},
        }
    }
}

/// After the events of a tick a queued node has a timer for a later tick or waits.
proof fn lemma_timer_left(e: Model, x: u32)
    requires
        e.valid(),
        e.timers_done(),
        e.q.ready.len() == 0,
        e.q.holds(x),
    ensures
        e.q.place[x] !is Ready,
        forall|t: int| #[trigger] e.q.timer(x, t) ==> t > e.now,
{
    assert(e.q.at_home(e.now, x));
    assert forall|t: int| #[trigger] e.q.timer(x, t) implies t > e.now by {
        if e.q.place[x] == Place::Far(t) && t <= e.now {
            assert(e.q.far.contains((t, x)));
            assert(e.far_due());
        }
    }
}

proof fn lemma_full_later(e: Model, target: u32, when: int)
    requires
        e.valid(),
        e.prompt(),
        e.timers_done(),
        e.q.ready.len() == 0,
        e.full_until(target, when),
        e.now < when,
    ensures
        (Model { now: e.now + 1, ..e }).full_until(target, when),
{
    let b = e.belts[idx(target)];
    assert(b.ok(e.now));
    lemma_lead(b, e.now);
    lemma_lead(b, e.now + 1);
    if when > e.now + 1 && b.cap >= 2 && !b.blocked {
        assert(e.live(target) && e.engaged(target));
        assert(e.q.holds(target));
        assert(e.timely(target));
        lemma_timer_left(e, target);
        assert(e.q.timer(target, b.due));
        lemma_still(b, e.now);
    }
}

spec fn prompt_kept(a: Model, b: Model) -> bool {
    a.prompt() ==> b.prompt()
}

proof fn lemma_events_prompt(m: Model)
    requires
        m.valid(),
        m.linked() || m.tick_fits(),
        m.prompt(),
    ensures
        m.events_done().prompt(),
{
    let rel = |a: Model, b: Model| prompt_kept(a, b);
    assert forall|a: Model, a1: Model, id: u32| #[trigger] taken(a, a1, id) implies rel(
        a,
        a1.fire(id),
    ) by {
        if a.prompt() {
            assert forall|x: u32| #[trigger] a1.q.holds(x) implies a1.fine(x) by {
                assert(a.q.holds(x));
                lemma_same_fine(a, a1, x);
            }
            lemma_fire_prompt(a1, id);
        }
    }
    assert(past_queues(rel)) by {
        assert forall|a: Model, q: Queues| q.place == a.q.place implies rel(
            a,
            #[trigger] a.with_queues(q),
        ) by {
            let b = a.with_queues(q);
            if a.prompt() {
                assert forall|x: u32| #[trigger] b.q.holds(x) implies b.fine(x) by {
                    assert(a.q.holds(x));
                    lemma_same_fine(a, b, x);
                }
            }
        }
    }
    lemma_tick_stages(m, rel);
    assert(prompt_kept(m, m.events_done()));
}

proof fn lemma_step_prompt(m: Model)
    requires
        m.valid(),
        m.linked() || m.tick_fits(),
        m.tick_ends(),
        m.prompt(),
    ensures
        m.step().prompt(),
{
    lemma_events_prompt(m);
    lemma_step(m);
    lemma_clock_prompt(m.events_done());
}

proof fn lemma_run_prompt(m: Model, n: nat)
    requires
        m.valid(),
        m.ticks_fit(n),
        m.prompt(),
    ensures
        m.run(n).prompt(),
    decreases n,
{
    if n > 0 {
        let k = (n - 1) as nat;
        lemma_run_prompt(m, k);
        lemma_run(m, k);
        assert(m.run(k).tick_fits());
        lemma_step_prompt(m.run(k));
    }
}

// --------------------------------------------------------------------- histories

impl Model {
    /// The act is one of those for which the laws of service hold: a gate is named by a
    /// sink's identifier, and no belt is made to deliver to another node while it is
    /// blocked.
    pub open spec fn sensible(self, a: Act) -> bool {
        match a {
            Act::Gate(sink, open) => kind(sink) == K_SINK,
            Act::BeltOut(belt, out) => !self.belts[idx(belt)].blocked,
            _ => true,
        }
    }

    /// Each act of the history is permitted and sensible when its turn comes.
    pub open spec fn sensible_all(self, acts: Seq<Act>) -> bool
        decreases acts.len(),
    {
        acts.len() > 0 ==> {
            let m = self.after(acts.drop_last());
            &&& self.sensible_all(acts.drop_last())
            &&& m.permits(acts.last())
            &&& m.sensible(acts.last())
        }
    }
}

proof fn lemma_sensible(m: Model, acts: Seq<Act>)
    requires
        m.sensible_all(acts),
    ensures
        m.permits_all(acts),
    decreases acts.len(),
{
    if acts.len() > 0 {
        lemma_sensible(m, acts.drop_last());
    }
}

/// What is permitted to run can handle each of its ticks.
proof fn lemma_can_run_fits(m: Model, n: nat)
    requires
        m.valid(),
        m.can_run(n),
    ensures
        m.ticks_fit(n),
{
    if m.sure_to_run(n) {
        law_sure_to_run(m, n, 0);
    }
}

proof fn lemma_act_prompt(m: Model, a: Act)
    requires
        m.valid(),
        m.prompt(),
        m.permits(a),
        m.sensible(a),
    ensures
        m.act(a).prompt(),
{
    let r = m.act(a);
    match a {
        Act::Run(n) => {
            lemma_can_run_fits(m, n);
            lemma_run_prompt(m, n);
        },
        Act::Gate(sink, open) => {
            lemma_gate_prompt(m, sink, open);
        },
        Act::AddSource(item, period, out) => {
            let n = m.sources.len() as int;
            let id = node(K_SRC, n);
            let m1 = Model { sources: r.sources, ..m };
            assert(!m.live(id));
            assert forall|x: u32| #[trigger] m1.q.holds(x) implies m1.fine(x) by {
                assert(m.q.holds(x));
                assert(m.fine(x));
                assert(m.live(x));
            }
            lemma_schedule_prompt(m1, id, m.now);
        },
        _ => {
            assert forall|x: u32| #[trigger] r.q.holds(x) implies r.fine(x) by {
                assert(m.q.holds(x));
                assert(m.fine(x));
                assert(m.live(x));
            }
        },
    }
}

/// Opening and closing a sink.
proof fn lemma_gate_prompt(m: Model, sink: u32, open: bool)
    requires
        m.valid(),
        m.prompt(),
        kind(sink) == K_SINK,
        idx(sink) < m.sinks.len(),
    ensures
        m.set_sink_open(sink, open).prompt(),
{
    let i = idx(sink);
    let m1 = Model {
        sinks: m.sinks.update(
            i,
            SinkV { open: if open { 1 } else { 0 }, ..m.sinks[i] },
        ),
        ..m
    };
    let was = m.sinks[i].open != 0;
    assert forall|x: u32| #[trigger] m1.q.holds(x) implies if m1.q.place[x] == Place::Waiting(
        sink,
    ) && open {
        &&& m1.stuck(x)
        &&& m1.out_of(x) == sink
        &&& kind(x) == K_SRC ==> m1.sources[idx(x)].until <= m1.now
    } else {
        m1.fine(x)
    } by {
        assert(m.q.holds(x));
        assert(m.fine(x));
        assert(m.live(x));
        if let Place::Waiting(t) = m.q.place[x] {
            if kind(t) == K_SINK && idx(t) == i {
                assert(t == sink);
            }
        }
    }
    if open && !was {
        lemma_wake_prompt(m1, sink, m.now);
    } else {
        assert forall|x: u32| #[trigger] m1.q.holds(x) implies m1.fine(x) by {
            assert(m.q.holds(x));
            assert(m.fine(x));
        }
    }
}

/// What holds after every sensible history.
proof fn lemma_acts_prompt(acts: Seq<Act>)
    requires
        Model::empty().sensible_all(acts),
    ensures
        Model::empty().after(acts).valid(),
        Model::empty().after(acts).prompt(),
    decreases acts.len(),
{
    lemma_empty();
    lemma_sensible(Model::empty(), acts);
    law_histories_keep_order(Model::empty(), acts);
    if acts.len() > 0 {
        let rest = acts.drop_last();
        lemma_acts_prompt(rest);
        lemma_act_prompt(Model::empty().after(rest), acts.last());
    }
}

// -------------------------------------------------------------------------- laws

/// No node ever waits for one that could take what it has: a node waits for a sink only
/// while that is closed, for a belt only while that is blocked and full, and for a
/// machine only while that has all the input that it needs, or takes other items.
pub proof fn law_waits_only_without_room(acts: Seq<Act>, id: u32, t: u32)
    requires
        Model::empty().sensible_all(acts),
        Model::empty().after(acts).q.holds(id),
        Model::empty().after(acts).q.place[id] == Place::Waiting(t),
    ensures
        ({
            let m = Model::empty().after(acts);
            &&& t == m.out_of(id)
            &&& kind(t) == K_SINK ==> m.sinks[idx(t)].open == 0
            &&& kind(t) == K_BELT ==> {
                let b = m.belts[idx(t)];
                b.blocked && b.runs.len() > 0 && b.due <= m.now && extent(b.runs) == b.cap
            }
            &&& kind(t) == K_MACH ==> {
                let c = m.machines[idx(t)];
                c.have == c.need || c.in_item != m.item_of(id)
            }
        }),
{
    lemma_acts_prompt(acts);
    let m = Model::empty().after(acts);
    assert(m.fine(id));
    if kind(t) == K_BELT {
        assert(m.belts[idx(t)].ok(m.now));
    } else if kind(t) == K_MACH {
        assert(m.machines[idx(t)].ok());
    }
}

/// What a node that still has something to deliver after the events of a tick has
/// found at the node that it delivers to.
proof fn lemma_held_back(acts: Seq<Act>, id: u32)
    requires
        Model::empty().sensible_all(acts),
        Model::empty().after(acts).can_run(1),
        ({
            let s = Model::empty().after(acts).step();
            &&& s.live(id)
            &&& s.engaged(id)
            &&& kind(id) == K_BELT ==> s.belts[idx(id)].due < s.now
            &&& kind(id) == K_MACH ==> s.machines[idx(id)].has_out
            &&& kind(id) == K_SRC ==> s.sources[idx(id)].until < s.now
        }),
    ensures
        ({
            let s = Model::empty().after(acts).step();
            let out = s.out_of(id);
            &&& kind(out) == K_SINK ==> s.sinks[idx(out)].open == 0
            &&& kind(out) == K_MACH ==> s.machines[idx(out)].have == s.machines[idx(out)].need
                || s.machines[idx(out)].in_item != s.item_of(id)
            &&& kind(out) == K_BELT && s.belts[idx(out)].cap >= 2 ==> s.belts[idx(out)].used(
                s.now - 1,
            ) == s.belts[idx(out)].cap
        }),
{
    lemma_acts_prompt(acts);
    let m = Model::empty().after(acts);
    lemma_can_run_fits(m, 1);
    assert(m.run(0).tick_fits());
    lemma_events_prompt(m);
    lemma_step(m);
    let e = m.events_done();
    let s = m.step();
    let out = e.out_of(id);
    assert(e.live(id) && e.engaged(id));
    assert(e.q.holds(id));
    assert(e.fine(id));
    assert(e.timely(id));
    lemma_timer_left(e, id);
    if kind(id) == K_BELT {
        let b = e.belts[idx(id)];
        if !b.blocked {
            assert(e.q.timer(id, b.due));
        }
    } else if kind(id) == K_SRC {
        let c = e.sources[idx(id)];
        if !c.blocked {
            assert(e.q.timer(id, c.until));
        }
    } else {
        assert(e.machines[idx(id)].ok());
    }
    assert(e.stuck(id));
    match e.q.place[id] {
        Place::Waiting(t) => {
            if kind(t) == K_BELT {
                let b = e.belts[idx(t)];
                assert(b.ok(e.now));
                lemma_lead(b, e.now);
            } else if kind(t) == K_MACH {
                assert(e.machines[idx(t)].ok());
            }
        },
        Place::Wheel(t) => {
            assert(e.q.timer(id, t));
        },
        Place::Far(t) => {
            assert(e.q.timer(id, t));
        },
        Place::Ready => {},
    }
}

/// A belt keeps its first item at the head over a tick only if there is no room for it
/// further on: what it delivers to is a closed sink, a machine that has all the input
/// that it needs or takes other items, or a belt whose last cell is taken. (A belt of
/// one cell that has just become empty takes its next item a period later.)
pub proof fn law_belts_deliver(acts: Seq<Act>, i: int)
    requires
        Model::empty().sensible_all(acts),
        Model::empty().after(acts).can_run(1),
        0 <= i < Model::empty().after(acts).step().belts.len(),
        Model::empty().after(acts).step().belts[i].runs.len() > 0,
        Model::empty().after(acts).step().belts[i].due < Model::empty().after(acts).step().now,
    ensures
        ({
            let s = Model::empty().after(acts).step();
            let out = s.belts[i].out;
            &&& kind(out) == K_SINK ==> s.sinks[idx(out)].open == 0
            &&& kind(out) == K_MACH ==> s.machines[idx(out)].have == s.machines[idx(out)].need
                || s.machines[idx(out)].in_item != s.belts[i].runs[0].item
            &&& kind(out) == K_BELT && s.belts[idx(out)].cap >= 2 ==> s.belts[idx(out)].used(
                s.now - 1,
            ) == s.belts[idx(out)].cap
        }),
{
    lemma_step_sizes(acts);
    lemma_held_back(acts, node(K_BELT, i));
}

/// A machine keeps its product over a tick only if there is no room for it further on.
pub proof fn law_machines_deliver(acts: Seq<Act>, i: int)
    requires
        Model::empty().sensible_all(acts),
        Model::empty().after(acts).can_run(1),
        0 <= i < Model::empty().after(acts).step().machines.len(),
        Model::empty().after(acts).step().machines[i].has_out,
    ensures
        ({
            let s = Model::empty().after(acts).step();
            let out = s.machines[i].out;
            &&& kind(out) == K_SINK ==> s.sinks[idx(out)].open == 0
            &&& kind(out) == K_MACH ==> s.machines[idx(out)].have == s.machines[idx(out)].need
                || s.machines[idx(out)].in_item != s.machines[i].out_item
            &&& kind(out) == K_BELT && s.belts[idx(out)].cap >= 2 ==> s.belts[idx(out)].used(
                s.now - 1,
            ) == s.belts[idx(out)].cap
        }),
{
    lemma_step_sizes(acts);
    lemma_held_back(acts, node(K_MACH, i));
}

/// A source whose time has come emits its item within that tick unless there is no room
/// for it further on.
pub proof fn law_sources_deliver(acts: Seq<Act>, i: int)
    requires
        Model::empty().sensible_all(acts),
        Model::empty().after(acts).can_run(1),
        0 <= i < Model::empty().after(acts).step().sources.len(),
        Model::empty().after(acts).step().sources[i].until < Model::empty().after(
            acts,
        ).step().now,
    ensures
        ({
            let s = Model::empty().after(acts).step();
            let out = s.sources[i].out;
            &&& kind(out) == K_SINK ==> s.sinks[idx(out)].open == 0
            &&& kind(out) == K_MACH ==> s.machines[idx(out)].have == s.machines[idx(out)].need
                || s.machines[idx(out)].in_item != s.sources[i].item
            &&& kind(out) == K_BELT && s.belts[idx(out)].cap >= 2 ==> s.belts[idx(out)].used(
                s.now - 1,
            ) == s.belts[idx(out)].cap
        }),
{
    lemma_step_sizes(acts);
    lemma_held_back(acts, node(K_SRC, i));
}

proof fn lemma_step_sizes(acts: Seq<Act>)
    requires
        Model::empty().sensible_all(acts),
        Model::empty().after(acts).can_run(1),
    ensures
        Model::empty().after(acts).step().valid(),
{
    lemma_acts_prompt(acts);
    let m = Model::empty().after(acts);
    lemma_can_run_fits(m, 1);
    assert(m.run(0).tick_fits());
    lemma_step(m);
}

/// A source whose last item found room has its timer for just the tick from which on it
/// may emit the next one. (A new source is handled within the current tick.)
pub proof fn law_source_timer(acts: Seq<Act>, i: int)
    requires
        Model::empty().sensible_all(acts),
        0 <= i < Model::empty().after(acts).sources.len(),
        !Model::empty().after(acts).sources[i].blocked,
    ensures
        ({
            let m = Model::empty().after(acts);
            let id = node(K_SRC, i);
            ||| m.q.timer(id, m.sources[i].until)
            ||| m.sources[i].until <= m.now && m.q.ready.contains(id)
        }),
{
    lemma_acts_prompt(acts);
    let m = Model::empty().after(acts);
    let id = node(K_SRC, i);
    assert(m.live(id) && m.engaged(id));
    assert(m.q.holds(id));
    assert(m.fine(id));
    assert(m.q.at_home(m.now, id));
}

} // verus!
