//! Where nodes are put in the queues: ahead of what is there, or behind it, by when they
//! were put there.

use vstd::prelude::*;

use crate::ids::{idx, kind, node, K_BELT, K_MACH, K_SRC};
use crate::model::{wrap, BeltV, MachineV, Model, Place, Queues, SourceV, SLOTS};
use crate::stages::{lemma_tick_stages, past_queues, taken};

verus! {

impl Queues {
    /// Queues after more nodes were put in them: what was there stands where it stood,
    /// on the wheel behind what came later, among the ready nodes ahead of it, and no far
    /// timer was set for a tick that the wheel reaches.
    pub open spec fn builds_on(self, pre: Queues, now: int) -> bool {
        &&& self.wheel.len() == pre.wheel.len()
        &&& forall|s: int|
            0 <= s < pre.wheel.len() ==> (#[trigger] pre.wheel[s]).is_suffix_of(self.wheel[s])
        &&& pre.ready.is_prefix_of(self.ready)
        &&& forall|p: (int, u32)| #[trigger]
            self.far.contains(p) && p.0 - now < SLOTS ==> pre.far.contains(p)
    }
}

/// A node is put where its tick says: behind all ready nodes if the tick has come, first
/// in its wheel slot if it comes within one turn of the wheel, else among the far timers.
/// All other queues stay as they are.
pub proof fn law_place_of_timers(m: Model, id: u32, when: int)
    requires
        m.q.wheel.len() == 0x1_0000,
    ensures
        ({
            let r = m.schedule(id, when);
            let s = when % 0x1_0000;
            &&& m.now >= when ==> {
                &&& r.q.ready == m.q.ready.push(id)
                &&& r.q.place[id] == Place::Ready
            }
            &&& m.now < when ==> r.q.ready == m.q.ready
            &&& m.now < when < m.now + 0x1_0000 ==> {
                &&& r.q.wheel[s] == seq![id] + m.q.wheel[s]
                &&& r.q.place[id] == Place::Wheel(when)
                &&& forall|k: int|
                    0 <= k < 0x1_0000 && k != s ==> #[trigger] r.q.wheel[k] == m.q.wheel[k]
            }
            &&& !(m.now < when < m.now + 0x1_0000) ==> r.q.wheel == m.q.wheel
            &&& m.now + 0x1_0000 <= when ==> {
                &&& r.q.far == m.q.far.insert((when, id))
                &&& r.q.place[id] == Place::Far(when)
            }
            &&& m.now + 0x1_0000 > when ==> r.q.far == m.q.far
            &&& r.q.waits == m.q.waits
            &&& forall|x: u32| x != id && m.q.holds(x) ==> #[trigger] r.q.place[x]
                == m.q.place[x]
        }),
{
}

// ------------------------------------------------------------------------- queues

proof fn lemma_builds_self(q: Queues, now: int)
    ensures
        q.builds_on(q, now),
{
    assert forall|s: int| 0 <= s < q.wheel.len() implies (#[trigger] q.wheel[s]).is_suffix_of(
        q.wheel[s],
    ) by {}
}

/// The end of the end of a list is one of its ends.
proof fn lemma_suffixes(x: Seq<u32>, y: Seq<u32>, z: Seq<u32>)
    requires
        x.is_suffix_of(y),
        y.is_suffix_of(z),
    ensures
        x.is_suffix_of(z),
{
    assert forall|k: int| 0 <= k < x.len() implies x[k] == z[z.len() - x.len() + k] by {
        assert(x[k] == y.subrange(y.len() - x.len(), y.len() as int)[k]);
        assert(y[y.len() - x.len() + k] == z.subrange(
            z.len() - y.len(),
            z.len() as int,
        )[y.len() - x.len() + k]);
    }
    assert(x =~= z.subrange(z.len() - x.len(), z.len() as int));
}

proof fn lemma_builds_on(a: Queues, b: Queues, c: Queues, now: int)
    requires
        b.builds_on(a, now),
        c.builds_on(b, now),
    ensures
        c.builds_on(a, now),
{
    assert forall|s: int| 0 <= s < a.wheel.len() implies (#[trigger] a.wheel[s]).is_suffix_of(
        c.wheel[s],
    ) by {
        lemma_suffixes(a.wheel[s], b.wheel[s], c.wheel[s]);
    }
    let x = a.ready;
    let z = c.ready;
    assert forall|k: int| 0 <= k < x.len() implies x[k] == z[k] by {
        assert(x[k] == b.ready.subrange(0, x.len() as int)[k]);
        assert(b.ready[k] == z.subrange(0, b.ready.len() as int)[k]);
    }
    assert(x =~= z.subrange(0, x.len() as int));
}

proof fn lemma_enqueue_builds(q: Queues, now: int, id: u32, when: int)
    requires
        q.wheel.len() == SLOTS,
    ensures
        q.enqueue(now, id, when).builds_on(q, now),
{
    let r = q.enqueue(now, id, when);
    assert forall|s: int| 0 <= s < q.wheel.len() implies (#[trigger] q.wheel[s]).is_suffix_of(
        r.wheel[s],
    ) by {}
}

proof fn lemma_wake_builds(q: Queues, now: int, target: u32, when: int)
    requires
        q.wheel.len() == SLOTS,
    ensures
        q.wake(now, target, when).builds_on(q, now),
    decreases q.waits[target].len(),
{
    lemma_builds_self(q, now);
    if q.waits[target].len() > 0 {
        let u = q.unpark(target);
        let e = u.enqueue(now, q.waits[target][0], when);
        lemma_enqueue_builds(u, now, q.waits[target][0], when);
        assert(e.builds_on(q, now));
        lemma_wake_builds(e, now, target, when);
        lemma_builds_on(q, e, q.wake(now, target, when), now);
    }
}

// ------------------------------------------------------------------------- events

proof fn lemma_start_builds(m: Model, i: int)
    requires
        m.q.wheel.len() == SLOTS,
    ensures
        m.start(i).q.builds_on(m.q, m.now),
        m.start(i).now == m.now,
{
    lemma_builds_self(m.q, m.now);
    let c = m.machines[i];
    let id = node(K_MACH, i);
    if m.starts(i) {
        let e = m.q.enqueue(m.now, id, m.now + c.dur);
        lemma_enqueue_builds(m.q, m.now, id, m.now + c.dur);
        lemma_wake_builds(e, m.now, id, m.now);
        lemma_builds_on(m.q, e, e.wake(m.now, id, m.now), m.now);
    }
}

proof fn lemma_give_builds(m: Model, target: u32, item: u16)
    requires
        m.q.wheel.len() == SLOTS,
    ensures
        m.give(target, item).q.builds_on(m.q, m.now),
        m.give(target, item).now == m.now,
{
    lemma_builds_self(m.q, m.now);
    let i = idx(target);
    if kind(target) == K_BELT {
        lemma_enqueue_builds(m.q, m.now, target, m.belts[i].with_item(item, m.now).due);
    } else if kind(target) == K_MACH {
        let c = m.machines[i];
        lemma_start_builds(m.with_machine(i, MachineV { have: c.have + 1, ..c }), i);
    }
}

proof fn lemma_block_builds(m: Model, id: u32, target: u32)
    requires
        m.q.wheel.len() == SLOTS,
    ensures
        m.block(id, target).q.builds_on(m.q, m.now),
        m.block(id, target).now == m.now,
{
    lemma_builds_self(m.q, m.now);
    let next = m.belts[idx(target)].next_move(m.now);
    lemma_enqueue_builds(
        m.q,
        m.now,
        id,
        if next > m.now + 1 {
            next
        } else {
            m.now + 1
        },
    );
}

proof fn lemma_belt_builds(m: Model, i: int)
    requires
        m.q.wheel.len() == SLOTS,
    ensures
        m.fire_belt(i).q.builds_on(m.q, m.now),
        m.fire_belt(i).now == m.now,
{
    let b = m.belts[i];
    let id = node(K_BELT, i);
    lemma_builds_self(m.q, m.now);
    lemma_enqueue_builds(m.q, m.now, id, b.due);
    if b.runs.len() > 0 && b.lead(m.now) <= 0 {
        if m.accepts(b.out, b.runs[0].item) {
            let m1 = m.give(b.out, b.runs[0].item);
            lemma_give_builds(m, b.out, b.runs[0].item);
            let left = m1.belts[i].without_first(m.now);
            let m2 = m1.with_belt(i, left);
            let m3 = if left.runs.len() > 0 {
                m2.schedule(id, left.due)
            } else {
                m2
            };
            lemma_builds_self(m2.q, m.now);
            lemma_enqueue_builds(m2.q, m.now, id, left.due);
            lemma_builds_on(m.q, m2.q, m3.q, m.now);
            lemma_wake_builds(m3.q, m.now, id, m.now + b.period);
            lemma_builds_on(m.q, m3.q, m3.wake(id, m.now + b.period).q, m.now);
        } else {
            lemma_block_builds(m.with_belt(i, BeltV { blocked: true, due: m.now, ..b }), id, b.out);
        }
    }
}

proof fn lemma_machine_builds(m: Model, i: int)
    requires
        m.q.wheel.len() == SLOTS,
    ensures
        m.fire_machine(i).q.builds_on(m.q, m.now),
        m.fire_machine(i).now == m.now,
{
    let c = m.machines[i];
    let id = node(K_MACH, i);
    lemma_builds_self(m.q, m.now);
    lemma_start_builds(m, i);
    let m0 = if c.busy {
        m.with_machine(i, MachineV { busy: false, ..c })
    } else {
        m
    };
    let g = m0.give(c.out, c.out_item);
    lemma_give_builds(m0, c.out, c.out_item);
    let m1 = if c.busy {
        g
    } else {
        g.with_machine(i, MachineV { has_out: false, ..g.machines[i] })
    };
    lemma_start_builds(m1, i);
    lemma_builds_on(m.q, g.q, m1.start(i).q, m.now);
    lemma_block_builds(
        m0.with_machine(i, MachineV { has_out: true, ..m0.machines[i] }),
        id,
        c.out,
    );
    lemma_block_builds(m, id, c.out);
}

proof fn lemma_source_builds(m: Model, i: int)
    requires
        m.q.wheel.len() == SLOTS,
    ensures
        m.fire_source(i).q.builds_on(m.q, m.now),
        m.fire_source(i).now == m.now,
{
    let c = m.sources[i];
    let id = node(K_SRC, i);
    let g = m.give(c.out, c.item);
    lemma_give_builds(m, c.out, c.item);
    lemma_enqueue_builds(g.q, m.now, id, m.now + c.period);
    lemma_builds_on(m.q, g.q, g.q.enqueue(m.now, id, m.now + c.period), m.now);
    lemma_block_builds(m.with_source(i, SourceV { blocked: true, ..c }), id, c.out);
}

/// When a node is handled, what is in the queues stays there in its order, except for
/// those that wait. Nodes that become ready are put behind the others, and those that
/// get a timer ahead of the others of their slot. Only timers that the wheel does not
/// reach are put among the far ones.
pub proof fn law_events_build_queues(m: Model, id: u32)
    requires
        m.q.wheel.len() == SLOTS,
    ensures
        m.fire(id).q.builds_on(m.q, m.now),
        m.fire(id).now == m.now,
{
    let m0 = Model { events: (m.events + 1) % wrap(), ..m };
    lemma_builds_self(m.q, m.now);
    if kind(id) == K_BELT {
        lemma_belt_builds(m0, idx(id));
    } else if kind(id) == K_MACH {
        lemma_machine_builds(m0, idx(id));
    } else if kind(id) == K_SRC {
        lemma_source_builds(m0, idx(id));
    }
}

// -------------------------------------------------------------------------- ticks

/// Later in the same tick.
spec fn later(a: Model, b: Model) -> bool {
    a.q.wheel.len() == SLOTS ==> {
        &&& b.now == a.now
        &&& b.q.wheel.len() == SLOTS
        &&& forall|s: int|
            0 <= s < SLOTS && s != a.slot() ==> (#[trigger] a.q.wheel[s]).is_suffix_of(
                b.q.wheel[s],
            )
        &&& forall|p: (int, u32)| #[trigger]
            b.q.far.contains(p) && p.0 - a.now < SLOTS ==> a.q.far.contains(p)
    }
}

proof fn lemma_later(a: Model, b: Model, c: Model)
    requires
        later(a, b),
        later(b, c),
    ensures
        later(a, c),
{
    if a.q.wheel.len() == SLOTS {
        assert forall|s: int| 0 <= s < SLOTS && s != a.slot() implies (
        #[trigger] a.q.wheel[s]).is_suffix_of(c.q.wheel[s]) by {
            lemma_suffixes(a.q.wheel[s], b.q.wheel[s], c.q.wheel[s]);
        }
    }
}

/// A tick leaves the timers of other ticks in their order on the wheel and puts new ones
/// ahead of them. A timer that it sets is on the wheel unless it is at least one turn of
/// the wheel ahead.
pub proof fn law_ticks_build_queues(m: Model, s: int, p: (int, u32))
    requires
        m.valid(),
        m.linked() || m.tick_fits(),
        m.tick_ends(),
    ensures
        0 <= s < 0x1_0000 && s != m.now % 0x1_0000 ==> exists|ahead: Seq<u32>|
            m.step().q.wheel[s] == #[trigger] (ahead + m.q.wheel[s]),
        m.step().q.far.contains(p) && p.0 - m.now < 0x1_0000 ==> m.q.far.contains(p),
{
    let rel = |a: Model, b: Model| later(a, b);
    assert forall|a: Model, a1: Model, id: u32| #[trigger] taken(a, a1, id) implies rel(
        a,
        a1.fire(id),
    ) by {
        law_events_build_queues(a1, id);
        let r = a1.fire(id);
        assert forall|k: int| 0 <= k < SLOTS && k != a.slot() implies (
        #[trigger] a.q.wheel[k]).is_suffix_of(r.q.wheel[k]) by {
            assert(a1.q.wheel[k] == a.q.wheel[k]);
        }
    }
    assert forall|a: Model, b: Model, c: Model| #[trigger]
        rel(a, b) && #[trigger] rel(b, c) implies rel(a, c) by {
        lemma_later(a, b, c);
    }
    assert(past_queues(rel));
    lemma_tick_stages(m, rel);
    let r = m.step();
    assert(rel(m, m.events_done()));
    if 0 <= s < SLOTS && s != m.slot() {
        let x = m.q.wheel[s];
        let y = r.q.wheel[s];
        assert(x.is_suffix_of(y));
        let ahead = y.subrange(0, y.len() - x.len());
        assert forall|k: int| 0 <= k < x.len() implies x[k] == y[y.len() - x.len() + k] by {
            assert(x[k] == y.subrange(y.len() - x.len(), y.len() as int)[k]);
        }
        assert(y =~= ahead + x);
    }
}

} // verus!
