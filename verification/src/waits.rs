//! What nodes wait for, and that none is forgotten.

use vstd::prelude::*;

use crate::ids::{idx, kind, node, K_BELT, K_MACH, K_SRC};
use crate::model::{wrap, BeltV, MachineV, Model, Place, Queues, SourceV};
use crate::stages::{lemma_tick_stages, past_queues, taken};
use crate::ticks::{lemma_layout_transitive, lemma_run, lemma_step};
use crate::valid::lemma_fire;

verus! {

/// Every node that waits, waits for what `outs` says.
pub open spec fn wait_for(q: Queues, outs: spec_fn(u32) -> u32) -> bool {
    forall|id: u32| #[trigger]
        q.holds(id) && q.place[id] is Waiting ==> q.place[id] == Place::Waiting(outs(id))
}

impl Model {
    /// Every node that waits, waits for the node that it delivers to.
    pub open spec fn waits_for_outs(self) -> bool {
        wait_for(self.q, |id: u32| self.out_of(id))
    }

    /// The node `id` waits.
    pub open spec fn waiting(self, id: u32) -> bool {
        self.q.holds(id) && self.q.place[id] is Waiting
    }
}

// ------------------------------------------------------------------------ queues

proof fn lemma_wake_waits(
    q: Queues,
    now: int,
    target: u32,
    when: int,
    outs: spec_fn(u32) -> u32,
)
    requires
        wait_for(q, outs),
    ensures
        wait_for(q.wake(now, target, when), outs),
    decreases q.waits[target].len(),
{
    if q.waits[target].len() > 0 {
        let u = q.unpark(target);
        let id = q.waits[target][0];
        let e = u.enqueue(now, id, when);
        assert forall|x: u32| #[trigger] e.holds(x) && e.place[x] is Waiting implies e.place[x]
            == Place::Waiting(outs(x)) by {
            assert(q.holds(x));
        }
        lemma_wake_waits(e, now, target, when, outs);
    }
}

pub proof fn lemma_schedule_waits(m: Model, id: u32, when: int, outs: spec_fn(u32) -> u32)
    requires
        wait_for(m.q, outs),
    ensures
        wait_for(m.schedule(id, when).q, outs),
{
    let q = m.schedule(id, when).q;
    assert forall|x: u32| #[trigger] q.holds(x) && q.place[x] is Waiting implies q.place[x]
        == Place::Waiting(outs(x)) by {
        assert(m.q.holds(x));
    }
}

proof fn lemma_start_waits(m: Model, i: int, outs: spec_fn(u32) -> u32)
    requires
        wait_for(m.q, outs),
    ensures
        wait_for(m.start(i).q, outs),
{
    if m.starts(i) {
        let c = m.machines[i];
        let id = node(K_MACH, i);
        lemma_schedule_waits(m, id, m.now + c.dur, outs);
        lemma_wake_waits(m.schedule(id, m.now + c.dur).q, m.now, id, m.now, outs);
    }
}

proof fn lemma_give_waits(m: Model, target: u32, item: u16, outs: spec_fn(u32) -> u32)
    requires
        wait_for(m.q, outs),
    ensures
        wait_for(m.give(target, item).q, outs),
{
    let i = idx(target);
    if kind(target) == K_BELT {
        let b = m.belts[i].with_item(item, m.now);
        lemma_schedule_waits(m.with_belt(i, b), target, b.due, outs);
    } else if kind(target) == K_MACH {
        let c = m.machines[i];
        lemma_start_waits(
            m.with_machine(i, MachineV { have: c.have + 1, ..c }),
            i,
            outs,
        );
    }
}

proof fn lemma_block_waits(m: Model, id: u32, target: u32, outs: spec_fn(u32) -> u32)
    requires
        wait_for(m.q, outs),
        outs(id) == target,
    ensures
        wait_for(m.block(id, target).q, outs),
{
    let q = m.block(id, target).q;
    assert forall|x: u32| #[trigger] q.holds(x) && q.place[x] is Waiting implies q.place[x]
        == Place::Waiting(outs(x)) by {
        if x != id {
            assert(m.q.holds(x));
        }
    }
}

// ------------------------------------------------------------------------ events

proof fn lemma_fire_waits(m: Model, id: u32, outs: spec_fn(u32) -> u32)
    requires
        m.live(id),
        wait_for(m.q, outs),
        outs(id) == m.out_of(id),
    ensures
        wait_for(m.fire(id).q, outs),
{
    let m0 = Model { events: (m.events + 1) % wrap(), ..m };
    let i = idx(id);
    if kind(id) == K_BELT {
        let b = m.belts[i];
        assert(id == node(K_BELT, i));
        if b.runs.len() == 0 {
        } else if b.lead(m.now) > 0 {
            lemma_schedule_waits(m0, id, b.due, outs);
        } else if m0.accepts(b.out, b.runs[0].item) {
            lemma_give_waits(m0, b.out, b.runs[0].item, outs);
            let m1 = m0.give(b.out, b.runs[0].item);
            let left = m1.belts[i].without_first(m.now);
            let m2 = m1.with_belt(i, left);
            lemma_schedule_waits(m2, id, left.due, outs);
            let m3 = if left.runs.len() > 0 {
                m2.schedule(id, left.due)
            } else {
                m2
            };
            lemma_wake_waits(m3.q, m3.now, id, m.now + b.period, outs);
        } else {
            let b1 = BeltV { blocked: true, due: m.now, ..b };
            lemma_block_waits(m0.with_belt(i, b1), id, b.out, outs);
        }
    } else if kind(id) == K_MACH {
        let c = m.machines[i];
        assert(id == node(K_MACH, i));
        if c.busy {
            let m1 = m0.with_machine(i, MachineV { busy: false, ..c });
            if m1.accepts(c.out, c.out_item) {
                lemma_give_waits(m1, c.out, c.out_item, outs);
                lemma_start_waits(m1.give(c.out, c.out_item), i, outs);
            } else {
                let c1 = MachineV { has_out: true, ..m1.machines[i] };
                lemma_block_waits(m1.with_machine(i, c1), id, c.out, outs);
            }
        } else if c.has_out {
            if m0.accepts(c.out, c.out_item) {
                lemma_give_waits(m0, c.out, c.out_item, outs);
                let m1 = m0.give(c.out, c.out_item);
                let c1 = MachineV { has_out: false, ..m1.machines[i] };
                lemma_start_waits(m1.with_machine(i, c1), i, outs);
            } else {
                lemma_block_waits(m0, id, c.out, outs);
            }
        } else {
            lemma_start_waits(m0, i, outs);
        }
    } else {
        let c = m.sources[i];
        assert(id == node(K_SRC, i));
        if m0.accepts(c.out, c.item) {
            let until = m.now + c.period;
            lemma_give_waits(m0, c.out, c.item, outs);
            let c1 = SourceV { blocked: false, until, ..c };
            lemma_schedule_waits(m0.give(c.out, c.item).with_source(i, c1), id, until, outs);
        } else {
            let c1 = SourceV { blocked: true, ..c };
            lemma_block_waits(m0.with_source(i, c1), id, c.out, outs);
        }
    }
}

/// What nodes wait for goes by the queues and the layout.
pub proof fn lemma_same_outs(m: Model, r: Model)
    requires
        m.valid(),
        wait_for(r.q, |id: u32| m.out_of(id)),
        forall|id: u32| #[trigger] r.q.holds(id) ==> r.out_of(id) == m.out_of(id),
    ensures
        r.waits_for_outs(),
{
    assert forall|x: u32| #[trigger] r.q.holds(x) && r.q.place[x] is Waiting implies r.q.place[x]
        == Place::Waiting(r.out_of(x)) by {}
}

spec fn waits_kept(a: Model, b: Model) -> bool {
    b.same_layout(a) && (a.waits_for_outs() ==> b.waits_for_outs())
}

proof fn lemma_tick_waits(m: Model)
    requires
        m.valid(),
        m.linked() || m.tick_fits(),
        m.waits_for_outs(),
    ensures
        m.step().waits_for_outs(),
{
    let rel = |a: Model, b: Model| waits_kept(a, b);
    assert forall|a: Model, a1: Model, id: u32| #[trigger] taken(a, a1, id) implies rel(
        a,
        a1.fire(id),
    ) by {
        let b = a1.fire(id);
        lemma_fire(a1, id);
        lemma_layout_transitive(b, a1, a);
        if a.waits_for_outs() {
            let outs = |x: u32| a.out_of(x);
            assert forall|x: u32| #[trigger]
                a1.q.holds(x) && a1.q.place[x] is Waiting implies a1.q.place[x] == Place::Waiting(
                outs(x),
            ) by {
                assert(a.q.holds(x));
            }
            lemma_fire_waits(a1, id, outs);
            assert forall|x: u32| #[trigger] b.q.holds(x) implies b.out_of(x) == a.out_of(x) by {
                assert(b.live(x));
            }
            lemma_same_outs(a, b);
        }
    }
    assert forall|a: Model, b: Model, c: Model| #[trigger] rel(a, b) && #[trigger] rel(
        b,
        c,
    ) implies rel(a, c) by {
        lemma_layout_transitive(c, b, a);
    }
    assert(past_queues(rel)) by {
        assert forall|a: Model, q: Queues| q.place == a.q.place implies rel(
            a,
            #[trigger] a.with_queues(q),
        ) by {
            let b = a.with_queues(q);
            if a.waits_for_outs() {
                assert forall|x: u32| #[trigger]
                    b.q.holds(x) && b.q.place[x] is Waiting implies b.q.place[x] == Place::Waiting(
                    b.out_of(x),
                ) by {
                    assert(a.q.holds(x));
                }
            }
        }
    }
    lemma_tick_stages(m, rel);
    let e = m.events_done();
    assert(waits_kept(m, e));
    let s = m.step();
    assert forall|x: u32| #[trigger] s.q.holds(x) && s.q.place[x] is Waiting implies s.q.place[x]
        == Place::Waiting(s.out_of(x)) by {
        assert(e.q.holds(x));
    }
}

/// Opening and closing a sink.
pub proof fn lemma_gate_waits(m: Model, sink: u32, open: bool)
    requires
        m.waits_for_outs(),
    ensures
        m.set_sink_open(sink, open).waits_for_outs(),
{
    let r = m.set_sink_open(sink, open);
    let outs = |id: u32| m.out_of(id);
    lemma_wake_waits(m.q, m.now, sink, m.now, outs);
    assert forall|x: u32| #[trigger] r.q.holds(x) && r.q.place[x] is Waiting implies r.q.place[x]
        == Place::Waiting(r.out_of(x)) by {
        assert(r.out_of(x) == outs(x));
    }
}

// ------------------------------------------------------------------------- laws

/// While a factory runs, whatever waits, waits for the node that it delivers to. So
/// a node waits for one that takes nothing only if it is to deliver to it.
pub proof fn law_waits_for_its_out(m: Model, n: nat, id: u32)
    requires
        m.valid(),
        m.linked() || m.ticks_fit(n),
        m.waits_for_outs(),
    ensures
        m.run(n).waits_for_outs(),
        m.run(n).waiting(id) ==> m.run(n).q.place[id] == Place::Waiting(m.out_of(id)),
    decreases n,
{
    lemma_run(m, n);
    if n > 0 {
        let k = (n - 1) as nat;
        law_waits_for_its_out(m, k, id);
        lemma_run(m, k);
        if !m.linked() {
            assert(m.run(k).tick_fits());
        }
        lemma_tick_waits(m.run(k));
    }
    let r = m.run(n);
    if r.waiting(id) {
        assert(r.live(id));
        assert(r.out_of(id) == m.out_of(id));
    }
}

/// A tick loses no node: after it nothing of it is left to be done, and every node
/// that has something to do either has a timer, for the next tick or later, or
/// waits for another node. It is then on that node's list, from which the node
/// wakes it, unless that node is of the kind that takes nothing.
pub proof fn law_no_node_is_lost(m: Model, id: u32)
    requires
        m.valid(),
        m.linked() || m.tick_fits(),
        m.tick_ends(),
    ensures
        m.step().q.ready.len() == 0,
        ({
            let s = m.step();
            s.live(id) && s.engaged(id) ==> {
                ||| exists|t: int| t > m.now && #[trigger] s.q.timer(id, t)
                ||| s.q.place[id] is Waiting && (kind(s.q.place[id]->Waiting_0) == K_SRC
                    || s.q.waits[s.q.place[id]->Waiting_0].contains(id))
            }
        }),
{
    lemma_step(m);
    let s = m.step();
    if s.live(id) && s.engaged(id) {
        assert(s.q.holds(id));
        assert(s.q.at_home(s.now, id));
        match s.q.place[id] {
            Place::Wheel(t) => {
                assert(s.q.timer(id, t));
            },
            Place::Far(t) => {
                assert(s.q.timer(id, t));
            },
            Place::Waiting(t) => {},
            Place::Ready => {
                assert(s.q.ready.contains(id));
            },
        }
    }
}

} // verus!
