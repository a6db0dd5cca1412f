//! How long a factory can run.

use vstd::prelude::*;

use crate::balance::{
    lemma_belt_items, lemma_machine_items, lemma_source_items, lemma_start_items,
};
use crate::belts::{
    lemma_extent_bounds, lemma_items_fit, lemma_lead, lemma_with_item, lemma_without_first,
};
use crate::ids::{idx, kind, K_BELT, K_MACH};
use crate::model::{item_count, wrap, BeltV, MachineV, Model, SourceV};
use crate::rest::{law_asleep_is_free, lemma_idle_tick};
use crate::seqs::{lemma_tally_at_most, lemma_tally_nonneg};
use crate::settle::{law_tick_ends, lemma_give_nodes};
use crate::ticks::{
    law_run_splits, lemma_drain_far, lemma_far_once, lemma_first_due, lemma_ready_once,
    lemma_reorder, lemma_same_layout, lemma_slot_once, lemma_step, lemma_timers,
};
use crate::valid::{
    lemma_give_keeps_belt, lemma_give_keeps_product, lemma_next_far, lemma_next_ready,
    lemma_next_slot, lemma_reaches,
};

verus! {

impl Model {
    /// Number of items that have not been received by a sink: on belts, in
    /// machines, and about to be emitted by sources.
    pub open spec fn crowd(self) -> int {
        self.items_on_belts() + self.items_in_machines() + self.items_at_sources()
    }

    /// The layout, the items and the clock alone tell that the factory can run
    /// for `n` ticks: every node delivers to a node that is there, runs of items
    /// can be numbered, the clock does not run out, and no loop of belts of one
    /// cell keeps a tick from ending.
    pub open spec fn sure_to_run(self, n: nat) -> bool {
        n > 0 ==> {
            &&& self.linked()
            &&& self.cells() <= 0xffff_ffff || self.crowd() + (n - 1) * self.sources.len()
                < 0xffff_ffff
            &&& self.clock_fits(self.now + n - 1)
            &&& self.loop_free()
        }
    }

    /// The factory can run for `n` ticks: its layout alone tells so, or each of
    /// their events can be handled and every tick comes to an end.
    pub open spec fn can_run(self, n: nat) -> bool {
        self.sure_to_run(n) || self.ticks_fit(n)
    }

    /// The limits of one tick, by layout, items and clock alone.
    spec fn steady(self) -> bool {
        &&& self.linked()
        &&& self.clock_fits(self.now)
        &&& self.cells() <= 0xffff_ffff || self.crowd() < 0xffff_ffff
    }
}

// ---------------------------------------------------------------------- crowds

/// No part of a crowd is negative.
proof fn lemma_crowd_parts(m: Model)
    requires
        m.nodes_ok(),
    ensures
        0 <= m.items_on_belts(),
        0 <= m.items_in_machines(),
        0 <= m.items_at_sources(),
{
    assert forall|k: int| 0 <= k < m.belts.len() implies item_count(
        (#[trigger] m.belts[k]).runs,
    ) >= 0 by {
        assert(m.belts[k].ok(m.now));
        lemma_items_fit(m.belts[k], m.now);
    }
    lemma_tally_nonneg(m.belts, |i: int, b: BeltV| item_count(b.runs));
    assert forall|k: int| 0 <= k < m.machines.len() implies (
    #[trigger] m.machines[k]).holding(m.now) >= 0 by {
        assert(m.machines[k].ok());
    }
    lemma_tally_nonneg(m.machines, |i: int, c: MachineV| c.holding(m.now));
    lemma_tally_nonneg(m.sources, |i: int, c: SourceV| c.pending(m.now));
}

/// An item that is given to a node adds one to the crowd at most.
proof fn lemma_give_crowd(m: Model, target: u32, item: u16)
    requires
        m.nodes_ok(),
        m.reachable(target),
        m.accepts(target, item),
    ensures
        m.give(target, item).crowd() <= m.crowd() + 1,
{
    let i = idx(target);
    if kind(target) == K_BELT {
        let b = m.belts[i];
        assert(b.ok(m.now));
        lemma_with_item(b, item, m.now);
        lemma_belt_items(m, i, b.with_item(item, m.now));
    } else if kind(target) == K_MACH {
        let c = m.machines[i];
        let c1 = MachineV { have: c.have + 1, ..c };
        assert(c.ok());
        lemma_machine_items(m, i, c1);
        let m1 = m.with_machine(i, c1);
        assert forall|k: int| 0 <= k < m1.machines.len() implies (#[trigger] m1.machines[k]).ok() by {
            assert(m.machines[k].ok());
        }
        assert(m1.nodes_ok());
        lemma_start_items(m1, i);
        assert(m1.start(i).sinks == m1.sinks);
    }
}

/// An event adds nothing to the crowd.
proof fn lemma_fire_crowd(m: Model, id: u32)
    requires
        m.nodes_ok(),
        m.may_fire(id),
        m.linked(),
    ensures
        m.fire(id).crowd() <= m.crowd(),
{
    let m0 = Model { events: (m.events + 1) % wrap(), ..m };
    let i = idx(id);
    lemma_reaches(m, id);
    assert(m0.crowd() == m.crowd());
    assert(m0.nodes_ok());
    if kind(id) == K_BELT {
        let b = m0.belts[i];
        assert(b.ok(m0.now));
        lemma_lead(b, m0.now);
        if b.lead(m0.now) > 0 {
        } else if m0.accepts(b.out, b.runs[0].item) {
            let item = b.runs[0].item;
            lemma_give_crowd(m0, b.out, item);
            lemma_give_keeps_belt(m0, b.out, item, i);
            lemma_give_nodes(m0, b.out, item);
            let m1 = m0.give(b.out, item);
            let b1 = m1.belts[i];
            assert(b1.ok(m1.now));
            lemma_without_first(b1, m0.now);
            lemma_belt_items(m1, i, b1.without_first(m0.now));
        } else {
            lemma_belt_items(m0, i, BeltV { blocked: true, due: m0.now, ..b });
        }
    } else if kind(id) == K_MACH {
        let c = m0.machines[i];
        assert(c.ok());
        if c.busy {
            let c1 = MachineV { busy: false, ..c };
            let m1 = m0.with_machine(i, c1);
            lemma_machine_items(m0, i, c1);
            assert forall|k: int| 0 <= k < m1.machines.len() implies (
            #[trigger] m1.machines[k]).ok() by {
                assert(m0.machines[k].ok());
            }
            assert(m1.nodes_ok());
            if m1.accepts(c.out, c.out_item) {
                lemma_give_crowd(m1, c.out, c.out_item);
                lemma_give_nodes(m1, c.out, c.out_item);
                let m2 = m1.give(c.out, c.out_item);
                lemma_start_items(m2, i);
                assert(m2.start(i).sinks == m2.sinks);
            } else {
                lemma_machine_items(m1, i, MachineV { has_out: true, ..m1.machines[i] });
            }
        } else if m0.accepts(c.out, c.out_item) {
            lemma_give_crowd(m0, c.out, c.out_item);
            lemma_give_nodes(m0, c.out, c.out_item);
            let m1 = m0.give(c.out, c.out_item);
            lemma_give_keeps_product(m0, c.out, c.out_item, i);
            let c2 = MachineV { has_out: false, ..m1.machines[i] };
            lemma_machine_items(m1, i, c2);
            let m2 = m1.with_machine(i, c2);
            assert forall|k: int| 0 <= k < m2.machines.len() implies (
            #[trigger] m2.machines[k]).ok() by {
                assert(m1.machines[k].ok());
            }
            assert(m2.nodes_ok());
            lemma_start_items(m2, i);
            assert(m2.start(i).sinks == m2.sinks);
        }
    } else {
        let c = m0.sources[i];
        assert(c.ok());
        if m0.accepts(c.out, c.item) {
            lemma_give_crowd(m0, c.out, c.item);
            let m1 = m0.give(c.out, c.item);
            assert(m1.sources == m0.sources);
            lemma_source_items(
                m1,
                i,
                SourceV { blocked: false, until: m0.now + c.period, ..c },
            );
        } else {
            lemma_source_items(m0, i, SourceV { blocked: true, ..c });
        }
    }
}

// ---------------------------------------------------------------------- limits

/// A belt's timer is for at most its last cell.
proof fn lemma_lead_room(b: BeltV, now: int)
    requires
        b.ok(now),
        b.runs.len() > 0,
    ensures
        0 <= b.lead(now) <= b.cap - 1,
        0 <= b.lead(now) * b.period <= b.reach(),
        b.due <= now + b.reach(),
        b.period <= b.reach(),
{
    lemma_lead(b, now);
    lemma_extent_bounds(b.runs);
    lemma_reach(b);
    let l = b.lead(now);
    let p = b.period;
    let c = b.cap;
    assert(0 <= l * p <= b.reach()) by (nonlinear_arith)
        requires
            0 <= l <= c - 1,
            p >= 1,
            b.reach() == (if c > 2 {
                (c - 1) * p
            } else {
                p
            }),
    ;
}

proof fn lemma_reach(b: BeltV)
    requires
        b.cap >= 1,
        b.period >= 1,
    ensures
        b.period <= b.reach(),
{
    let c = b.cap;
    let p = b.period;
    if c > 2 {
        assert((c - 1) * p >= p) by (nonlinear_arith)
            requires
                c > 2,
                p >= 1,
        ;
    }
}

/// In a steady factory every node that has room can take an item, and what finds no
/// room can wait.
proof fn lemma_steady_target(m: Model, target: u32, item: u16)
    requires
        m.steady(),
        m.nodes_ok(),
        m.reachable(target),
    ensures
        m.can_give(target, item),
        m.can_block(target),
{
    lemma_crowd_parts(m);
    let i = idx(target);
    if kind(target) == K_BELT {
        let b = m.belts[i];
        assert(b.ok(m.now));
        assert(m.now + b.reach() <= 0xffff_ffff);
        lemma_reach(b);
        lemma_lead(b, m.now);
        if b.runs.len() == 0 {
            let c = b.cap;
            let p = b.period;
            assert((c - 1) * p <= b.reach()) by (nonlinear_arith)
                requires
                    c >= 1,
                    p >= 1,
                    b.reach() == (if c > 2 {
                        (c - 1) * p
                    } else {
                        p
                    }),
            ;
        }
    } else if kind(target) == K_MACH {
        assert(m.now + m.machines[i].dur <= 0xffff_ffff);
    }
}

/// In a steady factory every node that is due can be handled.
proof fn lemma_steady_fits(m: Model, id: u32)
    requires
        m.steady(),
        m.nodes_ok(),
        m.may_fire(id),
    ensures
        m.fits(id),
{
    lemma_reaches(m, id);
    let out = m.out_of(id);
    let i = idx(id);
    if kind(id) == K_BELT {
        let b = m.belts[i];
        let item = b.runs[0].item;
        assert(b.ok(m.now));
        assert(m.now + b.reach() <= 0xffff_ffff);
        lemma_lead(b, m.now);
        lemma_reach(b);
        lemma_steady_target(m, out, item);
        if m.accepts(out, item) {
            lemma_give_nodes(m, out, item);
            lemma_give_keeps_belt(m, out, item, i);
            let b1 = m.give(out, item).belts[i];
            assert(b1.ok(m.now));
            lemma_without_first(b1, m.now);
            let left = b1.without_first(m.now);
            if left.runs.len() > 0 {
                lemma_lead_room(left, m.now);
            }
        }
    } else if kind(id) == K_MACH {
        let c = m.machines[i];
        assert(c.ok());
        assert(m.now + c.dur <= 0xffff_ffff);
        let m0 = m.with_machine(i, MachineV { busy: false, ..c });
        lemma_steady_machine(m, i, MachineV { busy: false, ..c });
        lemma_steady_target(m0, out, c.out_item);
        assert(m0.give(out, c.out_item).machines[i].dur == c.dur);
    } else {
        let c = m.sources[i];
        assert(m.now + c.period <= 0xffff_ffff);
        lemma_steady_target(m, out, c.item);
    }
}

/// A machine that has given up its work leaves the factory steady.
proof fn lemma_steady_machine(m: Model, i: int, c: MachineV)
    requires
        m.steady(),
        m.nodes_ok(),
        0 <= i < m.machines.len(),
        c == (MachineV { busy: false, ..m.machines[i] }),
    ensures
        m.with_machine(i, c).steady(),
        m.with_machine(i, c).nodes_ok(),
{
    let r = m.with_machine(i, c);
    lemma_same_layout(r, m);
    assert(m.machines[i].ok());
    lemma_machine_items(m, i, c);
    assert forall|k: int| 0 <= k < r.machines.len() implies (#[trigger] r.machines[k]).ok() by {
        assert(m.machines[k].ok());
    }
}

/// A node, out of its queues, is handled in a steady factory.
proof fn lemma_steady_event(m: Model, m1: Model, id: u32)
    requires
        m.steady(),
        m.valid(),
        m1 == m.with_queues(m1.q),
        m1.valid_except(set![id]),
        m1.may_fire(id),
        m1.fire(id).same_layout(m),
        m1.fire(id).now == m.now,
    ensures
        m1.fits(id),
        m1.fire(id).steady(),
        m1.fire(id).crowd() <= m.crowd(),
{
    let r = m1.fire(id);
    lemma_same_layout(m1, m);
    assert(m1.crowd() == m.crowd());
    lemma_steady_fits(m1, id);
    lemma_fire_crowd(m1, id);
    lemma_same_layout(r, m);
}

proof fn lemma_steady_far(m: Model, n: nat)
    requires
        m.steady(),
        m.valid(),
    ensures
        m.far_fits(n),
        m.drain_far(n).steady(),
        m.drain_far(n).crowd() <= m.crowd(),
    decreases n,
{
    if m.far_due() && n > 0 {
        lemma_first_due(m);
        let p = m.first_far();
        let m1 = m.with_queues(m.q.take_far(p));
        lemma_far_once(m, p);
        lemma_next_far(m, p);
        lemma_steady_event(m, m1, p.1);
        lemma_steady_far(m1.fire(p.1), (n - 1) as nat);
    }
}

proof fn lemma_steady_slot(m: Model, n: nat)
    requires
        m.steady(),
        m.valid(),
    ensures
        m.slot_fits(n),
        m.drain_slot(n).steady(),
        m.drain_slot(n).crowd() <= m.crowd(),
    decreases n,
{
    if m.q.wheel[m.slot()].len() > 0 && n > 0 {
        let x = m.q.wheel[m.slot()][0];
        let m1 = m.with_queues(m.q.take_slot(m.slot()));
        lemma_slot_once(m);
        lemma_next_slot(m);
        lemma_steady_event(m, m1, x);
        lemma_steady_slot(m1.fire(x), (n - 1) as nat);
    }
}

proof fn lemma_steady_ready(m: Model, n: nat)
    requires
        m.steady(),
        m.valid(),
    ensures
        m.settle_fits(n),
        m.settle(n).steady(),
        m.settle(n).crowd() <= m.crowd(),
    decreases n,
{
    if m.q.ready.len() > 0 && n > 0 {
        let x = m.q.ready.last();
        let m1 = m.with_queues(m.q.take_ready());
        lemma_ready_once(m);
        lemma_next_ready(m);
        lemma_steady_event(m, m1, x);
        lemma_steady_ready(m.fire_ready(), (n - 1) as nat);
    }
}

/// A tick of a steady factory.
proof fn lemma_steady_tick(m: Model)
    requires
        m.steady(),
        m.valid(),
        m.loop_free(),
    ensures
        m.tick_fits(),
        m.events_done().crowd() <= m.crowd(),
{
    let n1 = m.q.far.len();
    let m1 = m.drain_far(n1);
    lemma_drain_far(m, n1);
    lemma_steady_far(m, n1);
    lemma_reorder(m1);
    let m2 = m1.reorder();
    lemma_same_layout(m2, m1);
    assert(m2.crowd() == m1.crowd());
    assert(m2.steady());
    lemma_steady_slot(m2, m2.q.wheel[m2.slot()].len());
    lemma_timers(m);
    law_tick_ends(m);
    let n = choose|n: nat| #[trigger] m.timers().settles_within(n);
    lemma_steady_ready(m.timers(), n);
}

/// When the clock moves on, each source adds one to the crowd at most.
proof fn lemma_crowd_later(m: Model)
    requires
        m.nodes_ok(),
    ensures
        (Model { now: m.now + 1, ..m }).crowd() <= m.crowd() + m.sources.len(),
{
    crate::balance::law_clock_balance(m);
    let f = |i: int, c: SourceV|
        if c.until == m.now + 1 {
            1int
        } else {
            0
        };
    lemma_tally_at_most(m.sources, f, 1);
    assert forall|k: int| 0 <= k < m.machines.len() implies (if (
    #[trigger] m.machines[k]).busy && m.machines[k].until == m.now + 1 {
        m.machines[k].need - 1
    } else {
        0
    }) >= 0 by {
        assert(m.machines[k].ok());
    }
    lemma_tally_nonneg(
        m.machines,
        |i: int, c: MachineV|
            if c.busy && c.until == m.now + 1 {
                c.need - 1
            } else {
                0
            },
    );
}

/// A factory that is sure to run for some ticks is, after one of them, sure to run
/// for the others.
proof fn lemma_sure_step(m: Model, n: nat)
    requires
        m.valid(),
        m.sure_to_run(n + 1),
    ensures
        m.tick_fits(),
        m.step().valid(),
        m.step().sure_to_run(n),
{
    let s = m.sources.len() as int;
    assert(m.clock_fits(m.now + (n + 1) - 1));
    assert(n * s >= 0) by (nonlinear_arith)
        requires
            s >= 0,
            n >= 0,
    ;
    assert(m.clock_fits(m.now));
    assert(m.steady());
    lemma_steady_tick(m);
    lemma_step(m);
    let r = m.step();
    lemma_same_layout(r, m);
    lemma_crowd_later(m.events_done());
    if n > 0 {
        assert((n - 1) * s + s == n * s) by (nonlinear_arith);
        assert(r.clock_fits(r.now + n - 1));
    }
}

/// A factory that is sure to run for some ticks can handle each of them, and is
/// after each of them sure to run for those that are left.
pub proof fn law_sure_to_run(m: Model, n: nat, k: nat)
    requires
        m.valid(),
        m.sure_to_run(n),
        k <= n,
    ensures
        m.ticks_fit(n),
        m.run(k).sure_to_run((n - k) as nat),
{
    assert forall|j: nat| j < n implies (#[trigger] m.run(j)).tick_fits() by {
        lemma_sure_run(m, n, j);
        lemma_sure_step(m.run(j), (n - j - 1) as nat);
    }
    lemma_sure_run(m, n, k);
}

proof fn lemma_sure_run(m: Model, n: nat, k: nat)
    requires
        m.valid(),
        m.sure_to_run(n),
        k <= n,
    ensures
        m.run(k).valid(),
        m.run(k).sure_to_run((n - k) as nat),
    decreases k,
{
    if k > 0 {
        lemma_sure_run(m, n, (k - 1) as nat);
        lemma_sure_step(m.run((k - 1) as nat), (n - k) as nat);
    }
}

/// Every tick of a factory that can run can be handled.
pub proof fn lemma_ticks_fit(m: Model, n: nat)
    requires
        m.valid(),
        m.can_run(n),
    ensures
        m.ticks_fit(n),
{
    if m.sure_to_run(n) {
        law_sure_to_run(m, n, 0);
    }
}

/// A factory that can run for `a + b` ticks can, after `a` of them, run for `b`
/// more.
pub proof fn law_can_run_on(m: Model, a: nat, b: nat)
    requires
        m.valid(),
        m.can_run(a + b),
    ensures
        m.run(a).can_run(b),
        m.sure_to_run(a + b) ==> m.run(a).sure_to_run(b),
{
    if m.sure_to_run(a + b) {
        law_sure_to_run(m, a + b, a);
    } else {
        let r = m.run(a);
        assert forall|k: nat| k < b implies (#[trigger] r.run(k)).tick_fits() by {
            law_run_splits(m, a, k);
            assert(m.run(a + k).tick_fits());
        }
    }
}

/// A factory that can run for some ticks can run for fewer.
pub proof fn law_can_run_less(m: Model, a: nat, b: nat)
    requires
        m.can_run(b),
        a <= b,
    ensures
        m.can_run(a),
        m.sure_to_run(b) ==> m.sure_to_run(a),
{
    if a > 0 && m.sure_to_run(b) {
        let s = m.sources.len() as int;
        assert((a - 1) * s <= (b - 1) * s) by (nonlinear_arith)
            requires
                a <= b,
                s >= 0,
        ;
        assert(m.clock_fits(m.now + b - 1));
        assert(m.clock_fits(m.now + a - 1));
    }
}

/// A factory that is asleep can run as long as the clock lasts, whatever its
/// layout.
pub proof fn law_asleep_can_run(m: Model, n: nat)
    requires
        m.valid(),
        m.q.asleep(),
        m.now + n <= 0xffff_ffff,
    ensures
        m.can_run(n),
{
    assert forall|k: nat| k < n implies (#[trigger] m.run(k)).tick_fits() by {
        law_asleep_is_free(m, k);
        let p = m.run(k);
        lemma_idle_tick(p);
        assert(p.timers().settles_within(0) && p.timers().settle_fits(0));
    }
}

/// A factory without belts of one cell in which every node delivers to a node that is
/// there, or to nothing, can run until the clock is at its end but for the longest way
/// over a belt, if it has few enough belts.
pub proof fn law_factories_can_run(m: Model, n: nat)
    requires
        m.valid(),
        m.belts.len() <= 0x1_0000,
        forall|i: int|
            0 <= i < m.belts.len() ==> {
                &&& m.reachable((#[trigger] m.belts[i]).out)
                &&& m.belts[i].cap >= 2
                &&& m.now + n + m.belts[i].cap * m.belts[i].period <= 0xffff_ffff
            },
        forall|i: int|
            0 <= i < m.machines.len() ==> m.reachable((#[trigger] m.machines[i]).out) && m.now + n
                + m.machines[i].dur <= 0xffff_ffff,
        forall|i: int|
            0 <= i < m.sources.len() ==> m.reachable((#[trigger] m.sources[i]).out) && m.now + n
                + m.sources[i].period <= 0xffff_ffff,
        m.now + n <= 0xffff_ffff,
    ensures
        m.can_run(n),
{
    assert(m.ranked_by(|i: int| 0nat));
    let f = |i: int, b: BeltV| b.cap;
    assert forall|k: int| 0 <= k < m.belts.len() implies f(k, #[trigger] m.belts[k]) <= 0xffff by {
        assert(m.belts[k].ok(m.now));
    }
    lemma_tally_at_most(m.belts, f, 0xffff);
    assert forall|i: int| 0 <= i < m.belts.len() implies m.now + n - 1 + (
    #[trigger] m.belts[i]).reach() <= 0xffff_ffff by {
        let b = m.belts[i];
        assert(b.ok(m.now));
        assert(b.reach() <= b.cap * b.period) by {
            assert((b.cap - 1) * b.period <= b.cap * b.period && b.period <= b.cap * b.period)
                by (nonlinear_arith)
                requires
                    b.cap >= 2,
                    b.period >= 1,
            ;
        }
    }
}

} // verus!
