//! The balance of items: none is lost and none appears from nowhere.

use vstd::prelude::*;

use crate::belts::{
    lemma_extent_bounds, lemma_extent_empty, lemma_lead, lemma_with_item, lemma_without_first,
};
use crate::ids::{idx, kind, K_BELT, K_MACH, K_SINK};
use crate::model::{item_count, wrap, BeltV, MachineV, Model, Queues, SinkV, SourceV};
use crate::seqs::{
    lemma_tally_at_most, lemma_tally_const, lemma_tally_le, lemma_tally_nonneg, lemma_tally_term, lemma_tally_update,
    tally,
};
use crate::settle::lemma_give_nodes;
use crate::stages::{lemma_tick_stages, taken};
use crate::ticks::{lemma_run, lemma_step};
use crate::valid::{lemma_give_keeps_belt, lemma_give_keeps_product};

verus! {

impl MachineV {
    /// Number of items in the machine. Work turns `need` items into one at the
    /// tick at which it is done.
    pub open spec fn holding(self, now: int) -> int {
        self.have + (if self.has_out {
            1int
        } else {
            0
        }) + (if !self.busy {
            0
        } else if self.until <= now {
            1
        } else {
            self.need
        })
    }
}

impl SourceV {
    /// Number of items that the source is about to emit.
    pub open spec fn pending(self, now: int) -> int {
        if self.until <= now {
            1
        } else {
            0
        }
    }
}

impl Model {
    /// Number of items in the machines.
    pub open spec fn items_in_machines(self) -> int {
        tally(self.machines, |i: int, c: MachineV| c.holding(self.now))
    }

    /// Number of items that the sources are about to emit.
    pub open spec fn items_at_sources(self) -> int {
        tally(self.sources, |i: int, c: SourceV| c.pending(self.now))
    }

    /// Number of all items: on belts, in machines, received by sinks, and about
    /// to be emitted by sources.
    pub open spec fn items(self) -> int {
        self.items_on_belts() + self.items_in_machines() + self.delivered()
            + self.items_at_sources()
    }

    /// Number of sources that may emit an item from the next tick on.
    pub open spec fn coming(self) -> int {
        tally(
            self.sources,
            |i: int, c: SourceV|
                if c.until == self.now + 1 {
                    1int
                } else {
                    0
                },
        )
    }

    /// Number of items fewer by the work that is done at the next tick.
    pub open spec fn used_up(self) -> int {
        tally(
            self.machines,
            |i: int, c: MachineV|
                if c.busy && c.until == self.now + 1 {
                    c.need - 1
                } else {
                    0
                },
        )
    }

    /// Number of items by which `n` ticks make the factory richer: what its
    /// sources come to emit, less what its machines use up.
    pub open spec fn gain(self, n: nat) -> int
        decreases n,
    {
        if n == 0 {
            0
        } else {
            let m = self.run((n - 1) as nat).events_done();
            self.gain((n - 1) as nat) + m.coming() - m.used_up()
        }
    }
}

// ---------------------------------------------------------------------- nodes

pub proof fn lemma_belt_items(m: Model, i: int, b: BeltV)
    requires
        0 <= i < m.belts.len(),
    ensures
        m.with_belt(i, b).items() == m.items() - item_count(m.belts[i].runs) + item_count(b.runs),
{
    lemma_tally_update(m.belts, |i: int, b: BeltV| item_count(b.runs), i, b);
}

pub proof fn lemma_machine_items(m: Model, i: int, c: MachineV)
    requires
        0 <= i < m.machines.len(),
    ensures
        m.with_machine(i, c).items() == m.items() - m.machines[i].holding(m.now) + c.holding(
            m.now,
        ),
{
    lemma_tally_update(m.machines, |i: int, c: MachineV| c.holding(m.now), i, c);
}

pub proof fn lemma_source_items(m: Model, i: int, c: SourceV)
    requires
        0 <= i < m.sources.len(),
    ensures
        m.with_source(i, c).items() == m.items() - m.sources[i].pending(m.now) + c.pending(m.now),
{
    lemma_tally_update(m.sources, |i: int, c: SourceV| c.pending(m.now), i, c);
}

/// No sink has received more items than there are.
pub proof fn lemma_sink_bound(m: Model, i: int)
    requires
        m.nodes_ok(),
        0 <= i < m.sinks.len(),
    ensures
        m.sinks[i].count <= m.items(),
{
    assert forall|k: int| 0 <= k < m.belts.len() implies item_count(
        (#[trigger] m.belts[k]).runs,
    ) >= 0 by {
        assert(m.belts[k].ok(m.now));
        lemma_extent_bounds(m.belts[k].runs);
    }
    lemma_tally_nonneg(m.belts, |i: int, b: BeltV| item_count(b.runs));
    assert forall|k: int| 0 <= k < m.machines.len() implies (
    #[trigger] m.machines[k]).holding(m.now) >= 0 by {
        assert(m.machines[k].ok());
    }
    lemma_tally_nonneg(m.machines, |i: int, c: MachineV| c.holding(m.now));
    lemma_tally_nonneg(m.sources, |i: int, c: SourceV| c.pending(m.now));
    assert forall|k: int| 0 <= k < m.sinks.len() implies (#[trigger] m.sinks[k]).count >= 0 by {
        assert(m.sinks[k].ok());
    }
    lemma_tally_term(m.sinks, |i: int, c: SinkV| c.count, i);
}

// --------------------------------------------------------------------- events

pub proof fn lemma_start_items(m: Model, i: int)
    requires
        m.nodes_ok(),
        0 <= i < m.machines.len(),
    ensures
        m.start(i).items() == m.items(),
{
    let c = m.machines[i];
    assert(c.ok());
    if m.starts(i) {
        lemma_machine_items(
            m,
            i,
            MachineV { have: c.have - c.need, busy: true, until: m.now + c.dur, ..c },
        );
    }
}

/// An item that is given to a node is there afterwards.
proof fn lemma_give_items(m: Model, target: u32, item: u16)
    requires
        m.nodes_ok(),
        m.reachable(target),
        m.accepts(target, item),
        m.items() < wrap(),
        kind(target) == K_SINK ==> m.sinks[idx(target)].count + 1 < wrap(),
    ensures
        m.give(target, item).items() == m.items() + 1,
{
    let i = idx(target);
    if kind(target) == K_BELT {
        let b = m.belts[i];
        assert(b.ok(m.now));
        lemma_with_item(b, item, m.now);
        lemma_belt_items(m, i, b.with_item(item, m.now));
    } else if kind(target) == K_MACH {
        let c = m.machines[i];
        let c1 = MachineV { have: c.have + 1, ..c };
        assert(c.ok());
        lemma_machine_items(m, i, c1);
        let m1 = m.with_machine(i, c1);
        assert forall|k: int| 0 <= k < m1.machines.len() implies (#[trigger] m1.machines[k]).ok() by {
            assert(m.machines[k].ok());
        }
        assert(m1.nodes_ok());
        lemma_start_items(m1, i);
    } else {
        let c = m.sinks[i];
        assert(c.ok());
        lemma_tally_update(
            m.sinks,
            |i: int, c: SinkV| c.count,
            i,
            SinkV { count: (c.count + 1) % wrap(), ..c },
        );
    }
}

/// An event moves items and makes none.
pub proof fn lemma_fire_items(m: Model, id: u32)
    requires
        m.valid_except(set![id]),
        m.may_fire(id),
        m.reachable(m.out_of(id)),
        m.items() < wrap(),
    ensures
        m.fire(id).items() == m.items(),
{
    let m0 = Model { events: (m.events + 1) % wrap(), ..m };
    let i = idx(id);
    assert(m0.items() == m.items());
    assert(m0.nodes_ok());
    if kind(id) == K_BELT {
        lemma_fire_belt_items(m0, i);
    } else if kind(id) == K_MACH {
        lemma_fire_machine_items(m0, i);
    } else {
        lemma_fire_source_items(m0, i);
    }
}

proof fn lemma_fire_belt_items(m: Model, i: int)
    requires
        m.nodes_ok(),
        0 <= i < m.belts.len(),
        m.reachable(m.belts[i].out),
        m.items() < wrap(),
        m.belts[i].runs.len() > 0,
    ensures
        m.fire_belt(i).items() == m.items(),
{
    let b = m.belts[i];
    assert(b.ok(m.now));
    lemma_lead(b, m.now);
    if b.lead(m.now) > 0 {
    } else if m.accepts(b.out, b.runs[0].item) {
        let item = b.runs[0].item;
        lemma_without_belt(m, b.out, i);
        lemma_give_items(m, b.out, item);
        lemma_give_keeps_belt(m, b.out, item, i);
        let m1 = m.give(b.out, item);
        let b1 = m1.belts[i];
        assert(b1.ok(m.now)) by {
            if kind(b.out) == K_BELT && idx(b.out) == i {
                lemma_with_item(b, item, m.now);
            }
        }
        lemma_without_first(b1, m.now);
        lemma_belt_items(m1, i, b1.without_first(m.now));
    } else {
        lemma_belt_items(m, i, BeltV { blocked: true, due: m.now, ..b });
    }
}

/// While an item is on a belt, no sink has received all items.
pub proof fn lemma_without_belt(m: Model, target: u32, i: int)
    requires
        m.nodes_ok(),
        m.reachable(target),
        m.items() < wrap(),
        0 <= i < m.belts.len(),
        m.belts[i].runs.len() > 0,
    ensures
        kind(target) == K_SINK ==> m.sinks[idx(target)].count + 1 < wrap(),
{
    if kind(target) == K_SINK {
        let b = m.belts[i];
        assert(b.ok(m.now));
        lemma_extent_bounds(b.runs);
        let e = BeltV { runs: Seq::empty(), due: m.now, blocked: false, ..b };
        let r = m.with_belt(i, e);
        lemma_belt_items(m, i, e);
        lemma_extent_empty();
        assert forall|k: int| 0 <= k < r.belts.len() implies (#[trigger] r.belts[k]).ok(r.now) by {
            assert(m.belts[k].ok(m.now));
        }
        assert(r.nodes_ok());
        lemma_sink_bound(r, idx(target));
    }
}

proof fn lemma_fire_machine_items(m: Model, i: int)
    requires
        m.nodes_ok(),
        0 <= i < m.machines.len(),
        m.reachable(m.machines[i].out),
        m.items() < wrap(),
        m.machines[i].busy || m.machines[i].has_out,
        m.machines[i].busy ==> m.machines[i].until == m.now,
    ensures
        m.fire_machine(i).items() == m.items(),
{
    let c = m.machines[i];
    assert(c.ok());
    if c.busy {
        let c1 = MachineV { busy: false, ..c };
        let m1 = m.with_machine(i, c1);
        lemma_machine_items(m, i, c1);
        assert forall|k: int| 0 <= k < m1.machines.len() implies (#[trigger] m1.machines[k]).ok() by {
            assert(m.machines[k].ok());
        }
        assert(m1.nodes_ok());
        if m1.accepts(c.out, c.out_item) {
            if kind(c.out) == K_SINK {
                lemma_sink_bound(m1, idx(c.out));
            }
            lemma_give_items(m1, c.out, c.out_item);
            let m2 = m1.give(c.out, c.out_item);
            lemma_give_nodes(m1, c.out, c.out_item);
            lemma_start_items(m2, i);
        } else {
            lemma_machine_items(m1, i, MachineV { has_out: true, ..m1.machines[i] });
        }
    } else if m.accepts(c.out, c.out_item) {
        if kind(c.out) == K_SINK {
            let c1 = MachineV { has_out: false, ..c };
            let m1 = m.with_machine(i, c1);
            lemma_machine_items(m, i, c1);
            assert forall|k: int| 0 <= k < m1.machines.len() implies (
            #[trigger] m1.machines[k]).ok() by {
                assert(m.machines[k].ok());
            }
            assert(m1.nodes_ok());
            lemma_sink_bound(m1, idx(c.out));
        }
        lemma_give_items(m, c.out, c.out_item);
        lemma_give_nodes(m, c.out, c.out_item);
        let m1 = m.give(c.out, c.out_item);
        lemma_give_keeps_product(m, c.out, c.out_item, i);
        let c2 = MachineV { has_out: false, ..m1.machines[i] };
        lemma_machine_items(m1, i, c2);
        let m2 = m1.with_machine(i, c2);
        assert forall|k: int| 0 <= k < m2.machines.len() implies (#[trigger] m2.machines[k]).ok() by {
            assert(m1.machines[k].ok());
        }
        assert(m2.nodes_ok());
        lemma_start_items(m2, i);
    }
}

proof fn lemma_fire_source_items(m: Model, i: int)
    requires
        m.nodes_ok(),
        0 <= i < m.sources.len(),
        m.reachable(m.sources[i].out),
        m.items() < wrap(),
        m.sources[i].until <= m.now,
    ensures
        m.fire_source(i).items() == m.items(),
{
    let c = m.sources[i];
    assert(c.ok());
    let until = m.now + c.period;
    let c1 = SourceV { blocked: false, until, ..c };
    if m.accepts(c.out, c.item) {
        if kind(c.out) == K_SINK {
            let m1 = m.with_source(i, c1);
            lemma_source_items(m, i, c1);
            assert forall|k: int| 0 <= k < m1.sources.len() implies (
            #[trigger] m1.sources[k]).ok() by {
                assert(m.sources[k].ok());
            }
            assert(m1.nodes_ok());
            lemma_sink_bound(m1, idx(c.out));
        }
        lemma_give_items(m, c.out, c.item);
        let m1 = m.give(c.out, c.item);
        assert(m1.sources == m.sources);
        lemma_source_items(m1, i, c1);
    } else {
        lemma_source_items(m, i, SourceV { blocked: true, ..c });
    }
}

// ---------------------------------------------------------------------- ticks

/// The events of a tick move items and make none: no item is lost and none
/// appears. (Sinks count modulo 2^64, so there must be fewer items than that.)
pub proof fn law_events_conserve_items(m: Model)
    requires
        m.valid(),
        m.linked() || m.tick_fits(),
        m.items() < wrap(),
    ensures
        m.events_done().items() == m.items(),
{
    let rel = |a: Model, b: Model| a.items() < wrap() ==> b.items() == a.items();
    assert forall|a: Model, a1: Model, id: u32| #[trigger] taken(a, a1, id) implies rel(
        a,
        a1.fire(id),
    ) by {
        assert(a1.items() == a.items());
        if a.items() < wrap() {
            lemma_fire_items(a1, id);
        }
    }
    assert forall|a: Model, q: Queues| rel(a, #[trigger] a.with_queues(q)) by {
        assert(a.with_queues(q).items() == a.items());
    }
    lemma_tick_stages(m, rel);
}

/// When the clock moves on, items are added only by sources that may emit one
/// from then on, and items go only into the work of machines that is then done.
pub proof fn law_clock_balance(m: Model)
    ensures
        (Model { now: m.now + 1, ..m }).items() == m.items() + m.coming() - m.used_up(),
{
    lemma_sources_later(m.sources, m.now);
    lemma_machines_later(m.machines, m.now);
}

proof fn lemma_sources_later(s: Seq<SourceV>, now: int)
    ensures
        tally(s, |i: int, c: SourceV| c.pending(now + 1)) == tally(
            s,
            |i: int, c: SourceV| c.pending(now),
        ) + tally(
            s,
            |i: int, c: SourceV|
                if c.until == now + 1 {
                    1int
                } else {
                    0
                },
        ),
    decreases s.len(),
{
    if s.len() > 0 {
        lemma_sources_later(s.drop_last(), now);
    }
}

proof fn lemma_machines_later(s: Seq<MachineV>, now: int)
    ensures
        tally(s, |i: int, c: MachineV| c.holding(now + 1)) == tally(
            s,
            |i: int, c: MachineV| c.holding(now),
        ) - tally(
            s,
            |i: int, c: MachineV|
                if c.busy && c.until == now + 1 {
                    c.need - 1
                } else {
                    0
                },
        ),
    decreases s.len(),
{
    if s.len() > 0 {
        lemma_machines_later(s.drop_last(), now);
    }
}

/// Over `n` ticks the factory has as many items more as its sources have come to
/// emit, less those that its machines have used up: none is lost and none
/// appears.
pub proof fn law_run_balance(m: Model, n: nat)
    requires
        m.valid(),
        m.linked() || m.ticks_fit(n),
        forall|k: nat| k < n ==> (#[trigger] m.run(k)).items() < wrap(),
    ensures
        m.run(n).items() == m.items() + m.gain(n),
    decreases n,
{
    if n > 0 {
        let k = (n - 1) as nat;
        law_run_balance(m, k);
        lemma_run(m, k);
        let p = m.run(k);
        law_events_conserve_items(p);
        law_clock_balance(p.events_done());
    }
}

/// In each tick every source adds one item at most.
pub proof fn law_items_grow_slowly(m: Model)
    requires
        m.valid(),
        m.linked() || m.tick_fits(),
        m.items() < wrap(),
    ensures
        m.step().items() <= m.items() + m.sources.len(),
{
    law_events_conserve_items(m);
    lemma_step(m);
    let e = m.events_done();
    law_clock_balance(e);
    lemma_tally_at_most(
        e.sources,
        |i: int, c: SourceV|
            if c.until == e.now + 1 {
                1int
            } else {
                0
            },
        1,
    );
    assert forall|i: int| 0 <= i < e.machines.len() implies (
    #[trigger] e.machines[i]).need >= 1 by {
        assert(e.machines[i].ok());
    }
    lemma_tally_nonneg(
        e.machines,
        |i: int, c: MachineV|
            if c.busy && c.until == e.now + 1 {
                c.need - 1
            } else {
                0
            },
    );
}

/// Opening or closing a sink moves no item.
pub proof fn law_sinks_keep_items(m: Model, sink: u32, open: bool)
    requires
        0 <= idx(sink) < m.sinks.len(),
    ensures
        m.set_sink_open(sink, open).items() == m.items(),
{
    let i = idx(sink);
    let c = SinkV {
        open: if open {
            1
        } else {
            0
        },
        ..m.sinks[i]
    };
    lemma_tally_update(m.sinks, |i: int, c: SinkV| c.count, i, c);
}

/// A factory whose machines take one item for each that they make loses none
/// over any number of ticks.
pub proof fn law_nothing_lost(m: Model, n: nat)
    requires
        m.valid(),
        m.linked() || m.ticks_fit(n),
        forall|k: nat| k < n ==> (#[trigger] m.run(k)).items() < wrap(),
        forall|i: int| 0 <= i < m.machines.len() ==> (#[trigger] m.machines[i]).need == 1,
    ensures
        m.run(n).items() >= m.items(),
    decreases n,
{
    if n > 0 {
        let k = (n - 1) as nat;
        law_nothing_lost(m, k);
        lemma_run(m, k);
        let p = m.run(k);
        law_events_conserve_items(p);
        lemma_step(p);
        let e = p.events_done();
        law_clock_balance(e);
        lemma_tally_nonneg(
            e.sources,
            |i: int, c: SourceV|
                if c.until == e.now + 1 {
                    1int
                } else {
                    0
                },
        );
        assert forall|i: int| 0 <= i < e.machines.len() implies (
        #[trigger] e.machines[i]).need == 1 by {
            assert(p.machines[i].need == m.machines[i].need);
        }
        let none = |i: int, c: MachineV| 0int;
        let f = |i: int, c: MachineV|
            if c.busy && c.until == e.now + 1 {
                c.need - 1
            } else {
                0
            };
        lemma_tally_le(e.machines, f, e.machines, none);
        lemma_tally_const(e.machines, none, 0);
    }
}

} // verus!
