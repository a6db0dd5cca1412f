//! What a tick does to sources and sinks, one by one.

use vstd::prelude::*;

use crate::balance::{
    law_events_conserve_items, lemma_fire_items, lemma_machine_items, lemma_sink_bound,
    lemma_source_items, lemma_without_belt,
};
use crate::belts::lemma_lead;
use crate::ids::{idx, kind, K_BELT, K_MACH, K_SINK};
use crate::model::{wrap, MachineV, Model, Queues, SinkV, SourceV};
use crate::seqs::{lemma_tally_at_most, lemma_tally_difference, lemma_tally_nonneg, tally};
use crate::stages::{lemma_tick_stages, past_queues, taken};
use crate::ticks::{lemma_run, lemma_step};

verus! {

impl Model {
    /// The item that the node `id` has to deliver.
    pub open spec fn item_of(self, id: u32) -> u16 {
        if kind(id) == K_BELT {
            self.belts[idx(id)].runs[0].item
        } else if kind(id) == K_MACH {
            self.machines[idx(id)].out_item
        } else {
            self.sources[idx(id)].item
        }
    }

    /// Source `i` emits an item in the current tick.
    pub open spec fn emits(self, i: int) -> bool {
        self.sources[i].until <= self.now && self.events_done().sources[i].until > self.now
    }

    /// Number of items that the sources emit in the current tick.
    pub open spec fn emitted(self) -> int {
        tally(
            self.sources,
            |i: int, c: SourceV|
                if self.emits(i) {
                    1int
                } else {
                    0
                },
        )
    }
}

// -------------------------------------------------------------------- one event

/// The event of a node changes the sources only in that a source that emits an
/// item is not due again within the tick, and the sinks only in that one of them
/// receives the node's item.
pub proof fn lemma_fire_ends(m: Model, id: u32)
    requires
        m.nodes_ok(),
        m.may_fire(id),
        m.reachable(m.out_of(id)),
    ensures
        ({
            let r = m.fire(id);
            let out = m.out_of(id);
            &&& r.now == m.now
            &&& r.sources.len() == m.sources.len()
            &&& forall|i: int|
                0 <= i < m.sources.len() ==> {
                    ||| (#[trigger] r.sources[i]).until == m.sources[i].until
                    ||| m.sources[i].until <= m.now < r.sources[i].until
                }
            &&& r.sinks == if kind(out) == K_SINK && m.accepts(out, m.item_of(id)) {
                m.sinks.update(
                    idx(out),
                    SinkV {
                        count: (m.sinks[idx(out)].count + 1) % wrap(),
                        ..m.sinks[idx(out)]
                    },
                )
            } else {
                m.sinks
            }
        }),
{
    let i = idx(id);
    if kind(id) == K_BELT {
        assert(m.belts[i].ok(m.now));
        lemma_lead(m.belts[i], m.now);
    } else if kind(id) == K_MACH {
        assert(m.machines[i].ok());
    } else {
        assert(m.sources[i].ok());
    }
}

/// While a node has an item to deliver, no sink has received all items.
pub proof fn lemma_sink_room(m: Model, id: u32)
    requires
        m.nodes_ok(),
        m.may_fire(id),
        m.reachable(m.out_of(id)),
        m.items() < wrap(),
        kind(m.out_of(id)) == K_SINK,
    ensures
        m.sinks[idx(m.out_of(id))].count + 1 < wrap(),
{
    let i = idx(id);
    let k = idx(m.out_of(id));
    if kind(id) == K_BELT {
        lemma_without_belt(m, m.out_of(id), i);
    } else if kind(id) == K_MACH {
        let c = m.machines[i];
        assert(c.ok());
        let c1 = MachineV { busy: false, has_out: false, ..c };
        let m1 = m.with_machine(i, c1);
        lemma_machine_items(m, i, c1);
        assert forall|j: int| 0 <= j < m1.machines.len() implies (#[trigger] m1.machines[j]).ok() by {
            assert(m.machines[j].ok());
        }
        assert(m1.nodes_ok());
        lemma_sink_bound(m1, k);
    } else {
        let c = m.sources[i];
        assert(c.ok());
        let c1 = SourceV { until: m.now + 1, ..c };
        let m1 = m.with_source(i, c1);
        lemma_source_items(m, i, c1);
        assert forall|j: int| 0 <= j < m1.sources.len() implies (#[trigger] m1.sources[j]).ok() by {
            assert(m.sources[j].ok());
        }
        assert(m1.nodes_ok());
        lemma_sink_bound(m1, k);
    }
}

// --------------------------------------------------------------------- sources

/// Sources go on from `a` to `b` in one tick.
pub open spec fn sources_go_on(a: Model, b: Model) -> bool {
    &&& b.now == a.now
    &&& b.sources.len() == a.sources.len()
    &&& forall|i: int|
        0 <= i < a.sources.len() ==> {
            ||| (#[trigger] b.sources[i]).until == a.sources[i].until
            ||| a.sources[i].until <= a.now < b.sources[i].until
        }
}

pub proof fn lemma_sources_go_on(m: Model)
    requires
        m.valid(),
        m.linked() || m.tick_fits(),
    ensures
        sources_go_on(m, m.events_done()),
{
    let rel = |a: Model, b: Model| sources_go_on(a, b);
    assert forall|a: Model, a1: Model, id: u32| #[trigger] taken(a, a1, id) implies rel(
        a,
        a1.fire(id),
    ) by {
        lemma_fire_ends(a1, id);
    }
    assert forall|a: Model, b: Model, c: Model| #[trigger] rel(a, b) && #[trigger] rel(
        b,
        c,
    ) implies rel(a, c) by {
        assert forall|i: int| 0 <= i < a.sources.len() implies {
            ||| (#[trigger] c.sources[i]).until == a.sources[i].until
            ||| a.sources[i].until <= a.now < c.sources[i].until
        } by {
            assert(b.sources[i].until == a.sources[i].until || a.sources[i].until <= a.now
                < b.sources[i].until);
        }
    }
    assert(past_queues(rel));
    lemma_tick_stages(m, rel);
}

/// What sources have emitted they no longer hold back.
pub proof fn lemma_emitted(m: Model)
    requires
        m.valid(),
        m.linked() || m.tick_fits(),
    ensures
        m.items_at_sources() - m.events_done().items_at_sources() == m.emitted(),
        0 <= m.emitted() <= m.sources.len(),
{
    lemma_sources_go_on(m);
    let e = m.events_done();
    let f = |i: int, c: SourceV|
        if m.emits(i) {
            1int
        } else {
            0
        };
    assert forall|i: int| 0 <= i < m.sources.len() implies (
    #[trigger] m.sources[i]).pending(m.now) - e.sources[i].pending(m.now) == f(
        i,
        m.sources[i],
    ) by {
        assert(e.sources[i].until == m.sources[i].until || m.sources[i].until <= m.now
            < e.sources[i].until);
    }
    lemma_tally_difference(
        m.sources,
        |i: int, c: SourceV| c.pending(m.now),
        e.sources,
        |i: int, c: SourceV| c.pending(m.now),
        f,
    );
    lemma_tally_nonneg(m.sources, f);
    lemma_tally_at_most(m.sources, f, 1);
}

/// In each tick the items on belts, in machines and received by sinks grow by just
/// what the sources emit: one item at most for each source.
pub proof fn law_events_add_what_is_emitted(m: Model)
    requires
        m.valid(),
        m.linked() || m.tick_fits(),
        m.items() < wrap(),
    ensures
        ({
            let e = m.events_done();
            e.items_on_belts() + e.items_in_machines() + e.delivered() == m.items_on_belts()
                + m.items_in_machines() + m.delivered() + m.emitted()
        }),
        0 <= m.emitted() <= m.sources.len(),
{
    law_events_conserve_items(m);
    lemma_emitted(m);
}

/// In a factory without machines the items on belts and received by sinks grow, in
/// each tick, by just what the sources emit. They never become fewer, whether or
/// not sinks are closed or belts are blocked, and without sources they stay as
/// many.
pub proof fn law_belts_conserve_items(m: Model)
    requires
        m.valid(),
        m.linked() || m.tick_fits(),
        m.machines.len() == 0,
        m.items() < wrap(),
    ensures
        m.step().delivered() + m.step().items_on_belts() == m.delivered() + m.items_on_belts()
            + m.emitted(),
        0 <= m.emitted() <= m.sources.len(),
{
    law_events_add_what_is_emitted(m);
    lemma_step(m);
    let e = m.events_done();
    assert(e.machines.len() == 0);
    assert(m.items_in_machines() == 0);
    assert(e.items_in_machines() == 0);
}

// ------------------------------------------------------------------------ sinks

/// Sinks go on from `a` to `b`: gates stay, a closed sink receives nothing, and no
/// count falls unless it starts again from zero.
pub open spec fn sinks_go_on(a: Model, b: Model) -> bool {
    &&& b.sinks.len() == a.sinks.len()
    &&& forall|i: int|
        0 <= i < a.sinks.len() ==> {
            &&& (#[trigger] b.sinks[i]).open == a.sinks[i].open
            &&& a.sinks[i].open == 0 ==> b.sinks[i].count == a.sinks[i].count
            &&& a.items() < wrap() ==> a.sinks[i].count <= b.sinks[i].count
        }
}

spec fn sinks_in_tick(a: Model, b: Model) -> bool {
    &&& sinks_go_on(a, b)
    &&& a.items() < wrap() ==> b.items() == a.items()
}

proof fn lemma_sinks_in_tick(m: Model)
    requires
        m.valid(),
        m.linked() || m.tick_fits(),
    ensures
        sinks_go_on(m, m.events_done()),
{
    let rel = |a: Model, b: Model| sinks_in_tick(a, b);
    assert forall|a: Model, a1: Model, id: u32| #[trigger] taken(a, a1, id) implies rel(
        a,
        a1.fire(id),
    ) by {
        lemma_fire_ends(a1, id);
        assert(a1.items() == a.items());
        if a.items() < wrap() {
            lemma_fire_items(a1, id);
            if kind(a1.out_of(id)) == K_SINK {
                lemma_sink_room(a1, id);
            }
        }
        let out = a1.out_of(id);
        if kind(out) == K_SINK {
            assert(a.sinks[idx(out)].ok());
        }
    }
    assert forall|a: Model, b: Model, c: Model| #[trigger] rel(a, b) && #[trigger] rel(
        b,
        c,
    ) implies rel(a, c) by {
        assert forall|i: int| 0 <= i < a.sinks.len() implies {
            &&& (#[trigger] c.sinks[i]).open == a.sinks[i].open
            &&& a.sinks[i].open == 0 ==> c.sinks[i].count == a.sinks[i].count
            &&& a.items() < wrap() ==> a.sinks[i].count <= c.sinks[i].count
        } by {
            assert(b.sinks[i].open == a.sinks[i].open);
        }
    }
    assert forall|a: Model, q: Queues| rel(a, #[trigger] a.with_queues(q)) by {
        assert(a.with_queues(q).items() == a.items());
    }
    lemma_tick_stages(m, rel);
}

/// While a factory runs, gates stay as they are, a closed sink receives nothing, and
/// no sink's count becomes less. (Sinks count modulo 2^64, so for the last there
/// must be fewer items than that.)
pub proof fn law_sinks_while_running(m: Model, n: nat, i: int)
    requires
        m.valid(),
        m.linked() || m.ticks_fit(n),
        0 <= i < m.sinks.len(),
    ensures
        m.run(n).sinks.len() == m.sinks.len(),
        m.run(n).sinks[i].open == m.sinks[i].open,
        m.sinks[i].open == 0 ==> m.run(n).sinks[i].count == m.sinks[i].count,
        (forall|k: nat| k < n ==> (#[trigger] m.run(k)).items() < wrap()) ==> m.sinks[i].count
            <= m.run(n).sinks[i].count,
    decreases n,
{
    if n > 0 {
        let k = (n - 1) as nat;
        law_sinks_while_running(m, k, i);
        lemma_run(m, k);
        let p = m.run(k);
        lemma_sinks_in_tick(p);
        assert(p.events_done().sinks[i].open == p.sinks[i].open);
    }
}

} // verus!
