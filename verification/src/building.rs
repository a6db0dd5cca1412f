//! What building does, node by node, and what is counted.

use vstd::prelude::*;

use crate::ids::{node, K_SRC};
use crate::model::{item_count, BeltV, Model, RunV, SinkV, SLOTS};
use crate::seqs::{lemma_tally_push, lemma_tally_update};
use crate::ticks::lemma_run;

verus! {

// -------------------------------------------------------------------------- nodes

/// A new factory has no nodes, its clock is at zero, nothing has happened in it, and
/// events are not sorted.
pub proof fn law_new_factory(id: u32, s: int)
    ensures
        ({
            let m = Model::empty();
            &&& m.belts.len() == 0 && m.machines.len() == 0
            &&& m.sinks.len() == 0 && m.sources.len() == 0
            &&& m.now == 0 && m.events == 0 && !m.sort_events
            &&& !m.q.holds(id) && m.q.ready.len() == 0 && m.q.waits[id].len() == 0
            &&& m.q.far.len() == 0 && m.q.wheel.len() == SLOTS
            &&& 0 <= s < SLOTS ==> m.q.wheel[s].len() == 0
        }),
{
}

/// A new belt is empty and as long and as slow as was asked for; all else stays.
pub proof fn law_new_belt(m: Model, cap: int, period: int, out: u32, i: int)
    ensures
        ({
            let r = m.add_belt(cap, period, out);
            let b = r.belts[m.belts.len() as int];
            &&& r.belts.len() == m.belts.len() + 1
            &&& b.cap == cap && b.period == period && b.out == out
            &&& b.runs.len() == 0 && !b.blocked && b.used(m.now) == 0
            &&& 0 <= i < m.belts.len() ==> r.belts[i] == m.belts[i]
            &&& r.machines == m.machines && r.sinks == m.sinks && r.sources == m.sources
            &&& r.q == m.q && r.now == m.now && r.events == m.events
            &&& r.sort_events == m.sort_events
        }),
{
}

/// A new machine is idle and holds nothing; all else stays.
pub proof fn law_new_machine(
    m: Model,
    in_item: u16,
    need: int,
    out_item: u16,
    dur: int,
    out: u32,
    i: int,
)
    ensures
        ({
            let r = m.add_machine(in_item, need, out_item, dur, out);
            let c = r.machines[m.machines.len() as int];
            &&& r.machines.len() == m.machines.len() + 1
            &&& c.in_item == in_item && c.need == need
            &&& c.out_item == out_item && c.dur == dur && c.out == out
            &&& c.have == 0 && !c.busy && !c.has_out
            &&& 0 <= i < m.machines.len() ==> r.machines[i] == m.machines[i]
            &&& r.belts == m.belts && r.sinks == m.sinks && r.sources == m.sources
            &&& r.q == m.q && r.now == m.now && r.events == m.events
            &&& r.sort_events == m.sort_events
        }),
{
}

/// A new sink is open and has received nothing; all else stays.
pub proof fn law_new_sink(m: Model, i: int)
    ensures
        ({
            let r = m.add_sink();
            let c = r.sinks[m.sinks.len() as int];
            &&& r.sinks.len() == m.sinks.len() + 1
            &&& c.open != 0 && c.count == 0
            &&& 0 <= i < m.sinks.len() ==> r.sinks[i] == m.sinks[i]
            &&& r.belts == m.belts && r.machines == m.machines && r.sources == m.sources
            &&& r.q == m.q && r.now == m.now && r.events == m.events
            &&& r.sort_events == m.sort_events
        }),
{
}

/// A new source may emit its first item at once: it is the next node to be handled. All
/// else stays.
pub proof fn law_new_source(m: Model, item: u16, period: int, out: u32, i: int)
    requires
        m.now >= 0,
    ensures
        ({
            let r = m.add_source(item, period, out);
            let n = m.sources.len() as int;
            let c = r.sources[n];
            &&& r.sources.len() == m.sources.len() + 1
            &&& c.item == item && c.period == period && c.out == out
            &&& c.until <= m.now && !c.blocked
            &&& r.q.ready == m.q.ready.push(node(K_SRC, n))
            &&& r.q.wheel == m.q.wheel && r.q.far == m.q.far && r.q.waits == m.q.waits
            &&& 0 <= i < m.sources.len() ==> r.sources[i] == m.sources[i]
            &&& r.belts == m.belts && r.machines == m.machines && r.sinks == m.sinks
            &&& r.now == m.now && r.events == m.events && r.sort_events == m.sort_events
        }),
{
}

/// A belt that is made to deliver to another node does just that; all else stays.
pub proof fn law_new_out(m: Model, i: int, out: u32, j: int)
    requires
        0 <= i < m.belts.len(),
    ensures
        ({
            let r = m.set_belt_out(i, out);
            let b = m.belts[i];
            let d = r.belts[i];
            &&& r.belts.len() == m.belts.len()
            &&& d.out == out
            &&& d.cap == b.cap && d.period == b.period
            &&& d.runs == b.runs && d.due == b.due && d.blocked == b.blocked
            &&& 0 <= j < m.belts.len() && j != i ==> r.belts[j] == m.belts[j]
            &&& r.machines == m.machines && r.sinks == m.sinks && r.sources == m.sources
            &&& r.q == m.q && r.now == m.now && r.events == m.events
            &&& r.sort_events == m.sort_events
        }),
{
}

/// However long a factory runs, its nodes stay what they are and stay joined as they are,
/// and the clock moves on by one in each tick.
pub proof fn law_layout_stays(m: Model, n: nat, i: int)
    requires
        m.valid(),
        m.linked() || m.ticks_fit(n),
    ensures
        ({
            let r = m.run(n);
            &&& r.now == m.now + n
            &&& r.sort_events == m.sort_events
            &&& r.belts.len() == m.belts.len() && r.machines.len() == m.machines.len()
            &&& r.sinks.len() == m.sinks.len() && r.sources.len() == m.sources.len()
            &&& 0 <= i < m.belts.len() ==> {
                let b = m.belts[i];
                let d = r.belts[i];
                d.out == b.out && d.cap == b.cap && d.period == b.period
            }
            &&& 0 <= i < m.machines.len() ==> {
                let b = m.machines[i];
                let d = r.machines[i];
                &&& d.out == b.out && d.in_item == b.in_item && d.need == b.need
                &&& d.out_item == b.out_item && d.dur == b.dur
            }
            &&& 0 <= i < m.sources.len() ==> {
                let b = m.sources[i];
                let d = r.sources[i];
                d.out == b.out && d.item == b.item && d.period == b.period
            }
        }),
{
    lemma_run(m, n);
    let r = m.run(n);
    if 0 <= i < m.belts.len() {
        assert(r.belts[i].out == m.belts[i].out);
    }
    if 0 <= i < m.machines.len() {
        assert(r.machines[i].out == m.machines[i].out);
    }
    if 0 <= i < m.sources.len() {
        assert(r.sources[i].out == m.sources[i].out);
    }
}

// ------------------------------------------------------------------------- counts

/// What the sinks have received adds up sink by sink.
pub proof fn law_deliveries_add_up(m: Model, i: int, c: SinkV)
    ensures
        m.sinks.len() == 0 ==> m.delivered() == 0,
        0 <= i < m.sinks.len() ==> (Model {
            sinks: m.sinks.update(i, c),
            ..m
        }).delivered() == m.delivered() - m.sinks[i].count + c.count,
        (Model { sinks: m.sinks.push(c), ..m }).delivered() == m.delivered() + c.count,
{
    if 0 <= i < m.sinks.len() {
        lemma_tally_update(m.sinks, |i: int, c: SinkV| c.count, i, c);
    }
    lemma_tally_push(m.sinks, |i: int, c: SinkV| c.count, c);
}

/// What lies on belts adds up belt by belt, and on each belt run by run.
pub proof fn law_items_add_up(m: Model, i: int, b: BeltV, r: RunV)
    ensures
        m.belts.len() == 0 ==> m.items_on_belts() == 0,
        0 <= i < m.belts.len() ==> m.with_belt(i, b).items_on_belts() == m.items_on_belts()
            - item_count(m.belts[i].runs) + item_count(b.runs),
        (Model { belts: m.belts.push(b), ..m }).items_on_belts() == m.items_on_belts()
            + item_count(b.runs),
        item_count(Seq::empty()) == 0,
        item_count(b.runs.push(r)) == item_count(b.runs) + r.count,
{
    let f = |i: int, b: BeltV| item_count(b.runs);
    if 0 <= i < m.belts.len() {
        lemma_tally_update(m.belts, f, i, b);
    }
    lemma_tally_push(m.belts, f, b);
    lemma_tally_push(b.runs, |i: int, r: RunV| r.count, r);
}

} // verus!
