//! Every tick of a factory without loops of one-cell belts comes to an end.
//!
//! Within a tick a machine begins to work at most once, and every other node but
//! a belt of one cell delivers at most once. What goes through belts of one cell
//! goes down their ranks.

use vstd::prelude::*;

use crate::belts::{lemma_lead, lemma_with_item, lemma_without_first};
use crate::ids::{idx, kind, node, K_BELT, K_MACH, K_SRC};
use crate::model::{wrap, BeltV, MachineV, Model, SourceV};
use crate::seqs::{lemma_tally_nonneg, lemma_tally_update, tally};
use crate::ticks::{lemma_ready_once, lemma_same_layout, lemma_timers};
use crate::valid::{lemma_give_keeps_belt, lemma_give_keeps_product, lemma_next_ready};

verus! {

/// A machine can still begin to work at tick `now`.
spec fn may_start(now: int) -> spec_fn(int, MachineV) -> int {
    |i: int, c: MachineV|
        if c.busy && c.until > now {
            0
        } else {
            1
        }
}

/// A machine can still deliver at tick `now`.
spec fn machine_due(now: int) -> spec_fn(int, MachineV) -> int {
    |i: int, c: MachineV|
        if c.has_out || (c.busy && c.until <= now) {
            1
        } else {
            0
        }
}

/// A belt of more than one cell can still deliver at tick `now`.
spec fn belt_due(now: int) -> spec_fn(int, BeltV) -> int {
    |i: int, b: BeltV|
        if b.cap > 1 && b.runs.len() > 0 && b.due <= now {
            1
        } else {
            0
        }
}

/// A source can still emit at tick `now`.
spec fn source_due(now: int) -> spec_fn(int, SourceV) -> int {
    |i: int, c: SourceV|
        if c.until <= now {
            1
        } else {
            0
        }
}

/// How far an item on a belt of one cell can still go.
spec fn way_down(rank: spec_fn(int) -> nat) -> spec_fn(int, BeltV) -> int {
    |i: int, b: BeltV|
        if b.cap == 1 && b.runs.len() > 0 {
            rank(i) as int + 1
        } else {
            0int
        }
}

/// Number of machines that can still begin to work.
spec fn starts_left(m: Model) -> int {
    tally(m.machines, may_start(m.now))
}

/// Number of nodes, but for belts of one cell, that can still deliver.
spec fn moves_left(m: Model) -> int {
    tally(m.machines, machine_due(m.now)) + tally(m.belts, belt_due(m.now)) + tally(
        m.sources,
        source_due(m.now),
    )
}

/// How far the items on belts of one cell can still go.
spec fn way_left(m: Model, rank: spec_fn(int) -> nat) -> int {
    tally(m.belts, way_down(rank))
}

/// `a` has less left to do in this tick than `b`, apart from nodes that are
/// merely ready.
spec fn less_left(a: Model, b: Model, rank: spec_fn(int) -> nat) -> bool {
    ||| starts_left(a) < starts_left(b)
    ||| starts_left(a) == starts_left(b) && moves_left(a) < moves_left(b)
    ||| starts_left(a) == starts_left(b) && moves_left(a) == moves_left(b) && way_left(a, rank)
        < way_left(b, rank)
}

/// `a` has as much left to do in this tick as `b`.
spec fn same_left(a: Model, b: Model, rank: spec_fn(int) -> nat) -> bool {
    &&& starts_left(a) == starts_left(b)
    &&& moves_left(a) == moves_left(b)
    &&& way_left(a, rank) == way_left(b, rank)
}

proof fn lemma_left_nonneg(m: Model, rank: spec_fn(int) -> nat)
    ensures
        starts_left(m) >= 0,
        moves_left(m) >= 0,
        way_left(m, rank) >= 0,
{
    lemma_tally_nonneg(m.machines, may_start(m.now));
    lemma_tally_nonneg(m.machines, machine_due(m.now));
    lemma_tally_nonneg(m.belts, belt_due(m.now));
    lemma_tally_nonneg(m.sources, source_due(m.now));
    lemma_tally_nonneg(m.belts, way_down(rank));
}

/// A machine that begins to work has begun for this tick.
proof fn lemma_start_left(m: Model, i: int, rank: spec_fn(int) -> nat)
    requires
        m.nodes_ok(),
        0 <= i < m.machines.len(),
    ensures
        m.start(i).now == m.now,
        m.start(i).belts == m.belts,
        m.start(i).sources == m.sources,
        moves_left(m.start(i)) == moves_left(m),
        way_left(m.start(i), rank) == way_left(m, rank),
        starts_left(m.start(i)) == starts_left(m) - (if m.starts(i) {
            1int
        } else {
            0
        }),
{
    if m.starts(i) {
        let c = m.machines[i];
        assert(c.ok());
        let c1 = MachineV { have: c.have - c.need, busy: true, until: m.now + c.dur, ..c };
        lemma_tally_update(m.machines, may_start(m.now), i, c1);
        lemma_tally_update(m.machines, machine_due(m.now), i, c1);
        assert(m.start(i).machines == m.machines.update(i, c1));
    }
}

/// What receiving an item leaves to do.
proof fn lemma_give_left(m: Model, target: u32, item: u16, rank: spec_fn(int) -> nat)
    requires
        m.nodes_ok(),
        m.reachable(target),
        m.accepts(target, item),
    ensures
        m.give(target, item).now == m.now,
        m.give(target, item).sources == m.sources,
        starts_left(m.give(target, item)) <= starts_left(m),
        moves_left(m.give(target, item)) == moves_left(m),
        way_left(m.give(target, item), rank) == way_left(m, rank) + (if kind(target) == K_BELT
            && m.belts[idx(target)].cap == 1 {
            rank(idx(target)) as int + 1
        } else {
            0int
        }),
{
    let i = idx(target);
    if kind(target) == K_BELT {
        let b = m.belts[i];
        let b1 = b.with_item(item, m.now);
        assert(b.ok(m.now));
        lemma_with_item(b, item, m.now);
        lemma_tally_update(m.belts, belt_due(m.now), i, b1);
        lemma_tally_update(m.belts, way_down(rank), i, b1);
        lemma_lead(b1, m.now);
        if b.runs.len() > 0 && b.cap == 1 {
            crate::belts::lemma_extent_bounds(b.runs);
            lemma_lead(b, m.now);
        }
        assert(m.give(target, item).belts == m.belts.update(i, b1));
        assert(m.give(target, item).machines == m.machines);
    } else if kind(target) == K_MACH {
        let c = m.machines[i];
        let c1 = MachineV { have: c.have + 1, ..c };
        let m1 = m.with_machine(i, c1);
        assert(c.ok());
        lemma_tally_update(m.machines, may_start(m.now), i, c1);
        lemma_tally_update(m.machines, machine_due(m.now), i, c1);
        if c.have + 1 >= c.need {
            assert forall|j: int| 0 <= j < m1.machines.len() implies (
            #[trigger] m1.machines[j]).ok() by {
                assert(m.machines[j].ok());
            }
            assert forall|j: int| 0 <= j < m1.belts.len() implies (#[trigger] m1.belts[j]).ok(
                m1.now,
            ) by {
                assert(m.belts[j].ok(m.now));
            }
            lemma_start_left(m1, i, rank);
        }
    }
}

/// A node that found no room is not ready.
proof fn lemma_block_left(m: Model, id: u32, target: u32)
    ensures
        m.block(id, target).q.ready == m.q.ready,
        m.block(id, target).now == m.now,
        m.block(id, target).belts == m.belts,
        m.block(id, target).machines == m.machines,
        m.block(id, target).sources == m.sources,
{
}

proof fn lemma_belt_left(m: Model, i: int, rank: spec_fn(int) -> nat)
    requires
        0 <= i < m.belts.len(),
        m.nodes_ok(),
        m.linked(),
        m.ranked_by(rank),
        m.belts[i].runs.len() > 0,
    ensures
        ({
            let r = m.fire_belt(i);
            less_left(r, m, rank) || (same_left(r, m, rank) && r.q.ready == m.q.ready)
        }),
{
    let b = m.belts[i];
    let id = node(K_BELT, i);
    let now = m.now;
    assert(b.ok(now));
    lemma_lead(b, now);
    if b.lead(now) > 0 {
    } else if m.accepts(b.out, b.runs[0].item) {
        let item = b.runs[0].item;
        let m1 = m.give(b.out, item);
        assert(m.reachable(b.out));
        lemma_give_left(m, b.out, item, rank);
        lemma_give_keeps_belt(m, b.out, item, i);
        let b1 = m1.belts[i];
        lemma_give_ok(m, b.out, item, i);
        lemma_without_first(b1, now);
        let left = b1.without_first(now);
        let m2 = m1.with_belt(i, left);
        lemma_tally_update(m1.belts, belt_due(now), i, left);
        lemma_tally_update(m1.belts, way_down(rank), i, left);
        let r = m.fire_belt(i);
        assert(r.belts == m2.belts);
        assert(r.machines == m2.machines);
        assert(r.sources == m2.sources);
        if b.cap == 1 {
            crate::belts::lemma_extent_bounds(b.runs);
            lemma_lead(left, now);
            if left.runs.len() > 0 {
                assert(left.lead(now) <= 0);
            }
            if kind(b.out) == K_BELT && m.belts[idx(b.out)].cap == 1 {
                assert(rank(idx(b.out)) < rank(i));
            }
            assert(way_left(r, rank) < way_left(m, rank));
        } else {
            assert(moves_left(r) < moves_left(m));
        }
    } else {
        let b1 = BeltV { blocked: true, due: now, ..b };
        let m1 = m.with_belt(i, b1);
        lemma_tally_update(m.belts, belt_due(now), i, b1);
        lemma_tally_update(m.belts, way_down(rank), i, b1);
        lemma_block_left(m1, id, b.out);
    }
}

/// A belt is in order after some node has received an item.
proof fn lemma_give_ok(m: Model, target: u32, item: u16, i: int)
    requires
        m.nodes_ok(),
        m.reachable(target),
        m.accepts(target, item),
        0 <= i < m.belts.len(),
    ensures
        m.give(target, item).belts[i].ok(m.now),
        m.give(target, item).belts[i].cap == m.belts[i].cap,
{
    assert(m.belts[i].ok(m.now));
    if kind(target) == K_BELT {
        assert(m.belts[idx(target)].ok(m.now));
        lemma_with_item(m.belts[idx(target)], item, m.now);
    }
}

proof fn lemma_machine_left(m: Model, i: int, rank: spec_fn(int) -> nat)
    requires
        0 <= i < m.machines.len(),
        m.nodes_ok(),
        m.linked(),
        m.may_fire(node(K_MACH, i)),
        i < 0x4000_0000,
    ensures
        ({
            let r = m.fire_machine(i);
            less_left(r, m, rank) || (same_left(r, m, rank) && r.q.ready == m.q.ready)
        }),
{
    let c = m.machines[i];
    let id = node(K_MACH, i);
    let now = m.now;
    assert(c.ok());
    assert(m.reachable(c.out));
    if c.busy {
        let c1 = MachineV { busy: false, ..c };
        let m1 = m.with_machine(i, c1);
        lemma_tally_update(m.machines, may_start(now), i, c1);
        lemma_tally_update(m.machines, machine_due(now), i, c1);
        lemma_nodes_kept(m, m1);
        if m1.accepts(c.out, c.out_item) {
            let m2 = m1.give(c.out, c.out_item);
            lemma_give_left(m1, c.out, c.out_item, rank);
            lemma_give_nodes(m1, c.out, c.out_item);
            lemma_start_left(m2, i, rank);
        } else {
            let c2 = MachineV { has_out: true, ..c1 };
            let m2 = m1.with_machine(i, c2);
            lemma_tally_update(m1.machines, may_start(now), i, c2);
            lemma_tally_update(m1.machines, machine_due(now), i, c2);
            lemma_block_left(m2, id, c.out);
        }
    } else if m.accepts(c.out, c.out_item) {
        let m1 = m.give(c.out, c.out_item);
        lemma_give_left(m, c.out, c.out_item, rank);
        lemma_give_nodes(m, c.out, c.out_item);
        lemma_give_keeps_product(m, c.out, c.out_item, i);
        let c2 = MachineV { has_out: false, ..m1.machines[i] };
        let m2 = m1.with_machine(i, c2);
        assert(m1.machines[i].ok());
        lemma_tally_update(m1.machines, may_start(now), i, c2);
        lemma_tally_update(m1.machines, machine_due(now), i, c2);
        lemma_nodes_kept(m1, m2);
        lemma_start_left(m2, i, rank);
    } else {
        lemma_block_left(m, id, c.out);
    }
}

proof fn lemma_nodes_kept(m: Model, m1: Model)
    requires
        m.nodes_ok(),
        m1.now == m.now,
        m1.belts == m.belts,
        m1.sinks == m.sinks,
        m1.sources == m.sources,
        forall|j: int| 0 <= j < m1.machines.len() ==> (#[trigger] m1.machines[j]).ok(),
    ensures
        m1.nodes_ok(),
{
}

/// All nodes are in order after one has received an item.
pub proof fn lemma_give_nodes(m: Model, target: u32, item: u16)
    requires
        m.nodes_ok(),
        m.reachable(target),
        m.accepts(target, item),
    ensures
        m.give(target, item).nodes_ok(),
        m.give(target, item).now == m.now,
        m.give(target, item).machines.len() == m.machines.len(),
        m.give(target, item).belts.len() == m.belts.len(),
{
    let r = m.give(target, item);
    assert forall|j: int| 0 <= j < r.belts.len() implies (#[trigger] r.belts[j]).ok(r.now) by {
        lemma_give_ok(m, target, item, j);
    }
    assert forall|j: int| 0 <= j < r.machines.len() implies (#[trigger] r.machines[j]).ok() by {
        assert(m.machines[j].ok());
    }
    assert forall|j: int| 0 <= j < r.sinks.len() implies (#[trigger] r.sinks[j]).ok() by {
        assert(m.sinks[j].ok());
    }
}

proof fn lemma_source_left(m: Model, i: int, rank: spec_fn(int) -> nat)
    requires
        0 <= i < m.sources.len(),
        m.nodes_ok(),
        m.linked(),
        m.sources[i].until <= m.now,
    ensures
        ({
            let r = m.fire_source(i);
            less_left(r, m, rank) || (same_left(r, m, rank) && r.q.ready == m.q.ready)
        }),
{
    let c = m.sources[i];
    let id = node(K_SRC, i);
    assert(c.ok());
    assert(m.reachable(c.out));
    if m.accepts(c.out, c.item) {
        let c1 = SourceV { blocked: false, until: m.now + c.period, ..c };
        lemma_give_left(m, c.out, c.item, rank);
        lemma_tally_update(m.sources, source_due(m.now), i, c1);
    } else {
        let c1 = SourceV { blocked: true, ..c };
        lemma_tally_update(m.sources, source_due(m.now), i, c1);
        lemma_block_left(m.with_source(i, c1), id, c.out);
    }
}

/// Handling a ready node leaves less to do in this tick.
proof fn lemma_ready_left(m: Model, rank: spec_fn(int) -> nat)
    requires
        m.valid(),
        m.linked(),
        m.ranked_by(rank),
        m.q.ready.len() > 0,
    ensures
        less_left(m.fire_ready(), m, rank) || (same_left(m.fire_ready(), m, rank)
            && m.fire_ready().q.ready.len() < m.q.ready.len()),
{
    let id = m.q.ready.last();
    let i = idx(id);
    lemma_next_ready(m);
    let m1 = m.with_queues(m.q.take_ready());
    let m2 = Model { events: (m1.events + 1) % wrap(), ..m1 };
    lemma_same_layout(m2, m);
    assert(m2.nodes_ok());
    assert(m2.may_fire(id));
    if kind(id) == K_BELT {
        lemma_belt_left(m2, i, rank);
    } else if kind(id) == K_MACH {
        assert(id == node(K_MACH, i));
        lemma_machine_left(m2, i, rank);
    } else {
        lemma_source_left(m2, i, rank);
    }
}

/// The ready nodes come to an end.
proof fn lemma_settles(m: Model, rank: spec_fn(int) -> nat) -> (n: nat)
    requires
        m.valid(),
        m.linked(),
        m.ranked_by(rank),
    ensures
        m.settles_within(n),
    decreases starts_left(m), moves_left(m), way_left(m, rank), m.q.ready.len(),
{
    if m.q.ready.len() == 0 {
        0
    } else {
        let r = m.fire_ready();
        lemma_ready_once(m);
        lemma_same_layout(r, m);
        lemma_ready_left(m, rank);
        lemma_left_nonneg(r, rank);
        let n = lemma_settles(r, rank);
        n + 1
    }
}

/// Every tick of a factory without loops of one-cell belts comes to an end.
pub proof fn law_tick_ends(m: Model)
    requires
        m.valid(),
        m.linked(),
        m.loop_free(),
    ensures
        m.tick_ends(),
{
    let rank = choose|rank: spec_fn(int) -> nat| m.ranked_by(rank);
    lemma_timers(m);
    lemma_same_layout(m.timers(), m);
    let n = lemma_settles(m.timers(), rank);
    assert(m.timers().settles_within(n));
}

} // verus!
