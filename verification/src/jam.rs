//! A factory whose sinks are all closed comes to rest.

use vstd::prelude::*;

use crate::belts::{lemma_items_fit, lemma_lead, lemma_with_item, lemma_without_first};
use crate::cells::law_belt_moves;
use crate::ids::{idx, kind, node, K_BELT, K_MACH, K_SRC};
use crate::model::{item_count, wrap, BeltV, MachineV, Model, Place, SourceV};
use crate::queues::{lemma_take_far, lemma_take_ready, lemma_take_slot};
use crate::rest::{law_all_waiting_is_asleep, law_asleep_is_free};
use crate::seqs::{
    lemma_tally_differs, lemma_tally_le, lemma_tally_nonneg, lemma_tally_same, lemma_tally_update,
    tally,
};
use crate::settle::law_tick_ends;
use crate::ticks::{
    law_run_splits, lemma_drain_far, lemma_far_once, lemma_first_due, lemma_ready_once,
    lemma_reorder, lemma_run, lemma_same_layout, lemma_slot_once, lemma_step, lemma_timers,
};
use crate::valid::{
    lemma_change_machine, lemma_give, lemma_next_far, lemma_next_ready, lemma_next_slot,
};

verus! {

/// `rank` falls from the node `id` to `out`, if that is a belt or a machine.
pub open spec fn drops(rank: spec_fn(u32) -> nat, top: nat, id: u32, out: u32) -> bool {
    &&& rank(id) <= top
    &&& kind(out) == K_BELT || kind(out) == K_MACH ==> rank(out) < rank(id)
}

impl Model {
    /// No sink is open.
    pub open spec fn shut(self) -> bool {
        forall|i: int| 0 <= i < self.sinks.len() ==> (#[trigger] self.sinks[i]).open == 0
    }

    /// `rank` falls along every delivery to a belt or a machine, and is at
    /// most `top`.
    pub open spec fn falls_by(self, rank: spec_fn(u32) -> nat, top: nat) -> bool {
        &&& forall|i: int|
            0 <= i < self.belts.len() ==> drops(
                rank,
                top,
                node(K_BELT, i),
                (#[trigger] self.belts[i]).out,
            )
        &&& forall|i: int|
            0 <= i < self.machines.len() ==> drops(
                rank,
                top,
                node(K_MACH, i),
                (#[trigger] self.machines[i]).out,
            )
    }

    /// No item can come back to where it was.
    pub open spec fn acyclic(self) -> bool {
        exists|rank: spec_fn(u32) -> nat, top: nat| self.falls_by(rank, top)
    }

    /// All nodes carry what they carry in `pre`, and are as busy.
    spec fn same_contents(self, pre: Model) -> bool {
        &&& self.now == pre.now
        &&& self.belts.len() == pre.belts.len()
        &&& forall|i: int|
            0 <= i < self.belts.len() ==> {
                let b = #[trigger] self.belts[i];
                let p = pre.belts[i];
                &&& b.out == p.out
                &&& b.cap == p.cap
                &&& b.period == p.period
                &&& b.runs == p.runs
                &&& b.blocked == p.blocked
                &&& !b.blocked ==> b.due == p.due
            }
        &&& self.machines == pre.machines
        &&& self.sources == pre.sources
        &&& self.sinks == pre.sinks
    }
}

/// A rank goes by the layout alone.
proof fn lemma_falls(m: Model, pre: Model, rank: spec_fn(u32) -> nat, top: nat)
    requires
        m.belts.len() == pre.belts.len(),
        m.machines.len() == pre.machines.len(),
        forall|i: int|
            0 <= i < m.belts.len() ==> (#[trigger] m.belts[i]).out == pre.belts[i].out,
        forall|i: int|
            0 <= i < m.machines.len() ==> (#[trigger] m.machines[i]).out == pre.machines[i].out,
        pre.falls_by(rank, top),
    ensures
        m.falls_by(rank, top),
{
    assert forall|i: int| 0 <= i < m.belts.len() implies drops(
        rank,
        top,
        node(K_BELT, i),
        (#[trigger] m.belts[i]).out,
    ) by {
        assert(pre.belts[i].out == m.belts[i].out);
    }
    assert forall|i: int| 0 <= i < m.machines.len() implies drops(
        rank,
        top,
        node(K_MACH, i),
        (#[trigger] m.machines[i]).out,
    ) by {
        assert(pre.machines[i].out == m.machines[i].out);
    }
}

/// 300 to the power of `k`.
spec fn weight(k: nat) -> nat
    decreases k,
{
    if k == 0 {
        1
    } else {
        300 * weight((k - 1) as nat)
    }
}

/// What room for one item at the node `id` counts for: the further down, the
/// more.
spec fn room(rank: spec_fn(u32) -> nat, top: nat, id: u32) -> int {
    weight((top - rank(id) + 1) as nat) as int
}

proof fn lemma_weight(a: nat, b: nat)
    requires
        b < a,
    ensures
        weight(a) >= 300 * weight(b),
        weight(b) >= 1,
    decreases a,
{
    if b + 1 < a {
        lemma_weight((a - 1) as nat, b);
    } else {
        lemma_weight_positive(b);
    }
}

proof fn lemma_weight_positive(b: nat)
    ensures
        weight(b) >= 1,
    decreases b,
{
    if b > 0 {
        lemma_weight_positive((b - 1) as nat);
    }
}

/// Room further down counts for far more.
proof fn lemma_room(rank: spec_fn(u32) -> nat, top: nat, x: u32, y: u32)
    requires
        rank(y) < rank(x) <= top,
    ensures
        room(rank, top, y) >= 300 * room(rank, top, x),
        room(rank, top, x) >= 300,
{
    lemma_weight((top - rank(y) + 1) as nat, (top - rank(x) + 1) as nat);
    lemma_room_least(rank, top, x);
}

proof fn lemma_room_least(rank: spec_fn(u32) -> nat, top: nat, x: u32)
    requires
        rank(x) <= top,
    ensures
        room(rank, top, x) >= 300,
{
    lemma_weight((top - rank(x) + 1) as nat, 0);
}

// ----------------------------------------------------------------------- hope

/// What may still happen at a belt.
spec fn belt_hope(rank: spec_fn(u32) -> nat, top: nat, i: int, b: BeltV) -> int {
    (b.cap - item_count(b.runs)) * room(rank, top, node(K_BELT, i)) + (if b.runs.len() > 0
        && !b.blocked {
        1int
    } else {
        0
    })
}

/// What may still happen at a machine.
spec fn machine_hope(rank: spec_fn(u32) -> nat, top: nat, i: int, c: MachineV) -> int {
    (c.need - c.have) * room(rank, top, node(K_MACH, i)) + (if c.busy {
        1
    } else if c.has_out {
        0
    } else {
        256 * room(rank, top, node(K_MACH, i)) + 2
    })
}

/// What may still happen at a source.
spec fn source_hope(c: SourceV) -> int {
    if c.blocked {
        0
    } else {
        1
    }
}

impl Model {
    /// What may still happen, while all sinks are closed. It gets less with every
    /// event but those that end where they began.
    spec fn hope(self, rank: spec_fn(u32) -> nat, top: nat) -> int {
        tally(self.belts, |i: int, b: BeltV| belt_hope(rank, top, i, b)) + tally(
            self.machines,
            |i: int, c: MachineV| machine_hope(rank, top, i, c),
        ) + tally(self.sources, |i: int, c: SourceV| source_hope(c))
    }
}

proof fn lemma_belt_hope(m: Model, rank: spec_fn(u32) -> nat, top: nat, i: int, b: BeltV)
    requires
        0 <= i < m.belts.len(),
    ensures
        m.with_belt(i, b).hope(rank, top) == m.hope(rank, top) - belt_hope(
            rank,
            top,
            i,
            m.belts[i],
        ) + belt_hope(rank, top, i, b),
{
    lemma_tally_update(m.belts, |i: int, b: BeltV| belt_hope(rank, top, i, b), i, b);
}

proof fn lemma_machine_hope(m: Model, rank: spec_fn(u32) -> nat, top: nat, i: int, c: MachineV)
    requires
        0 <= i < m.machines.len(),
    ensures
        m.with_machine(i, c).hope(rank, top) == m.hope(rank, top) - machine_hope(
            rank,
            top,
            i,
            m.machines[i],
        ) + machine_hope(rank, top, i, c),
{
    lemma_tally_update(
        m.machines,
        |i: int, c: MachineV| machine_hope(rank, top, i, c),
        i,
        c,
    );
}

proof fn lemma_source_hope(m: Model, rank: spec_fn(u32) -> nat, top: nat, i: int, c: SourceV)
    requires
        0 <= i < m.sources.len(),
    ensures
        m.with_source(i, c).hope(rank, top) == m.hope(rank, top) - source_hope(m.sources[i])
            + source_hope(c),
{
    lemma_tally_update(m.sources, |i: int, c: SourceV| source_hope(c), i, c);
}

proof fn lemma_hope_nonneg(m: Model, rank: spec_fn(u32) -> nat, top: nat)
    requires
        m.nodes_ok(),
        m.falls_by(rank, top),
    ensures
        m.hope(rank, top) >= 0,
{
    assert forall|i: int| 0 <= i < m.belts.len() implies belt_hope(
        rank,
        top,
        i,
        #[trigger] m.belts[i],
    ) >= 0 by {
        let b = m.belts[i];
        assert(b.ok(m.now));
        lemma_items_fit(b, m.now);
        lemma_room_least(rank, top, node(K_BELT, i));
        let w = room(rank, top, node(K_BELT, i));
        assert((b.cap - item_count(b.runs)) * w >= 0) by (nonlinear_arith)
            requires
                b.cap - item_count(b.runs) >= 0,
                w >= 0,
        ;
    }
    lemma_tally_nonneg(m.belts, |i: int, b: BeltV| belt_hope(rank, top, i, b));
    assert forall|i: int| 0 <= i < m.machines.len() implies machine_hope(
        rank,
        top,
        i,
        #[trigger] m.machines[i],
    ) >= 0 by {
        let c = m.machines[i];
        assert(c.ok());
        lemma_room_least(rank, top, node(K_MACH, i));
        let w = room(rank, top, node(K_MACH, i));
        assert((c.need - c.have) * w >= 0) by (nonlinear_arith)
            requires
                c.need - c.have >= 0,
                w >= 0,
        ;
    }
    lemma_tally_nonneg(m.machines, |i: int, c: MachineV| machine_hope(rank, top, i, c));
    lemma_tally_nonneg(m.sources, |i: int, c: SourceV| source_hope(c));
}

/// A machine that begins to work leaves less to happen.
proof fn lemma_start_hope(m: Model, rank: spec_fn(u32) -> nat, top: nat, i: int)
    requires
        m.nodes_ok(),
        m.falls_by(rank, top),
        0 <= i < m.machines.len(),
    ensures
        m.start(i).hope(rank, top) <= m.hope(rank, top),
        m.start(i).machines.len() == m.machines.len(),
{
    let c = m.machines[i];
    assert(c.ok());
    if m.starts(i) {
        let c1 = MachineV { have: c.have - c.need, busy: true, until: m.now + c.dur, ..c };
        lemma_machine_hope(m, rank, top, i, c1);
        let w = room(rank, top, node(K_MACH, i));
        lemma_room_least(rank, top, node(K_MACH, i));
        assert((c.need - (c.have - c.need)) * w == (c.need - c.have) * w + c.need * w)
            by (nonlinear_arith);
        assert(c.need * w <= 255 * w) by (nonlinear_arith)
            requires
                c.need <= 255,
                w >= 0,
        ;
    }
}

/// An item that is given to a node takes room there.
proof fn lemma_give_hope(m: Model, rank: spec_fn(u32) -> nat, top: nat, target: u32, item: u16)
    requires
        m.nodes_ok(),
        m.falls_by(rank, top),
        m.reachable(target),
        m.accepts(target, item),
        kind(target) == K_BELT || kind(target) == K_MACH,
    ensures
        m.give(target, item).hope(rank, top) <= m.hope(rank, top) - room(rank, top, target) + 1,
        m.give(target, item).sinks == m.sinks,
        m.give(target, item).sources == m.sources,
        m.give(target, item).now == m.now,
{
    let i = idx(target);
    let w = room(rank, top, target);
    if kind(target) == K_BELT {
        let b = m.belts[i];
        assert(target == node(K_BELT, i));
        assert(b.ok(m.now));
        lemma_with_item(b, item, m.now);
        let b1 = b.with_item(item, m.now);
        lemma_belt_hope(m, rank, top, i, b1);
        assert((b.cap - (item_count(b.runs) + 1)) * w == (b.cap - item_count(b.runs)) * w - w)
            by (nonlinear_arith);
    } else {
        let c = m.machines[i];
        assert(target == node(K_MACH, i));
        assert(c.ok());
        let c1 = MachineV { have: c.have + 1, ..c };
        lemma_machine_hope(m, rank, top, i, c1);
        assert((c.need - (c.have + 1)) * w == (c.need - c.have) * w - w) by (nonlinear_arith);
        let m1 = m.with_machine(i, c1);
        assert forall|k: int| 0 <= k < m1.machines.len() implies (#[trigger] m1.machines[k]).ok() by {
            assert(m.machines[k].ok());
        }
        assert(m1.nodes_ok());
        lemma_falls(m1, m, rank, top);
        lemma_start_hope(m1, rank, top, i);
    }
}

// --------------------------------------------------------------------- events

/// The event of the node `id` led from `m` to `r` and changed nothing: the node
/// found no room, as before.
spec fn stuck(m: Model, r: Model, id: u32) -> bool {
    let out = m.out_of(id);
    &&& r.same_contents(m)
    &&& r.q == m.block(id, out).q
    &&& kind(out) == K_BELT ==> m.belts[idx(out)].used(m.now) >= m.belts[idx(out)].cap
}

/// The event of the node `id` led from `m` to `r`: less may happen after it, or
/// it changed nothing.
spec fn spent(m: Model, r: Model, rank: spec_fn(u32) -> nat, top: nat, id: u32) -> bool {
    &&& r.sinks == m.sinks
    &&& r.hope(rank, top) < m.hope(rank, top) || stuck(m, r, id)
}

proof fn lemma_fire_belt_hope(m: Model, rank: spec_fn(u32) -> nat, top: nat, i: int)
    requires
        0 <= i < m.belts.len(),
        m.valid_except(set![node(K_BELT, i)]),
        m.may_fire(node(K_BELT, i)),
        m.linked(),
        m.shut(),
        m.falls_by(rank, top),
    ensures
        spent(m, m.fire_belt(i), rank, top, node(K_BELT, i)),
{
    let id = node(K_BELT, i);
    let b = m.belts[i];
    let w = room(rank, top, id);
    assert(b.ok(m.now));
    lemma_lead(b, m.now);
    assert(m.reachable(b.out));
    assert(drops(rank, top, id, b.out));
    let item = b.runs[0].item;
    if m.accepts(b.out, item) {
        assert(kind(b.out) == K_BELT || kind(b.out) == K_MACH);
        lemma_room(rank, top, id, b.out);
        lemma_give_hope(m, rank, top, b.out, item);
        let m1 = m.give(b.out, item);
        assert(b.out != id);
        assert(m1.belts[i] == b);
        lemma_without_first(b, m.now);
        let left = b.without_first(m.now);
        lemma_belt_hope(m1, rank, top, i, left);
        assert((b.cap - (item_count(b.runs) - 1)) * w == (b.cap - item_count(b.runs)) * w + w)
            by (nonlinear_arith);
    } else {
        let b1 = BeltV { blocked: true, due: m.now, ..b };
        let m1 = m.with_belt(i, b1);
        lemma_belt_hope(m, rank, top, i, b1);
        assert(b.out != id);
        if b.blocked {
            let r = m1.block(id, b.out);
            assert(kind(b.out) == K_BELT ==> m1.belts[idx(b.out)] == m.belts[idx(b.out)]);
            assert(r.q == m.block(id, b.out).q);
            assert(stuck(m, r, id));
        }
    }
}

proof fn lemma_fire_machine_hope(m: Model, rank: spec_fn(u32) -> nat, top: nat, i: int)
    requires
        0 <= i < m.machines.len(),
        m.valid_except(set![node(K_MACH, i)]),
        m.may_fire(node(K_MACH, i)),
        m.linked(),
        m.shut(),
        m.falls_by(rank, top),
    ensures
        spent(m, m.fire_machine(i), rank, top, node(K_MACH, i)),
{
    let id = node(K_MACH, i);
    let c = m.machines[i];
    let ex = set![id];
    assert(c.ok());
    assert(m.reachable(c.out));
    assert(drops(rank, top, id, c.out));
    if c.busy {
        let c1 = MachineV { busy: false, ..c };
        let m1 = m.with_machine(i, c1);
        lemma_machine_hope(m, rank, top, i, c1);
        lemma_change_machine(m, ex, i, c1);
        lemma_falls(m1, m, rank, top);
        if m1.accepts(c.out, c.out_item) {
            assert(kind(c.out) == K_BELT || kind(c.out) == K_MACH);
            lemma_room(rank, top, id, c.out);
            lemma_give_hope(m1, rank, top, c.out, c.out_item);
            lemma_give(m1, ex, c.out, c.out_item);
            let m2 = m1.give(c.out, c.out_item);
            lemma_falls(m2, m1, rank, top);
            lemma_start_hope(m2, rank, top, i);
        } else {
            lemma_machine_hope(m1, rank, top, i, MachineV { has_out: true, ..c1 });
        }
    } else if m.accepts(c.out, c.out_item) {
        assert(kind(c.out) == K_BELT || kind(c.out) == K_MACH);
        lemma_room(rank, top, id, c.out);
        lemma_give_hope(m, rank, top, c.out, c.out_item);
        lemma_give(m, ex, c.out, c.out_item);
        let m1 = m.give(c.out, c.out_item);
        lemma_falls(m1, m, rank, top);
        assert(c.out != id);
        assert(m1.machines[i] == c);
        let c2 = MachineV { has_out: false, ..c };
        let m2 = m1.with_machine(i, c2);
        lemma_machine_hope(m1, rank, top, i, c2);
        assert forall|k: int| 0 <= k < m2.machines.len() implies (#[trigger] m2.machines[k]).ok() by {
            assert(m1.machines[k].ok());
        }
        assert(m2.nodes_ok());
        lemma_falls(m2, m1, rank, top);
        lemma_start_hope(m2, rank, top, i);
    } else {
        assert(stuck(m, m.block(id, c.out), id));
    }
}

proof fn lemma_fire_source_hope(m: Model, rank: spec_fn(u32) -> nat, top: nat, i: int)
    requires
        0 <= i < m.sources.len(),
        m.valid_except(set![node(K_SRC, i)]),
        m.may_fire(node(K_SRC, i)),
        m.sources.len() <= 0x3fff_ffff,
        m.linked(),
        m.shut(),
        m.falls_by(rank, top),
    ensures
        spent(m, m.fire_source(i), rank, top, node(K_SRC, i)),
{
    let id = node(K_SRC, i);
    let c = m.sources[i];
    assert(m.reachable(c.out));
    if m.accepts(c.out, c.item) {
        assert(kind(c.out) == K_BELT || kind(c.out) == K_MACH);
        lemma_give_hope(m, rank, top, c.out, c.item);
        assert(rank(c.out) <= top) by {
            if kind(c.out) == K_BELT {
                assert(c.out == node(K_BELT, idx(c.out)));
                assert(drops(rank, top, c.out, m.belts[idx(c.out)].out));
            } else {
                assert(c.out == node(K_MACH, idx(c.out)));
                assert(drops(rank, top, c.out, m.machines[idx(c.out)].out));
            }
        }
        lemma_room_least(rank, top, c.out);
        let m1 = m.give(c.out, c.item);
        lemma_source_hope(
            m1,
            rank,
            top,
            i,
            SourceV { blocked: false, until: m.now + c.period, ..c },
        );
    } else {
        let c1 = SourceV { blocked: true, ..c };
        lemma_source_hope(m, rank, top, i, c1);
        if c.blocked {
            let m1 = m.with_source(i, c1);
            assert(m1.sources =~= m.sources);
            assert(stuck(m, m1.block(id, c.out), id));
        }
    }
}

proof fn lemma_fire_hope(m: Model, rank: spec_fn(u32) -> nat, top: nat, id: u32)
    requires
        m.valid_except(set![id]),
        m.may_fire(id),
        m.linked(),
        m.shut(),
        m.falls_by(rank, top),
    ensures
        spent(m, m.fire(id), rank, top, id),
{
    let m0 = Model { events: (m.events + 1) % wrap(), ..m };
    let i = idx(id);
    assert(m0.valid_except(set![id])) by {
        assert forall|x: u32| #[trigger] m0.q.holds(x) implies m0.live(x) && m0.engaged(x)
            && m0.timely(x) && !set![id].contains(x) by {
            assert(m.q.holds(x));
        }
        assert forall|x: u32|
            m0.live(x) && #[trigger] m0.engaged(x) && !set![id].contains(x) implies m0.q.holds(
            x,
        ) by {
            assert(m.engaged(x));
        }
    }
    lemma_falls(m0, m, rank, top);
    assert(m0.hope(rank, top) == m.hope(rank, top));
    if kind(id) == K_BELT {
        assert(id == node(K_BELT, i));
        lemma_fire_belt_hope(m0, rank, top, i);
    } else if kind(id) == K_MACH {
        assert(id == node(K_MACH, i));
        lemma_fire_machine_hope(m0, rank, top, i);
    } else {
        assert(id == node(K_SRC, i));
        lemma_fire_source_hope(m0, rank, top, i);
    }
}

// ------------------------------------------------------------------- patience

impl Model {
    /// At tick `t` the node `id` will find a belt that is in motion and full, if
    /// nothing else happens until then.
    spec fn too_early(self, id: u32, t: int) -> bool {
        let out = self.out_of(id);
        let b = self.belts[idx(out)];
        kind(out) == K_BELT && b.runs.len() > 0 && !b.blocked && b.used(t) >= b.cap
    }

    /// The node `id` is to be handled, now or later.
    spec fn awake(self, id: u32) -> bool {
        self.q.holds(id) && !(self.q.place[id] is Waiting)
    }

    /// The tick at which the node `id`, which is awake, is to be handled.
    spec fn turn(self, id: u32) -> int {
        match self.q.place[id] {
            Place::Wheel(t) => t,
            Place::Far(t) => t,
            _ => self.now,
        }
    }

    /// How long the node `id` may stay awake if nothing happens.
    spec fn wakeful(self, id: u32) -> int {
        if self.awake(id) {
            self.turn(id) - self.now + (if self.too_early(id, self.turn(id)) {
                0x1_0001int
            } else {
                1
            })
        } else {
            0
        }
    }

    /// How long nodes may stay awake if nothing happens, taken together.
    spec fn patience(self) -> int {
        tally(self.belts, |i: int, b: BeltV| self.wakeful(node(K_BELT, i))) + tally(
            self.machines,
            |i: int, c: MachineV| self.wakeful(node(K_MACH, i)),
        ) + tally(self.sources, |i: int, c: SourceV| self.wakeful(node(K_SRC, i)))
    }

    /// No item is at the head of a belt that is in motion.
    spec fn calm(self) -> bool {
        forall|i: int|
            0 <= i < self.belts.len() && (#[trigger] self.belts[i]).runs.len() > 0
                && !self.belts[i].blocked ==> self.belts[i].due > self.now
    }
}

proof fn lemma_patience_nonneg(m: Model)
    requires
        m.valid(),
    ensures
        m.patience() >= 0,
        forall|id: u32| #[trigger] m.wakeful(id) >= 0,
        forall|id: u32| m.awake(id) ==> #[trigger] m.wakeful(id) >= 1,
{
    assert forall|id: u32| #[trigger] m.wakeful(id) >= 0 && (m.awake(id) ==> m.wakeful(id) >= 1) by {
        if m.awake(id) {
            assert(m.q.at_home(m.now, id));
        }
    }
    lemma_tally_nonneg(m.belts, |i: int, b: BeltV| m.wakeful(node(K_BELT, i)));
    lemma_tally_nonneg(m.machines, |i: int, c: MachineV| m.wakeful(node(K_MACH, i)));
    lemma_tally_nonneg(m.sources, |i: int, c: SourceV| m.wakeful(node(K_SRC, i)));
}

/// Patience, when one node has changed.
proof fn lemma_patience_differs(m: Model, r: Model, id: u32)
    requires
        m.live(id),
        r.belts.len() == m.belts.len(),
        r.machines.len() == m.machines.len(),
        r.sources.len() == m.sources.len(),
        m.belts.len() <= 0x4000_0000,
        m.machines.len() <= 0x4000_0000,
        m.sources.len() <= 0x3fff_ffff,
        forall|x: u32| x != id && m.live(x) ==> #[trigger] r.wakeful(x) == m.wakeful(x),
    ensures
        r.patience() == m.patience() - m.wakeful(id) + r.wakeful(id),
{
    let k = idx(id);
    let f0 = |i: int, b: BeltV| m.wakeful(node(K_BELT, i));
    let g0 = |i: int, b: BeltV| r.wakeful(node(K_BELT, i));
    let f1 = |i: int, c: MachineV| m.wakeful(node(K_MACH, i));
    let g1 = |i: int, c: MachineV| r.wakeful(node(K_MACH, i));
    let f2 = |i: int, c: SourceV| m.wakeful(node(K_SRC, i));
    let g2 = |i: int, c: SourceV| r.wakeful(node(K_SRC, i));
    assert forall|i: int| 0 <= i < m.belts.len() && node(K_BELT, i) != id implies f0(
        i,
        #[trigger] m.belts[i],
    ) == g0(i, r.belts[i]) by {
        assert(m.live(node(K_BELT, i)));
    }
    assert forall|i: int| 0 <= i < m.machines.len() && node(K_MACH, i) != id implies f1(
        i,
        #[trigger] m.machines[i],
    ) == g1(i, r.machines[i]) by {
        assert(m.live(node(K_MACH, i)));
    }
    assert forall|i: int| 0 <= i < m.sources.len() && node(K_SRC, i) != id implies f2(
        i,
        #[trigger] m.sources[i],
    ) == g2(i, r.sources[i]) by {
        assert(m.live(node(K_SRC, i)));
    }
    if kind(id) == K_BELT {
        assert(id == node(K_BELT, k));
        lemma_tally_differs(m.belts, f0, r.belts, g0, k);
    } else {
        lemma_tally_same(m.belts, f0, r.belts, g0);
    }
    if kind(id) == K_MACH {
        assert(id == node(K_MACH, k));
        lemma_tally_differs(m.machines, f1, r.machines, g1, k);
    } else {
        lemma_tally_same(m.machines, f1, r.machines, g1);
    }
    if kind(id) == K_SRC {
        assert(id == node(K_SRC, k));
        lemma_tally_differs(m.sources, f2, r.sources, g2, k);
    } else {
        lemma_tally_same(m.sources, f2, r.sources, g2);
    }
}

/// What a belt that is not blocked holds at some tick goes by its contents.
proof fn lemma_same_early(m: Model, r: Model, id: u32, t: int)
    requires
        r.same_contents(m),
        m.live(id),
        m.linked(),
    ensures
        r.out_of(id) == m.out_of(id),
        r.too_early(id, t) == m.too_early(id, t),
{
    let i = idx(id);
    if kind(id) == K_BELT {
        assert(r.belts[i].out == m.belts[i].out);
        assert(m.reachable(m.belts[i].out));
    } else if kind(id) == K_MACH {
        assert(m.reachable(m.machines[i].out));
    } else {
        assert(m.reachable(m.sources[i].out));
    }
    let out = m.out_of(id);
    if kind(out) == K_BELT {
        let j = idx(out);
        assert(r.belts[j].runs == m.belts[j].runs);
    }
}

/// A node was handled and found no room, as before: it will be awake for less
/// time from then on.
proof fn lemma_stuck_patience(m: Model, m1: Model, r: Model, id: u32)
    requires
        m.valid(),
        m.linked(),
        m.q.holds(id),
        m.q.place[id] == Place::Ready || m.q.place[id] == Place::Wheel(m.now) || m.q.place[id]
            == Place::Far(m.now),
        m1 == m.with_queues(m1.q),
        m1.q.place == m.q.place.remove(id),
        stuck(m1, r, id),
        m.calm(),
    ensures
        r.patience() < m.patience(),
{
    let out = m.out_of(id);
    let j = idx(out);
    let b = m.belts[j];
    assert(m.live(id));
    assert(m1.out_of(id) == out);
    assert(r.same_contents(m));
    assert forall|x: u32| x != id && m.live(x) implies #[trigger] r.wakeful(x) == m.wakeful(x) by {
        lemma_same_early(m, r, x, m.turn(x));
        assert(r.q.holds(x) == m.q.holds(x));
        if m.q.holds(x) {
            assert(r.q.place[x] == m.q.place[x]);
        }
    }
    lemma_patience_differs(m, r, id);
    if kind(out) == K_BELT && !b.blocked && b.runs.len() > 0 {
        assert(m.reachable(out)) by {
            if kind(id) == K_BELT {
                assert(m.reachable(m.belts[idx(id)].out));
            } else if kind(id) == K_MACH {
                assert(m.reachable(m.machines[idx(id)].out));
            } else {
                assert(m.reachable(m.sources[idx(id)].out));
            }
        }
        assert(b.ok(m.now));
        lemma_lead(b, m.now);
        let t = b.next_move(m.now);
        law_belt_moves(b, m.now, 0, 0);
        assert(b.used(t) == b.used(m.now) - 1);
        assert(r.turn(id) == t);
        lemma_same_early(m, r, id, t);
        assert(m.too_early(id, m.now));
        assert(!r.too_early(id, t));
    } else {
        assert(!r.awake(id));
    }
}

// ---------------------------------------------------------------------- ticks

/// From `m` to `r`: less may happen, or nothing has changed and nodes will not
/// stay awake for longer.
spec fn wanes(m: Model, r: Model, rank: spec_fn(u32) -> nat, top: nat) -> bool {
    &&& r.sinks == m.sinks
    &&& r.hope(rank, top) < m.hope(rank, top) || (r.same_contents(m) && (m.calm()
        ==> r.patience() <= m.patience()))
}

/// What may happen goes by what the nodes carry.
proof fn lemma_same_hope(m: Model, r: Model, rank: spec_fn(u32) -> nat, top: nat)
    requires
        r.same_contents(m),
    ensures
        r.hope(rank, top) == m.hope(rank, top),
        m.calm() ==> r.calm(),
        r.calm() ==> m.calm(),
{
    let f = |i: int, b: BeltV| belt_hope(rank, top, i, b);
    assert forall|i: int| 0 <= i < m.belts.len() implies f(i, #[trigger] m.belts[i]) == f(
        i,
        r.belts[i],
    ) by {
        assert(r.belts[i].runs == m.belts[i].runs);
    }
    lemma_tally_same(m.belts, f, r.belts, f);
    if r.calm() {
        assert forall|i: int|
            0 <= i < m.belts.len() && (#[trigger] m.belts[i]).runs.len() > 0
                && !m.belts[i].blocked implies m.belts[i].due > m.now by {
            assert(r.belts[i].runs == m.belts[i].runs);
        }
    }
}

proof fn lemma_wanes_on(a: Model, b: Model, c: Model, rank: spec_fn(u32) -> nat, top: nat)
    requires
        wanes(a, b, rank, top),
        wanes(b, c, rank, top),
    ensures
        wanes(a, c, rank, top),
{
    if b.same_contents(a) {
        lemma_same_hope(a, b, rank, top);
    }
    if c.same_contents(b) {
        lemma_same_hope(b, c, rank, top);
    }
    if b.same_contents(a) && c.same_contents(b) {
        assert forall|i: int| 0 <= i < c.belts.len() implies {
            let x = #[trigger] c.belts[i];
            let p = a.belts[i];
            &&& x.out == p.out
            &&& x.cap == p.cap
            &&& x.period == p.period
            &&& x.runs == p.runs
            &&& x.blocked == p.blocked
            &&& !x.blocked ==> x.due == p.due
        } by {
            assert(b.belts[i].runs == a.belts[i].runs);
        }
        assert(c.same_contents(a));
    }
}

/// One node, taken out of its queue, is handled.
proof fn lemma_event_wanes(
    m: Model,
    m1: Model,
    rank: spec_fn(u32) -> nat,
    top: nat,
    id: u32,
)
    requires
        m.valid(),
        m.linked(),
        m.shut(),
        m.falls_by(rank, top),
        m.q.holds(id),
        m.q.place[id] == Place::Ready || m.q.place[id] == Place::Wheel(m.now) || m.q.place[id]
            == Place::Far(m.now),
        m1 == m.with_queues(m1.q),
        m1.q.place == m.q.place.remove(id),
        m1.valid_except(set![id]),
        m1.may_fire(id),
    ensures
        wanes(m, m1.fire(id), rank, top),
{
    lemma_falls(m1, m, rank, top);
    assert(m1.linked()) by {
        lemma_same_layout(m1, m);
    }
    lemma_fire_hope(m1, rank, top, id);
    let r = m1.fire(id);
    assert(m1.hope(rank, top) == m.hope(rank, top));
    if !(r.hope(rank, top) < m.hope(rank, top)) {
        assert(stuck(m1, r, id));
        assert(r.same_contents(m));
        if m.calm() {
            lemma_stuck_patience(m, m1, r, id);
        }
    }
}

/// What a factory keeps that is jammed.
spec fn jammed(m: Model, rank: spec_fn(u32) -> nat, top: nat) -> bool {
    m.valid() && m.linked() && m.shut() && m.falls_by(rank, top)
}

proof fn lemma_jammed_on(m: Model, r: Model, rank: spec_fn(u32) -> nat, top: nat)
    requires
        jammed(m, rank, top),
        r.valid(),
        r.same_layout(m),
        r.sinks == m.sinks,
    ensures
        jammed(r, rank, top),
{
    lemma_same_layout(r, m);
    lemma_falls(r, m, rank, top);
}

proof fn lemma_drain_far_wanes(m: Model, rank: spec_fn(u32) -> nat, top: nat, n: nat)
    requires
        jammed(m, rank, top),
    ensures
        wanes(m, m.drain_far(n), rank, top),
    decreases n,
{
    if m.far_due() && n > 0 {
        lemma_first_due(m);
        let p = m.first_far();
        let m1 = m.with_queues(m.q.take_far(p));
        lemma_far_once(m, p);
        lemma_next_far(m, p);
        lemma_take_far(m.q, m.now, p);
        lemma_event_wanes(m, m1, rank, top, p.1);
        let r = m1.fire(p.1);
        lemma_jammed_on(m, r, rank, top);
        lemma_drain_far_wanes(r, rank, top, (n - 1) as nat);
        lemma_wanes_on(m, r, m.drain_far(n), rank, top);
    }
}

proof fn lemma_drain_slot_wanes(m: Model, rank: spec_fn(u32) -> nat, top: nat, n: nat)
    requires
        jammed(m, rank, top),
    ensures
        wanes(m, m.drain_slot(n), rank, top),
    decreases n,
{
    if m.q.wheel[m.slot()].len() > 0 && n > 0 {
        let x = m.q.wheel[m.slot()][0];
        let m1 = m.with_queues(m.q.take_slot(m.slot()));
        lemma_slot_once(m);
        lemma_next_slot(m);
        lemma_take_slot(m.q, m.now);
        lemma_event_wanes(m, m1, rank, top, x);
        let r = m1.fire(x);
        lemma_jammed_on(m, r, rank, top);
        lemma_drain_slot_wanes(r, rank, top, (n - 1) as nat);
        lemma_wanes_on(m, r, m.drain_slot(n), rank, top);
    }
}

proof fn lemma_settle_wanes(m: Model, rank: spec_fn(u32) -> nat, top: nat, n: nat)
    requires
        jammed(m, rank, top),
    ensures
        wanes(m, m.settle(n), rank, top),
    decreases n,
{
    if m.q.ready.len() > 0 && n > 0 {
        let x = m.q.ready.last();
        let m1 = m.with_queues(m.q.take_ready());
        lemma_ready_once(m);
        lemma_next_ready(m);
        lemma_take_ready(m.q, m.now);
        lemma_event_wanes(m, m1, rank, top, x);
        let r = m.fire_ready();
        lemma_jammed_on(m, r, rank, top);
        lemma_settle_wanes(r, rank, top, (n - 1) as nat);
        lemma_wanes_on(m, r, m.settle(n), rank, top);
    }
}

proof fn lemma_events_wane(m: Model, rank: spec_fn(u32) -> nat, top: nat)
    requires
        jammed(m, rank, top),
    ensures
        wanes(m, m.events_done(), rank, top),
        jammed(m.events_done(), rank, top),
{
    let n1 = m.q.far.len();
    let m1 = m.drain_far(n1);
    lemma_drain_far(m, n1);
    lemma_drain_far_wanes(m, rank, top, n1);
    lemma_jammed_on(m, m1, rank, top);
    lemma_reorder(m1);
    let m2 = m1.reorder();
    assert(wanes(m1, m2, rank, top)) by {
        assert(m2.same_contents(m1));
        lemma_same_patience(m1, m2);
    }
    lemma_wanes_on(m, m1, m2, rank, top);
    lemma_jammed_on(m1, m2, rank, top);
    let n2 = m2.q.wheel[m2.slot()].len();
    lemma_drain_slot_wanes(m2, rank, top, n2);
    let m3 = m.timers();
    lemma_wanes_on(m, m2, m3, rank, top);
    lemma_timers(m);
    lemma_jammed_on(m, m3, rank, top);
    let n3 = choose|n: nat| #[trigger] m3.settles_within(n);
    lemma_settle_wanes(m3, rank, top, n3);
    lemma_wanes_on(m, m3, m.events_done(), rank, top);
    lemma_step(m);
    lemma_jammed_on(m, m.events_done(), rank, top);
}

/// The order in which nodes come up does not matter to how long they stay awake.
proof fn lemma_same_patience(m: Model, r: Model)
    requires
        r == m.with_queues(r.q),
        r.q.place == m.q.place,
    ensures
        r.patience() == m.patience(),
{
    assert forall|x: u32| #[trigger] r.wakeful(x) == m.wakeful(x) by {}
    lemma_tally_same(
        m.belts,
        |i: int, b: BeltV| m.wakeful(node(K_BELT, i)),
        r.belts,
        |i: int, b: BeltV| r.wakeful(node(K_BELT, i)),
    );
    lemma_tally_same(
        m.machines,
        |i: int, c: MachineV| m.wakeful(node(K_MACH, i)),
        r.machines,
        |i: int, c: MachineV| r.wakeful(node(K_MACH, i)),
    );
    lemma_tally_same(
        m.sources,
        |i: int, c: SourceV| m.wakeful(node(K_SRC, i)),
        r.sources,
        |i: int, c: SourceV| r.wakeful(node(K_SRC, i)),
    );
}

/// The clock moves on: every node that is awake has less time.
proof fn lemma_clock_patience(m: Model, id: u32)
    requires
        m.valid(),
        m.timers_done(),
        m.q.ready.len() == 0,
        m.awake(id),
    ensures
        (Model { now: m.now + 1, ..m }).patience() < m.patience(),
{
    let r = Model { now: m.now + 1, ..m };
    assert forall|x: u32| m.awake(x) implies #[trigger] r.wakeful(x) == m.wakeful(x) - 1 by {
        assert(m.q.at_home(m.now, x));
        if m.q.place[x] == Place::Ready {
            assert(m.q.ready.contains(x));
        }
    }
    assert forall|x: u32| !m.awake(x) implies #[trigger] r.wakeful(x) == 0 by {}
    assert(m.live(id));
    let k = idx(id);
    let f0 = |i: int, b: BeltV| m.wakeful(node(K_BELT, i));
    let g0 = |i: int, b: BeltV| r.wakeful(node(K_BELT, i));
    let f1 = |i: int, c: MachineV| m.wakeful(node(K_MACH, i));
    let g1 = |i: int, c: MachineV| r.wakeful(node(K_MACH, i));
    let f2 = |i: int, c: SourceV| m.wakeful(node(K_SRC, i));
    let g2 = |i: int, c: SourceV| r.wakeful(node(K_SRC, i));
    lemma_tally_le(r.belts, g0, m.belts, f0);
    lemma_tally_le(r.machines, g1, m.machines, f1);
    lemma_tally_le(r.sources, g2, m.sources, f2);
    if kind(id) == K_BELT {
        assert(id == node(K_BELT, k));
        lemma_tally_less(r.belts, g0, f0, k);
    } else if kind(id) == K_MACH {
        assert(id == node(K_MACH, k));
        lemma_tally_less(r.machines, g1, f1, k);
    } else {
        assert(id == node(K_SRC, k));
        lemma_tally_less(r.sources, g2, f2, k);
    }
}

/// A sum of terms that are none of them larger, and one of them smaller, is
/// smaller.
proof fn lemma_tally_less<A>(
    s: Seq<A>,
    f: spec_fn(int, A) -> int,
    g: spec_fn(int, A) -> int,
    i: int,
)
    requires
        0 <= i < s.len(),
        forall|k: int| 0 <= k < s.len() ==> f(k, #[trigger] s[k]) <= g(k, s[k]),
        f(i, s[i]) < g(i, s[i]),
    ensures
        tally(s, f) < tally(s, g),
{
    let h = |k: int, x: A|
        if k == i {
            f(k, x)
        } else {
            g(k, x)
        };
    lemma_tally_differs(s, g, s, h, i);
    lemma_tally_le(s, f, s, h);
}

// ----------------------------------------------------------------------- laws

/// Every tick of a factory without loops comes to an end.
proof fn lemma_acyclic_ends(m: Model, rank: spec_fn(u32) -> nat, top: nat)
    requires
        jammed(m, rank, top),
    ensures
        m.loop_free(),
        m.tick_ends(),
{
    let r = |i: int| rank(node(K_BELT, i));
    assert forall|i: int|
        #![trigger m.belts[i]]
        0 <= i < m.belts.len() && m.belts[i].cap == 1 && kind(m.belts[i].out) == K_BELT && idx(
            m.belts[i].out,
        ) < m.belts.len() && m.belts[idx(m.belts[i].out)].cap == 1 implies r(idx(m.belts[i].out))
        < r(i) by {
        let out = m.belts[i].out;
        assert(out == node(K_BELT, idx(out)));
        assert(drops(rank, top, node(K_BELT, i), out));
    }
    assert(m.ranked_by(r));
    law_tick_ends(m);
}

proof fn lemma_falls_asleep(m: Model, rank: spec_fn(u32) -> nat, top: nat) -> (n: nat)
    requires
        jammed(m, rank, top),
    ensures
        m.run(n).q.asleep(),
    decreases m.hope(rank, top), m.patience(),
{
    if m.q.asleep() {
        0
    } else {
        lemma_acyclic_ends(m, rank, top);
        lemma_events_wane(m, rank, top);
        lemma_step(m);
        let e = m.events_done();
        let r = m.step();
        lemma_jammed_on(m, r, rank, top);
        assert(r.hope(rank, top) == e.hope(rank, top));
        lemma_hope_nonneg(r, rank, top);
        lemma_patience_nonneg(r);
        lemma_patience_nonneg(e);
        assert(m.run(1) == m.step()) by {
            assert(m.run(0) == m);
        }
        if exists|id: u32| #[trigger] e.awake(id) {
            let id = choose|id: u32| #[trigger] e.awake(id);
            lemma_clock_patience(e, id);
            if !(e.hope(rank, top) < m.hope(rank, top)) {
                lemma_same_hope(m, e, rank, top);
                lemma_tick_calm(e);
            }
            let n = lemma_falls_asleep(r, rank, top);
            law_run_splits(m, 1, n);
            n + 1
        } else {
            assert forall|id: u32| #[trigger] e.q.holds(id) implies e.q.place[id] is Waiting by {
                assert(!e.awake(id));
            }
            law_all_waiting_is_asleep(e);
            1
        }
    }
}

/// Once the events of a tick are done, no item is at the head of a belt that is
/// in motion.
proof fn lemma_tick_calm(m: Model)
    requires
        m.valid(),
        m.timers_done(),
        m.q.ready.len() == 0,
    ensures
        m.calm(),
{
    assert forall|i: int|
        0 <= i < m.belts.len() && (#[trigger] m.belts[i]).runs.len() > 0
            && !m.belts[i].blocked implies m.belts[i].due > m.now by {
        let id = node(K_BELT, i);
        assert(m.live(id) && m.engaged(id));
        assert(m.timely(id));
        assert(m.q.at_home(m.now, id));
        if m.q.place[id] == Place::Ready {
            assert(m.q.ready.contains(id));
        }
    }
}

/// A factory in which no item can come back to where it was, and whose sinks are
/// all closed, falls asleep: from some tick on there is not one event any more.
pub proof fn law_jammed_factory_falls_asleep(m: Model)
    requires
        m.valid(),
        m.linked(),
        m.acyclic(),
        m.shut(),
    ensures
        exists|n: nat| (#[trigger] m.run(n)).q.asleep(),
        exists|n: nat|
            forall|k: nat| #[trigger] m.run(n + k).events == (#[trigger] m.run(n)).events,
{
    let (rank, top) = choose|rank: spec_fn(u32) -> nat, top: nat| m.falls_by(rank, top);
    let n = lemma_falls_asleep(m, rank, top);
    assert(m.run(n).q.asleep());
    lemma_run(m, n);
    assert forall|k: nat| #[trigger] m.run(n + k).events == m.run(n).events by {
        law_run_splits(m, n, k);
        law_asleep_is_free(m.run(n), k);
    }
}

/// Whether items can come back goes by the layout, which running and opening or
/// closing sinks keep.
pub proof fn law_acyclic_stays(m: Model, pre: Model)
    requires
        m.same_layout(pre),
        pre.acyclic(),
    ensures
        m.acyclic(),
{
    let (rank, top) = choose|rank: spec_fn(u32) -> nat, top: nat| pre.falls_by(rank, top);
    lemma_falls(m, pre, rank, top);
}

} // verus!
