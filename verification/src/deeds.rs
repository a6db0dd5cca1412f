//! What becomes of a node that is handled, of the node that it delivers to, and of those
//! that wait for either.

use vstd::prelude::*;

use crate::belts::{lemma_lead, lemma_lead_is, lemma_with_item, lemma_without_first};
use crate::cells::{law_full_belt, law_item_enters_at_tail, law_item_leaves_from_head};
use crate::ids::{idx, kind, node, K_BELT, K_MACH, K_SINK, K_SRC};
use crate::model::{item_count, wrap, MachineV, Model, Place, Queues, SinkV, SLOTS};
use crate::queues::{lemma_enqueue, lemma_wake};
use crate::valid::{
    lemma_change_belt, lemma_give, lemma_give_keeps_belt, lemma_give_keeps_product, lemma_release,
    lemma_schedule, out_after_give,
};

verus! {

// ------------------------------------------------------------------------ waking

/// Nodes that are woken are handled in the order in which they began to wait, the first
/// of them first: ready nodes are handled from the last one on, wheel slots from the
/// first one on.
pub proof fn law_order_of_waking(q: Queues, now: int, target: u32, when: int)
    requires
        q.wheel.len() == SLOTS,
    ensures
        now >= when ==> q.wake(now, target, when).ready == q.ready + q.waits[target],
        now >= when ==> q.wake(now, target, when).wheel == q.wheel,
        now < when < now + SLOTS ==> {
            let s = when % (SLOTS as int);
            &&& q.wake(now, target, when).wheel == q.wheel.update(
                s,
                q.waits[target].reverse() + q.wheel[s],
            )
            &&& q.wake(now, target, when).ready == q.ready
        },
    decreases q.waits[target].len(),
{
    let w = q.waits[target];
    let s = when % (SLOTS as int);
    if w.len() == 0 {
        assert(q.ready + w =~= q.ready);
        assert(w.reverse() =~= Seq::<u32>::empty());
        assert(w.reverse() + q.wheel[s] =~= q.wheel[s]);
        assert(q.wheel.update(s, q.wheel[s]) =~= q.wheel);
    } else {
        let e = q.unpark(target).enqueue(now, w[0], when);
        let rest = w.drop_first();
        law_order_of_waking(e, now, target, when);
        assert(e.waits[target] == rest);
        if when <= now {
            assert(e.ready + rest =~= q.ready + w);
        } else if when - now < SLOTS {
            broadcast use vstd::seq_lib::group_seq_properties;

            assert(w =~= seq![w[0]] + rest);
            assert(w.reverse() =~= rest.reverse() + seq![w[0]]);
            assert(rest.reverse() + e.wheel[s] =~= w.reverse() + q.wheel[s]);
            assert(e.wheel.update(s, rest.reverse() + e.wheel[s]) =~= q.wheel.update(
                s,
                w.reverse() + q.wheel[s],
            ));
        }
    }
}

/// When a closed sink is opened nothing waits for it any more: what did is handled within
/// the current tick. Closing a sink, or opening one that is open, wakes nobody.
pub proof fn law_opening_wakes(m: Model, sink: u32, open: bool, x: u32)
    requires
        m.valid(),
        idx(sink) < m.sinks.len(),
    ensures
        ({
            let r = m.set_sink_open(sink, open);
            let i = idx(sink);
            &&& (r.sinks[i].open != 0) == open
            &&& r.sinks[i].count == m.sinks[i].count
            &&& forall|k: int|
                0 <= k < m.sinks.len() && k != i ==> #[trigger] r.sinks[k] == m.sinks[k]
            &&& open && m.sinks[i].open == 0 ==> {
                &&& r.q.waits[sink].len() == 0
                &&& r.q.ready == m.q.ready + m.q.waits[sink]
                &&& m.q.waits[sink].contains(x) ==> r.q.ready.contains(x)
                &&& !m.q.waits[sink].contains(x) && m.q.holds(x) ==> r.q.place[x]
                    == m.q.place[x]
            }
            &&& !open || m.sinks[i].open != 0 ==> r.q == m.q
            &&& r.now == m.now && r.events == m.events && r.sort_events == m.sort_events
            &&& r.belts == m.belts && r.machines == m.machines && r.sources == m.sources
        }),
{
    lemma_wake(m.q, m.now, sink, m.now);
    law_order_of_waking(m.q, m.now, sink, m.now);
    let w = m.q.waits[sink];
    if w.contains(x) {
        let k = choose|k: int| 0 <= k < w.len() && w[k] == x;
        assert((m.q.ready + w)[m.q.ready.len() + k] == x);
    }
}

/// A machine that begins to work has used up what it needs, and has its timer for the
/// tick at which the work is done. Its place for input is free again: nothing waits for
/// it any more, and what did is handled within the current tick, in the order in which
/// it began to wait.
pub proof fn law_beginning_wakes(m: Model, i: int)
    requires
        0 <= i < m.machines.len() <= 0x4000_0000,
        m.machines[i].ok(),
        !m.machines[i].busy,
        !m.machines[i].has_out,
        m.machines[i].have == m.machines[i].need,
        m.q.consistent(m.now),
        !m.q.holds(node(K_MACH, i)),
    ensures
        ({
            let id = node(K_MACH, i);
            let r = m.start(i);
            &&& r.machines[i].have == 0
            &&& r.machines[i].busy
            &&& r.machines[i].until == m.now + m.machines[i].dur
            &&& r.q.timer(id, m.now + m.machines[i].dur)
            &&& r.q.waits[id].len() == 0
            &&& r.q.ready == m.q.ready + m.q.waits[id]
        }),
{
    let id = node(K_MACH, i);
    let e = m.q.enqueue(m.now, id, m.now + m.machines[i].dur);
    lemma_enqueue(m.q, m.now, id, m.now + m.machines[i].dur);
    law_order_of_waking(e, m.now, id, m.now);
    lemma_wake(e, m.now, id, m.now);
}

// ------------------------------------------------------------------------- belts

/// A belt that delivers lets those go on that wait for it: nothing waits for it any more,
/// and all that did try again when it has moved on by one cell. The item is off the belt,
/// and the next one, if there is one, has its timer for the tick at which it gets to the
/// head.
pub proof fn law_delivery_wakes(m: Model, i: int, x: u32)
    requires
        0 <= i < m.belts.len(),
        m.valid_except(set![node(K_BELT, i)]),
        m.may_fire(node(K_BELT, i)),
        m.reachable(m.belts[i].out),
        m.accepts(m.belts[i].out, m.belts[i].runs[0].item),
    ensures
        ({
            let id = node(K_BELT, i);
            let b = m.belts[i];
            let r = m.fire(id);
            let d = r.belts[i];
            &&& r.q.waits[id].len() == 0
            &&& m.q.waits[id].contains(x) ==> r.q.timer(x, m.now + b.period)
            &&& !d.blocked
            &&& b.out != id ==> item_count(d.runs) == item_count(b.runs) - 1
            &&& b.out == id ==> item_count(d.runs) == item_count(b.runs)
            &&& d.runs.len() > 0 ==> d.due > m.now && r.q.timer(id, d.due)
        }),
{
    let id = node(K_BELT, i);
    let ex = set![id];
    let none = Set::<u32>::empty();
    assert(ex.remove(id) =~= none);
    let m0 = Model { events: (m.events + 1) % wrap(), ..m };
    lemma_counted(m, id);
    let b = m.belts[i];
    let item = b.runs[0].item;
    assert(b.ok(m.now));
    lemma_lead(b, m.now);
    lemma_give(m0, ex, b.out, item);
    let m1 = m0.give(b.out, item);
    assert(out_after_give(m0, ex, b.out) =~= ex);
    lemma_give_keeps_belt(m0, b.out, item, i);
    let b1 = m1.belts[i];
    let left = b1.without_first(m.now);
    assert(b1.ok(m.now));
    lemma_without_first(b1, m.now);
    if b.out == id {
        lemma_with_item(b, item, m.now);
    } else if kind(b.out) == K_BELT {
        assert(idx(b.out) != i);
    }
    lemma_change_belt(m1, ex, i, left);
    let m2 = m1.with_belt(i, left);
    let m3 = if left.runs.len() > 0 {
        m2.schedule(id, left.due)
    } else {
        m2
    };
    if left.runs.len() > 0 {
        lemma_schedule(m2, ex, id, left.due);
    } else {
        lemma_release(m2, ex, id);
    }
    lemma_wake(m3.q, m.now, id, m.now + b.period);
    lemma_give_waits(m0, b.out, item, id);
    assert(m3.q.waits[id] == m.q.waits[id]);
    if m.q.waits[id].contains(x) {
        let k = choose|k: int| 0 <= k < m3.q.waits[id].len() && m3.q.waits[id][k] == x;
        assert(m3.q.holds(m3.q.waits[id][k]));
    }
    if left.runs.len() > 0 {
        assert(m3.q.timer(id, left.due));
    }
}

/// What a belt that delivers puts on the wheel: those that waited for it stand first in
/// their slot, the first that began to wait behind the others. The belt itself stands
/// first in its own, or right behind them if that is the same.
pub proof fn law_order_behind_delivery(m: Model, i: int)
    requires
        0 <= i < m.belts.len(),
        m.valid_except(set![node(K_BELT, i)]),
        m.may_fire(node(K_BELT, i)),
        m.reachable(m.belts[i].out),
        m.accepts(m.belts[i].out, m.belts[i].runs[0].item),
    ensures
        ({
            let id = node(K_BELT, i);
            let r = m.fire(id);
            let when = m.now + m.belts[i].period;
            let due = r.belts[i].due;
            let woken = m.q.waits[id].reverse();
            &&& woken.is_prefix_of(r.q.wheel[when % 0x1_0000])
            &&& r.belts[i].runs.len() > 0 && due - m.now < 0x1_0000 ==> r.q.wheel[due
                % 0x1_0000][if due == when {
                woken.len() as int
            } else {
                0
            }] == id
        }),
{
    let id = node(K_BELT, i);
    let ex = set![id];
    let m0 = Model { events: (m.events + 1) % wrap(), ..m };
    lemma_counted(m, id);
    let b = m.belts[i];
    let item = b.runs[0].item;
    assert(b.ok(m.now));
    lemma_lead(b, m.now);
    lemma_give(m0, ex, b.out, item);
    let m1 = m0.give(b.out, item);
    assert(out_after_give(m0, ex, b.out) =~= ex);
    lemma_give_keeps_belt(m0, b.out, item, i);
    let left = m1.belts[i].without_first(m.now);
    assert(m1.belts[i].ok(m.now));
    lemma_without_first(m1.belts[i], m.now);
    let m2 = m1.with_belt(i, left);
    let m3 = if left.runs.len() > 0 {
        m2.schedule(id, left.due)
    } else {
        m2
    };
    let when = m.now + b.period;
    lemma_give_waits(m0, b.out, item, id);
    law_order_of_waking(m3.q, m.now, id, when);
    let r = m.fire(id);
    let s = when % 0x1_0000;
    let woken = m.q.waits[id].reverse();
    assert(r.q.wheel[s] == woken + m3.q.wheel[s]);
    assert(woken =~= r.q.wheel[s].subrange(0, woken.len() as int));
    if left.runs.len() > 0 && left.due - m.now < SLOTS {
        let o = left.due % 0x1_0000;
        assert(m3.q.wheel[o][0] == id);
        if left.due != when {
            assert(o != s);
        } else {
            assert(r.q.wheel[s][woken.len() as int] == m3.q.wheel[s][0]);
        }
    }
}

/// A machine that gets the last item that it needs while it is free lets those go on that
/// wait for it: they are handled within the current tick, before all that were ready, the
/// first that began to wait first.
pub proof fn law_order_behind_input(m: Model, id: u32)
    requires
        m.valid_except(set![id]),
        m.may_fire(id),
        m.reachable(m.out_of(id)),
        m.accepts(m.out_of(id), m.item_of(id)),
        kind(m.out_of(id)) == K_MACH,
        m.out_of(id) != id,
        ({
            let c = m.machines[idx(m.out_of(id))];
            c.have + 1 == c.need && !c.busy && !c.has_out
        }),
    ensures
        ({
            let out = m.out_of(id);
            let r = m.fire(id);
            &&& (m.q.ready + m.q.waits[out]).is_prefix_of(r.q.ready)
            &&& r.q.waits[out].len() == 0
        }),
{
    let i = idx(id);
    let out = m.out_of(id);
    let item = m.item_of(id);
    let j = idx(out);
    let c = m.machines[j];
    assert(c.ok());
    assert(out == node(K_MACH, j));
    let r = m.fire(id);
    let m0 = Model { events: (m.events + 1) % wrap(), ..m };
    let q = m.q.enqueue(m.now, out, m.now + c.dur);
    assert(q.waits[out] == m.q.waits[out]);
    law_order_of_waking(q, m.now, out, m.now);
    lemma_wake_empties(q, m.now, out, m.now);
    let g = q.wake(m.now, out, m.now);
    assert(g.ready == m.q.ready + m.q.waits[out]);
    lemma_wheel_stays(q, m.now, out, m.now);
    if kind(id) == K_BELT {
        assert(id == node(K_BELT, i));
        let b = m.belts[i];
        assert(b.ok(m.now));
        lemma_lead(b, m.now);
        lemma_without_first(b, m.now);
        assert(m0.give(out, item).q == g);
        let left = b.without_first(m.now);
        let g1 = if left.runs.len() > 0 {
            g.enqueue(m.now, id, left.due)
        } else {
            g
        };
        assert(g1.ready == g.ready);
        law_order_of_waking(g1, m.now, id, m.now + b.period);
        lemma_wake_others(g1, m.now, id, m.now + b.period, out);
        assert(r.q == g1.wake(m.now, id, m.now + b.period));
    } else if kind(id) == K_MACH {
        assert(id == node(K_MACH, i));
        let a = m.machines[i];
        assert(a.ok());
        assert(i != j);
        let g1 = g.enqueue(m.now, id, m.now + a.dur);
        law_order_of_waking(g1, m.now, id, m.now);
        lemma_wake_others(g1, m.now, id, m.now, out);
        assert(r.q == g || r.q == g1.wake(m.now, id, m.now));
    } else {
        assert(id == node(K_SRC, i));
        assert(m.sources[i].ok());
        assert(r.q == g.enqueue(m.now, id, m.now + m.sources[i].period));
    }
    let p = m.q.ready + m.q.waits[out];
    assert(p =~= r.q.ready.subrange(0, p.len() as int));
}

proof fn lemma_wake_empties(q: Queues, now: int, target: u32, when: int)
    ensures
        q.wake(now, target, when).waits[target].len() == 0,
    decreases q.waits[target].len(),
{
    if q.waits[target].len() > 0 {
        let e = q.unpark(target).enqueue(now, q.waits[target][0], when);
        lemma_wake_empties(e, now, target, when);
    }
}

proof fn lemma_wheel_stays(q: Queues, now: int, target: u32, when: int)
    requires
        q.wheel.len() == SLOTS,
    ensures
        q.wake(now, target, when).wheel.len() == SLOTS,
    decreases q.waits[target].len(),
{
    if q.waits[target].len() > 0 {
        let e = q.unpark(target).enqueue(now, q.waits[target][0], when);
        lemma_wheel_stays(e, now, target, when);
    }
}

proof fn lemma_counted(m: Model, id: u32)
    requires
        m.valid_except(set![id]),
    ensures
        (Model { events: (m.events + 1) % wrap(), ..m }).valid_except(set![id]),
{
    let r = Model { events: (m.events + 1) % wrap(), ..m };
    assert forall|x: u32| #[trigger] r.q.holds(x) implies r.live(x) && r.engaged(x) && r.timely(x)
        && !set![id].contains(x) by {
        assert(m.q.holds(x));
    }
    assert forall|x: u32|
        r.live(x) && #[trigger] r.engaged(x) && !set![id].contains(x) implies r.q.holds(x) by {
        assert(m.engaged(x));
    }
}

/// Giving an item to a node wakes nobody who waits for another node, nor for a belt.
proof fn lemma_give_waits(m: Model, target: u32, item: u16, t: u32)
    requires
        m.q.wheel.len() == SLOTS,
        kind(t) == K_BELT || t != target,
        kind(target) == K_MACH ==> idx(target) < m.machines.len(),
    ensures
        m.give(target, item).q.waits[t] == m.q.waits[t],
{
    let i = idx(target);
    if kind(target) == K_MACH {
        let c = m.machines[i];
        let c1 = MachineV { have: c.have + 1, ..c };
        let m1 = m.with_machine(i, c1);
        if c.have + 1 >= c.need && m1.starts(i) {
            let id = node(K_MACH, i);
            assert(id != t);
            let m2 = m1.with_machine(
                i,
                MachineV { have: c1.have - c1.need, busy: true, until: m.now + c1.dur, ..c1 },
            ).schedule(id, m.now + c1.dur);
            lemma_wake_others(m2.q, m.now, id, m.now, t);
        }
    }
}

proof fn lemma_wake_others(q: Queues, now: int, target: u32, when: int, t: u32)
    requires
        t != target,
    ensures
        q.wake(now, target, when).waits[t] == q.waits[t],
    decreases q.waits[target].len(),
{
    if q.waits[target].len() > 0 {
        let e = q.unpark(target).enqueue(now, q.waits[target][0], when);
        assert(e.waits[t] == q.waits[t]);
        lemma_wake_others(e, now, target, when, t);
    }
}

// ------------------------------------------------------------------------ blocked

/// A node that finds no room keeps what it has. If the node that it delivers to is a belt
/// in motion, it tries again at just the tick at which that moves on by one cell; else it
/// waits for that node, behind those that wait already.
pub proof fn law_blocked_waits_or_tries_again(m: Model, id: u32)
    requires
        m.valid_except(set![id]),
        m.may_fire(id),
        m.reachable(m.out_of(id)),
        !m.accepts(m.out_of(id), m.item_of(id)),
    ensures
        ({
            let out = m.out_of(id);
            let b = m.belts[idx(out)];
            let r = m.fire(id);
            &&& kind(id) == K_BELT ==> r.belts[idx(id)].blocked && r.belts[idx(id)].runs
                == m.belts[idx(id)].runs && r.belts[idx(id)].due == m.now
            &&& kind(id) == K_MACH ==> r.machines[idx(id)].has_out && !r.machines[idx(id)].busy
                && r.machines[idx(id)].have == m.machines[idx(id)].have
            &&& kind(id) == K_SRC ==> r.sources[idx(id)].blocked && r.sources[idx(id)].until
                == m.sources[idx(id)].until
            &&& r.sinks == m.sinks
            &&& if kind(out) == K_BELT && out != id && !b.blocked && b.runs.len() > 0 {
                &&& b.due > m.now ==> exists|t: int| #[trigger]
                    r.q.timer(id, t) && b.lead(t) == b.lead(m.now) - 1 && b.lead(t - 1) == b.lead(
                        m.now,
                    )
                &&& b.due == m.now ==> r.q.timer(id, m.now + b.period)
                &&& r.q.waits == m.q.waits
            } else {
                &&& r.q.place[id] == Place::Waiting(out)
                &&& kind(out) != K_SRC ==> r.q.waits[out] == seq![id] + m.q.waits[out]
                &&& forall|t: u32| t != out ==> #[trigger] r.q.waits[t] == m.q.waits[t]
            }
        }),
{
    let out = m.out_of(id);
    let i = idx(id);
    let r = m.fire(id);
    let b = m.belts[idx(out)];
    if kind(id) == K_BELT {
        assert(m.belts[i].ok(m.now));
        lemma_lead(m.belts[i], m.now);
        assert(id == node(K_BELT, i));
    } else if kind(id) == K_MACH {
        assert(m.machines[i].ok());
        assert(id == node(K_MACH, i));
    } else {
        assert(m.sources[i].ok());
        assert(id == node(K_SRC, i));
    }
    if kind(out) == K_BELT && out != id && !b.blocked && b.runs.len() > 0 {
        if kind(id) == K_BELT {
            assert(idx(out) != i);
        }
        assert(b.ok(m.now));
        lemma_lead(b, m.now);
        let n = b.lead(m.now);
        let p = b.period;
        let t = b.next_move(m.now);
        if b.due > m.now {
            assert(r.q.timer(id, t));
            assert((n - 1) * p == n * p - p) by (nonlinear_arith);
            if n == 1 {
                assert(1 * p == p);
                assert(t == b.due);
            } else {
                assert((n - 1) * p >= 1) by (nonlinear_arith)
                    requires
                        n >= 2,
                        p >= 1,
                ;
                lemma_lead_is(b, t, n - 1);
            }
            assert(n * p >= p) by (nonlinear_arith)
                requires
                    n >= 1,
                    p >= 1,
            ;
            lemma_lead_is(b, t - 1, n);
        }
    }
}

// ---------------------------------------------------------------------- deliveries

/// There is room on a belt if its last cell is free, in a machine for items of its kind
/// until it has as many as it needs, and in a sink if it is open. Sources take nothing.
pub proof fn law_room(m: Model, target: u32, item: u16)
    requires
        m.nodes_ok(),
        m.reachable(target),
    ensures
        ({
            let i = idx(target);
            &&& kind(target) == K_BELT ==> (m.accepts(target, item) <==> forall|x: u16|
                !#[trigger] m.belts[i].item_at(m.now, m.belts[i].cap - 1, x))
            &&& kind(target) == K_MACH ==> (m.accepts(target, item) <==> m.machines[i].in_item
                == item && m.machines[i].have < m.machines[i].need)
            &&& kind(target) == K_SINK ==> (m.accepts(target, item) <==> m.sinks[i].open != 0)
            &&& kind(target) == K_SRC ==> !m.accepts(target, item)
        }),
{
    if kind(target) == K_BELT {
        assert(m.belts[idx(target)].ok(m.now));
        law_full_belt(m.belts[idx(target)], m.now);
    }
}

/// An item that is delivered arrives: an open sink counts one more, and a machine has one
/// more to work on, or begins to work if that is all that it needs and it is free.
pub proof fn law_delivery_arrives(m: Model, id: u32)
    requires
        m.valid_except(set![id]),
        m.may_fire(id),
        m.reachable(m.out_of(id)),
        m.accepts(m.out_of(id), m.item_of(id)),
    ensures
        ({
            let out = m.out_of(id);
            let j = idx(out);
            let r = m.fire(id);
            &&& kind(out) == K_SINK ==> r.sinks == m.sinks.update(
                j,
                SinkV {
                    count: (m.sinks[j].count + 1) % 0x1_0000_0000_0000_0000,
                    open: m.sinks[j].open,
                },
            )
            &&& kind(out) != K_SINK ==> r.sinks == m.sinks
            &&& kind(out) == K_MACH && out != id ==> {
                let c = m.machines[j];
                let d = r.machines[j];
                let starts = c.have + 1 == c.need && !c.busy && !c.has_out;
                &&& d.busy == (c.busy || starts)
                &&& d.has_out == c.has_out
                &&& d.have == (if starts {
                    0
                } else {
                    c.have + 1
                })
                &&& starts ==> d.until == m.now + c.dur
                &&& !starts ==> d.until == c.until
            }
        }),
{
    let i = idx(id);
    let out = m.out_of(id);
    if kind(id) == K_BELT {
        assert(m.belts[i].ok(m.now));
        lemma_lead(m.belts[i], m.now);
        assert(id == node(K_BELT, i));
    } else if kind(id) == K_MACH {
        assert(m.machines[i].ok());
        assert(id == node(K_MACH, i));
    } else {
        assert(m.sources[i].ok());
        assert(id == node(K_SRC, i));
    }
    if kind(out) == K_MACH {
        assert(m.machines[idx(out)].ok());
        if kind(id) == K_MACH && out != id {
            assert(idx(out) != i);
        }
    }
}

/// What is delivered to a belt then lies in its last cell, and all its other cells are as
/// they were: the first item of a belt, the product of a machine, the item of a source.
pub proof fn law_delivery_on_belt(m: Model, id: u32, c: int, x: u16)
    requires
        m.valid_except(set![id]),
        m.may_fire(id),
        m.reachable(m.out_of(id)),
        m.accepts(m.out_of(id), m.item_of(id)),
        kind(m.out_of(id)) == K_BELT,
        m.out_of(id) != id,
    ensures
        ({
            let j = idx(m.out_of(id));
            let b = m.belts[j];
            let item = if kind(id) == K_BELT {
                m.belts[idx(id)].runs[0].item
            } else if kind(id) == K_MACH {
                m.machines[idx(id)].out_item
            } else {
                m.sources[idx(id)].item
            };
            let d = m.fire(id).belts[j];
            &&& d.item_at(m.now, c, x) <==> b.item_at(m.now, c, x) || (c == b.cap - 1 && x == item)
            &&& d.out == b.out && d.cap == b.cap && d.period == b.period
            &&& d.blocked == b.blocked
        }),
{
    let i = idx(id);
    let out = m.out_of(id);
    let b = m.belts[idx(out)];
    assert(b.ok(m.now));
    law_item_enters_at_tail(b, m.item_of(id), m.now, c, x);
    if kind(id) == K_BELT {
        assert(m.belts[i].ok(m.now));
        lemma_lead(m.belts[i], m.now);
        assert(id == node(K_BELT, i));
        assert(idx(out) != i);
    } else if kind(id) == K_MACH {
        assert(m.machines[i].ok());
        assert(id == node(K_MACH, i));
    } else {
        assert(id == node(K_SRC, i));
    }
}

/// A machine whose product has left it holds none, and begins to work again if it has all
/// that it needs.
pub proof fn law_machine_goes_on(m: Model, i: int)
    requires
        0 <= i < m.machines.len(),
        m.valid_except(set![node(K_MACH, i)]),
        m.may_fire(node(K_MACH, i)),
        m.reachable(m.machines[i].out),
        m.accepts(m.machines[i].out, m.machines[i].out_item),
        m.machines[i].out != node(K_MACH, i),
    ensures
        ({
            let c = m.machines[i];
            let d = m.fire(node(K_MACH, i)).machines[i];
            &&& !d.has_out
            &&& d.busy == (c.have == c.need)
            &&& c.have == c.need ==> d.have == 0 && d.until == m.now + c.dur
            &&& c.have < c.need ==> d.have == c.have
        }),
{
    let c = m.machines[i];
    assert(c.ok());
    if !c.busy {
        lemma_give_keeps_product(m, c.out, c.out_item, i);
    }
    if kind(c.out) == K_MACH {
        assert(idx(c.out) != i);
    }
}

/// A machine that begins to work again right when its product leaves it stands first in
/// the wheel slot of its timer. Those that waited for it are handled next, the first that
/// began to wait first.
pub proof fn law_order_behind_product(m: Model, i: int)
    requires
        0 <= i < m.machines.len(),
        m.valid_except(set![node(K_MACH, i)]),
        m.may_fire(node(K_MACH, i)),
        m.reachable(m.machines[i].out),
        m.accepts(m.machines[i].out, m.machines[i].out_item),
        m.machines[i].out != node(K_MACH, i),
        m.machines[i].have == m.machines[i].need,
    ensures
        ({
            let id = node(K_MACH, i);
            let c = m.machines[i];
            let r = m.fire(id);
            &&& r.q.wheel[(m.now + c.dur) % 0x1_0000][0] == id
            &&& m.q.waits[id].is_suffix_of(r.q.ready)
            &&& r.q.waits[id].len() == 0
        }),
{
    let id = node(K_MACH, i);
    let c = m.machines[i];
    assert(c.ok());
    if kind(c.out) == K_MACH {
        assert(idx(c.out) != i);
    }
    let m0 = Model { events: (m.events + 1) % wrap(), ..m };
    let m1 = if c.busy {
        m0.with_machine(i, MachineV { busy: false, ..c })
    } else {
        m0
    };
    let g = m1.give(c.out, c.out_item);
    if !c.busy {
        lemma_give_keeps_product(m1, c.out, c.out_item, i);
    }
    lemma_give_waits(m1, c.out, c.out_item, id);
    lemma_give_wheel(m1, c.out, c.out_item);
    let e = g.q.enqueue(m.now, id, m.now + c.dur);
    law_order_of_waking(e, m.now, id, m.now);
    lemma_wake_empties(e, m.now, id, m.now);
    let r = m.fire(id);
    assert(r.q == e.wake(m.now, id, m.now));
    let w = m.q.waits[id];
    assert(r.q.ready == g.q.ready + w);
    assert(w =~= r.q.ready.subrange(r.q.ready.len() - w.len(), r.q.ready.len() as int));
}

proof fn lemma_give_wheel(m: Model, target: u32, item: u16)
    requires
        m.q.wheel.len() == SLOTS,
        kind(target) == K_MACH ==> idx(target) < m.machines.len(),
    ensures
        m.give(target, item).q.wheel.len() == SLOTS,
{
    let i = idx(target);
    if kind(target) == K_MACH {
        let c = m.machines[i];
        let c1 = MachineV { have: c.have + 1, ..c };
        if c.have + 1 >= c.need && m.with_machine(i, c1).starts(i) {
            let id = node(K_MACH, i);
            lemma_wheel_stays(m.q.enqueue(m.now, id, m.now + c.dur), m.now, id, m.now);
        }
    }
}

/// A machine that delivers to itself has its product as one more item to work on, and
/// begins to work again if that is all that it needs.
pub proof fn law_machine_feeds_itself(m: Model, i: int)
    requires
        0 <= i < m.machines.len(),
        m.valid_except(set![node(K_MACH, i)]),
        m.may_fire(node(K_MACH, i)),
        m.machines[i].out == node(K_MACH, i),
        m.machines[i].in_item == m.machines[i].out_item,
        m.machines[i].have < m.machines[i].need,
    ensures
        ({
            let c = m.machines[i];
            let d = m.fire(node(K_MACH, i)).machines[i];
            &&& !d.has_out
            &&& d.busy == (c.have + 1 == c.need)
            &&& c.have + 1 == c.need ==> d.have == 0 && d.until == m.now + c.dur
            &&& c.have + 1 < c.need ==> d.have == c.have + 1
        }),
{
    assert(m.machines[i].ok());
}

/// A belt that delivers to another node has nothing at its head then, and all its other
/// cells are as they were.
pub proof fn law_delivery_leaves_belt(m: Model, i: int, c: int, x: u16)
    requires
        0 <= i < m.belts.len(),
        m.valid_except(set![node(K_BELT, i)]),
        m.may_fire(node(K_BELT, i)),
        m.reachable(m.belts[i].out),
        m.accepts(m.belts[i].out, m.belts[i].runs[0].item),
        m.belts[i].out != node(K_BELT, i),
    ensures
        ({
            let b = m.belts[i];
            let d = m.fire(node(K_BELT, i)).belts[i];
            &&& d.item_at(m.now, c, x) <==> c != 0 && b.item_at(m.now, c, x)
            &&& d.out == b.out && d.cap == b.cap && d.period == b.period
        }),
{
    let b = m.belts[i];
    assert(b.ok(m.now));
    lemma_lead(b, m.now);
    law_item_leaves_from_head(b, m.now, c, x);
    if kind(b.out) == K_BELT {
        assert(idx(b.out) != i);
    }
}

/// A belt that delivers to itself moves its first item to its last cell.
pub proof fn law_belt_feeds_itself(m: Model, i: int, c: int, x: u16)
    requires
        0 <= i < m.belts.len(),
        m.valid_except(set![node(K_BELT, i)]),
        m.may_fire(node(K_BELT, i)),
        m.belts[i].out == node(K_BELT, i),
        m.belts[i].cap > 1,
        m.belts[i].used(m.now) < m.belts[i].cap,
    ensures
        ({
            let b = m.belts[i];
            let d = m.fire(node(K_BELT, i)).belts[i];
            d.item_at(m.now, c, x) <==> (c != 0 && b.item_at(m.now, c, x)) || (c == b.cap - 1 && x
                == b.runs[0].item)
        }),
{
    let b = m.belts[i];
    assert(b.ok(m.now));
    lemma_lead(b, m.now);
    let item = b.runs[0].item;
    let g = b.with_item(item, m.now);
    lemma_with_item(b, item, m.now);
    law_item_enters_at_tail(b, item, m.now, c, x);
    law_item_leaves_from_head(g, m.now, c, x);
}

/// A source that emits an item has its timer for the tick at which it may emit the next
/// one, just one period later, and stands first in its wheel slot.
pub proof fn law_source_goes_on(m: Model, i: int)
    requires
        0 <= i < m.sources.len(),
        m.valid_except(set![node(K_SRC, i)]),
        m.may_fire(node(K_SRC, i)),
        m.reachable(m.sources[i].out),
        m.accepts(m.sources[i].out, m.sources[i].item),
    ensures
        ({
            let id = node(K_SRC, i);
            let c = m.sources[i];
            let r = m.fire(id);
            &&& r.sources[i].until == m.now + c.period
            &&& !r.sources[i].blocked
            &&& r.q.timer(id, m.now + c.period)
            &&& r.q.wheel[(m.now + c.period) % 0x1_0000][0] == id
        }),
{
    assert(m.sources[i].ok());
    lemma_give_wheel(m, m.sources[i].out, m.sources[i].item);
}

} // verus!
