//! Time: how long work takes, how long sources pause, and how fast belts are.

use vstd::prelude::*;

use crate::belts::{lemma_lead, lemma_lead_is};
use crate::cells::{
    covers, law_item_enters_at_tail, law_item_leaves_from_head, law_items_in_range, run_item,
    start_of,
};
use crate::ids::{idx, kind, K_BELT, K_MACH};
use crate::model::{BeltV, MachineV, Model, Queues, RunV};
use crate::rest::law_machine_timer;
use crate::settle::lemma_give_nodes;
use crate::stages::{lemma_tick_stages, past_queues, taken};
use crate::ticks::lemma_step;
use crate::valid::{lemma_fire, lemma_give_keeps_belt, lemma_give_keeps_product};

verus! {

// --------------------------------------------------------------------- machines

/// In one tick machines go on from `a` to `b`: work that is not done stays, and work
/// that is begun takes as long as the machine takes.
spec fn work_goes_on(a: Model, b: Model) -> bool {
    &&& b.now == a.now
    &&& b.machines.len() == a.machines.len()
    &&& forall|i: int|
        0 <= i < a.machines.len() ==> {
            let c = a.machines[i];
            let d = #[trigger] b.machines[i];
            &&& d.dur == c.dur
            &&& c.busy && c.until > a.now ==> d.busy && d.until == c.until
            &&& d.busy ==> (c.busy && d.until == c.until) || d.until == a.now + d.dur
        }
}

proof fn lemma_fire_work(m: Model, id: u32)
    requires
        m.nodes_ok(),
        m.may_fire(id),
        m.reachable(m.out_of(id)),
    ensures
        work_goes_on(m, m.fire(id)),
{
    let i = idx(id);
    let r = m.fire(id);
    if kind(id) == K_MACH {
        let c = m.machines[i];
        assert(c.ok());
        if !c.busy {
            lemma_give_keeps_product(m, c.out, c.out_item, i);
        }
    }
    assert forall|j: int| 0 <= j < m.machines.len() implies {
        let c = m.machines[j];
        let d = #[trigger] r.machines[j];
        &&& d.dur == c.dur
        &&& c.busy && c.until > m.now ==> d.busy && d.until == c.until
        &&& d.busy ==> (c.busy && d.until == c.until) || d.until == m.now + d.dur
    } by {
        assert(m.machines[j].ok());
    }
}

/// Work takes as long as the machine takes: what a machine begins in a tick is done
/// `dur` ticks later, and until then nothing disturbs it.
pub proof fn law_work_takes_its_time(m: Model, i: int)
    requires
        m.valid(),
        m.linked() || m.tick_fits(),
        0 <= i < m.machines.len(),
    ensures
        ({
            let c = m.machines[i];
            let d = m.step().machines[i];
            &&& c.busy && c.until > m.now ==> d.busy && d.until == c.until
            &&& d.busy && !(c.busy && c.until > m.now) ==> d.until == m.now + c.dur
        }),
{
    let rel = |a: Model, b: Model| work_goes_on(a, b);
    assert forall|a: Model, a1: Model, id: u32| #[trigger] taken(a, a1, id) implies rel(
        a,
        a1.fire(id),
    ) by {
        lemma_fire_work(a1, id);
    }
    assert forall|a: Model, b: Model, c: Model| #[trigger] rel(a, b) && #[trigger] rel(
        b,
        c,
    ) implies rel(a, c) by {
        assert forall|j: int| 0 <= j < a.machines.len() implies {
            let x = a.machines[j];
            let z = #[trigger] c.machines[j];
            &&& z.dur == x.dur
            &&& x.busy && x.until > a.now ==> z.busy && z.until == x.until
            &&& z.busy ==> (x.busy && z.until == x.until) || z.until == a.now + z.dur
        } by {
            assert(b.machines[j].dur == a.machines[j].dur);
        }
    }
    assert(past_queues(rel));
    lemma_tick_stages(m, rel);
    assert(work_goes_on(m, m.events_done()));
    lemma_step(m);
    let s = m.step();
    assert(s.machines[i].dur == m.machines[i].dur);
    if s.machines[i].busy {
        law_machine_timer(s, i);
    }
}

// ---------------------------------------------------------------------- sources

/// In one tick sources go on from `a` to `b`: one that emits an item pauses for its
/// period.
spec fn pauses_go_on(a: Model, b: Model) -> bool {
    &&& b.now == a.now
    &&& b.sources.len() == a.sources.len()
    &&& forall|i: int|
        0 <= i < a.sources.len() ==> {
            let c = a.sources[i];
            let d = #[trigger] b.sources[i];
            &&& d.period == c.period >= 1
            &&& d.until == c.until || (c.until <= a.now && d.until == a.now + c.period)
        }
}

/// A source emits no item before its time, and when it emits one it pauses for its
/// period: from one item to the next it is at least that many ticks.
pub proof fn law_sources_pause(m: Model, i: int)
    requires
        m.valid(),
        m.linked() || m.tick_fits(),
        0 <= i < m.sources.len(),
    ensures
        ({
            let c = m.sources[i];
            let d = m.step().sources[i];
            &&& m.emits(i) <==> d.until != c.until
            &&& m.emits(i) ==> c.until <= m.now && d.until == m.now + c.period
        }),
{
    let rel = |a: Model, b: Model| a.nodes_ok() ==> pauses_go_on(a, b) && b.nodes_ok();
    assert forall|a: Model, a1: Model, id: u32| #[trigger] taken(a, a1, id) implies rel(
        a,
        a1.fire(id),
    ) by {
        lemma_fire(a1, id);
        let r = a1.fire(id);
        assert forall|j: int| 0 <= j < a.sources.len() implies {
            let c = a.sources[j];
            let d = #[trigger] r.sources[j];
            &&& d.period == c.period >= 1
            &&& d.until == c.until || (c.until <= a.now && d.until == a.now + c.period)
        } by {
            assert(a.sources[j].ok());
        }
    }
    assert forall|a: Model, b: Model, c: Model| #[trigger] rel(a, b) && #[trigger] rel(
        b,
        c,
    ) implies rel(a, c) by {
        if a.nodes_ok() {
            assert forall|j: int| 0 <= j < a.sources.len() implies {
                let x = a.sources[j];
                let z = #[trigger] c.sources[j];
                &&& z.period == x.period >= 1
                &&& z.until == x.until || (x.until <= a.now && z.until == a.now + x.period)
            } by {
                assert(b.sources[j].period == a.sources[j].period);
            }
        }
    }
    assert(past_queues(rel)) by {
        assert forall|a: Model, q: Queues| q.place == a.q.place implies rel(
            a,
            #[trigger] a.with_queues(q),
        ) by {
            let b = a.with_queues(q);
            if a.nodes_ok() {
                assert forall|j: int| 0 <= j < a.sources.len() implies (
                #[trigger] b.sources[j]).period >= 1 by {
                    assert(a.sources[j].ok());
                }
            }
        }
    }
    lemma_tick_stages(m, rel);
    let e = m.events_done();
    assert(rel(m, e));
    assert(pauses_go_on(m, e));
    assert(e.sources[i].period == m.sources[i].period);
}

// ------------------------------------------------------------------------ belts

/// Within one tick only the ends of belt `i` change from `a` to `b`.
spec fn ends_change(a: Model, b: Model, i: int) -> bool {
    let p = a.belts[i];
    let q = b.belts[i];
    &&& q.cap == p.cap
    &&& q.period == p.period
    &&& forall|c: int, x: u16|
        0 < c < p.cap - 1 ==> (#[trigger] q.item_at(a.now, c, x) <==> p.item_at(a.now, c, x))
    &&& p.cap > 1 ==> forall|x: u16|
        #[trigger] q.item_at(a.now, 0, x) ==> p.item_at(a.now, 0, x)
    &&& p.cap > 1 ==> forall|x: u16|
        #[trigger] p.item_at(a.now, p.cap - 1, x) ==> q.item_at(a.now, p.cap - 1, x)
}

spec fn only_ends_change(a: Model, b: Model) -> bool {
    &&& b.now == a.now
    &&& b.belts.len() == a.belts.len()
    &&& forall|i: int| 0 <= i < a.belts.len() ==> #[trigger] ends_change(a, b, i)
}

/// The cells of a belt that is given an item, or not.
proof fn lemma_give_cells(m: Model, target: u32, item: u16, i: int, c: int, x: u16)
    requires
        m.nodes_ok(),
        m.reachable(target),
        m.accepts(target, item),
        0 <= i < m.belts.len(),
    ensures
        ({
            let p = m.belts[i];
            let q = m.give(target, item).belts[i];
            &&& q.cap == p.cap
            &&& q.period == p.period
            &&& p.item_at(m.now, c, x) ==> q.item_at(m.now, c, x)
            &&& c != p.cap - 1 ==> (q.item_at(m.now, c, x) <==> p.item_at(m.now, c, x))
        }),
{
    let p = m.belts[i];
    assert(p.ok(m.now));
    if kind(target) == K_BELT && idx(target) == i {
        law_item_enters_at_tail(p, item, m.now, c, x);
    }
}

proof fn lemma_fire_ends_change(m: Model, id: u32, i: int)
    requires
        m.nodes_ok(),
        m.may_fire(id),
        m.reachable(m.out_of(id)),
        0 <= i < m.belts.len(),
        m.fire(id).now == m.now,
    ensures
        ends_change(m, m.fire(id), i),
{
    let r = m.fire(id);
    let p = m.belts[i];
    let q = r.belts[i];
    assert(p.ok(m.now));
    let own = kind(id) == K_BELT && idx(id) == i;
    if kind(id) == K_BELT {
        let b = m.belts[idx(id)];
        assert(b.ok(m.now));
        lemma_lead(b, m.now);
        if m.accepts(b.out, b.runs[0].item) {
            lemma_give_nodes(m, b.out, b.runs[0].item);
            lemma_give_keeps_belt(m, b.out, b.runs[0].item, idx(id));
            let b1 = m.give(b.out, b.runs[0].item).belts[idx(id)];
            assert(b1.ok(m.now));
        } else {
            lemma_lead(BeltV { blocked: true, due: m.now, ..b }, m.now);
        }
    } else if kind(id) == K_MACH {
        let c = m.machines[idx(id)];
        assert(c.ok());
    }
    let m0 = if kind(id) == K_MACH {
        m.with_machine(idx(id), MachineV { busy: false, ..m.machines[idx(id)] })
    } else {
        m
    };
    if kind(id) == K_MACH {
        assert forall|k: int| 0 <= k < m0.machines.len() implies (
        #[trigger] m0.machines[k]).ok() by {
            assert(m.machines[k].ok());
        }
        assert(m0.nodes_ok());
    }
    let out = m.out_of(id);
    let item = m.item_of(id);
    let g = m0.give(out, item).belts[i];
    assert(m0.accepts(out, item) && !own ==> q == g);
    assert(m0.accepts(out, item) && own ==> q == g.without_first(m.now));
    assert(!m0.accepts(out, item) ==> q == p || q == (BeltV { blocked: true, due: m.now, ..p }));
    assert forall|c: int, x: u16| 0 <= c <= p.cap - 1 implies {
        &&& 0 < c < p.cap - 1 ==> (#[trigger] q.item_at(m.now, c, x) <==> p.item_at(m.now, c, x))
        &&& p.cap > 1 && c == 0 && q.item_at(m.now, c, x) ==> p.item_at(m.now, c, x)
        &&& p.cap > 1 && c == p.cap - 1 && p.item_at(m.now, c, x) ==> q.item_at(m.now, c, x)
    } by {
        if m0.accepts(out, item) {
            lemma_give_cells(m0, out, item, i, c, x);
            if own {
                law_item_leaves_from_head(g, m.now, c, x);
            }
        } else {
            assert(q.item_at(m.now, c, x) <==> p.item_at(m.now, c, x));
        }
    }
}

/// Within a tick items enter a belt only at its last cell and leave it only from its
/// head: no other cell changes, what lies at the tail stays there, and nothing gets to
/// the head.
pub proof fn law_only_ends_of_belts_change(m: Model, i: int, c: int, x: u16)
    requires
        m.valid(),
        m.linked() || m.tick_fits(),
        0 <= i < m.belts.len(),
    ensures
        ({
            let p = m.belts[i];
            let q = m.step().belts[i];
            &&& q.cap == p.cap
            &&& q.period == p.period
            &&& 0 < c < p.cap - 1 ==> (q.item_at(m.now, c, x) <==> p.item_at(m.now, c, x))
            &&& p.cap > 1 && q.item_at(m.now, 0, x) ==> p.item_at(m.now, 0, x)
            &&& p.cap > 1 && p.item_at(m.now, p.cap - 1, x) ==> q.item_at(m.now, p.cap - 1, x)
        }),
{
    let rel = |a: Model, b: Model| only_ends_change(a, b);
    assert forall|a: Model, a1: Model, id: u32| #[trigger] taken(a, a1, id) implies rel(
        a,
        a1.fire(id),
    ) by {
        lemma_fire(a1, id);
        let r = a1.fire(id);
        assert forall|j: int| 0 <= j < a.belts.len() implies #[trigger] ends_change(a, r, j) by {
            lemma_fire_ends_change(a1, id, j);
            assert(ends_change(a1, r, j));
        }
    }
    assert forall|a: Model, b: Model, d: Model| #[trigger] rel(a, b) && #[trigger] rel(
        b,
        d,
    ) implies rel(a, d) by {
        assert forall|j: int| 0 <= j < a.belts.len() implies #[trigger] ends_change(a, d, j) by {
            assert(ends_change(a, b, j));
            assert(ends_change(b, d, j));
        }
    }
    assert(past_queues(rel)) by {
        assert forall|a: Model, q: Queues| q.place == a.q.place implies rel(
            a,
            #[trigger] a.with_queues(q),
        ) by {
            let b = a.with_queues(q);
            assert forall|j: int| 0 <= j < a.belts.len() implies #[trigger] ends_change(
                a,
                b,
                j,
            ) by {}
        }
    }
    lemma_tick_stages(m, rel);
    assert(only_ends_change(m, m.events_done()));
    assert(ends_change(m, m.events_done(), i));
}

/// A belt in motion moves on by one cell in each period: what lies in a cell now lies
/// one cell nearer to the head one period later. Its first item gets to the head at just
/// the tick at which it is due there.
pub proof fn law_belt_speed(b: BeltV, now: int, c: int, x: u16)
    requires
        b.ok(now),
        b.runs.len() > 0,
        b.due > now,
    ensures
        b.item_at(now + b.period, c, x) <==> b.item_at(now, c + 1, x),
        b.item_at(b.due, c, x) <==> b.item_at(b.due - 1, c + 1, x),
        b.item_at(b.due, 0, b.runs[0].item),
        !b.item_at(now, 0, x),
{
    lemma_lead(b, now);
    let n = b.lead(now);
    let p = b.period;
    let t = now + p;
    assert((n - 1) * p == n * p - p) by (nonlinear_arith);
    if b.due > t {
        assert(n >= 2) by {
            if n < 2 {
                assert(1 * p == p);
            }
        }
        lemma_lead_is(b, t, n - 1);
    } else {
        assert(n == 1) by {
            if n >= 2 {
                assert((n - 1) * p >= p) by (nonlinear_arith)
                    requires
                        n >= 2,
                        p >= 1,
                ;
            }
        }
        lemma_lead(b, t);
    }
    assert(b.lead(t) == n - 1);
    lemma_lead(b, b.due);
    assert(1 * p == p);
    lemma_lead_is(b, b.due - 1, 1);
    assert(b.runs[0].count >= 1 && b.runs[0].gap == 0);
    assert(b.runs.take(0) =~= Seq::<RunV>::empty());
    assert(start_of(b.runs, 0) == 0);
    assert(covers(b.runs, 0, 0));
    assert(run_item(b.runs, 0, b.runs[0].item));
    if b.item_at(now, 0, x) {
        law_items_in_range(b, now, 0, x);
    }
}

/// A belt whose first item is at the head does not move.
pub proof fn law_belt_stands(b: BeltV, now: int, t: int, c: int, x: u16)
    requires
        b.ok(now),
        b.due <= now <= t,
    ensures
        b.item_at(t, c, x) <==> b.item_at(now, c, x),
{
    lemma_lead(b, now);
    lemma_lead(b, t);
}

} // verus!
