//! The order of events: which nodes are handled in a tick, one after the other.

use vstd::prelude::*;

use crate::model::{not_after, wrap, Model, Place, Queues, SLOTS};
use crate::order::law_by_id_sorts;

use crate::ticks::{
    lemma_drain_far, lemma_due_far_len, lemma_far_once, lemma_far_out, lemma_first_due,
    lemma_ready_once, lemma_ready_out, lemma_reorder, lemma_same_layout, lemma_settle_fits,
    lemma_slot_once, lemma_slot_out, lemma_step, lemma_timers,
};
use crate::valid::{lemma_fire, lemma_next_far};

verus! {

impl Queues {
    /// The queues without the node `id`, which does not wait.
    pub open spec fn without(self, id: u32) -> Queues {
        Queues {
            wheel: Seq::new(self.wheel.len(), |s: int| self.wheel[s].remove_value(id)),
            far: self.far.filter(|p: (int, u32)| p.1 != id),
            ready: self.ready.remove_value(id),
            place: self.place.remove(id),
            ..self
        }
    }
}

impl Model {
    /// The factory after the node `id` was taken out of its queue and handled.
    pub open spec fn handled(self, id: u32) -> Model {
        self.with_queues(self.q.without(id)).fire(id)
    }

    /// The factory after the nodes were handled one after the other.
    pub open spec fn all_handled(self, ids: Seq<u32>) -> Model
        decreases ids.len(),
    {
        if ids.len() == 0 {
            self
        } else {
            self.handled(ids[0]).all_handled(ids.drop_first())
        }
    }
}

/// The nodes of timers.
pub open spec fn nodes_of(timers: Seq<(int, u32)>) -> Seq<u32> {
    timers.map_values(|p: (int, u32)| p.1)
}

// ------------------------------------------------------------------------ queues

/// Taking out what is not there changes nothing; taking out the first or the last
/// element leaves the others.
proof fn lemma_remove_value(s: Seq<u32>, id: u32)
    requires
        s.no_duplicates(),
    ensures
        !s.contains(id) ==> s.remove_value(id) == s,
        s.len() > 0 && s[0] == id ==> s.remove_value(id) =~= s.drop_first(),
        s.len() > 0 && s.last() == id ==> s.remove_value(id) =~= s.drop_last(),
{
    s.index_of_first_ensures(id);
    if s.len() > 0 && s[0] == id {
        assert(s.contains(id));
    }
    if s.len() > 0 && s.last() == id {
        assert(s.contains(id));
    }
}

proof fn lemma_without_ready(q: Queues, now: int)
    requires
        q.consistent(now),
        q.ready.len() > 0,
    ensures
        q.take_ready() == q.without(q.ready.last()),
{
    let id = q.ready.last();
    let r = q.without(id);
    assert(q.place[q.ready[q.ready.len() - 1]] is Ready);
    lemma_remove_value(q.ready, id);
    assert forall|s: int| 0 <= s < SLOTS implies #[trigger] q.wheel[s].remove_value(id)
        == q.wheel[s] by {
        assert(!q.wheel[s].contains(id)) by {
            if q.wheel[s].contains(id) {
                let k = choose|k: int| 0 <= k < q.wheel[s].len() && q.wheel[s][k] == id;
                assert(q.place[q.wheel[s][k]] is Wheel);
            }
        }
        lemma_remove_value(q.wheel[s], id);
    }
    assert(r.wheel =~= q.wheel);
    assert(r.far =~= q.far) by {
        assert forall|p: (int, u32)| r.far.contains(p) <==> q.far.contains(p) by {
            if q.far.contains(p) {
                assert(q.place[p.1] is Far);
            }
        }
    }
}

proof fn lemma_without_slot(q: Queues, now: int)
    requires
        q.consistent(now),
        q.wheel[now % (SLOTS as int)].len() > 0,
    ensures
        ({
            let s = now % (SLOTS as int);
            q.take_slot(s) == q.without(q.wheel[s][0])
        }),
{
    let u = now % (SLOTS as int);
    let id = q.wheel[u][0];
    let r = q.without(id);
    assert(q.place[q.wheel[u][0]] is Wheel);
    assert forall|s: int| 0 <= s < SLOTS implies #[trigger] q.wheel[s].remove_value(id)
        == q.take_slot(u).wheel[s] by {
        lemma_remove_value(q.wheel[s], id);
        if s != u {
            assert(!q.wheel[s].contains(id)) by {
                if q.wheel[s].contains(id) {
                    let k = choose|k: int| 0 <= k < q.wheel[s].len() && q.wheel[s][k] == id;
                    assert(q.place[q.wheel[s][k]]->Wheel_0 % (SLOTS as int) == s);
                    assert(q.place[q.wheel[u][0]]->Wheel_0 % (SLOTS as int) == u);
                }
            }
        }
    }
    assert(r.wheel =~= q.take_slot(u).wheel);
    assert(!q.ready.contains(id)) by {
        if q.ready.contains(id) {
            let k = choose|k: int| 0 <= k < q.ready.len() && q.ready[k] == id;
            assert(q.place[q.ready[k]] is Ready);
        }
    }
    lemma_remove_value(q.ready, id);
    assert(r.far =~= q.far) by {
        assert forall|p: (int, u32)| r.far.contains(p) <==> q.far.contains(p) by {
            if q.far.contains(p) {
                assert(q.place[p.1] is Far);
            }
        }
    }
}

proof fn lemma_without_far(q: Queues, now: int, p: (int, u32))
    requires
        q.consistent(now),
        q.far.contains(p),
    ensures
        q.take_far(p) == q.without(p.1),
{
    let id = p.1;
    let r = q.without(id);
    assert(q.place[id] == Place::Far(p.0));
    assert forall|s: int| 0 <= s < SLOTS implies #[trigger] q.wheel[s].remove_value(id)
        == q.wheel[s] by {
        assert(!q.wheel[s].contains(id)) by {
            if q.wheel[s].contains(id) {
                let k = choose|k: int| 0 <= k < q.wheel[s].len() && q.wheel[s][k] == id;
                assert(q.place[q.wheel[s][k]] is Wheel);
            }
        }
        lemma_remove_value(q.wheel[s], id);
    }
    assert(r.wheel =~= q.wheel);
    assert(!q.ready.contains(id)) by {
        if q.ready.contains(id) {
            let k = choose|k: int| 0 <= k < q.ready.len() && q.ready[k] == id;
            assert(q.place[q.ready[k]] is Ready);
        }
    }
    lemma_remove_value(q.ready, id);
    assert(r.far =~= q.far.remove(p)) by {
        assert forall|o: (int, u32)| r.far.contains(o) <==> q.far.remove(p).contains(o) by {
            if q.far.contains(o) && o.1 == id {
                assert(q.place[o.1] == Place::Far(o.0));
            }
        }
    }
}

// ------------------------------------------------------------------------ stages

/// An event counts as one.
proof fn lemma_counted(m: Model, id: u32)
    ensures
        m.fire(id).events == (m.events + 1) % wrap(),
{
}

proof fn lemma_all_counted(m: Model, ids: Seq<u32>)
    requires
        0 <= m.events < wrap(),
    ensures
        m.all_handled(ids).events == (m.events + ids.len()) % wrap(),
    decreases ids.len(),
{
    if ids.len() > 0 {
        let m1 = m.with_queues(m.q.without(ids[0]));
        lemma_counted(m1, ids[0]);
        lemma_all_counted(m.handled(ids[0]), ids.drop_first());
    }
}

/// Timers are in the order of their ticks, and those of one tick in the order of their
/// nodes.
pub open spec fn in_order(timers: Seq<(int, u32)>) -> bool {
    forall|i: int, j: int|
        #![trigger timers[i], timers[j]]
        0 <= i <= j < timers.len() ==> timers[i].0 < timers[j].0 || (timers[i].0 == timers[j].0
            && timers[i].1 <= timers[j].1)
}

proof fn lemma_far_trace(m: Model, n: nat) -> (t: Seq<(int, u32)>)
    requires
        m.valid(),
        m.linked() || m.far_fits(n),
        m.due_far().len() <= n,
    ensures
        m.drain_far(n) == m.all_handled(nodes_of(t)),
        in_order(t),
        t.no_duplicates(),
        forall|p: (int, u32)| #[trigger] t.contains(p) <==> m.due_far().contains(p),
        m.drain_far(n).q.wheel[m.slot()] == m.q.wheel[m.slot()],
    decreases n,
{
    if m.far_due() && n > 0 {
        lemma_first_due(m);
        let p = m.first_far();
        lemma_far_out(m, p);
        lemma_far_once(m, p);
        let m1 = m.with_queues(m.q.take_far(p));
        let r = m1.fire(p.1);
        lemma_next_far(m, p);
        lemma_same_layout(m1, m);
        lemma_fire(m1, p.1);
        lemma_without_far(m.q, m.now, p);
        let rest = lemma_far_trace(r, (n - 1) as nat);
        let t = seq![p] + rest;
        assert(nodes_of(t).drop_first() =~= nodes_of(rest));
        assert(nodes_of(t)[0] == p.1);
        assert forall|o: (int, u32)| #[trigger] t.contains(o) <==> m.due_far().contains(o) by {
            if t.contains(o) {
                let k = choose|k: int| 0 <= k < t.len() && t[k] == o;
                if k > 0 {
                    assert(rest[k - 1] == o);
                    assert(rest.contains(o));
                }
            } else if m.due_far().contains(o) {
                assert(o != p) by {
                    if o == p {
                        assert(t[0] == o);
                    }
                }
                assert(rest.contains(o));
                let k = choose|k: int| 0 <= k < rest.len() && rest[k] == o;
                assert(t[k + 1] == o);
            }
        }
        assert forall|i: int, j: int| 0 <= i <= j < t.len() implies not_after(
            #[trigger] t[i],
            #[trigger] t[j],
        ) by {
            if i > 0 {
                assert(t[i] == rest[i - 1] && t[j] == rest[j - 1]);
            } else if j > 0 {
                assert(t.contains(t[j]));
                assert(m.due_far().contains(t[j]));
                assert(m.q.far.contains(t[j]));
            }
        }
        assert(t.no_duplicates()) by {
            assert forall|i: int, j: int|
                0 <= i < t.len() && 0 <= j < t.len() && i != j implies t[i] != t[j] by {
                if i > 0 && j > 0 {
                    assert(rest[i - 1] != rest[j - 1]);
                } else if i == 0 {
                    assert(rest.contains(rest[j - 1]));
                    assert(r.due_far().contains(t[j]));
                } else {
                    assert(rest.contains(rest[i - 1]));
                    assert(r.due_far().contains(t[i]));
                }
            }
        }
        t
    } else {
        let t = Seq::<(int, u32)>::empty();
        assert(nodes_of(t).len() == 0);
        assert forall|o: (int, u32)| #[trigger] t.contains(o) <==> m.due_far().contains(o) by {
            if m.due_far().contains(o) {
                assert(m.q.far.contains(o));
                assert(m.far_due());
                lemma_due_far_len(m);
                assert(m.due_far().len() > 0);
            }
        }
        t
    }
}

proof fn lemma_slot_trace(m: Model, n: nat)
    requires
        m.valid(),
        m.linked() || m.slot_fits(n),
        n == m.q.wheel[m.slot()].len(),
    ensures
        m.drain_slot(n) == m.all_handled(m.q.wheel[m.slot()]),
    decreases n,
{
    if n > 0 {
        let x = m.q.wheel[m.slot()][0];
        lemma_slot_out(m);
        lemma_slot_once(m);
        lemma_without_slot(m.q, m.now);
        let r = m.with_queues(m.q.take_slot(m.slot())).fire(x);
        lemma_slot_trace(r, (n - 1) as nat);
    }
}

/// After the first `k` of the nodes were handled, the next one is the one that became
/// ready last.
pub open spec fn latest_ready(m: Model, ids: Seq<u32>, k: int) -> bool {
    let r = m.all_handled(ids.take(k));
    r.q.ready.len() > 0 && ids[k] == r.q.ready.last()
}

proof fn lemma_ready_trace(m: Model, n: nat) -> (t: Seq<u32>)
    requires
        m.valid(),
        m.linked() || m.settle_fits(n),
    ensures
        m.settle(n) == m.all_handled(t),
        forall|k: int| 0 <= k < t.len() ==> #[trigger] latest_ready(m, t, k),
    decreases n,
{
    if m.q.ready.len() > 0 && n > 0 {
        let x = m.q.ready.last();
        lemma_ready_out(m);
        lemma_ready_once(m);
        lemma_without_ready(m.q, m.now);
        let rest = lemma_ready_trace(m.fire_ready(), (n - 1) as nat);
        let t = seq![x] + rest;
        assert(t.drop_first() =~= rest);
        assert forall|k: int| 0 <= k < t.len() implies #[trigger] latest_ready(m, t, k) by {
            if k > 0 {
                assert(t.take(k).drop_first() =~= rest.take(k - 1));
                assert(t.take(k)[0] == x);
                assert(latest_ready(m.fire_ready(), rest, k - 1));
            }
        }
        t
    } else {
        Seq::empty()
    }
}

/// A tick handles nodes in this order, each once at a time: first the far timers that
/// are due, the earliest first and of one tick the smallest node first; then the nodes
/// of the wheel slot in the order of its list, or of their identifiers if events are
/// sorted; and then ready nodes, always the one that became ready last, until there are
/// none. Each counts as one event, and then the clock moves on by one.
pub proof fn law_order_of_events(m: Model) -> (t: (Seq<(int, u32)>, Seq<u32>, Seq<u32>))
    requires
        m.valid(),
        m.linked() || m.tick_fits(),
        m.tick_ends(),
    ensures
        ({
            let (far, list, ready) = t;
            let m1 = m.all_handled(nodes_of(far));
            let m2 = m1.with_queues(
                Queues { wheel: m1.q.wheel.update(m.now % (SLOTS as int), list), ..m1.q },
            ).all_handled(list);
            let m3 = m2.all_handled(ready);
            &&& in_order(far)
            &&& far.no_duplicates()
            &&& forall|p: (int, u32)| #[trigger]
                far.contains(p) <==> m.q.far.contains(p) && p.0 <= m.now
            &&& list.to_multiset() =~= m.q.wheel[m.now % (SLOTS as int)].to_multiset()
            &&& !m.sort_events ==> list == m.q.wheel[m.now % (SLOTS as int)]
            &&& m.sort_events ==> forall|i: int, j: int|
                0 <= i <= j < list.len() ==> list[i] <= list[j]
            &&& forall|k: int| 0 <= k < ready.len() ==> #[trigger] latest_ready(m2, ready, k)
            &&& m3.q.ready.len() == 0
            &&& m.step() == (Model { now: m.now + 1, ..m3 })
            &&& m.step().events == (m.events + far.len() + list.len() + ready.len())
                % 0x1_0000_0000_0000_0000
        }),
{
    let n1 = m.q.far.len();
    lemma_due_far_len(m);
    lemma_drain_far(m, n1);
    let far = lemma_far_trace(m, n1);
    let m1 = m.drain_far(n1);
    lemma_same_layout(m1, m);
    let list = lemma_wheel_trace(m1);
    let m2 = m.timers();
    let ready = lemma_settle_trace(m);
    lemma_step(m);
    let m3 = m2.all_handled(ready);
    assert(nodes_of(far).len() == far.len());
    lemma_all_counted(m, nodes_of(far));
    lemma_all_counted(m2, ready);
    lemma_three_sums(m.events, far.len() as int, list.len() as int, ready.len() as int);
    (far, list, ready)
}

proof fn lemma_three_sums(a: int, b: int, c: int, d: int)
    ensures
        (((a + b) % wrap() + c) % wrap() + d) % wrap() == (a + b + c + d) % wrap(),
{
}

/// The nodes of the current wheel slot, in the order in which they are handled.
proof fn lemma_wheel_trace(m: Model) -> (list: Seq<u32>)
    requires
        m.valid(),
        ({
            let r = m.reorder();
            m.linked() || r.slot_fits(r.q.wheel[r.slot()].len())
        }),
    ensures
        ({
            let slot = m.now % (SLOTS as int);
            let r = m.reorder();
            let m1 = m.with_queues(Queues { wheel: m.q.wheel.update(slot, list), ..m.q });
            let m2 = m1.all_handled(list);
            &&& r.drain_slot(r.q.wheel[r.slot()].len()) == m2
            &&& m2.events == (m.events + list.len()) % wrap()
            &&& list.to_multiset() =~= m.q.wheel[slot].to_multiset()
            &&& !m.sort_events ==> list == m.q.wheel[slot]
            &&& m.sort_events ==> forall|i: int, j: int|
                0 <= i <= j < list.len() ==> list[i] <= list[j]
        }),
{
    lemma_reorder(m);
    let r = m.reorder();
    lemma_same_layout(r, m);
    let slot = m.now % (SLOTS as int);
    let list = r.q.wheel[slot];
    law_by_id_sorts(m.q.wheel[slot]);
    assert(r.q.wheel =~= m.q.wheel.update(slot, list));
    assert(r == m.with_queues(Queues { wheel: m.q.wheel.update(slot, list), ..m.q }));
    lemma_slot_trace(r, list.len());
    lemma_all_counted(r, list);
    list
}

/// The ready nodes, in the order in which they are handled.
proof fn lemma_settle_trace(m: Model) -> (ready: Seq<u32>)
    requires
        m.valid(),
        m.linked() || m.tick_fits(),
        m.tick_ends(),
    ensures
        ({
            let m2 = m.timers();
            &&& m.events_done() == m2.all_handled(ready)
            &&& m.events_done().q.ready.len() == 0
            &&& forall|k: int| 0 <= k < ready.len() ==> #[trigger] latest_ready(m2, ready, k)
            &&& 0 <= m2.events < wrap()
        }),
{
    lemma_timers(m);
    let n3 = choose|n: nat| #[trigger] m.timers().settles_within(n);
    if m.tick_fits() {
        let a = choose|n: nat| #[trigger]
            m.timers().settles_within(n) && m.timers().settle_fits(n);
        lemma_settle_fits(m.timers(), a, n3);
    }
    lemma_ready_trace(m.timers(), n3)
}

} // verus!
