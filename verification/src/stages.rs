//! From events to ticks: what every event keeps, a tick keeps.

use vstd::prelude::*;

use crate::model::{Model, Queues, SLOTS};
use crate::ticks::{
    lemma_far_out, lemma_ready_out, lemma_slot_out, lemma_drain_far, lemma_far_once,
    lemma_first_due, lemma_ready_once, lemma_reorder, lemma_same_layout, lemma_settle_fits,
    lemma_slot_once, lemma_timers,
};
use crate::valid::{lemma_next_far, lemma_next_ready, lemma_next_slot, lemma_reaches};

verus! {

/// In `m` the node `id` is taken out of its queue, which gives `m1`, and is then to
/// be handled.
pub open spec fn taken(m: Model, m1: Model, id: u32) -> bool {
    &&& m.valid()
    &&& forall|t: int| #[trigger] m.q.timer(id, t) ==> t <= m.now
    &&& m1 == m.with_queues(m1.q)
    &&& m1.q.place == m.q.place.remove(id)
    &&& m1.q.wheel.len() == m.q.wheel.len()
    &&& forall|s: int|
        0 <= s < m.q.wheel.len() && s != m.slot() ==> #[trigger] m1.q.wheel[s] == m.q.wheel[s]
    &&& m1.q.far.subset_of(m.q.far)
    &&& m1.valid_except(set![id])
    &&& m1.may_fire(id)
    &&& m1.reachable(m1.out_of(id))
}

/// Every event is one of `rel`.
pub open spec fn holds_of_events(rel: spec_fn(Model, Model) -> bool) -> bool {
    forall|m: Model, m1: Model, id: u32| #[trigger]
        taken(m, m1, id) ==> rel(m, m1.fire(id))
}

/// Steps of `rel` follow each other to one of `rel`.
pub open spec fn chained(rel: spec_fn(Model, Model) -> bool) -> bool {
    forall|a: Model, b: Model, c: Model| #[trigger]
        rel(a, b) && #[trigger] rel(b, c) ==> rel(a, c)
}

/// A change of the order of the current wheel slot alone is one of `rel`.
pub open spec fn past_queues(rel: spec_fn(Model, Model) -> bool) -> bool {
    forall|m: Model, q: Queues|
        q == (Queues { wheel: m.q.wheel.update(m.slot(), q.wheel[m.slot()]), ..m.q }) ==> rel(
            m,
            #[trigger] m.with_queues(q),
        )
}

proof fn lemma_unchanged(m: Model, rel: spec_fn(Model, Model) -> bool)
    requires
        m.q.wheel.len() == SLOTS,
        past_queues(rel),
    ensures
        rel(m, m),
{
    let s = m.slot();
    assert(m.q.wheel.update(s, m.q.wheel[s]) =~= m.q.wheel);
    assert(rel(m, m.with_queues(m.q)));
}

proof fn lemma_far_stage(m: Model, n: nat, rel: spec_fn(Model, Model) -> bool)
    requires
        m.valid(),
        m.linked() || m.far_fits(n),
        holds_of_events(rel),
        chained(rel),
        past_queues(rel),
    ensures
        rel(m, m.drain_far(n)),
    decreases n,
{
    lemma_unchanged(m, rel);
    if m.far_due() && n > 0 {
        lemma_first_due(m);
        let p = m.first_far();
        let m1 = m.with_queues(m.q.take_far(p));
        lemma_far_out(m, p);
        lemma_far_once(m, p);
        lemma_next_far(m, p);
        lemma_same_layout(m1, m);
        lemma_reaches(m1, p.1);
        assert(taken(m, m1, p.1));
        lemma_far_stage(m1.fire(p.1), (n - 1) as nat, rel);
        assert(rel(m, m1.fire(p.1)));
    }
}

proof fn lemma_slot_stage(m: Model, n: nat, rel: spec_fn(Model, Model) -> bool)
    requires
        m.valid(),
        m.linked() || m.slot_fits(n),
        holds_of_events(rel),
        chained(rel),
        past_queues(rel),
    ensures
        rel(m, m.drain_slot(n)),
    decreases n,
{
    lemma_unchanged(m, rel);
    if m.q.wheel[m.slot()].len() > 0 && n > 0 {
        let x = m.q.wheel[m.slot()][0];
        let m1 = m.with_queues(m.q.take_slot(m.slot()));
        lemma_slot_out(m);
        lemma_slot_once(m);
        lemma_next_slot(m);
        lemma_same_layout(m1, m);
        lemma_reaches(m1, x);
        assert(taken(m, m1, x));
        lemma_slot_stage(m1.fire(x), (n - 1) as nat, rel);
        assert(rel(m, m1.fire(x)));
    }
}

proof fn lemma_ready_stage(m: Model, n: nat, rel: spec_fn(Model, Model) -> bool)
    requires
        m.valid(),
        m.linked() || m.settle_fits(n),
        holds_of_events(rel),
        chained(rel),
        past_queues(rel),
    ensures
        rel(m, m.settle(n)),
    decreases n,
{
    lemma_unchanged(m, rel);
    if m.q.ready.len() > 0 && n > 0 {
        let x = m.q.ready.last();
        let m1 = m.with_queues(m.q.take_ready());
        lemma_ready_out(m);
        lemma_ready_once(m);
        lemma_next_ready(m);
        lemma_same_layout(m1, m);
        lemma_reaches(m1, x);
        assert(taken(m, m1, x));
        lemma_ready_stage(m.fire_ready(), (n - 1) as nat, rel);
        assert(rel(m, m.fire_ready()));
    }
}

/// What holds of every event, and of events one after the other, holds of all
/// events of a tick.
pub proof fn lemma_tick_stages(m: Model, rel: spec_fn(Model, Model) -> bool)
    requires
        m.valid(),
        m.linked() || m.tick_fits(),
        holds_of_events(rel),
        chained(rel),
        past_queues(rel),
    ensures
        rel(m, m.events_done()),
{
    let n1 = m.q.far.len();
    let m1 = m.drain_far(n1);
    lemma_drain_far(m, n1);
    lemma_far_stage(m, n1, rel);
    lemma_reorder(m1);
    let m2 = m1.reorder();
    assert(m2.q.wheel =~= m1.q.wheel.update(m1.slot(), m2.q.wheel[m1.slot()]));
    assert(rel(m1, m1.with_queues(m2.q)));
    assert(rel(m1, m2));
    lemma_same_layout(m1, m);
    lemma_same_layout(m2, m1);
    assert(rel(m, m2));
    let n2 = m2.q.wheel[m2.slot()].len();
    lemma_slot_stage(m2, n2, rel);
    lemma_timers(m);
    assert(rel(m, m.timers()));
    let n3 = choose|n: nat| #[trigger] m.timers().settles_within(n);
    if m.tick_fits() {
        let a = choose|n: nat| #[trigger]
            m.timers().settles_within(n) && m.timers().settle_fits(n);
        lemma_settle_fits(m.timers(), a, n3);
    }
    lemma_ready_stage(m.timers(), n3, rel);
}

} // verus!
