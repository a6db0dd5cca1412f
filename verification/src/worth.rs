//! The worth of items: a factory whose products are worth what goes into them
//! gains just what its sources emit.

use vstd::prelude::*;

use crate::balance::lemma_fire_items;
use crate::belts::lemma_lead;
use crate::emission::{lemma_sink_room, lemma_sources_go_on};
use crate::ids::{idx, kind, node, K_BELT, K_MACH, K_SINK};
use crate::model::{behind_first, wrap, BeltV, MachineV, Model, Queues, RunV, SinkV, SourceV};
use crate::seqs::{lemma_tally_difference, lemma_tally_push, lemma_tally_update, tally};
use crate::settle::lemma_give_nodes;
use crate::stages::{lemma_tick_stages, taken};
use crate::ticks::lemma_step;
use crate::valid::{lemma_give_keeps_belt, lemma_give_keeps_product};

verus! {

/// Worth of the items of the runs.
pub open spec fn runs_worth(runs: Seq<RunV>, v: spec_fn(u16) -> int) -> int {
    tally(runs, |i: int, r: RunV| r.count * v(r.item))
}

impl MachineV {
    /// Worth of what is in the machine. What is being made counts as made.
    pub open spec fn worth(self, v: spec_fn(u16) -> int) -> int {
        self.have * v(self.in_item) + (if self.busy || self.has_out {
            v(self.out_item)
        } else {
            0
        })
    }
}

impl Model {
    /// Worth of what lies on belts, is in machines and was received by sinks, if each
    /// sink `k` receives items `grade(k)` only.
    pub open spec fn worth(self, v: spec_fn(u16) -> int, grade: spec_fn(u32) -> u16) -> int {
        tally(self.belts, |i: int, b: BeltV| runs_worth(b.runs, v)) + tally(
            self.machines,
            |i: int, c: MachineV| c.worth(v),
        ) + tally(self.sinks, |i: int, c: SinkV| c.count * v(grade(node(K_SINK, i))))
    }

    /// Worth of what the sources are about to emit.
    pub open spec fn worth_to_come(self, v: spec_fn(u16) -> int) -> int {
        tally(self.sources, |i: int, c: SourceV| c.pending(self.now) * v(c.item))
    }

    /// Worth of what the sources emit in the current tick.
    pub open spec fn worth_emitted(self, v: spec_fn(u16) -> int) -> int {
        tally(
            self.sources,
            |i: int, c: SourceV|
                if self.emits(i) {
                    v(c.item)
                } else {
                    0
                },
        )
    }

    /// Belts and sinks get items of one kind only: each belt or sink `k` gets items
    /// `grade(k)`.
    pub open spec fn graded(self, grade: spec_fn(u32) -> u16) -> bool {
        &&& forall|i: int, k: int|
            0 <= i < self.belts.len() && 0 <= k < self.belts[i].runs.len() ==> (
            #[trigger] self.belts[i].runs[k]).item == grade(node(K_BELT, i))
        &&& forall|i: int|
            0 <= i < self.belts.len() ==> gets(
                grade,
                (#[trigger] self.belts[i]).out,
                grade(node(K_BELT, i)),
            )
        &&& forall|i: int|
            0 <= i < self.machines.len() ==> gets(
                grade,
                (#[trigger] self.machines[i]).out,
                self.machines[i].out_item,
            )
        &&& forall|i: int|
            0 <= i < self.sources.len() ==> gets(
                grade,
                (#[trigger] self.sources[i]).out,
                self.sources[i].item,
            )
    }

    /// Every machine's product is worth what goes into it.
    pub open spec fn fair(self, v: spec_fn(u16) -> int) -> bool {
        forall|i: int|
            0 <= i < self.machines.len() ==> v((#[trigger] self.machines[i]).out_item)
                == self.machines[i].need * v(self.machines[i].in_item)
    }
}

/// If `out` is a belt or a sink, `item` is what it gets.
pub open spec fn gets(grade: spec_fn(u32) -> u16, out: u32, item: u16) -> bool {
    kind(out) == K_BELT || kind(out) == K_SINK ==> grade(out) == item
}

// ------------------------------------------------------------------------ belts

proof fn lemma_worth_front(runs: Seq<RunV>, v: spec_fn(u16) -> int)
    requires
        runs.len() > 0,
    ensures
        runs_worth(runs, v) == runs[0].count * v(runs[0].item) + runs_worth(
            runs.drop_first(),
            v,
        ),
    decreases runs.len(),
{
    let f = |i: int, r: RunV| r.count * v(r.item);
    let rest = runs.drop_first();
    if runs.len() == 1 {
        assert(runs.drop_last() =~= Seq::<RunV>::empty());
        assert(tally(runs.drop_last(), f) == 0);
        assert(tally(rest, f) == 0);
    } else {
        lemma_worth_front(runs.drop_last(), v);
        assert(runs.drop_last().drop_first() =~= rest.drop_last());
        assert(rest.last() == runs.last());
    }
}

/// Worth of a belt with one more item.
proof fn lemma_worth_with_item(b: BeltV, item: u16, now: int, v: spec_fn(u16) -> int)
    ensures
        runs_worth(b.with_item(item, now).runs, v) == runs_worth(b.runs, v) + v(item),
{
    let f = |i: int, r: RunV| r.count * v(r.item);
    let n = b.runs.len() as int;
    let gap = b.cap - b.used(now) - 1;
    if n == 0 {
        let r = RunV { item, count: 1, gap: 0 };
        assert(Seq::<RunV>::empty().push(r) =~= seq![r]);
        lemma_tally_push(Seq::<RunV>::empty(), f, r);
        assert(1 * v(item) == v(item));
    } else if gap == 0 && b.runs[n - 1].item == item {
        let r = b.runs[n - 1];
        let r1 = RunV { count: r.count + 1, ..r };
        lemma_tally_update(b.runs, f, n - 1, r1);
        assert((r.count + 1) * v(item) == r.count * v(item) + v(item)) by (nonlinear_arith);
    } else {
        lemma_tally_push(b.runs, f, RunV { item, count: 1, gap });
        assert(1 * v(item) == v(item));
    }
}

/// Worth of runs without their first item.
proof fn lemma_worth_behind_first(runs: Seq<RunV>, v: spec_fn(u16) -> int)
    requires
        runs.len() > 0,
        runs[0].count >= 1,
    ensures
        runs_worth(behind_first(runs), v) == runs_worth(runs, v) - v(runs[0].item),
{
    let f = |i: int, r: RunV| r.count * v(r.item);
    let r = runs[0];
    let x = v(r.item);
    if r.count > 1 {
        lemma_tally_update(runs, f, 0, RunV { count: r.count - 1, ..r });
        assert((r.count - 1) * x == r.count * x - x) by (nonlinear_arith);
    } else {
        lemma_worth_front(runs, v);
        assert(1 * x == x);
        if runs.len() == 1 {
            assert(runs.drop_first() =~= Seq::<RunV>::empty());
        } else {
            lemma_tally_update(runs.drop_first(), f, 0, RunV { gap: 0, ..runs[1] });
        }
    }
}

proof fn lemma_belt_worth(
    m: Model,
    v: spec_fn(u16) -> int,
    grade: spec_fn(u32) -> u16,
    i: int,
    b: BeltV,
)
    requires
        0 <= i < m.belts.len(),
    ensures
        m.with_belt(i, b).worth(v, grade) == m.worth(v, grade) - runs_worth(m.belts[i].runs, v)
            + runs_worth(b.runs, v),
{
    lemma_tally_update(m.belts, |i: int, b: BeltV| runs_worth(b.runs, v), i, b);
}

proof fn lemma_machine_worth(
    m: Model,
    v: spec_fn(u16) -> int,
    grade: spec_fn(u32) -> u16,
    i: int,
    c: MachineV,
)
    requires
        0 <= i < m.machines.len(),
    ensures
        m.with_machine(i, c).worth(v, grade) == m.worth(v, grade) - m.machines[i].worth(v)
            + c.worth(v),
{
    lemma_tally_update(m.machines, |i: int, c: MachineV| c.worth(v), i, c);
}

// ----------------------------------------------------------------------- events

proof fn lemma_start_worth(
    m: Model,
    v: spec_fn(u16) -> int,
    grade: spec_fn(u32) -> u16,
    i: int,
)
    requires
        m.fair(v),
        0 <= i < m.machines.len(),
    ensures
        m.start(i).worth(v, grade) == m.worth(v, grade),
{
    let c = m.machines[i];
    if m.starts(i) {
        lemma_machine_worth(
            m,
            v,
            grade,
            i,
            MachineV { have: c.have - c.need, busy: true, until: m.now + c.dur, ..c },
        );
        assert((c.have - c.need) * v(c.in_item) == c.have * v(c.in_item) - c.need * v(c.in_item))
            by (nonlinear_arith);
    }
}

/// An item that is given to a node adds its worth.
proof fn lemma_give_worth(
    m: Model,
    v: spec_fn(u16) -> int,
    grade: spec_fn(u32) -> u16,
    target: u32,
    item: u16,
)
    requires
        m.fair(v),
        m.reachable(target),
        m.accepts(target, item),
        gets(grade, target, item),
        kind(target) == K_SINK ==> 0 <= m.sinks[idx(target)].count && m.sinks[idx(target)].count
            + 1 < wrap(),
    ensures
        m.give(target, item).worth(v, grade) == m.worth(v, grade) + v(item),
        m.give(target, item).sources == m.sources,
        m.give(target, item).now == m.now,
{
    let i = idx(target);
    if kind(target) == K_BELT {
        let b = m.belts[i];
        lemma_worth_with_item(b, item, m.now, v);
        lemma_belt_worth(m, v, grade, i, b.with_item(item, m.now));
    } else if kind(target) == K_MACH {
        let c = m.machines[i];
        let c1 = MachineV { have: c.have + 1, ..c };
        lemma_machine_worth(m, v, grade, i, c1);
        assert((c.have + 1) * v(item) == c.have * v(item) + v(item)) by (nonlinear_arith);
        let m1 = m.with_machine(i, c1);
        assert forall|k: int| 0 <= k < m1.machines.len() implies v(
            (#[trigger] m1.machines[k]).out_item,
        ) == m1.machines[k].need * v(m1.machines[k].in_item) by {
            assert(m.machines[k].need == m1.machines[k].need);
        }
        assert(m1.fair(v));
        lemma_start_worth(m1, v, grade, i);
    } else {
        let c = m.sinks[i];
        let c1 = SinkV { count: c.count + 1, ..c };
        assert(target == node(K_SINK, i));
        lemma_tally_update(
            m.sinks,
            |i: int, c: SinkV| c.count * v(grade(node(K_SINK, i))),
            i,
            c1,
        );
        assert((c.count + 1) * v(item) == c.count * v(item) + v(item)) by (nonlinear_arith);
    }
}

/// Fairness goes by the layout.
proof fn lemma_fair(m: Model, pre: Model, v: spec_fn(u16) -> int)
    requires
        m.machines.len() == pre.machines.len(),
        forall|i: int|
            0 <= i < m.machines.len() ==> {
                &&& (#[trigger] m.machines[i]).in_item == pre.machines[i].in_item
                &&& m.machines[i].out_item == pre.machines[i].out_item
                &&& m.machines[i].need == pre.machines[i].need
            },
        pre.fair(v),
    ensures
        m.fair(v),
{
    assert forall|i: int| 0 <= i < m.machines.len() implies v((#[trigger] m.machines[i]).out_item)
        == m.machines[i].need * v(m.machines[i].in_item) by {
        assert(pre.machines[i].need == m.machines[i].need);
    }
}

/// An event moves worth and makes none but what a source emits.
proof fn lemma_fire_worth(m: Model, v: spec_fn(u16) -> int, grade: spec_fn(u32) -> u16, id: u32)
    requires
        m.nodes_ok(),
        m.may_fire(id),
        m.reachable(m.out_of(id)),
        m.items() < wrap(),
        m.graded(grade),
        m.fair(v),
    ensures
        m.fire(id).worth(v, grade) + m.fire(id).worth_to_come(v) == m.worth(v, grade)
            + m.worth_to_come(v),
{
    let m0 = Model { events: (m.events + 1) % wrap(), ..m };
    let i = idx(id);
    let out = m.out_of(id);
    if kind(out) == K_SINK {
        lemma_sink_room(m, id);
        assert(m.sinks[idx(out)].ok());
    }
    assert(m0.worth(v, grade) == m.worth(v, grade));
    assert(m0.worth_to_come(v) == m.worth_to_come(v));
    if kind(id) == K_BELT {
        let b = m.belts[i];
        assert(id == node(K_BELT, i));
        assert(b.ok(m.now));
        lemma_lead(b, m.now);
        let item = b.runs[0].item;
        assert(item == grade(id));
        assert(gets(grade, b.out, grade(id)));
        if m0.accepts(b.out, item) {
            lemma_give_worth(m0, v, grade, b.out, item);
            lemma_give_keeps_belt(m0, b.out, item, i);
            lemma_give_nodes(m0, b.out, item);
            let m1 = m0.give(b.out, item);
            let b1 = m1.belts[i];
            assert(b1.ok(m1.now));
            lemma_worth_behind_first(b1.runs, v);
            lemma_belt_worth(m1, v, grade, i, b1.without_first(m.now));
        } else {
            lemma_belt_worth(m0, v, grade, i, BeltV { blocked: true, due: m.now, ..b });
        }
    } else if kind(id) == K_MACH {
        let c = m.machines[i];
        assert(c.ok());
        assert(gets(grade, c.out, c.out_item));
        if c.busy {
            let c1 = MachineV { busy: false, ..c };
            let m1 = m0.with_machine(i, c1);
            lemma_machine_worth(m0, v, grade, i, c1);
            lemma_fair(m1, m, v);
            if m1.accepts(c.out, c.out_item) {
                lemma_give_worth(m1, v, grade, c.out, c.out_item);
                let m2 = m1.give(c.out, c.out_item);
                lemma_fair(m2, m1, v);
                lemma_start_worth(m2, v, grade, i);
            } else {
                lemma_machine_worth(m1, v, grade, i, MachineV { has_out: true, ..c1 });
            }
        } else if m0.accepts(c.out, c.out_item) {
            lemma_give_worth(m0, v, grade, c.out, c.out_item);
            let m1 = m0.give(c.out, c.out_item);
            lemma_give_keeps_product(m0, c.out, c.out_item, i);
            let c2 = MachineV { has_out: false, ..m1.machines[i] };
            lemma_machine_worth(m1, v, grade, i, c2);
            let m2 = m1.with_machine(i, c2);
            lemma_fair(m2, m, v);
            lemma_start_worth(m2, v, grade, i);
        }
    } else {
        let c = m.sources[i];
        assert(c.ok());
        assert(gets(grade, c.out, c.item));
        let f = |i: int, c: SourceV| c.pending(m.now) * v(c.item);
        assert(1 * v(c.item) == v(c.item));
        assert(0 * v(c.item) == 0);
        if m0.accepts(c.out, c.item) {
            lemma_give_worth(m0, v, grade, c.out, c.item);
            lemma_tally_update(
                m.sources,
                f,
                i,
                SourceV { blocked: false, until: m.now + c.period, ..c },
            );
        } else {
            lemma_tally_update(m.sources, f, i, SourceV { blocked: true, ..c });
        }
    }
}

/// Every belt and sink still gets items of its one kind after an event.
proof fn lemma_fire_graded(m: Model, grade: spec_fn(u32) -> u16, id: u32)
    requires
        m.nodes_ok(),
        m.may_fire(id),
        m.reachable(m.out_of(id)),
        m.graded(grade),
        m.fire(id).same_layout(m),
    ensures
        m.fire(id).graded(grade),
{
    let r = m.fire(id);
    let i = idx(id);
    let out = m.out_of(id);
    if kind(id) == K_BELT {
        assert(id == node(K_BELT, i));
        assert(m.belts[i].ok(m.now));
        lemma_lead(m.belts[i], m.now);
        assert(m.belts[i].runs[0].item == grade(id));
        assert(gets(grade, m.belts[i].out, grade(id)));
    } else if kind(id) == K_MACH {
        assert(gets(grade, m.machines[i].out, m.machines[i].out_item));
    } else {
        assert(gets(grade, m.sources[i].out, m.sources[i].item));
    }
    assert forall|j: int, k: int|
        0 <= j < r.belts.len() && 0 <= k < r.belts[j].runs.len() implies (
    #[trigger] r.belts[j].runs[k]).item == grade(node(K_BELT, j)) by {
        lemma_fire_runs(m, grade, id, j, k);
    }
    assert forall|j: int| 0 <= j < r.belts.len() implies gets(
        grade,
        (#[trigger] r.belts[j]).out,
        grade(node(K_BELT, j)),
    ) by {
        assert(m.belts[j].out == r.belts[j].out);
    }
    assert forall|j: int| 0 <= j < r.machines.len() implies gets(
        grade,
        (#[trigger] r.machines[j]).out,
        r.machines[j].out_item,
    ) by {
        assert(m.machines[j].out == r.machines[j].out);
    }
    assert forall|j: int| 0 <= j < r.sources.len() implies gets(
        grade,
        (#[trigger] r.sources[j]).out,
        r.sources[j].item,
    ) by {
        assert(m.sources[j].out == r.sources[j].out);
    }
}

/// All items of the runs are `x`.
spec fn all_are(runs: Seq<RunV>, x: u16) -> bool {
    forall|k: int| 0 <= k < runs.len() ==> (#[trigger] runs[k]).item == x
}

proof fn lemma_fire_runs(m: Model, grade: spec_fn(u32) -> u16, id: u32, j: int, k: int)
    requires
        m.nodes_ok(),
        m.may_fire(id),
        m.reachable(m.out_of(id)),
        m.graded(grade),
        0 <= j < m.fire(id).belts.len(),
        0 <= k < m.fire(id).belts[j].runs.len(),
        m.fire(id).same_layout(m),
    ensures
        m.fire(id).belts[j].runs[k].item == grade(node(K_BELT, j)),
{
    let r = m.fire(id);
    let i = idx(id);
    let out = m.out_of(id);
    let x = grade(node(K_BELT, j));
    let b = m.belts[j];
    assert(all_are(b.runs, x)) by {
        assert forall|n: int| 0 <= n < b.runs.len() implies (#[trigger] b.runs[n]).item == x by {
            assert(m.belts[j].runs[n].item == x);
        }
    }
    let item = m.item_of(id);
    let fed = if kind(out) == K_BELT && idx(out) == j && m.accepts(out, item) {
        b.with_item(item, m.now).runs
    } else {
        b.runs
    };
    if kind(id) == K_BELT {
        assert(id == node(K_BELT, i));
        assert(m.belts[i].ok(m.now));
        lemma_lead(m.belts[i], m.now);
        assert(m.belts[i].runs[0].item == grade(id));
        assert(gets(grade, m.belts[i].out, grade(id)));
    } else if kind(id) == K_MACH {
        assert(m.machines[i].ok());
        assert(gets(grade, m.machines[i].out, m.machines[i].out_item));
    } else {
        assert(gets(grade, m.sources[i].out, m.sources[i].item));
    }
    if kind(out) == K_BELT && idx(out) == j {
        assert(out == node(K_BELT, j));
        assert(item == x);
    }
    assert(all_are(fed, x));
    if kind(id) == K_BELT && i == j && m.accepts(out, item) {
        assert(r.belts[j].runs == behind_first(fed));
        assert(all_are(behind_first(fed), x));
    } else {
        assert(r.belts[j].runs == fed);
    }
}

// ------------------------------------------------------------------------- laws

spec fn worth_kept(a: Model, b: Model, v: spec_fn(u16) -> int, grade: spec_fn(u32) -> u16) -> bool {
    a.items() < wrap() && a.graded(grade) && a.fair(v) ==> {
        &&& b.items() < wrap()
        &&& b.graded(grade)
        &&& b.fair(v)
        &&& b.worth(v, grade) + b.worth_to_come(v) == a.worth(v, grade) + a.worth_to_come(v)
    }
}

/// In a factory whose products are worth what goes into them, and whose belts and
/// sinks get items of one kind each, the worth of all items grows in each tick by
/// just what the sources emit.
pub proof fn law_worth_grows_by_what_is_emitted(
    m: Model,
    v: spec_fn(u16) -> int,
    grade: spec_fn(u32) -> u16,
)
    requires
        m.valid(),
        m.linked() || m.tick_fits(),
        m.items() < wrap(),
        m.graded(grade),
        m.fair(v),
    ensures
        m.step().worth(v, grade) == m.worth(v, grade) + m.worth_emitted(v),
        m.step().graded(grade),
        m.step().fair(v),
{
    let rel = |a: Model, b: Model| worth_kept(a, b, v, grade);
    assert forall|a: Model, a1: Model, id: u32| #[trigger] taken(a, a1, id) implies rel(
        a,
        a1.fire(id),
    ) by {
        assert(a1.items() == a.items());
        assert(a1.worth(v, grade) == a.worth(v, grade));
        assert(a1.worth_to_come(v) == a.worth_to_come(v));
        if a.items() < wrap() && a.graded(grade) && a.fair(v) {
            crate::valid::lemma_fire(a1, id);
            lemma_same_grade(a, a1, grade);
            lemma_fair(a1, a, v);
            lemma_fire_items(a1, id);
            lemma_fire_graded(a1, grade, id);
            lemma_fire_worth(a1, v, grade, id);
            lemma_fair(a1.fire(id), a1, v);
        }
    }
    assert forall|a: Model, b: Model, c: Model| #[trigger] rel(a, b) && #[trigger] rel(
        b,
        c,
    ) implies rel(a, c) by {}
    assert forall|a: Model, q: Queues| rel(a, #[trigger] a.with_queues(q)) by {
        let b = a.with_queues(q);
        assert(b.items() == a.items());
        assert(b.worth(v, grade) == a.worth(v, grade));
        assert(b.worth_to_come(v) == a.worth_to_come(v));
        if a.graded(grade) && a.fair(v) {
            lemma_same_grade(a, b, grade);
            lemma_fair(b, a, v);
        }
    }
    lemma_tick_stages(m, rel);
    let e = m.events_done();
    assert(rel(m, e));
    lemma_step(m);
    let s = m.step();
    lemma_same_grade(e, s, grade);
    lemma_fair(s, e, v);
    assert(s.worth(v, grade) == e.worth(v, grade));
    lemma_sources_go_on(m);
    let f = |i: int, c: SourceV| c.pending(m.now) * v(c.item);
    let h = |i: int, c: SourceV|
        if m.emits(i) {
            v(c.item)
        } else {
            0
        };
    assert forall|i: int| 0 <= i < m.sources.len() implies f(i, #[trigger] m.sources[i]) - f(
        i,
        e.sources[i],
    ) == h(i, m.sources[i]) by {
        assert(e.sources[i].until == m.sources[i].until || m.sources[i].until <= m.now
            < e.sources[i].until);
        assert(e.sources[i].item == m.sources[i].item);
        assert(1 * v(m.sources[i].item) == v(m.sources[i].item));
        assert(0 * v(m.sources[i].item) == 0);
    }
    lemma_tally_difference(m.sources, f, e.sources, f, h);
}

/// Grades go by layout and contents.
proof fn lemma_same_grade(m: Model, r: Model, grade: spec_fn(u32) -> u16)
    requires
        r.belts == m.belts,
        r.machines == m.machines,
        r.sources == m.sources,
        m.graded(grade),
    ensures
        r.graded(grade),
{
    assert forall|j: int, k: int|
        0 <= j < r.belts.len() && 0 <= k < r.belts[j].runs.len() implies (
    #[trigger] r.belts[j].runs[k]).item == grade(node(K_BELT, j)) by {
        assert(m.belts[j].runs[k].item == grade(node(K_BELT, j)));
    }
}

} // verus!
