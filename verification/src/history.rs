//! Histories: what is done with a factory, step by step.

use vstd::prelude::*;

use crate::balance::{law_items_grow_slowly, law_sinks_keep_items};
use crate::ids::{idx, node, K_BELT, K_SRC};
use crate::model::{item_count, wrap, BeltV, MachineV, Model, Place, SinkV, SourceV};
use crate::seqs::{lemma_tally_push, lemma_tally_update};
use crate::ticks::{law_run_splits, lemma_run, lemma_step};
use crate::valid::{
    lemma_add_belt, lemma_add_machine, lemma_add_sink, lemma_add_source, lemma_empty,
    lemma_set_belt_out, lemma_set_sink_open, lemma_set_sort_events,
};
use crate::waits::{law_waits_for_its_out, lemma_gate_waits, lemma_schedule_waits};

verus! {

/// Something that is done with a factory.
pub enum Act {
    /// A belt of so many cells is added, with so many ticks per cell and the node
    /// that it delivers to.
    AddBelt(u16, u16, u32),
    /// A machine is added, with the item that it takes, how many of them it needs,
    /// the item that it makes, how long that takes, and the node that it delivers
    /// to.
    AddMachine(u16, u8, u16, u16, u32),
    /// A sink is added.
    AddSink,
    /// A source is added, with the item that it emits, the ticks in between, and the
    /// node that it delivers to.
    AddSource(u16, u16, u32),
    /// A belt is made to deliver to another node.
    BeltOut(u32, u32),
    /// Sorting of events is switched on or off.
    Sorting(bool),
    /// It runs for a number of ticks.
    Run(nat),
    /// A sink is opened or closed.
    Gate(u32, bool),
    /// Its state is looked at: its hash is taken.
    Look,
}

impl Model {
    /// The factory after one act.
    pub open spec fn act(self, a: Act) -> Model {
        match a {
            Act::AddBelt(cap, period, out) => self.add_belt(cap as int, period as int, out),
            Act::AddMachine(in_item, need, out_item, dur, out) => self.add_machine(
                in_item,
                need as int,
                out_item,
                dur as int,
                out,
            ),
            Act::AddSink => self.add_sink(),
            Act::AddSource(item, period, out) => self.add_source(item, period as int, out),
            Act::BeltOut(belt, out) => self.set_belt_out(idx(belt), out),
            Act::Sorting(on) => Model { sort_events: on, ..self },
            Act::Run(n) => self.run(n),
            Act::Gate(sink, open) => self.set_sink_open(sink, open),
            Act::Look => self,
        }
    }

    /// The act can be done with the factory.
    pub open spec fn permits(self, a: Act) -> bool {
        match a {
            Act::AddBelt(cap, period, out) => {
                cap >= 1 && period >= 1 && self.belts.len() < 0x4000_0000
            },
            Act::AddMachine(in_item, need, out_item, dur, out) => {
                need >= 1 && dur >= 1 && self.machines.len() < 0x4000_0000
            },
            Act::AddSink => self.sinks.len() < 0x4000_0000,
            Act::AddSource(item, period, out) => {
                period >= 1 && self.sources.len() < 0x3fff_ffff
            },
            Act::BeltOut(belt, out) => idx(belt) < self.belts.len(),
            Act::Sorting(on) => true,
            Act::Run(n) => self.can_run(n),
            Act::Gate(sink, open) => {
                &&& idx(sink) < self.sinks.len()
                &&& open && self.sinks[idx(sink)].open == 0 ==> self.reachable(sink)
            },
            Act::Look => true,
        }
    }

    /// The factory after a history.
    pub open spec fn after(self, acts: Seq<Act>) -> Model
        decreases acts.len(),
    {
        if acts.len() == 0 {
            self
        } else {
            self.after(acts.drop_last()).act(acts.last())
        }
    }

    /// Each act of the history can be done when its turn comes.
    pub open spec fn permits_all(self, acts: Seq<Act>) -> bool
        decreases acts.len(),
    {
        acts.len() > 0 ==> self.permits_all(acts.drop_last()) && self.after(
            acts.drop_last(),
        ).permits(acts.last())
    }
}

/// A history without the looks.
pub open spec fn unseen(acts: Seq<Act>) -> Seq<Act>
    decreases acts.len(),
{
    if acts.len() == 0 {
        Seq::empty()
    } else if acts.last() is Look {
        unseen(acts.drop_last())
    } else {
        unseen(acts.drop_last()).push(acts.last())
    }
}

/// Whether anyone looked on the way makes no difference.
pub proof fn law_looking_changes_nothing(m: Model, acts: Seq<Act>)
    ensures
        m.after(acts) == m.after(unseen(acts)),
    decreases acts.len(),
{
    if acts.len() > 0 {
        law_looking_changes_nothing(m, acts.drop_last());
        if !(acts.last() is Look) {
            let u = unseen(acts.drop_last());
            assert(u.push(acts.last()).drop_last() =~= u);
        }
    }
}

/// The same factory with the same history comes to the same state, with the same
/// hash, the same deliveries and the same number of events, whoever looked at it
/// on the way.
pub proof fn law_same_input_same_hash(m: Model, a: Seq<Act>, b: Seq<Act>)
    requires
        unseen(a) == unseen(b),
    ensures
        m.after(a) == m.after(b),
        m.after(a).state_hash() == m.after(b).state_hash(),
        m.after(a).delivered() == m.after(b).delivered(),
        m.after(a).events == m.after(b).events,
{
    law_looking_changes_nothing(m, a);
    law_looking_changes_nothing(m, b);
}

/// Running in two parts is running at once.
pub proof fn law_split_run(m: Model, acts: Seq<Act>, a: nat, b: nat)
    ensures
        m.after(acts.push(Act::Run(a)).push(Act::Run(b))) == m.after(acts.push(Act::Run(a + b))),
{
    let one = acts.push(Act::Run(a));
    let two = one.push(Act::Run(b));
    let all = acts.push(Act::Run(a + b));
    assert(one.drop_last() =~= acts);
    assert(two.drop_last() =~= one);
    assert(all.drop_last() =~= acts);
    assert(m.after(one) == m.after(acts).run(a));
    assert(m.after(two) == m.after(one).run(b));
    assert(m.after(all) == m.after(acts).run(a + b));
    law_run_splits(m.after(acts), a, b);
}

/// One act.
proof fn lemma_act(m: Model, a: Act)
    requires
        m.valid(),
        m.between_ticks(),
        m.permits(a),
    ensures
        m.act(a).valid(),
        m.act(a).between_ticks(),
{
    match a {
        Act::AddBelt(cap, period, out) => {
            lemma_add_belt(m, cap as int, period as int, out);
        },
        Act::AddMachine(in_item, need, out_item, dur, out) => {
            lemma_add_machine(m, in_item, need as int, out_item, dur as int, out);
        },
        Act::AddSink => {
            lemma_add_sink(m);
        },
        Act::AddSource(item, period, out) => {
            lemma_add_source(m, item, period as int, out);
        },
        Act::BeltOut(belt, out) => {
            lemma_set_belt_out(m, idx(belt), out);
        },
        Act::Sorting(on) => {
            lemma_set_sort_events(m, on);
        },
        Act::Run(n) => {
            lemma_run(m, n);
            if n > 0 {
                let k = (n - 1) as nat;
                if !m.linked() {
                    assert(m.run(k).tick_fits());
                }
                lemma_run(m, k);
                lemma_step(m.run(k));
            }
        },
        Act::Gate(sink, open) => {
            lemma_set_sink_open(m, sink, open);
            assert(m.set_sink_open(sink, open).machines == m.machines);
        },
        Act::Look => {},
    }
}

/// Whatever is done with a factory leaves it in order.
pub proof fn law_histories_keep_order(m: Model, acts: Seq<Act>)
    requires
        m.valid(),
        m.between_ticks(),
        m.permits_all(acts),
    ensures
        m.after(acts).valid(),
        m.after(acts).between_ticks(),
    decreases acts.len(),
{
    if acts.len() > 0 {
        law_histories_keep_order(m, acts.drop_last());
        lemma_act(m.after(acts.drop_last()), acts.last());
    }
}

/// Whatever is done with a factory, every node that waits, waits for the node that it
/// delivers to. The one exception is a belt that waits while it is made to deliver to
/// another node: it waits on for the one before.
pub proof fn law_acts_keep_waits(m: Model, a: Act)
    requires
        m.valid(),
        m.permits(a),
        m.waits_for_outs(),
        a matches Act::BeltOut(belt, out) ==> !m.waiting(node(K_BELT, idx(belt))),
    ensures
        m.act(a).waits_for_outs(),
{
    let r = m.act(a);
    let outs = |id: u32| m.out_of(id);
    match a {
        Act::Run(n) => {
            law_waits_for_its_out(m, n, 0);
        },
        Act::Gate(sink, open) => {
            lemma_gate_waits(m, sink, open);
        },
        Act::AddSource(item, period, out) => {
            let id = node(K_SRC, m.sources.len() as int);
            lemma_schedule_waits(m, id, m.now, outs);
            assert forall|x: u32| #[trigger]
                r.q.holds(x) && r.q.place[x] is Waiting implies r.q.place[x] == Place::Waiting(
                r.out_of(x),
            ) by {
                assert(m.schedule(id, m.now).q.holds(x));
                assert(m.q.holds(x));
                assert(m.live(x));
            }
        },
        _ => {
            assert forall|x: u32| #[trigger]
                r.q.holds(x) && r.q.place[x] is Waiting implies r.q.place[x] == Place::Waiting(
                r.out_of(x),
            ) by {
                assert(m.q.holds(x));
                assert(m.live(x));
            }
        },
    }
}

// ------------------------------------------------------------------------- items

impl Model {
    /// There are no more items than the sources can have emitted or be about to emit:
    /// one each for every tick.
    pub open spec fn frugal(self) -> bool {
        &&& 0 <= self.now <= 0xffff_ffff
        &&& self.items() <= (self.now + 1) * self.sources.len()
    }
}

/// Fewer items than can be counted.
proof fn lemma_countable(m: Model)
    requires
        m.valid(),
        m.frugal(),
    ensures
        m.items() < wrap(),
{
    let n = m.now + 1;
    let s = m.sources.len() as int;
    assert(n * s <= 0x1_0000_0000 * 0x3fff_ffff) by (nonlinear_arith)
        requires
            0 <= n <= 0x1_0000_0000,
            0 <= s <= 0x3fff_ffff,
    ;
}

proof fn lemma_run_frugal(m: Model, n: nat)
    requires
        m.valid(),
        m.frugal(),
        m.linked() || m.ticks_fit(n),
        m.now + n <= 0xffff_ffff,
    ensures
        m.run(n).frugal(),
    decreases n,
{
    if n > 0 {
        let k = (n - 1) as nat;
        lemma_run_frugal(m, k);
        lemma_run(m, k);
        lemma_run(m, n);
        let p = m.run(k);
        if !m.linked() {
            assert(p.tick_fits());
        }
        lemma_countable(p);
        law_items_grow_slowly(p);
        let t = p.now + 1;
        let s = p.sources.len() as int;
        assert(t * s + s == (t + 1) * s) by (nonlinear_arith);
    }
}

proof fn lemma_act_frugal(m: Model, a: Act)
    requires
        m.valid(),
        m.permits(a),
        m.frugal(),
    ensures
        m.act(a).frugal(),
{
    let r = m.act(a);
    let belts = |i: int, b: BeltV| item_count(b.runs);
    let machines = |i: int, c: MachineV| c.holding(m.now);
    let sinks = |i: int, c: SinkV| c.count;
    let sources = |i: int, c: SourceV| c.pending(m.now);
    match a {
        Act::AddBelt(cap, period, out) => {
            lemma_tally_push(m.belts, belts, r.belts.last());
        },
        Act::AddMachine(in_item, need, out_item, dur, out) => {
            lemma_tally_push(m.machines, machines, r.machines.last());
        },
        Act::AddSink => {
            lemma_tally_push(m.sinks, sinks, r.sinks.last());
        },
        Act::AddSource(item, period, out) => {
            lemma_tally_push(m.sources, sources, r.sources.last());
            let t = m.now + 1;
            let s = m.sources.len() as int;
            assert(t * (s + 1) == t * s + t) by (nonlinear_arith);
        },
        Act::BeltOut(belt, out) => {
            lemma_tally_update(m.belts, belts, idx(belt), r.belts[idx(belt)]);
        },
        Act::Run(n) => {
            if n > 0 && !m.sure_to_run(n) {
                assert(m.run((n - 1) as nat).tick_fits());
                lemma_run(m, (n - 1) as nat);
            }
            lemma_run_frugal(m, n);
        },
        Act::Gate(sink, open) => {
            law_sinks_keep_items(m, sink, open);
        },
        _ => {},
    }
}

/// Whatever is done with a factory from the time on when it had no nodes, its items
/// are no more than its sources can have emitted or be about to emit, and so fewer than
/// can be counted.
pub proof fn law_items_can_be_counted(acts: Seq<Act>)
    requires
        Model::empty().permits_all(acts),
    ensures
        ({
            let m = Model::empty().after(acts);
            &&& m.items() <= (m.now + 1) * m.sources.len()
            &&& m.items() < wrap()
        }),
{
    lemma_acts_frugal(acts);
    lemma_empty();
    law_histories_keep_order(Model::empty(), acts);
    lemma_countable(Model::empty().after(acts));
}

proof fn lemma_acts_frugal(acts: Seq<Act>)
    requires
        Model::empty().permits_all(acts),
    ensures
        Model::empty().after(acts).frugal(),
    decreases acts.len(),
{
    if acts.len() > 0 {
        let rest = acts.drop_last();
        lemma_acts_frugal(rest);
        lemma_empty();
        law_histories_keep_order(Model::empty(), rest);
        lemma_act_frugal(Model::empty().after(rest), acts.last());
    }
}

} // verus!
