//! Building a factory.

use vstd::layout::size_of;
use vstd::prelude::*;

use super::event::lemma_sink_changed;
use super::report::{capacity, lemma_takes, Capacities};
use super::{
    at, flags_fit, lemma_same_belts, lemma_same_lists, Belt, Machine, Run, Shadow, Sink, Source,
    World,
};
use crate::flags::lemma_flag_values;
use crate::ids::{idx, idx_of, kind, mkid, node, K_BELT, K_MACH, K_SINK, K_SRC, NONE};
use crate::model::{Model, Queues, SLOTS};
use crate::seqs::lemma_tally_push;
use crate::ticks::lemma_same_layout;
use crate::timers::TimerHeap;
use crate::valid::{
    lemma_add_belt, lemma_add_machine, lemma_add_sink, lemma_add_source, lemma_empty, lemma_orderly,
    lemma_set_belt_out, lemma_set_sink_open, lemma_set_sort_events,
};

verus! {

/// `Vec::reserve_exact`, which gives `v` room for `additional` more elements at
/// least: that is what its capacity then says. Its contents stay. How much more room
/// it has is up to the allocator and is left unsaid. A request for more elements than
/// a `usize` can count, or for more than `isize::MAX` bytes in all, would panic.
#[verifier::external_body]
fn reserve_exact<T>(v: &mut Vec<T>, additional: usize)
    requires
        old(v)@.len() + additional <= usize::MAX,
        (old(v)@.len() + additional) * size_of::<T>() <= isize::MAX,
    ensures
        final(v)@ == old(v)@,
        forall|n: usize| #[trigger]
            call_ensures(capacity::<T>, (&*final(v),), n) ==> n >= old(v)@.len() + additional,
{
    v.reserve_exact(additional);
}

/// `len + additional` elements of type `T` fit into an address space.
spec fn addressable<T>(len: nat, additional: int) -> bool {
    &&& len + additional <= usize::MAX
    &&& (len + additional) * size_of::<T>() <= isize::MAX
}

/// Whether `additional` elements besides those in `v` fit into an address space.
fn fits<T>(v: &Vec<T>, additional: usize) -> (r: bool)
    ensures
        r == addressable::<T>(v@.len(), additional as int),
{
    let size: usize = core::mem::size_of::<T>();
    let total: Option<usize> = v.len().checked_add(additional);
    match total {
        Some(n) => {
            let bytes: Option<usize> = n.checked_mul(size);
            match bytes {
                Some(b) => b <= isize::MAX as usize,
                None => false,
            }
        },
        None => false,
    }
}

/// The queues are stored as before after nodes were added that are in none.
proof fn lemma_grown_queues(pre: World, post: World)
    requires
        pre.queues_rep(),
        pre@.orderly(),
        post.wheel == pre.wheel,
        post.ready == pre.ready,
        post.overflow == pre.overflow,
        post.shadow@.q == pre.shadow@.q,
        pre.belts@.len() <= post.belts@.len(),
        pre.machines@.len() <= post.machines@.len(),
        pre.sinks@.len() <= post.sinks@.len(),
        pre.sources@.len() <= post.sources@.len(),
        forall|i: int| 0 <= i < pre.belts@.len() ==> #[trigger] post.belts@[i] == pre.belts@[i],
        forall|i: int|
            0 <= i < pre.machines@.len() ==> #[trigger] post.machines@[i] == pre.machines@[i],
        forall|i: int| 0 <= i < pre.sinks@.len() ==> #[trigger] post.sinks@[i] == pre.sinks@[i],
        forall|i: int|
            0 <= i < pre.sources@.len() ==> #[trigger] post.sources@[i] == pre.sources@[i],
        forall|t: u32| #![trigger post.head(t)]
            post@.reachable(t) && !pre@.reachable(t) ==> post.head(t) == NONE
                && pre@.q.waits[t].len() == 0,
        forall|x: u32| #![trigger post.flags(x)]
            post@.live(x) && !pre@.live(x) ==> post.flags(x) == 0 && !pre@.q.holds(x),
    ensures
        post.queues_rep(),
{
    let q = pre@.q;
    assert forall|s: int| 0 <= s < SLOTS implies post.chain(
        post.wheel@[s],
        #[trigger] q.wheel[s],
    ) by {
        assert(pre.chain(pre.wheel@[s], q.wheel[s]));
        assert forall|k: int| 0 <= k < q.wheel[s].len() implies post.link(#[trigger] q.wheel[s][k])
            == at(q.wheel[s], k + 1) by {
            let x = q.wheel[s][k];
            assert(pre@.live(x));
            assert(pre.link(x) == at(q.wheel[s], k + 1));
        }
    }
    assert forall|t: u32| post@.reachable(t) && kind(t) != K_SRC implies post.chain(
        post.head(t),
        #[trigger] q.waits[t],
    ) by {
        if pre@.reachable(t) {
            assert(pre.chain(pre.head(t), q.waits[t]));
            assert forall|k: int| 0 <= k < q.waits[t].len() implies post.link(
                #[trigger] q.waits[t][k],
            ) == at(q.waits[t], k + 1) by {
                let x = q.waits[t][k];
                assert(pre@.live(x));
                assert(pre.link(x) == at(q.waits[t], k + 1));
            }
        } else {
            assert(post.head(t) == NONE);
        }
    }
    lemma_flag_values(0);
    assert forall|x: u32| post@.live(x) implies flags_fit(q, x, #[trigger] post.flags(x)) by {
        if pre@.live(x) {
            assert(flags_fit(q, x, pre.flags(x)));
        }
    }
}

/// The belts are stored as before after other nodes were added.
proof fn lemma_grown_belts(pre: World, post: World)
    requires
        pre.belts_rep(),
        post.now == pre.now,
        post.runs == pre.runs,
        post.run_free == pre.run_free,
        post.shadow@.owner == pre.shadow@.owner,
        pre.belts@.len() <= post.belts@.len(),
        post.shadow@.chains.len() >= pre.shadow@.chains.len(),
        forall|i: int| 0 <= i < pre.belts@.len() ==> #[trigger] post.belts@[i] == pre.belts@[i],
        forall|i: int|
            0 <= i < pre.belts@.len() ==> #[trigger] post.shadow@.chains[i]
                == pre.shadow@.chains[i],
    ensures
        forall|i: int| 0 <= i < pre.belts@.len() ==> #[trigger] post.belt_rep(i),
        forall|i: int| 0 <= i < pre.belts@.len() ==> #[trigger] post.belt(i) == pre.belt(i),
{
    assert forall|i: int| 0 <= i < pre.belts@.len() implies #[trigger] post.belt(i) == pre.belt(
        i,
    ) by {
        assert(post.belts@[i] == pre.belts@[i]);
        assert(post.run_views(i) =~= pre.run_views(i));
    }
    assert forall|i: int| 0 <= i < pre.belts@.len() implies #[trigger] post.belt_rep(i) by {
        assert(pre.belt_rep(i));
        assert(post.belts@[i] == pre.belts@[i]);
        assert(post.run_views(i) =~= pre.run_views(i));
    }
}

impl World {
    /// A factory without nodes.
    pub fn new() -> (w: World)
        ensures
            w.wf(),
            w@ == Model::empty(),
    {
        let w = World {
            now: 0,
            belts: Vec::new(),
            machines: Vec::new(),
            sinks: Vec::new(),
            sources: Vec::new(),
            runs: Vec::new(),
            run_free: Vec::new(),
            wheel: vec![NONE; SLOTS],
            overflow: TimerHeap::new(),
            ready: Vec::new(),
            batch: Vec::new(),
            batch2: Vec::new(),
            sort_events: false,
            events: 0,
            shadow: Ghost(
                Shadow { q: Queues::idle(), chains: Seq::empty(), owner: Seq::empty() },
            ),
        };
        proof {
            lemma_empty();
            assert(w@ =~= Model::empty());
            assert forall|s: int| 0 <= s < SLOTS implies w.wheel@[s] == NONE by {}
            assert(w.queues_rep());
            assert(w.belts_rep());
        }
        w
    }

    /// Room can be asked for, for so many more nodes of each kind: it does not
    /// exceed the address space.
    pub closed spec fn reservable(
        &self,
        belts: int,
        machines: int,
        sinks: int,
        sources: int,
    ) -> bool {
        &&& addressable::<Belt>(self.belts@.len(), belts)
        &&& addressable::<Machine>(self.machines@.len(), machines)
        &&& addressable::<Sink>(self.sinks@.len(), sinks)
        &&& addressable::<Source>(self.sources@.len(), sources)
        &&& belts + 8 <= usize::MAX
        &&& addressable::<Run>(self.runs@.len(), belts + 8)
    }

    /// Whether `reserve` can be asked for so many more nodes of each kind.
    pub fn can_reserve(&self, belts: usize, machines: usize, sinks: usize, sources: usize) -> (r:
        bool)
        ensures
            r == self.reservable(belts as int, machines as int, sinks as int, sources as int),
    {
        fits(&self.belts, belts) && fits(&self.machines, machines) && fits(&self.sinks, sinks)
            && fits(&self.sources, sources) && belts <= usize::MAX - 8 && fits(
            &self.runs,
            belts + 8,
        )
    }

    /// Makes room for so many more nodes of each kind, and for so many runs as there are
    /// more belts and eight besides. The factory stays the same. How much more room its
    /// arrays then have is up to the allocator and is left unsaid.
    pub fn reserve(&mut self, belts: usize, machines: usize, sinks: usize, sources: usize)
        requires
            old(self).wf(),
            old(self).reservable(belts as int, machines as int, sinks as int, sources as int),
        ensures
            final(self).wf(),
            final(self)@ == old(self)@,
            forall|c: Capacities| #[trigger]
                final(self).takes(c) ==> {
                    &&& c.belts >= old(self)@.belts.len() + belts
                    &&& c.machines >= old(self)@.machines.len() + machines
                    &&& c.sinks >= old(self)@.sinks.len() + sinks
                    &&& c.sources >= old(self)@.sources.len() + sources
                    &&& c.runs >= belts + 8
                },
    {
        let ghost pre = *self;
        reserve_exact(&mut self.belts, belts);
        reserve_exact(&mut self.machines, machines);
        reserve_exact(&mut self.sinks, sinks);
        reserve_exact(&mut self.sources, sources);
        reserve_exact(&mut self.runs, belts + 8);
        proof {
            let post = *self;
            lemma_orderly(pre@, Set::empty());
            assert forall|i: int| 0 <= i < post.belts@.len() implies post.belt(i) == pre.belt(
                i,
            ) by {
                assert(post.run_views(i) =~= pre.run_views(i));
            }
            assert forall|i: int| 0 <= i < post.belts@.len() implies #[trigger] post.belt_rep(
                i,
            ) by {
                assert(pre.belt_rep(i));
                assert(post.run_views(i) =~= pre.run_views(i));
            }
            assert(post@.belts =~= pre@.belts);
            assert(post@.machines =~= pre@.machines);
            assert(post@.sinks =~= pre@.sinks);
            assert(post@.sources =~= pre@.sources);
            assert(post.same_lists(pre));
            lemma_same_lists(pre, post);
            assert forall|c: Capacities| #[trigger] post.takes(c) implies {
                &&& c.belts >= pre.belts@.len() + belts
                &&& c.machines >= pre.machines@.len() + machines
                &&& c.sinks >= pre.sinks@.len() + sinks
                &&& c.sources >= pre.sources@.len() + sources
                &&& c.runs >= belts + 8
            } by {
                lemma_takes(post, c);
            }
        }
    }

    /// The events of a tick whose timers are on the wheel are sorted by node from
    /// now on, or no longer.
    pub fn set_sort_events(&mut self, on: bool)
        requires
            old(self).wf(),
        ensures
            final(self).wf(),
            final(self)@ == (Model { sort_events: on, ..old(self)@ }),
    {
        let ghost pre = *self;
        self.sort_events = on;
        proof {
            let post = *self;
            lemma_orderly(pre@, Set::empty());
            lemma_same_belts(pre, post);
            assert(post@.machines =~= pre@.machines);
            assert(post@.sinks =~= pre@.sinks);
            assert(post@.sources =~= pre@.sources);
            assert(post@ =~= (Model { sort_events: on, ..pre@ }));
            assert(post.same_lists(pre));
            lemma_same_lists(pre, post);
            lemma_set_sort_events(pre@, on);
        }
    }

    /// Adds a belt of `cap` cells that takes `period` ticks per cell and
    /// delivers to `out`.
    pub fn add_belt(&mut self, cap: u16, period: u16, out: u32) -> (id: u32)
        requires
            old(self).wf(),
            cap >= 1,
            period >= 1,
            old(self)@.belts.len() < 0x4000_0000,
        ensures
            final(self).wf(),
            final(self)@ == old(self)@.add_belt(cap as int, period as int, out),
            id == node(K_BELT, old(self)@.belts.len() as int),
    {
        let ghost pre = *self;
        let ghost n = self.belts@.len() as int;
        self.belts.push(
            Belt {
                out,
                run_head: NONE,
                run_tail: NONE,
                last: self.now,
                link: NONE,
                wait_head: NONE,
                cap,
                period,
                gap0: 0,
                used: 0,
                flags: 0,
            },
        );
        proof {
            self.shadow@.chains = pre.shadow@.chains.push(Seq::empty());
            let post = *self;
            lemma_orderly(pre@, Set::empty());
            lemma_add_belt(pre@, cap as int, period as int, out);
            lemma_flag_values(0);
            lemma_grown_belts(pre, post);
            assert(post.run_views(n) =~= Seq::empty());
            assert(0 * post.belts@[n].period == 0);
            assert(post.belt_rep(n));
            lemma_tally_push(
                pre.shadow@.chains,
                |k: int, x: Seq<u32>| x.len() as int,
                Seq::empty(),
            );
            assert forall|i: int| 0 <= i < post.belts@.len() implies #[trigger] post.belt_rep(
                i,
            ) by {}
            assert(post.belts_rep());
            assert(post@.belts =~= pre@.belts.push(post.belt(n))) by {
                assert forall|i: int| 0 <= i < n implies post@.belts[i] == pre@.belts[i] by {
                    assert(post.belt(i) == pre.belt(i));
                }
            }
            assert(post@.machines =~= pre@.machines);
            assert(post@.sinks =~= pre@.sinks);
            assert(post@.sources =~= pre@.sources);
            assert(post@ =~= pre@.add_belt(cap as int, period as int, out));
            assert forall|t: u32| post@.reachable(t) && !pre@.reachable(t) implies #[trigger] post.head(
                t,
            ) == NONE && pre@.q.waits[t].len() == 0 by {
                assert(t == node(K_BELT, n));
            }
            assert forall|x: u32| post@.live(x) && !pre@.live(x) implies #[trigger] post.flags(x)
                == 0 && !pre@.q.holds(x) by {
                assert(x == node(K_BELT, n));
            }
            lemma_grown_queues(pre, post);
        }
        mkid(K_BELT, (self.belts.len() - 1) as u32)
    }

    /// Adds a machine that makes one `out_item` out of `need` items `in_item`,
    /// in `dur` ticks, and delivers to `out`.
    pub fn add_machine(
        &mut self,
        in_item: u16,
        need: u8,
        out_item: u16,
        dur: u16,
        out: u32,
    ) -> (id: u32)
        requires
            old(self).wf(),
            need >= 1,
            dur >= 1,
            old(self)@.machines.len() < 0x4000_0000,
        ensures
            final(self).wf(),
            final(self)@ == old(self)@.add_machine(
                in_item,
                need as int,
                out_item,
                dur as int,
                out,
            ),
            id == node(K_MACH, old(self)@.machines.len() as int),
    {
        let ghost pre = *self;
        let ghost n = self.machines@.len() as int;
        self.machines.push(
            Machine {
                out,
                until: 0,
                link: NONE,
                wait_head: NONE,
                in_item,
                out_item,
                dur,
                need,
                have: 0,
                flags: 0,
            },
        );
        proof {
            let post = *self;
            lemma_orderly(pre@, Set::empty());
            lemma_add_machine(pre@, in_item, need as int, out_item, dur as int, out);
            lemma_flag_values(0);
            lemma_grown_belts(pre, post);
            assert(post.belts_rep());
            assert(post@.belts =~= pre@.belts) by {
                assert forall|i: int| 0 <= i < pre.belts@.len() implies post@.belts[i]
                    == pre@.belts[i] by {
                    assert(post.belt(i) == pre.belt(i));
                }
            }
            assert(post@.machines =~= pre@.machines.push(post.machine(n)));
            assert(post@.sinks =~= pre@.sinks);
            assert(post@.sources =~= pre@.sources);
            assert(post@ =~= pre@.add_machine(in_item, need as int, out_item, dur as int, out));
            assert forall|t: u32| post@.reachable(t) && !pre@.reachable(t) implies #[trigger] post.head(
                t,
            ) == NONE && pre@.q.waits[t].len() == 0 by {
                assert(t == node(K_MACH, n));
            }
            assert forall|x: u32| post@.live(x) && !pre@.live(x) implies #[trigger] post.flags(x)
                == 0 && !pre@.q.holds(x) by {
                assert(x == node(K_MACH, n));
            }
            lemma_grown_queues(pre, post);
        }
        mkid(K_MACH, (self.machines.len() - 1) as u32)
    }

    /// Adds a sink, which is open.
    pub fn add_sink(&mut self) -> (id: u32)
        requires
            old(self).wf(),
            old(self)@.sinks.len() < 0x4000_0000,
        ensures
            final(self).wf(),
            final(self)@ == old(self)@.add_sink(),
            id == node(K_SINK, old(self)@.sinks.len() as int),
    {
        let ghost pre = *self;
        let ghost n = self.sinks@.len() as int;
        self.sinks.push(Sink { count: 0, wait_head: NONE, open: 1 });
        proof {
            let post = *self;
            lemma_orderly(pre@, Set::empty());
            lemma_add_sink(pre@);
            lemma_grown_belts(pre, post);
            assert(post.belts_rep());
            assert(post@.belts =~= pre@.belts) by {
                assert forall|i: int| 0 <= i < pre.belts@.len() implies post@.belts[i]
                    == pre@.belts[i] by {
                    assert(post.belt(i) == pre.belt(i));
                }
            }
            assert(post@.machines =~= pre@.machines);
            assert(post@.sinks =~= pre@.sinks.push(post.sink(n)));
            assert(post@.sources =~= pre@.sources);
            assert(post@ =~= pre@.add_sink());
            assert forall|t: u32| post@.reachable(t) && !pre@.reachable(t) implies #[trigger] post.head(
                t,
            ) == NONE && pre@.q.waits[t].len() == 0 by {
                assert(t == node(K_SINK, n));
            }
            lemma_grown_queues(pre, post);
        }
        mkid(K_SINK, (self.sinks.len() - 1) as u32)
    }

    /// Adds a source that emits an `item` to `out` every `period` ticks,
    /// beginning with the current one.
    pub fn add_source(&mut self, item: u16, period: u16, out: u32) -> (id: u32)
        requires
            old(self).wf(),
            period >= 1,
            old(self)@.sources.len() < 0x3fff_ffff,
        ensures
            final(self).wf(),
            final(self)@ == old(self)@.add_source(item, period as int, out),
            id == node(K_SRC, old(self)@.sources.len() as int),
    {
        let ghost pre = *self;
        let ghost n = self.sources@.len() as int;
        self.sources.push(Source { out, until: 0, link: NONE, period, item, flags: 0 });
        let id: u32 = mkid(K_SRC, (self.sources.len() - 1) as u32);
        proof {
            let post = *self;
            lemma_orderly(pre@, Set::empty());
            lemma_add_source(pre@, item, period as int, out);
            lemma_flag_values(0);
            lemma_grown_belts(pre, post);
            assert(post.belts_rep());
            assert(post@.belts =~= pre@.belts) by {
                assert forall|i: int| 0 <= i < pre.belts@.len() implies post@.belts[i]
                    == pre@.belts[i] by {
                    assert(post.belt(i) == pre.belt(i));
                }
            }
            assert(post@.machines =~= pre@.machines);
            assert(post@.sinks =~= pre@.sinks);
            assert(post@.sources =~= pre@.sources.push(post.source(n)));
            assert forall|x: u32| post@.live(x) && !pre@.live(x) implies #[trigger] post.flags(x)
                == 0 && !pre@.q.holds(x) by {
                assert(x == node(K_SRC, n));
            }
            lemma_grown_queues(pre, post);
        }
        let now: u32 = self.now;
        self.schedule(id, now);
        id
    }

    /// Belt `idx_of(belt)` delivers to `out` from now on.
    pub fn set_belt_out(&mut self, belt: u32, out: u32)
        requires
            old(self).wf(),
            idx(belt) < old(self)@.belts.len(),
        ensures
            final(self).wf(),
            final(self)@ == old(self)@.set_belt_out(idx(belt), out),
    {
        let ghost pre = *self;
        let i: usize = idx_of(belt);
        self.belts[i].out = out;
        proof {
            let post = *self;
            lemma_orderly(pre@, Set::empty());
            lemma_set_belt_out(pre@, i as int, out);
            assert forall|j: int| 0 <= j < post.belts@.len() implies #[trigger] post.belt_rep(
                j,
            ) by {
                assert(pre.belt_rep(j));
                assert(post.run_views(j) =~= pre.run_views(j));
            }
            assert(post@.belts =~= pre@.set_belt_out(i as int, out).belts) by {
                assert forall|j: int| 0 <= j < post.belts@.len() implies post.run_views(j)
                    == pre.run_views(j) by {
                    assert(post.run_views(j) =~= pre.run_views(j));
                }
            }
            assert(post@.machines =~= pre@.machines);
            assert(post@.sinks =~= pre@.sinks);
            assert(post@.sources =~= pre@.sources);
            assert(post@ =~= pre@.set_belt_out(i as int, out));
            assert(post.same_lists(pre));
            lemma_same_lists(pre, post);
        }
    }

    /// Number of nodes.
    pub fn node_count(&self) -> (n: usize)
        requires
            self.wf(),
        ensures
            n == self@.belts.len() + self@.machines.len() + self@.sinks.len()
                + self@.sources.len(),
    {
        self.belts.len() + self.machines.len() + self.sinks.len() + self.sources.len()
    }

    /// Opens or closes sink `idx_of(sink)`. What waits for it tries again within
    /// the current tick when it is opened.
    pub fn set_sink_open(&mut self, sink: u32, open: bool)
        requires
            old(self).wf(),
            idx(sink) < old(self)@.sinks.len(),
            open && old(self)@.sinks[idx(sink)].open == 0 ==> old(self)@.reachable(sink),
        ensures
            final(self).wf(),
            final(self)@ == old(self)@.set_sink_open(sink, open),
            final(self)@.same_layout(old(self)@),
            old(self)@.loop_free() ==> final(self)@.loop_free(),
            forall|n: nat| #![trigger final(self)@.sure_to_run(n)]
                old(self)@.sure_to_run(n) ==> final(self)@.sure_to_run(n),
    {
        let ghost pre = *self;
        let i: usize = idx_of(sink);
        let was: bool = self.sinks[i].open != 0;
        self.sinks[i].open = if open {
            1
        } else {
            0
        };
        proof {
            lemma_orderly(pre@, Set::empty());
            lemma_sink_changed(pre, *self, i as int);
            lemma_set_sink_open(pre@, sink, open);
            lemma_same_layout(pre@.set_sink_open(sink, open), pre@);
        }
        if open && !was {
            self.wake_waiters(sink);
        }
    }
}

impl Default for World {
    fn default() -> (w: World)
        ensures
            w.wf(),
            w@ == Model::empty(),
    {
        World::new()
    }
}

} // verus!
