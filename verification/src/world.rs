//! The factory as it is stored: flat arrays of nodes, linked lists threaded
//! through the nodes, and belts as chains of runs in one shared arena.

use vstd::prelude::*;

use crate::belts::{lemma_lead, lemma_lead_is};
use crate::flags::{flag_on, F_BLOCKED, F_BUSY, F_HASOUT, F_READY, F_WAIT, F_WHEEL};
use crate::ids::{idx, kind, K_BELT, K_MACH, K_SINK, K_SRC, NONE};
use crate::model::{extent, wrap, BeltV, MachineV, Model, Queues, RunV, SinkV, SourceV, SLOTS};
use crate::motion::Motion;
use crate::seqs::tally;
use crate::timers::TimerHeap;

mod belt;
mod clock;
mod event;
mod limits;
mod make;
mod queue;
pub mod report;

pub use report::Capacities;

verus! {

/// A belt. Cell 0 is its head, cell `cap - 1` its tail.
#[derive(Clone)]
pub struct Belt {
    pub out: u32,
    run_head: u32,
    run_tail: u32,
    /// The tick up to which its movement is accounted for.
    last: u32,
    /// The next node of the one list that it is in, of a wheel slot or of a
    /// node that it waits for.
    link: u32,
    wait_head: u32,
    pub cap: u16,
    /// Ticks per cell.
    pub period: u16,
    /// Number of free cells ahead of its first item.
    gap0: u16,
    /// Position of its last item plus one.
    used: u16,
    flags: u8,
}

/// `count` equal items without a gap, `gap` free cells ahead of them.
#[derive(Clone)]
struct Run {
    next: u32,
    item: u16,
    count: u16,
    gap: u16,
}

/// A machine.
#[derive(Clone)]
pub struct Machine {
    pub out: u32,
    until: u32,
    link: u32,
    wait_head: u32,
    in_item: u16,
    out_item: u16,
    dur: u16,
    need: u8,
    have: u8,
    flags: u8,
}

/// A sink.
#[derive(Clone)]
pub struct Sink {
    /// Number of items received, modulo 2^64.
    pub count: u64,
    wait_head: u32,
    /// Not zero if it takes items.
    pub open: u8,
}

/// A source.
#[derive(Clone)]
pub struct Source {
    pub out: u32,
    until: u32,
    link: u32,
    period: u16,
    item: u16,
    flags: u8,
}

/// What the stored lists stand for.
struct Shadow {
    /// The queues.
    q: Queues,
    /// For each belt the indices of its runs, head first.
    chains: Seq<Seq<u32>>,
    /// For each run the belt that it belongs to; -1 for a free run.
    owner: Seq<int>,
}

/// A factory.
pub struct World {
    pub now: u32,
    pub belts: Vec<Belt>,
    pub machines: Vec<Machine>,
    pub sinks: Vec<Sink>,
    pub sources: Vec<Source>,
    runs: Vec<Run>,
    run_free: Vec<u32>,
    wheel: Vec<u32>,
    overflow: TimerHeap,
    ready: Vec<u32>,
    batch: Vec<u32>,
    batch2: Vec<u32>,
    /// The events of a tick whose timers are on the wheel are collected, sorted by
    /// node and then handled.
    pub sort_events: bool,
    /// Number of events handled, modulo 2^64.
    pub events: u64,
    shadow: Ghost<Shadow>,
}

/// The element `k` of a list, or `NONE` past its end.
spec fn at(list: Seq<u32>, k: int) -> u32 {
    if 0 <= k < list.len() {
        list[k]
    } else {
        NONE
    }
}

/// How far a belt has come, as it is stored.
spec fn motion(b: Belt) -> Motion {
    Motion { last: b.last as int, gap: b.gap0 as int, used: b.used as int }
}

/// `a` is `b` with its movement accounted for up to `now`. A belt that is blocked does
/// not move.
spec fn moved_up_to(a: Belt, b: Belt, now: int) -> bool {
    &&& a == (Belt { last: a.last, gap0: a.gap0, used: a.used, ..b })
    &&& motion(a) == if flag_on(b.flags, F_BLOCKED) {
        motion(b)
    } else {
        motion(b).up_to(b.period as int, now)
    }
}

/// The later of two ticks.
spec fn later(a: int, b: int) -> int {
    if a > b {
        a
    } else {
        b
    }
}

/// The flags say where the node `id` is queued.
spec fn flags_fit(q: Queues, id: u32, f: u8) -> bool {
    &&& flag_on(f, F_WAIT) <==> q.holds(id) && q.place[id] is Waiting
    &&& flag_on(f, F_READY) <==> q.holds(id) && q.place[id] is Ready
    &&& flag_on(f, F_WHEEL) <==> q.holds(id) && (q.place[id] is Wheel || q.place[id] is Far)
}

impl World {
    // ----------------------------------------------------------------- model

    /// The runs of belt `i`.
    spec fn run_views(self, i: int) -> Seq<RunV> {
        let c = self.shadow@.chains[i];
        Seq::new(
            c.len(),
            |k: int|
                {
                    let r = self.runs@[c[k] as int];
                    RunV {
                        item: r.item,
                        count: r.count as int,
                        gap: if k == 0 {
                            0
                        } else {
                            r.gap as int
                        },
                    }
                },
        )
    }

    spec fn belt(self, i: int) -> BeltV {
        let b = self.belts@[i];
        BeltV {
            out: b.out,
            cap: b.cap as int,
            period: b.period as int,
            due: b.last + b.gap0 * b.period,
            blocked: flag_on(b.flags, F_BLOCKED),
            runs: self.run_views(i),
        }
    }

    spec fn machine(self, i: int) -> MachineV {
        let c = self.machines@[i];
        MachineV {
            out: c.out,
            in_item: c.in_item,
            out_item: c.out_item,
            dur: c.dur as int,
            need: c.need as int,
            have: c.have as int,
            until: c.until as int,
            busy: flag_on(c.flags, F_BUSY),
            has_out: flag_on(c.flags, F_HASOUT),
        }
    }

    spec fn sink(self, i: int) -> SinkV {
        SinkV { count: self.sinks@[i].count as int, open: self.sinks@[i].open }
    }

    spec fn source(self, i: int) -> SourceV {
        let c = self.sources@[i];
        SourceV {
            out: c.out,
            item: c.item,
            period: c.period as int,
            until: c.until as int,
            blocked: flag_on(c.flags, F_BLOCKED),
        }
    }

    /// The factory that is stored. How far the movement of a belt is accounted
    /// for makes no difference to it.
    pub closed spec fn view(&self) -> Model {
        Model {
            now: self.now as int,
            belts: Seq::new(self.belts@.len(), |i: int| self.belt(i)),
            machines: Seq::new(self.machines@.len(), |i: int| self.machine(i)),
            sinks: Seq::new(self.sinks@.len(), |i: int| self.sink(i)),
            sources: Seq::new(self.sources@.len(), |i: int| self.source(i)),
            q: self.shadow@.q,
            sort_events: self.sort_events,
            events: self.events as int,
        }
    }

    // -------------------------------------------------------- representation

    /// The next node of the list that the node `id` is in.
    spec fn link(self, id: u32) -> u32 {
        if kind(id) == K_BELT {
            self.belts@[idx(id)].link
        } else if kind(id) == K_MACH {
            self.machines@[idx(id)].link
        } else if kind(id) == K_SRC {
            self.sources@[idx(id)].link
        } else {
            NONE
        }
    }

    /// The flags of the node `id`.
    spec fn flags(self, id: u32) -> u8 {
        if kind(id) == K_BELT {
            self.belts@[idx(id)].flags
        } else if kind(id) == K_MACH {
            self.machines@[idx(id)].flags
        } else if kind(id) == K_SRC {
            self.sources@[idx(id)].flags
        } else {
            0
        }
    }

    /// The first node that waits for the node `t`.
    spec fn head(self, t: u32) -> u32 {
        if kind(t) == K_BELT {
            self.belts@[idx(t)].wait_head
        } else if kind(t) == K_MACH {
            self.machines@[idx(t)].wait_head
        } else if kind(t) == K_SINK {
            self.sinks@[idx(t)].wait_head
        } else {
            NONE
        }
    }

    /// The list that starts at `head` is `list`.
    spec fn chain(self, head: u32, list: Seq<u32>) -> bool {
        &&& head == at(list, 0)
        &&& forall|k: int| 0 <= k < list.len() ==> self.link(#[trigger] list[k]) == at(list, k + 1)
    }

    /// The queues are stored.
    spec fn queues_rep(self) -> bool {
        let q = self.shadow@.q;
        &&& self.wheel@.len() == SLOTS
        &&& q.wheel.len() == SLOTS
        &&& forall|s: int|
            0 <= s < SLOTS ==> self.chain(self.wheel@[s], #[trigger] q.wheel[s])
        &&& forall|t: u32|
            self@.reachable(t) && kind(t) != K_SRC ==> self.chain(
                self.head(t),
                #[trigger] q.waits[t],
            )
        &&& self.ready@ == q.ready
        &&& self.overflow.wf()
        &&& self.overflow@ == q.far
        &&& forall|id: u32| self@.live(id) ==> flags_fit(q, id, #[trigger] self.flags(id))
    }

    /// Belt `i` is stored.
    spec fn belt_rep(self, i: int) -> bool {
        let b = self.belts@[i];
        let c = self.shadow@.chains[i];
        &&& b.run_head == at(c, 0)
        &&& b.run_tail == at(c, c.len() - 1)
        &&& forall|k: int|
            0 <= k < c.len() ==> {
                &&& (#[trigger] c[k]) < self.runs@.len()
                &&& self.shadow@.owner[c[k] as int] == i
                &&& self.runs@[c[k] as int].next == at(c, k + 1)
            }
        &&& c.no_duplicates()
        &&& b.last <= self.now
        &&& c.len() == 0 ==> b.gap0 == 0 && b.used == 0
        &&& c.len() > 0 ==> b.used == b.gap0 + extent(self.run_views(i))
        &&& flag_on(b.flags, F_BLOCKED) ==> b.gap0 == 0
    }

    /// Number of runs that belong to belts.
    spec fn runs_in_use(self) -> int {
        tally(self.shadow@.chains, |i: int, c: Seq<u32>| c.len() as int)
    }

    /// The belts and the arena of their runs are stored.
    spec fn belts_rep(self) -> bool {
        let sh = self.shadow@;
        &&& sh.chains.len() == self.belts@.len()
        &&& sh.owner.len() == self.runs@.len()
        &&& self.runs@.len() <= 0xffff_ffff
        &&& forall|i: int| 0 <= i < self.belts@.len() ==> #[trigger] self.belt_rep(i)
        &&& forall|k: int|
            0 <= k < self.run_free@.len() ==> {
                &&& (#[trigger] self.run_free@[k]) < self.runs@.len()
                &&& sh.owner[self.run_free@[k] as int] == -1
            }
        &&& self.run_free@.no_duplicates()
        &&& self.runs_in_use() + self.run_free@.len() == self.runs@.len()
    }

    /// The factory is stored.
    spec fn rep(self) -> bool {
        self.queues_rep() && self.belts_rep()
    }

    /// What holds of every factory that this library has made.
    pub closed spec fn wf(&self) -> bool {
        self.rep() && self@.valid() && self@.between_ticks()
    }

    /// The movement of belt `i` is accounted for up to now.
    spec fn synced(self, i: int) -> bool {
        self.belts@[i].gap0 == 0 || self.now - self.belts@[i].last < self.belts@[i].period
    }

    /// What must hold when the node `id`, out of its queues, is handled.
    spec fn can_fire(self, id: u32) -> bool {
        &&& self.rep()
        &&& self@.valid_except(set![id])
        &&& self@.live(id)
        &&& self@.fits(id)
    }

    // ----------------------------------------------------------------- frames

    /// Nothing but queues has changed: every node carries what it carried in
    /// `pre`, and who is waited for first is the same.
    spec fn same_goods(self, pre: World) -> bool {
        &&& self.now == pre.now
        &&& self.runs == pre.runs
        &&& self.run_free == pre.run_free
        &&& self.sort_events == pre.sort_events
        &&& self.events == pre.events
        &&& self.shadow@.chains == pre.shadow@.chains
        &&& self.shadow@.owner == pre.shadow@.owner
        &&& self.belts@.len() == pre.belts@.len()
        &&& self.machines@.len() == pre.machines@.len()
        &&& self.sinks@.len() == pre.sinks@.len()
        &&& self.sources@.len() == pre.sources@.len()
        &&& forall|i: int|
            0 <= i < self.belts@.len() ==> same_belt(#[trigger] self.belts@[i], pre.belts@[i])
        &&& forall|i: int|
            0 <= i < self.machines@.len() ==> same_machine(
                #[trigger] self.machines@[i],
                pre.machines@[i],
            )
        &&& forall|i: int|
            0 <= i < self.sinks@.len() ==> {
                &&& (#[trigger] self.sinks@[i]).count == pre.sinks@[i].count
                &&& self.sinks@[i].open == pre.sinks@[i].open
            }
        &&& forall|i: int|
            0 <= i < self.sources@.len() ==> same_source(
                #[trigger] self.sources@[i],
                pre.sources@[i],
            )
    }

    /// Only the link and the flags of the node `id` differ from `pre`, and its
    /// flags only in what queue it is in.
    spec fn requeued(self, pre: World, id: u32) -> bool {
        &&& self.same_goods(pre)
        &&& self.wheel == pre.wheel
        &&& self.ready == pre.ready
        &&& self.overflow == pre.overflow
        &&& self.shadow == pre.shadow
        &&& forall|t: u32| #![trigger self.head(t)]
            #![trigger pre.head(t)]
            pre@.reachable(t) ==> self.head(t) == pre.head(t)
        &&& forall|x: u32| #![trigger self.link(x)]
            #![trigger pre.link(x)]
            pre@.live(x) && x != id ==> self.link(x) == pre.link(x)
        &&& forall|x: u32| #![trigger self.flags(x)]
            #![trigger pre.flags(x)]
            pre@.live(x) && x != id ==> self.flags(x) == pre.flags(x)
    }

    /// A belt whose first item is at the head has it there still.
    spec fn heads_kept(self, pre: World) -> bool {
        forall|j: int|
            0 <= j < pre.belts@.len() && pre.belts@[j].gap0 == 0 && pre@.belts[j].runs.len() > 0
                ==> (#[trigger] self.belts@[j]).gap0 == 0
    }

    /// Only the first node that waits for the node `t` differs from `pre`.
    spec fn reheaded(self, pre: World, t: u32) -> bool {
        &&& self.same_goods(pre)
        &&& self.wheel == pre.wheel
        &&& self.ready == pre.ready
        &&& self.overflow == pre.overflow
        &&& self.shadow == pre.shadow
        &&& forall|x: u32| #![trigger self.head(x)]
            #![trigger pre.head(x)]
            pre@.reachable(x) && x != t ==> self.head(x) == pre.head(x)
        &&& forall|x: u32| #![trigger self.link(x)]
            #![trigger pre.link(x)]
            pre@.live(x) ==> self.link(x) == pre.link(x)
        &&& forall|x: u32| #![trigger self.flags(x)]
            #![trigger pre.flags(x)]
            pre@.live(x) ==> self.flags(x) == pre.flags(x)
    }

    /// No link, no list head and no flag of a queue has changed.
    spec fn same_lists(self, pre: World) -> bool {
        &&& self.wheel@ == pre.wheel@
        &&& self.ready@ == pre.ready@
        &&& self.overflow == pre.overflow
        &&& self.shadow@.q == pre.shadow@.q
        &&& self.belts@.len() == pre.belts@.len()
        &&& self.machines@.len() == pre.machines@.len()
        &&& self.sinks@.len() == pre.sinks@.len()
        &&& self.sources@.len() == pre.sources@.len()
        &&& forall|x: u32| #![trigger self.link(x)]
            #![trigger pre.link(x)] self@.live(x) ==> self.link(x) == pre.link(x)
        &&& forall|t: u32| #![trigger self.head(t)]
            #![trigger pre.head(t)]
            self@.reachable(t) ==> self.head(t) == pre.head(t)
        &&& forall|x: u32| #![trigger self.flags(x)]
            #![trigger pre.flags(x)]
            self@.live(x) ==> {
                &&& flag_on(self.flags(x), F_WAIT) == flag_on(pre.flags(x), F_WAIT)
                &&& flag_on(self.flags(x), F_READY) == flag_on(pre.flags(x), F_READY)
                &&& flag_on(self.flags(x), F_WHEEL) == flag_on(pre.flags(x), F_WHEEL)
            }
    }
}

/// What holds of every factory holds of what is stored, and its clock and its
/// counters fit their types.
pub proof fn law_always_valid(w: World)
    requires
        w.wf(),
    ensures
        w@.valid(),
        w@.between_ticks(),
        0 <= w@.now <= 0xffff_ffff,
        0 <= w@.events < wrap(),
{
}

/// A flag that says in which queue a node is.
spec fn queue_flag(f: u8) -> bool {
    f == F_WAIT || f == F_WHEEL || f == F_READY
}

/// Two belts differ at most in what queues they are in.
spec fn same_belt(a: Belt, b: Belt) -> bool {
    &&& a.out == b.out
    &&& a.run_head == b.run_head
    &&& a.run_tail == b.run_tail
    &&& a.last == b.last
    &&& a.cap == b.cap
    &&& a.period == b.period
    &&& a.gap0 == b.gap0
    &&& a.used == b.used
    &&& flag_on(a.flags, F_BLOCKED) == flag_on(b.flags, F_BLOCKED)
}

/// Two machines differ at most in what queues they are in.
spec fn same_machine(a: Machine, b: Machine) -> bool {
    &&& a.out == b.out
    &&& a.until == b.until
    &&& a.in_item == b.in_item
    &&& a.out_item == b.out_item
    &&& a.dur == b.dur
    &&& a.need == b.need
    &&& a.have == b.have
    &&& flag_on(a.flags, F_BUSY) == flag_on(b.flags, F_BUSY)
    &&& flag_on(a.flags, F_HASOUT) == flag_on(b.flags, F_HASOUT)
}

/// Two sources differ at most in what queues they are in.
spec fn same_source(a: Source, b: Source) -> bool {
    &&& a.out == b.out
    &&& a.until == b.until
    &&& a.period == b.period
    &&& a.item == b.item
    &&& flag_on(a.flags, F_BLOCKED) == flag_on(b.flags, F_BLOCKED)
}

/// If nothing but queues has changed, the belts are still stored and the model
/// differs in its queues only.
proof fn lemma_same_goods(pre: World, post: World)
    requires
        post.same_goods(pre),
    ensures
        post@ == pre@.with_queues(post.shadow@.q),
        pre.belts_rep() ==> post.belts_rep(),
{
    assert forall|i: int| 0 <= i < post.belts@.len() implies post.belt(i) == pre.belt(i) by {
        assert(same_belt(post.belts@[i], pre.belts@[i]));
        assert(post.run_views(i) =~= pre.run_views(i));
    }
    assert(post@.belts =~= pre@.belts);
    assert(post@.machines =~= pre@.machines) by {
        assert forall|i: int| 0 <= i < post.machines@.len() implies post.machine(i) == pre.machine(
            i,
        ) by {
            assert(same_machine(post.machines@[i], pre.machines@[i]));
        }
    }
    assert(post@.sinks =~= pre@.sinks);
    assert(post@.sources =~= pre@.sources) by {
        assert forall|i: int| 0 <= i < post.sources@.len() implies post.source(i) == pre.source(
            i,
        ) by {
            assert(same_source(post.sources@[i], pre.sources@[i]));
        }
    }
    if pre.belts_rep() {
        assert forall|i: int| 0 <= i < post.belts@.len() implies #[trigger] post.belt_rep(i) by {
            assert(pre.belt_rep(i));
            assert(same_belt(post.belts@[i], pre.belts@[i]));
            assert(post.run_views(i) =~= pre.run_views(i));
        }
    }
}

/// If no queue has changed, the queues are still stored.
proof fn lemma_same_lists(pre: World, post: World)
    requires
        post.same_lists(pre),
        pre.queues_rep(),
        pre@.orderly(),
    ensures
        post.queues_rep(),
        post@.q == pre@.q,
{
    let q = post.shadow@.q;
    assert(pre@.q == q);
    assert forall|s: int| 0 <= s < SLOTS implies post.chain(
        post.wheel@[s],
        #[trigger] q.wheel[s],
    ) by {
        assert(pre.chain(pre.wheel@[s], q.wheel[s]));
        assert forall|k: int| 0 <= k < q.wheel[s].len() implies post.link(#[trigger] q.wheel[s][k])
            == at(q.wheel[s], k + 1) by {
            assert(pre@.live(q.wheel[s][k]));
            assert(post@.live(q.wheel[s][k]));
        }
    }
    assert forall|t: u32| post@.reachable(t) && kind(t) != K_SRC implies post.chain(
        post.head(t),
        #[trigger] q.waits[t],
    ) by {
        assert(pre.chain(pre.head(t), q.waits[t]));
        assert forall|k: int| 0 <= k < q.waits[t].len() implies post.link(#[trigger] q.waits[t][k])
            == at(q.waits[t], k + 1) by {
            assert(pre@.live(q.waits[t][k]));
            assert(post@.live(q.waits[t][k]));
        }
    }
    assert forall|id: u32| post@.live(id) implies flags_fit(q, id, #[trigger] post.flags(id)) by {
        assert(flags_fit(q, id, pre.flags(id)));
    }
}

/// What is stored of a belt whose movement is accounted for.
proof fn lemma_synced(w: World, i: int)
    requires
        0 <= i < w.belts@.len(),
        w.belts_rep(),
        w.synced(i),
        w.belts@[i].period >= 1,
    ensures
        w.belt(i).lead(w.now as int) == w.belts@[i].gap0,
        w.belt(i).used(w.now as int) == w.belts@[i].used,
        w.belt(i).next_move(w.now as int) == w.belts@[i].last + w.belts@[i].period,
        w.belt(i).runs.len() > 0 <==> w.belts@[i].run_head != NONE,
{
    assert(w.belt_rep(i));
    let b = w.belts@[i];
    let v = w.belt(i);
    let c = w.shadow@.chains[i];
    if b.gap0 > 0 {
        let g = b.gap0 as int;
        let p = b.period as int;
        assert(g * p >= p) by (nonlinear_arith)
            requires
                g >= 1,
                p >= 1,
        ;
        lemma_lead_is(v, w.now as int, g);
    } else {
        assert(b.gap0 * b.period == 0);
        lemma_lead(v, w.now as int);
    }
    if c.len() > 0 {
        assert(c[0] < w.runs@.len());
    }
}

/// The belts are stored as before if neither they nor their runs have changed.
proof fn lemma_same_belts(pre: World, post: World)
    requires
        post.now == pre.now,
        post.belts == pre.belts,
        post.runs == pre.runs,
        post.run_free == pre.run_free,
        post.shadow == pre.shadow,
    ensures
        pre.belts_rep() ==> post.belts_rep(),
        post@.belts == pre@.belts,
{
    assert forall|i: int| 0 <= i < post.belts@.len() implies post.run_views(i) == pre.run_views(
        i,
    ) by {
        assert(post.run_views(i) =~= pre.run_views(i));
    }
    assert(post@.belts =~= pre@.belts);
    if pre.belts_rep() {
        assert forall|i: int| 0 <= i < post.belts@.len() implies #[trigger] post.belt_rep(i) by {
            assert(pre.belt_rep(i));
            assert(post.run_views(i) == pre.run_views(i));
        }
    }
}

} // verus!
