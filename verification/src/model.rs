//! The mathematical model of a factory: what every operation of the library
//! does, stated over sequences, sets and unbounded integers.
//!
//! A belt is a list of runs of equal items together with the tick at which its
//! first item is due at the head. Nothing in the model moves from tick to tick:
//! how far a belt has come follows from that tick and from the clock.

use vstd::prelude::*;

use crate::ids::{idx, kind, node, K_BELT, K_MACH, K_SINK, K_SRC};
use crate::order::by_id;
use crate::seqs::tally;

verus! {

/// Number of slots of the timing wheel.
pub const SLOTS: usize = 0x1_0000;

/// Modulus of the 64-bit counters.
pub open spec fn wrap() -> int {
    0x1_0000_0000_0000_0000
}

// ------------------------------------------------------------------- queues

/// Where a node stands that has something to do.
pub enum Place {
    /// It is handled within the current tick.
    Ready,
    /// It is on the timing wheel, for the given tick.
    Wheel(int),
    /// It is among the timers too far ahead for the wheel, for the given tick.
    Far(int),
    /// It waits until the given node makes progress.
    Waiting(u32),
}

/// All queues of the factory.
#[verifier::ext_equal]
pub struct Queues {
    /// The lists of the timing wheel, one for each tick modulo `SLOTS`.
    pub wheel: Seq<Seq<u32>>,
    /// Timers at least `SLOTS` ticks ahead when they were set: tick and node.
    pub far: Set<(int, u32)>,
    /// Nodes to be handled within the current tick, the next one last.
    pub ready: Seq<u32>,
    /// For each node, the nodes that wait for it, the latest first.
    pub waits: Map<u32, Seq<u32>>,
    /// For each queued node, the queue that it is in.
    pub place: Map<u32, Place>,
}

impl Queues {
    /// Queues with nothing in them.
    pub open spec fn idle() -> Queues {
        Queues {
            wheel: Seq::new(SLOTS as nat, |s: int| Seq::empty()),
            far: Set::empty(),
            ready: Seq::empty(),
            waits: Map::total(|t: u32| Seq::empty()),
            place: Map::empty(),
        }
    }

    /// The node is in some queue.
    pub open spec fn holds(self, id: u32) -> bool {
        self.place.dom().contains(id)
    }

    /// `id` is to be handled at tick `when`: within the current tick if that is
    /// not later, else on the wheel, or among the far timers if that is too
    /// far ahead for the wheel.
    pub open spec fn enqueue(self, now: int, id: u32, when: int) -> Queues {
        if when <= now {
            Queues {
                ready: self.ready.push(id),
                place: self.place.insert(id, Place::Ready),
                ..self
            }
        } else if when - now >= SLOTS {
            Queues {
                far: self.far.insert((when, id)),
                place: self.place.insert(id, Place::Far(when)),
                ..self
            }
        } else {
            let s = when % (SLOTS as int);
            Queues {
                wheel: self.wheel.update(s, seq![id] + self.wheel[s]),
                place: self.place.insert(id, Place::Wheel(when)),
                ..self
            }
        }
    }

    /// `id` waits for `target`. Nothing ever wakes what waits for a source.
    pub open spec fn park(self, target: u32, id: u32) -> Queues {
        Queues {
            waits: if kind(target) == K_SRC {
                self.waits
            } else {
                self.waits.insert(target, seq![id] + self.waits[target])
            },
            place: self.place.insert(id, Place::Waiting(target)),
            ..self
        }
    }

    /// The first node that waits for `target` leaves its list.
    pub open spec fn unpark(self, target: u32) -> Queues {
        Queues {
            waits: self.waits.insert(target, self.waits[target].drop_first()),
            place: self.place.remove(self.waits[target][0]),
            ..self
        }
    }

    /// All nodes that wait for `target` are to be handled at tick `when`.
    pub open spec fn wake(self, now: int, target: u32, when: int) -> Queues
        decreases self.waits[target].len(),
    {
        if self.waits[target].len() == 0 {
            self
        } else {
            self.unpark(target).enqueue(now, self.waits[target][0], when).wake(now, target, when)
        }
    }

    /// The last ready node leaves its queue.
    pub open spec fn take_ready(self) -> Queues {
        Queues {
            ready: self.ready.drop_last(),
            place: self.place.remove(self.ready.last()),
            ..self
        }
    }

    /// The first node of wheel slot `s` leaves its queue.
    pub open spec fn take_slot(self, s: int) -> Queues {
        Queues {
            wheel: self.wheel.update(s, self.wheel[s].drop_first()),
            place: self.place.remove(self.wheel[s][0]),
            ..self
        }
    }

    /// The far timer `p` leaves its queue.
    pub open spec fn take_far(self, p: (int, u32)) -> Queues {
        Queues { far: self.far.remove(p), place: self.place.remove(p.1), ..self }
    }
}

// -------------------------------------------------------------------- nodes

/// `count` items of one kind without a gap, `gap` free cells ahead of them. The
/// gap of the first run of a belt is kept at zero: the belt says how far its
/// first item has to go.
pub struct RunV {
    pub item: u16,
    pub count: int,
    pub gap: int,
}

/// Number of cells from the first item of the runs to the last, both included.
pub open spec fn extent(runs: Seq<RunV>) -> int {
    tally(runs, |i: int, r: RunV| r.gap + r.count)
}

/// Number of items in the runs.
pub open spec fn item_count(runs: Seq<RunV>) -> int {
    tally(runs, |i: int, r: RunV| r.count)
}

/// The runs without their first item.
pub open spec fn behind_first(runs: Seq<RunV>) -> Seq<RunV> {
    if runs[0].count > 1 {
        runs.update(0, RunV { count: runs[0].count - 1, ..runs[0] })
    } else if runs.len() == 1 {
        Seq::empty()
    } else {
        runs.drop_first().update(0, RunV { gap: 0, ..runs[1] })
    }
}

/// A belt. Cell 0 is its head, cell `cap - 1` its tail.
#[verifier::ext_equal]
pub struct BeltV {
    /// The node that it delivers to.
    pub out: u32,
    /// Number of cells.
    pub cap: int,
    /// Ticks per cell.
    pub period: int,
    /// The tick at which its first item is due at the head; for an empty or a
    /// blocked belt, a tick that has passed.
    pub due: int,
    /// Its first item is at the head and found no room further on.
    pub blocked: bool,
    /// What lies on it, head first.
    pub runs: Seq<RunV>,
}

impl BeltV {
    /// Number of free cells ahead of the first item.
    pub open spec fn lead(self, now: int) -> int {
        if self.due <= now {
            0
        } else {
            (self.due - now + self.period - 1) / self.period
        }
    }

    /// Position of the last item plus one.
    pub open spec fn used(self, now: int) -> int {
        if self.runs.len() == 0 {
            0
        } else {
            self.lead(now) + extent(self.runs)
        }
    }

    /// The tick at which the belt next moves on by one cell.
    pub open spec fn next_move(self, now: int) -> int {
        self.due - self.lead(now) * self.period + self.period
    }

    /// The belt with one more item in its last cell.
    pub open spec fn with_item(self, item: u16, now: int) -> BeltV {
        let gap = self.cap - self.used(now) - 1;
        let n = self.runs.len();
        if n == 0 {
            BeltV {
                runs: seq![RunV { item, count: 1, gap: 0 }],
                due: now + gap * self.period,
                ..self
            }
        } else if gap == 0 && self.runs[n - 1].item == item {
            BeltV {
                runs: self.runs.update(
                    n - 1,
                    RunV { count: self.runs[n - 1].count + 1, ..self.runs[n - 1] },
                ),
                ..self
            }
        } else {
            BeltV { runs: self.runs.push(RunV { item, count: 1, gap }), ..self }
        }
    }

    /// The belt after its first item has left it from the head: the next item
    /// starts from where it lies.
    pub open spec fn without_first(self, now: int) -> BeltV {
        let lead = if self.runs[0].count > 1 {
            1
        } else if self.runs.len() == 1 {
            0
        } else {
            self.runs[1].gap + 1
        };
        BeltV {
            runs: behind_first(self.runs),
            due: now + lead * self.period,
            blocked: false,
            ..self
        }
    }
}

/// A machine: it turns `need` items of one kind into one of another.
pub struct MachineV {
    pub out: u32,
    pub in_item: u16,
    pub out_item: u16,
    pub dur: int,
    pub need: int,
    /// Number of items that it has taken in and not yet begun to work on.
    pub have: int,
    /// The tick at which its current work is done.
    pub until: int,
    /// It is at work.
    pub busy: bool,
    /// It holds a product that found no room further on.
    pub has_out: bool,
}

/// A sink.
pub struct SinkV {
    /// Number of items received, modulo 2^64.
    pub count: int,
    pub open: u8,
}

/// A source.
pub struct SourceV {
    pub out: u32,
    pub item: u16,
    pub period: int,
    /// The tick from which on it may emit its next item.
    pub until: int,
    /// Its item found no room.
    pub blocked: bool,
}

// ------------------------------------------------------------------ factory

/// A factory.
#[verifier::ext_equal]
pub struct Model {
    pub now: int,
    pub belts: Seq<BeltV>,
    pub machines: Seq<MachineV>,
    pub sinks: Seq<SinkV>,
    pub sources: Seq<SourceV>,
    pub q: Queues,
    /// The events of a tick whose timers are on the wheel are collected, sorted by
    /// node and then handled.
    pub sort_events: bool,
    /// Number of events handled, modulo 2^64.
    pub events: int,
}

impl Model {
    /// The factory without nodes.
    pub open spec fn empty() -> Model {
        Model {
            now: 0,
            belts: Seq::empty(),
            machines: Seq::empty(),
            sinks: Seq::empty(),
            sources: Seq::empty(),
            q: Queues::idle(),
            sort_events: false,
            events: 0,
        }
    }

    /// `id` names a belt, a machine or a source of the factory.
    pub open spec fn live(self, id: u32) -> bool {
        ||| kind(id) == K_BELT && idx(id) < self.belts.len()
        ||| kind(id) == K_MACH && idx(id) < self.machines.len()
        ||| kind(id) == K_SRC && idx(id) < self.sources.len()
    }

    /// An item can be offered to `target`: it is a node of the factory, or it
    /// is of the kind that takes nothing.
    pub open spec fn reachable(self, target: u32) -> bool {
        ||| kind(target) == K_BELT && idx(target) < self.belts.len()
        ||| kind(target) == K_MACH && idx(target) < self.machines.len()
        ||| kind(target) == K_SINK && idx(target) < self.sinks.len()
        ||| kind(target) == K_SRC
    }

    /// The node that the node `id` delivers to.
    pub open spec fn out_of(self, id: u32) -> u32 {
        if kind(id) == K_BELT {
            self.belts[idx(id)].out
        } else if kind(id) == K_MACH {
            self.machines[idx(id)].out
        } else {
            self.sources[idx(id)].out
        }
    }

    /// Number of items received by the sinks.
    pub open spec fn delivered(self) -> int {
        tally(self.sinks, |i: int, c: SinkV| c.count)
    }

    /// Number of items on the belts.
    pub open spec fn items_on_belts(self) -> int {
        tally(self.belts, |i: int, b: BeltV| item_count(b.runs))
    }

    pub open spec fn with_belt(self, i: int, b: BeltV) -> Model {
        Model { belts: self.belts.update(i, b), ..self }
    }

    pub open spec fn with_machine(self, i: int, c: MachineV) -> Model {
        Model { machines: self.machines.update(i, c), ..self }
    }

    pub open spec fn with_source(self, i: int, c: SourceV) -> Model {
        Model { sources: self.sources.update(i, c), ..self }
    }

    pub open spec fn with_queues(self, q: Queues) -> Model {
        Model { q, ..self }
    }

    /// `id` is to be handled at tick `when`.
    pub open spec fn schedule(self, id: u32, when: int) -> Model {
        self.with_queues(self.q.enqueue(self.now, id, when))
    }

    /// All nodes that wait for `target` are to be handled at tick `when`.
    pub open spec fn wake(self, target: u32, when: int) -> Model {
        self.with_queues(self.q.wake(self.now, target, when))
    }

    // ------------------------------------------------------------- building

    pub open spec fn add_belt(self, cap: int, period: int, out: u32) -> Model {
        Model {
            belts: self.belts.push(
                BeltV { out, cap, period, due: self.now, blocked: false, runs: Seq::empty() },
            ),
            ..self
        }
    }

    pub open spec fn add_machine(
        self,
        in_item: u16,
        need: int,
        out_item: u16,
        dur: int,
        out: u32,
    ) -> Model {
        Model {
            machines: self.machines.push(
                MachineV {
                    out,
                    in_item,
                    out_item,
                    dur,
                    need,
                    have: 0,
                    until: 0,
                    busy: false,
                    has_out: false,
                },
            ),
            ..self
        }
    }

    pub open spec fn add_sink(self) -> Model {
        Model { sinks: self.sinks.push(SinkV { count: 0, open: 1 }), ..self }
    }

    /// The new source is handled within the current tick.
    pub open spec fn add_source(self, item: u16, period: int, out: u32) -> Model {
        Model {
            sources: self.sources.push(SourceV { out, item, period, until: 0, blocked: false }),
            ..self
        }.schedule(node(K_SRC, self.sources.len() as int), self.now)
    }

    pub open spec fn set_belt_out(self, i: int, out: u32) -> Model {
        self.with_belt(i, BeltV { out, ..self.belts[i] })
    }

    /// Sink `idx(sink)` is opened or closed; if it was closed and is now open,
    /// what waits for `sink` is handled within the current tick.
    pub open spec fn set_sink_open(self, sink: u32, open: bool) -> Model {
        let i = idx(sink);
        let was = self.sinks[i].open != 0;
        let m = Model {
            sinks: self.sinks.update(
                i,
                SinkV { open: if open { 1 } else { 0 }, ..self.sinks[i] },
            ),
            ..self
        };
        if open && !was {
            m.wake(sink, self.now)
        } else {
            m
        }
    }

    // -------------------------------------------------------- moving an item

    /// `target` has room for `item`.
    pub open spec fn accepts(self, target: u32, item: u16) -> bool {
        let i = idx(target);
        if kind(target) == K_BELT {
            self.belts[i].used(self.now) < self.belts[i].cap
        } else if kind(target) == K_MACH {
            self.machines[i].have < self.machines[i].need && self.machines[i].in_item == item
        } else if kind(target) == K_SINK {
            self.sinks[i].open != 0
        } else {
            false
        }
    }

    /// Machine `i` begins to work if it can: it must be free and have enough.
    pub open spec fn starts(self, i: int) -> bool {
        let c = self.machines[i];
        !c.busy && !c.has_out && c.have >= c.need
    }

    /// Machine `i` begins to work if it can; its place for input is then free,
    /// so that what waits for it is handled within the current tick.
    pub open spec fn start(self, i: int) -> Model {
        let c = self.machines[i];
        let id = node(K_MACH, i);
        if self.starts(i) {
            self.with_machine(
                i,
                MachineV { have: c.have - c.need, busy: true, until: self.now + c.dur, ..c },
            ).schedule(id, self.now + c.dur).wake(id, self.now)
        } else {
            self
        }
    }

    /// `target`, which has room, receives `item`. An empty belt sets its timer;
    /// a machine that now has enough begins to work.
    pub open spec fn give(self, target: u32, item: u16) -> Model {
        let i = idx(target);
        if kind(target) == K_BELT {
            let b = self.belts[i].with_item(item, self.now);
            let m = self.with_belt(i, b);
            if self.belts[i].runs.len() == 0 {
                m.schedule(target, b.due)
            } else {
                m
            }
        } else if kind(target) == K_MACH {
            let c = self.machines[i];
            let m = self.with_machine(i, MachineV { have: c.have + 1, ..c });
            if c.have + 1 >= c.need {
                m.start(i)
            } else {
                m
            }
        } else {
            Model {
                sinks: self.sinks.update(
                    i,
                    SinkV { count: (self.sinks[i].count + 1) % wrap(), ..self.sinks[i] },
                ),
                ..self
            }
        }
    }

    /// `id` found no room at `target`. If that is a belt in motion it tries
    /// again when the belt moves on, else it waits for `target`.
    pub open spec fn block(self, id: u32, target: u32) -> Model {
        let b = self.belts[idx(target)];
        if kind(target) == K_BELT && !b.blocked && b.runs.len() > 0 {
            let next = b.next_move(self.now);
            self.schedule(id, if next > self.now + 1 { next } else { self.now + 1 })
        } else {
            self.with_queues(self.q.park(target, id))
        }
    }

    // ---------------------------------------------------------------- events

    /// Belt `i` is handled: it delivers its first item if that is at the head.
    pub open spec fn fire_belt(self, i: int) -> Model {
        let b = self.belts[i];
        let id = node(K_BELT, i);
        if b.runs.len() == 0 {
            self
        } else if b.lead(self.now) > 0 {
            self.schedule(id, b.due)
        } else if self.accepts(b.out, b.runs[0].item) {
            let m = self.give(b.out, b.runs[0].item);
            let left = m.belts[i].without_first(self.now);
            let m2 = m.with_belt(i, left);
            let m3 = if left.runs.len() > 0 {
                m2.schedule(id, left.due)
            } else {
                m2
            };
            m3.wake(id, self.now + b.period)
        } else {
            self.with_belt(i, BeltV { blocked: true, due: self.now, ..b }).block(id, b.out)
        }
    }

    /// Machine `i` is handled: it delivers its product if it has one.
    pub open spec fn fire_machine(self, i: int) -> Model {
        let c = self.machines[i];
        let id = node(K_MACH, i);
        if c.busy {
            if c.until != self.now {
                self
            } else {
                let m = self.with_machine(i, MachineV { busy: false, ..c });
                if m.accepts(c.out, c.out_item) {
                    m.give(c.out, c.out_item).start(i)
                } else {
                    m.with_machine(i, MachineV { has_out: true, ..m.machines[i] }).block(id, c.out)
                }
            }
        } else if c.has_out {
            if self.accepts(c.out, c.out_item) {
                let m = self.give(c.out, c.out_item);
                m.with_machine(i, MachineV { has_out: false, ..m.machines[i] }).start(i)
            } else {
                self.block(id, c.out)
            }
        } else {
            self.start(i)
        }
    }

    /// Source `i` is handled: it emits an item if there is room for it.
    pub open spec fn fire_source(self, i: int) -> Model {
        let c = self.sources[i];
        let id = node(K_SRC, i);
        if self.accepts(c.out, c.item) {
            let until = self.now + c.period;
            self.give(c.out, c.item).with_source(
                i,
                SourceV { blocked: false, until, ..c },
            ).schedule(id, until)
        } else {
            self.with_source(i, SourceV { blocked: true, ..c }).block(id, c.out)
        }
    }

    /// The node `id` is handled.
    pub open spec fn fire(self, id: u32) -> Model {
        let m = Model { events: (self.events + 1) % wrap(), ..self };
        if kind(id) == K_BELT {
            m.fire_belt(idx(id))
        } else if kind(id) == K_MACH {
            m.fire_machine(idx(id))
        } else if kind(id) == K_SRC {
            m.fire_source(idx(id))
        } else {
            m
        }
    }

    // ------------------------------------------------------------------ time

    /// Some far timer is due.
    pub open spec fn far_due(self) -> bool {
        exists|p: (int, u32)| #[trigger] self.q.far.contains(p) && p.0 <= self.now
    }

    /// The first far timer: the earliest, and among those the one of the
    /// smallest node.
    pub open spec fn first_far(self) -> (int, u32) {
        choose|p: (int, u32)| is_first(self.q.far, p)
    }

    /// The far timers that are due are handled in their order, at most `n`.
    pub open spec fn drain_far(self, n: nat) -> Model
        decreases n,
    {
        if n == 0 || !self.far_due() {
            self
        } else {
            let p = self.first_far();
            self.with_queues(self.q.take_far(p)).fire(p.1).drain_far((n - 1) as nat)
        }
    }

    /// The wheel slot of the current tick.
    pub open spec fn slot(self) -> int {
        self.now % (SLOTS as int)
    }

    /// The list of the current wheel slot is sorted, if that is wanted.
    pub open spec fn reorder(self) -> Model {
        let list = self.q.wheel[self.slot()];
        if self.sort_events {
            self.with_queues(
                Queues { wheel: self.q.wheel.update(self.slot(), by_id(list)), ..self.q },
            )
        } else {
            self
        }
    }

    /// The nodes of the current wheel slot are handled in their order, at
    /// most `n`.
    pub open spec fn drain_slot(self, n: nat) -> Model
        decreases n,
    {
        if n == 0 || self.q.wheel[self.slot()].len() == 0 {
            self
        } else {
            let id = self.q.wheel[self.slot()][0];
            self.with_queues(self.q.take_slot(self.slot())).fire(id).drain_slot((n - 1) as nat)
        }
    }

    /// The last ready node is handled.
    pub open spec fn fire_ready(self) -> Model {
        self.with_queues(self.q.take_ready()).fire(self.q.ready.last())
    }

    /// Ready nodes are handled, the last one first, at most `n`.
    pub open spec fn settle(self, n: nat) -> Model
        decreases n,
    {
        if n == 0 || self.q.ready.len() == 0 {
            self
        } else {
            self.fire_ready().settle((n - 1) as nat)
        }
    }

    /// Nothing is ready any more after `n` ready nodes have been handled.
    pub open spec fn settles_within(self, n: nat) -> bool {
        self.settle(n).q.ready.len() == 0
    }

    /// The factory after the timers of the current tick.
    pub open spec fn timers(self) -> Model {
        let m = self.drain_far(self.q.far.len()).reorder();
        m.drain_slot(m.q.wheel[m.slot()].len())
    }

    /// The events of the current tick come to an end.
    pub open spec fn tick_ends(self) -> bool {
        exists|n: nat| #[trigger] self.timers().settles_within(n)
    }

    /// The factory after all events of the current tick, whose number is finite.
    pub open spec fn events_done(self) -> Model {
        self.timers().settle(choose|n: nat| #[trigger] self.timers().settles_within(n))
    }

    /// One tick: all its events, then the clock.
    pub open spec fn step(self) -> Model {
        let m = self.events_done();
        Model { now: m.now + 1, ..m }
    }

    /// `n` ticks.
    pub open spec fn run(self, n: nat) -> Model
        decreases n,
    {
        if n == 0 {
            self
        } else {
            self.run((n - 1) as nat).step()
        }
    }
}

/// The far timer `a` comes before `b`, or is the same.
pub open spec fn not_after(a: (int, u32), b: (int, u32)) -> bool {
    a.0 < b.0 || (a.0 == b.0 && a.1 <= b.1)
}

/// `p` is the first of the timers in `far`.
pub open spec fn is_first(far: Set<(int, u32)>, p: (int, u32)) -> bool {
    far.contains(p) && forall|o: (int, u32)| #[trigger] far.contains(o) ==> not_after(p, o)
}

} // verus!
