//! Ticks: their events, their end, and what they keep.

use vstd::prelude::*;

use crate::belts::lemma_lead;
use crate::ids::{idx, kind, node, K_BELT, K_MACH, K_SRC};
use crate::model::{is_first, not_after, BeltV, MachineV, Model, SLOTS};
use crate::order::{by_id, law_by_id_sorts};
use crate::seqs::{lemma_tally_le, tally};
use crate::valid::{
    lemma_fire, lemma_next_far, lemma_next_ready, lemma_next_slot, lemma_reaches, lemma_tick,
};

verus! {

impl BeltV {
    /// The most ticks ahead for which this belt can set a timer.
    pub open spec fn reach(self) -> int {
        if self.cap > 2 {
            (self.cap - 1) * self.period
        } else {
            self.period
        }
    }
}

impl Model {
    /// Number of cells of all belts.
    pub open spec fn cells(self) -> int {
        tally(self.belts, |i: int, b: BeltV| b.cap)
    }

    /// Every timer that can be set at tick `t` fits the clock.
    pub open spec fn clock_fits(self, t: int) -> bool {
        &&& t < 0xffff_ffff
        &&& forall|i: int|
            0 <= i < self.belts.len() ==> t + (#[trigger] self.belts[i]).reach() <= 0xffff_ffff
        &&& forall|i: int|
            0 <= i < self.machines.len() ==> t + (#[trigger] self.machines[i]).dur <= 0xffff_ffff
        &&& forall|i: int|
            0 <= i < self.sources.len() ==> t + (#[trigger] self.sources[i]).period <= 0xffff_ffff
    }

    /// `rank` falls along every step from a belt of one cell to another.
    pub open spec fn ranked_by(self, rank: spec_fn(int) -> nat) -> bool {
        forall|i: int|
            #![trigger self.belts[i]]
            0 <= i < self.belts.len() && self.belts[i].cap == 1 && kind(self.belts[i].out) == K_BELT
                && idx(self.belts[i].out) < self.belts.len() && self.belts[idx(
                self.belts[i].out,
            )].cap == 1 ==> rank(idx(self.belts[i].out)) < rank(i)
    }

    /// No belts of one cell form a loop. In such a loop an item could go round
    /// for ever within one tick.
    pub open spec fn loop_free(self) -> bool {
        exists|rank: spec_fn(int) -> nat| self.ranked_by(rank)
    }

    /// Runs can be numbered for one more item on some belt that has room.
    pub open spec fn runs_last(self) -> bool {
        self.cells() <= 0xffff_ffff || self.items_on_belts() < 0xffff_ffff
    }

    /// `target`, which has room, can take `item`: the timer that this sets, if any, fits
    /// the clock, and if it is a belt, runs can be numbered for it.
    pub open spec fn can_give(self, target: u32, item: u16) -> bool {
        let i = idx(target);
        if kind(target) == K_BELT {
            let b = self.belts[i];
            &&& self.runs_last()
            &&& b.runs.len() == 0 ==> b.with_item(item, self.now).due <= 0xffff_ffff
        } else if kind(target) == K_MACH {
            let c = self.machines[i];
            !c.busy && !c.has_out && c.have + 1 >= c.need ==> self.now + c.dur <= 0xffff_ffff
        } else {
            true
        }
    }

    /// What finds no room at `target` can try again or wait: the timer that this sets,
    /// if any, fits the clock.
    pub open spec fn can_block(self, target: u32) -> bool {
        let b = self.belts[idx(target)];
        kind(target) == K_BELT && !b.blocked && b.runs.len() > 0 ==> self.now < 0xffff_ffff
            && b.next_move(self.now) <= 0xffff_ffff
    }

    /// Machine `i` can begin to work, if it does: its timer fits the clock.
    pub open spec fn can_start(self, i: int) -> bool {
        self.starts(i) ==> self.now + self.machines[i].dur <= 0xffff_ffff
    }

    /// Belt `i` can be handled now: if it delivers, then to a node that is there, and
    /// every timer that this sets fits the clock.
    pub open spec fn belt_fits(self, i: int) -> bool {
        let b = self.belts[i];
        let id = node(K_BELT, i);
        let item = b.runs[0].item;
        if b.runs.len() == 0 {
            true
        } else if b.lead(self.now) > 0 {
            b.due <= 0xffff_ffff
        } else if self.accepts(b.out, item) {
            let m = self.give(b.out, item);
            let left = m.belts[i].without_first(self.now);
            &&& self.reachable(b.out)
            &&& self.can_give(b.out, item)
            &&& left.runs.len() > 0 ==> left.due <= 0xffff_ffff
            &&& m.q.waits[id].len() > 0 ==> self.now + b.period <= 0xffff_ffff
        } else {
            &&& self.reachable(b.out)
            &&& self.with_belt(i, BeltV { blocked: true, due: self.now, ..b }).can_block(b.out)
        }
    }

    /// Machine `i` can be handled now.
    pub open spec fn machine_fits(self, i: int) -> bool {
        let c = self.machines[i];
        if c.busy && c.until != self.now {
            true
        } else if c.busy || c.has_out {
            let m = self.with_machine(i, MachineV { busy: false, ..c });
            &&& self.reachable(c.out)
            &&& if m.accepts(c.out, c.out_item) {
                let m1 = m.give(c.out, c.out_item);
                let m2 = m1.with_machine(i, MachineV { has_out: false, ..m1.machines[i] });
                m.can_give(c.out, c.out_item) && m2.can_start(i)
            } else {
                m.can_block(c.out)
            }
        } else {
            self.can_start(i)
        }
    }

    /// Source `i` can be handled now.
    pub open spec fn source_fits(self, i: int) -> bool {
        let c = self.sources[i];
        &&& self.reachable(c.out)
        &&& if self.accepts(c.out, c.item) {
            self.can_give(c.out, c.item) && self.now + c.period <= 0xffff_ffff
        } else {
            self.can_block(c.out)
        }
    }

    /// The node `id` can be handled now.
    pub open spec fn fits(self, id: u32) -> bool {
        if kind(id) == K_BELT {
            self.belt_fits(idx(id))
        } else if kind(id) == K_MACH {
            self.machine_fits(idx(id))
        } else if kind(id) == K_SRC {
            self.source_fits(idx(id))
        } else {
            true
        }
    }

    /// The first `n` far timers that are due can be handled.
    pub open spec fn far_fits(self, n: nat) -> bool
        decreases n,
    {
        n > 0 && self.far_due() ==> {
            let p = self.first_far();
            let m = self.with_queues(self.q.take_far(p));
            m.fits(p.1) && m.fire(p.1).far_fits((n - 1) as nat)
        }
    }

    /// The first `n` nodes of the current wheel slot can be handled.
    pub open spec fn slot_fits(self, n: nat) -> bool
        decreases n,
    {
        n > 0 && self.q.wheel[self.slot()].len() > 0 ==> {
            let id = self.q.wheel[self.slot()][0];
            let m = self.with_queues(self.q.take_slot(self.slot()));
            m.fits(id) && m.fire(id).slot_fits((n - 1) as nat)
        }
    }

    /// `n` ready nodes can be handled.
    pub open spec fn settle_fits(self, n: nat) -> bool
        decreases n,
    {
        n > 0 && self.q.ready.len() > 0 ==> {
            let m = self.with_queues(self.q.take_ready());
            m.fits(self.q.ready.last()) && self.fire_ready().settle_fits((n - 1) as nat)
        }
    }

    /// The timers of the current tick can be handled.
    pub open spec fn timers_fit(self) -> bool {
        let m = self.drain_far(self.q.far.len()).reorder();
        self.far_fits(self.q.far.len()) && m.slot_fits(m.q.wheel[m.slot()].len())
    }

    /// All events of the current tick can be handled, and they come to an end.
    pub open spec fn tick_fits(self) -> bool {
        &&& self.now < 0xffff_ffff
        &&& self.timers_fit()
        &&& exists|n: nat| #[trigger]
            self.timers().settles_within(n) && self.timers().settle_fits(n)
    }

    /// Each of the next `n` ticks can be handled.
    pub open spec fn ticks_fit(self, n: nat) -> bool {
        forall|k: nat| k < n ==> (#[trigger] self.run(k)).tick_fits()
    }

    /// In the same tick: the layout and the clock are those of `pre`.
    pub open spec fn same_tick(self, pre: Model) -> bool {
        &&& self.same_layout(pre)
        &&& self.now == pre.now
        &&& self.sort_events == pre.sort_events
    }

    /// The far timers that are due.
    pub open spec fn due_far(self) -> Set<(int, u32)> {
        self.q.far.filter(|p: (int, u32)| p.0 <= self.now)
    }

    /// No timer is due any more.
    pub open spec fn timers_done(self) -> bool {
        &&& !self.far_due()
        &&& self.q.wheel[self.slot()].len() == 0
    }
}

/// What a layout decides stays with it.
pub proof fn lemma_same_layout(m: Model, pre: Model)
    requires
        m.same_layout(pre),
    ensures
        pre.linked() ==> m.linked(),
        m.cells() == pre.cells(),
        forall|t: int| pre.clock_fits(t) ==> #[trigger] m.clock_fits(t),
        forall|rank: spec_fn(int) -> nat| pre.ranked_by(rank) ==> #[trigger] m.ranked_by(rank),
        pre.loop_free() ==> m.loop_free(),
{
    if pre.linked() {
        assert forall|i: int| 0 <= i < m.belts.len() implies m.reachable(
            (#[trigger] m.belts[i]).out,
        ) by {
            assert(pre.reachable(pre.belts[i].out));
        }
        assert forall|i: int| 0 <= i < m.machines.len() implies m.reachable(
            (#[trigger] m.machines[i]).out,
        ) by {
            assert(pre.reachable(pre.machines[i].out));
        }
        assert forall|i: int| 0 <= i < m.sources.len() implies m.reachable(
            (#[trigger] m.sources[i]).out,
        ) by {
            assert(pre.reachable(pre.sources[i].out));
        }
    }
    let f = |i: int, b: BeltV| b.cap;
    lemma_tally_le(m.belts, f, pre.belts, f);
    lemma_tally_le(pre.belts, f, m.belts, f);
    assert forall|t: int| pre.clock_fits(t) implies #[trigger] m.clock_fits(t) by {
        assert forall|i: int| 0 <= i < m.belts.len() implies t + (#[trigger] m.belts[i]).reach()
            <= 0xffff_ffff by {
            assert(t + pre.belts[i].reach() <= 0xffff_ffff);
        }
        assert forall|i: int| 0 <= i < m.machines.len() implies t + (#[trigger] m.machines[i]).dur
            <= 0xffff_ffff by {
            assert(t + pre.machines[i].dur <= 0xffff_ffff);
        }
        assert forall|i: int| 0 <= i < m.sources.len() implies t + (
        #[trigger] m.sources[i]).period <= 0xffff_ffff by {
            assert(t + pre.sources[i].period <= 0xffff_ffff);
        }
    }
    assert forall|rank: spec_fn(int) -> nat| pre.ranked_by(rank) implies #[trigger] m.ranked_by(
        rank,
    ) by {
        assert forall|i: int|
            #![trigger m.belts[i]]
            0 <= i < m.belts.len() && m.belts[i].cap == 1 && kind(m.belts[i].out) == K_BELT && idx(
                m.belts[i].out,
            ) < m.belts.len() && m.belts[idx(m.belts[i].out)].cap == 1 implies rank(
            idx(m.belts[i].out),
        ) < rank(i) by {
            let j = idx(m.belts[i].out);
            assert(pre.belts[i].out == m.belts[i].out);
            assert(pre.belts[j].cap == m.belts[j].cap);
        }
    }
    if pre.loop_free() {
        let rank = choose|rank: spec_fn(int) -> nat| pre.ranked_by(rank);
        assert(m.ranked_by(rank));
    }
}

/// One layout follows another.
pub proof fn lemma_layout_transitive(a: Model, b: Model, c: Model)
    requires
        a.same_layout(b),
        b.same_layout(c),
    ensures
        a.same_layout(c),
{
    assert forall|i: int| 0 <= i < a.belts.len() implies {
        &&& (#[trigger] a.belts[i]).out == c.belts[i].out
        &&& a.belts[i].cap == c.belts[i].cap
        &&& a.belts[i].period == c.belts[i].period
    } by {
        assert(b.belts[i].out == c.belts[i].out);
    }
    assert forall|i: int| 0 <= i < a.machines.len() implies {
        &&& (#[trigger] a.machines[i]).out == c.machines[i].out
        &&& a.machines[i].in_item == c.machines[i].in_item
        &&& a.machines[i].out_item == c.machines[i].out_item
        &&& a.machines[i].dur == c.machines[i].dur
        &&& a.machines[i].need == c.machines[i].need
    } by {
        assert(b.machines[i].out == c.machines[i].out);
    }
    assert forall|i: int| 0 <= i < a.sources.len() implies {
        &&& (#[trigger] a.sources[i]).out == c.sources[i].out
        &&& a.sources[i].item == c.sources[i].item
        &&& a.sources[i].period == c.sources[i].period
    } by {
        assert(b.sources[i].out == c.sources[i].out);
    }
}

/// A set of timers has at most one first.
pub proof fn lemma_first_unique(far: Set<(int, u32)>, a: (int, u32), b: (int, u32))
    requires
        is_first(far, a),
        is_first(far, b),
    ensures
        a == b,
{
    assert(not_after(a, b) && not_after(b, a));
}

/// If a far timer is due there is a first one, and it is due.
pub proof fn lemma_first_due(m: Model)
    requires
        m.q.far.finite(),
        m.far_due(),
    ensures
        is_first(m.q.far, m.first_far()),
        m.first_far().0 <= m.now,
{
    let d = choose|p: (int, u32)| #[trigger] m.q.far.contains(p) && p.0 <= m.now;
    lemma_first_exists(m.q.far, d);
    let p = choose|p: (int, u32)| is_first(m.q.far, p);
    assert(not_after(p, d));
}

proof fn lemma_first_exists(far: Set<(int, u32)>, d: (int, u32))
    requires
        far.finite(),
        far.contains(d),
    ensures
        exists|p: (int, u32)| is_first(far, p),
    decreases far.len(),
{
    let rest = far.remove(d);
    if rest.len() == 0 {
        assert forall|o: (int, u32)| #[trigger] far.contains(o) implies not_after(d, o) by {
            if o != d {
                assert(rest.contains(o));
            }
        }
        assert(is_first(far, d));
    } else {
        let e = rest.choose();
        lemma_first_exists(rest, e);
        let p = choose|p: (int, u32)| is_first(rest, p);
        let best = if not_after(d, p) {
            d
        } else {
            p
        };
        assert forall|o: (int, u32)| #[trigger] far.contains(o) implies not_after(best, o) by {
            if o != d {
                assert(rest.contains(o));
                assert(not_after(p, o));
            }
        }
        assert(is_first(far, best));
    }
}

// ---------------------------------------------------------------- far timers

/// One far timer that is due is handled.
pub proof fn lemma_far_once(m: Model, p: (int, u32))
    requires
        m.valid(),
        m.linked() || m.reachable(m.out_of(p.1)),
        m.q.far.contains(p),
        p.0 <= m.now,
    ensures
        ({
            let r = m.with_queues(m.q.take_far(p)).fire(p.1);
            &&& r.valid()
            &&& r.same_tick(m)
            &&& m.linked() ==> r.linked()
            &&& r.due_far() =~= m.due_far().remove(p)
            &&& m.due_far().finite()
            &&& m.due_far().contains(p)
        }),
{
    let m1 = m.with_queues(m.q.take_far(p));
    lemma_next_far(m, p);
    lemma_same_layout(m1, m);
    lemma_fire(m1, p.1);
    let r = m1.fire(p.1);
    lemma_layout_transitive(r, m1, m);
    lemma_same_layout(r, m);
    assert(r.due_far() =~= m.due_far().remove(p));
}

pub proof fn lemma_drain_far(m: Model, n: nat)
    requires
        m.valid(),
        m.linked() || m.far_fits(n),
    ensures
        m.drain_far(n).valid(),
        m.drain_far(n).same_tick(m),
        m.due_far().len() <= n ==> !m.drain_far(n).far_due(),
    decreases n,
{
    if m.far_due() {
        lemma_first_due(m);
        let p = m.first_far();
        if n == 0 {
            lemma_due_far(m, p);
        } else {
            lemma_far_out(m, p);
            lemma_far_once(m, p);
            let r = m.with_queues(m.q.take_far(p)).fire(p.1);
            lemma_drain_far(r, (n - 1) as nat);
            lemma_layout_transitive(m.drain_far(n), r, m);
        }
    }
}

/// A far timer that is due is among those.
proof fn lemma_due_far(m: Model, p: (int, u32))
    requires
        m.valid(),
        m.q.far.contains(p),
        p.0 <= m.now,
    ensures
        m.due_far().len() > 0,
{
    assert(m.due_far().finite());
    assert(m.due_far().contains(p));
    if m.due_far().len() == 0 {
        assert(m.due_far() =~= Set::empty());
    }
}

/// A node that is due and can be handled delivers to a node that is there.
proof fn lemma_fits_out(m: Model, id: u32)
    requires
        m.nodes_ok(),
        m.may_fire(id),
        m.linked() || m.fits(id),
    ensures
        m.reachable(m.out_of(id)),
{
    if m.linked() {
        lemma_reaches(m, id);
    } else if kind(id) == K_BELT {
        let b = m.belts[idx(id)];
        assert(b.ok(m.now));
        lemma_lead(b, m.now);
    }
}

/// A far timer that is due and can be handled belongs to a node that delivers to one
/// that is there.
pub proof fn lemma_far_out(m: Model, p: (int, u32))
    requires
        m.valid(),
        m.q.far.contains(p),
        p.0 <= m.now,
        m.linked() || m.with_queues(m.q.take_far(p)).fits(p.1),
    ensures
        m.reachable(m.out_of(p.1)),
{
    let m1 = m.with_queues(m.q.take_far(p));
    lemma_next_far(m, p);
    lemma_same_layout(m1, m);
    lemma_fits_out(m1, p.1);
}

/// The first node of the current wheel slot, if it can be handled, delivers to a node
/// that is there.
pub proof fn lemma_slot_out(m: Model)
    requires
        m.valid(),
        m.q.wheel[m.slot()].len() > 0,
        m.linked() || m.with_queues(m.q.take_slot(m.slot())).fits(m.q.wheel[m.slot()][0]),
    ensures
        m.reachable(m.out_of(m.q.wheel[m.slot()][0])),
{
    let m1 = m.with_queues(m.q.take_slot(m.slot()));
    lemma_next_slot(m);
    lemma_same_layout(m1, m);
    lemma_fits_out(m1, m.q.wheel[m.slot()][0]);
}

/// The last ready node, if it can be handled, delivers to a node that is there.
pub proof fn lemma_ready_out(m: Model)
    requires
        m.valid(),
        m.q.ready.len() > 0,
        m.linked() || m.with_queues(m.q.take_ready()).fits(m.q.ready.last()),
    ensures
        m.reachable(m.out_of(m.q.ready.last())),
{
    let m1 = m.with_queues(m.q.take_ready());
    lemma_next_ready(m);
    lemma_same_layout(m1, m);
    lemma_fits_out(m1, m.q.ready.last());
}

/// There are no more due far timers than far timers.
pub proof fn lemma_due_far_len(m: Model)
    requires
        m.q.far.finite(),
    ensures
        m.due_far().finite(),
        m.due_far().len() <= m.q.far.len(),
{
    vstd::set_lib::lemma_len_subset(m.due_far(), m.q.far);
}

// ---------------------------------------------------------------- wheel slots

pub proof fn lemma_reorder(m: Model)
    requires
        m.valid(),
    ensures
        m.reorder().valid(),
        m.reorder().same_tick(m),
        m.reorder().q.far == m.q.far,
{
    let list = m.q.wheel[m.slot()];
    let s = m.slot();
    if m.sort_events {
        let r = m.reorder();
        let q = r.q;
        law_by_id_sorts(list);
        assert forall|u: int, k: int| 0 <= u < SLOTS && 0 <= k < q.wheel[u].len() implies {
            let id = #[trigger] q.wheel[u][k];
            &&& q.holds(id)
            &&& q.place[id] is Wheel
            &&& q.place[id]->Wheel_0 % (SLOTS as int) == u
        } by {
            if u == s {
                let id = q.wheel[u][k];
                assert(by_id(list).contains(id));
                assert(list.contains(id));
                let j = choose|j: int| 0 <= j < list.len() && list[j] == id;
                assert(m.q.wheel[s][j] == id);
            } else {
                assert(q.wheel[u][k] == m.q.wheel[u][k]);
            }
        }
        assert forall|id: u32| #[trigger] q.holds(id) implies q.at_home(m.now, id) by {
            assert(m.q.holds(id));
            assert(m.q.at_home(m.now, id));
        }
        assert forall|x: u32| #[trigger] r.q.holds(x) implies r.live(x) && r.engaged(x) && r.timely(
            x,
        ) && !Set::<u32>::empty().contains(x) by {
            assert(m.q.holds(x));
        }
        assert forall|x: u32|
            r.live(x) && #[trigger] r.engaged(x) && !Set::<u32>::empty().contains(
                x,
            ) implies r.q.holds(x) by {
            assert(m.engaged(x));
        }
    }
}

/// The first node of the current wheel slot is handled.
pub proof fn lemma_slot_once(m: Model)
    requires
        m.valid(),
        m.linked() || m.reachable(m.out_of(m.q.wheel[m.slot()][0])),
        m.q.wheel[m.slot()].len() > 0,
    ensures
        ({
            let id = m.q.wheel[m.slot()][0];
            let r = m.with_queues(m.q.take_slot(m.slot())).fire(id);
            &&& r.valid()
            &&& r.same_tick(m)
            &&& m.linked() ==> r.linked()
            &&& r.q.wheel[m.slot()] == m.q.wheel[m.slot()].drop_first()
            &&& !m.far_due() ==> !r.far_due()
        }),
{
    let id = m.q.wheel[m.slot()][0];
    let m1 = m.with_queues(m.q.take_slot(m.slot()));
    lemma_next_slot(m);
    lemma_same_layout(m1, m);
    lemma_fire(m1, id);
    let r = m1.fire(id);
    lemma_layout_transitive(r, m1, m);
    lemma_same_layout(r, m);
    if !m.far_due() && r.far_due() {
        let p = choose|p: (int, u32)| #[trigger] r.q.far.contains(p) && p.0 <= r.now;
        assert(m1.q.far.contains(p));
        assert(m.q.far.contains(p));
    }
}

pub proof fn lemma_drain_slot(m: Model, n: nat)
    requires
        m.valid(),
        m.linked() || m.slot_fits(n),
    ensures
        m.drain_slot(n).valid(),
        m.drain_slot(n).same_tick(m),
        !m.far_due() ==> !m.drain_slot(n).far_due(),
        m.q.wheel[m.slot()].len() <= n ==> m.drain_slot(n).q.wheel[m.slot()].len() == 0,
    decreases n,
{
    if m.q.wheel[m.slot()].len() > 0 {
        if n > 0 {
            lemma_slot_out(m);
            lemma_slot_once(m);
            let r = m.with_queues(m.q.take_slot(m.slot())).fire(m.q.wheel[m.slot()][0]);
            lemma_drain_slot(r, (n - 1) as nat);
            lemma_layout_transitive(m.drain_slot(n), r, m);
        }
    }
}

/// After the timers of a tick no timer is due.
pub proof fn lemma_timers(m: Model)
    requires
        m.valid(),
        m.linked() || m.timers_fit(),
    ensures
        m.timers().valid(),
        m.timers().same_tick(m),
        m.timers().timers_done(),
        m.linked() ==> m.timers().linked(),
{
    lemma_due_far_len(m);
    let m1 = m.drain_far(m.q.far.len());
    lemma_drain_far(m, m.q.far.len());
    lemma_reorder(m1);
    let m2 = m1.reorder();
    lemma_layout_transitive(m2, m1, m);
    lemma_same_layout(m2, m);
    assert(!m2.far_due()) by {
        if m2.far_due() {
            let p = choose|p: (int, u32)| #[trigger] m2.q.far.contains(p) && p.0 <= m2.now;
            assert(m1.q.far.contains(p));
        }
    }
    let n = m2.q.wheel[m2.slot()].len();
    lemma_drain_slot(m2, n);
    lemma_layout_transitive(m2.drain_slot(n), m2, m);
    lemma_same_layout(m.timers(), m);
}

// ---------------------------------------------------------------- ready nodes

/// One ready node is handled.
pub proof fn lemma_ready_once(m: Model)
    requires
        m.valid(),
        m.linked() || m.reachable(m.out_of(m.q.ready.last())),
        m.q.ready.len() > 0,
    ensures
        m.fire_ready().valid(),
        m.fire_ready().same_tick(m),
        m.linked() ==> m.fire_ready().linked(),
        m.timers_done() ==> m.fire_ready().timers_done(),
{
    let m1 = m.with_queues(m.q.take_ready());
    lemma_next_ready(m);
    lemma_same_layout(m1, m);
    lemma_fire(m1, m.q.ready.last());
    let r = m.fire_ready();
    lemma_layout_transitive(r, m1, m);
    lemma_same_layout(r, m);
    if m.timers_done() && r.far_due() {
        let p = choose|p: (int, u32)| #[trigger] r.q.far.contains(p) && p.0 <= r.now;
        assert(m1.q.far.contains(p));
        assert(m.q.far.contains(p));
    }
}

pub proof fn lemma_settle(m: Model, n: nat)
    requires
        m.valid(),
        m.linked() || m.settle_fits(n),
    ensures
        m.settle(n).valid(),
        m.settle(n).same_tick(m),
        m.timers_done() ==> m.settle(n).timers_done(),
    decreases n,
{
    if n > 0 && m.q.ready.len() > 0 {
        lemma_ready_out(m);
        lemma_ready_once(m);
        lemma_settle(m.fire_ready(), (n - 1) as nat);
        lemma_layout_transitive(m.settle(n), m.fire_ready(), m);
    }
}

/// How many ready nodes are handled at most does not matter once none is left.
pub proof fn lemma_settle_unique(m: Model, a: nat, b: nat)
    requires
        m.settles_within(a),
        m.settles_within(b),
    ensures
        m.settle(a) == m.settle(b),
    decreases a,
{
    if m.q.ready.len() > 0 && a > 0 && b > 0 {
        lemma_settle_unique(m.fire_ready(), (a - 1) as nat, (b - 1) as nat);
    }
}

/// If the ready nodes can be handled until none is left, any number of them can.
pub proof fn lemma_settle_fits(m: Model, a: nat, b: nat)
    requires
        m.settles_within(a),
        m.settle_fits(a),
    ensures
        m.settle_fits(b),
    decreases a,
{
    if m.q.ready.len() > 0 && a > 0 && b > 0 {
        lemma_settle_fits(m.fire_ready(), (a - 1) as nat, (b - 1) as nat);
    }
}

/// What holds after a tick.
pub proof fn lemma_step(m: Model)
    requires
        m.valid(),
        m.linked() || m.tick_fits(),
    ensures
        m.events_done().valid(),
        m.events_done().same_tick(m),
        m.events_done().timers_done(),
        m.step().valid(),
        m.step().between_ticks(),
        m.step().same_layout(m),
        m.step().now == m.now + 1,
        m.step().sort_events == m.sort_events,
        m.tick_ends() ==> m.step().q.ready.len() == 0,
{
    lemma_timers(m);
    let n = choose|n: nat| #[trigger] m.timers().settles_within(n);
    if m.tick_fits() {
        let a = choose|n: nat| #[trigger]
            m.timers().settles_within(n) && m.timers().settle_fits(n);
        lemma_settle_fits(m.timers(), a, n);
    }
    lemma_settle(m.timers(), n);
    let r = m.timers().settle(n);
    lemma_layout_transitive(r, m.timers(), m);
    lemma_tick(r);
    lemma_layout_transitive(m.step(), r, m);
}

/// What holds after several ticks.
pub proof fn lemma_run(m: Model, n: nat)
    requires
        m.valid(),
        m.linked() || m.ticks_fit(n),
    ensures
        m.run(n).valid(),
        m.run(n).same_layout(m),
        m.linked() ==> m.run(n).linked(),
        m.run(n).now == m.now + n,
        m.run(n).sort_events == m.sort_events,
    decreases n,
{
    if n > 0 {
        lemma_run(m, (n - 1) as nat);
        let p = m.run((n - 1) as nat);
        if !m.linked() {
            assert(p.tick_fits());
        }
        lemma_step(p);
        lemma_layout_transitive(m.run(n), p, m);
        lemma_same_layout(m.run(n), m);
    }
}

/// If events are sorted, the nodes whose timers on the wheel go off in one tick are
/// handled in the order of their identifiers; else their order stays as it is.
pub proof fn law_events_are_sorted(m: Model)
    requires
        m.valid(),
    ensures
        ({
            let list = m.reorder().q.wheel[m.slot()];
            &&& list.to_multiset() =~= m.q.wheel[m.slot()].to_multiset()
            &&& m.sort_events ==> forall|i: int, j: int|
                0 <= i <= j < list.len() ==> list[i] <= list[j]
            &&& !m.sort_events ==> list == m.q.wheel[m.slot()]
        }),
{
    law_by_id_sorts(m.q.wheel[m.slot()]);
}

/// A run of no ticks changes nothing, one of one tick is that tick, and a longer one is a
/// tick more than the run that is one tick shorter.
pub proof fn law_run_of_ticks(m: Model, n: nat)
    ensures
        m.run(0) == m,
        m.run(1) == m.step(),
        m.run(n + 1) == m.run(n).step(),
{
    assert(m.run(1) == m.run(0).step());
}

/// Running on is running longer.
pub proof fn law_run_splits(m: Model, a: nat, b: nat)
    ensures
        m.run(a).run(b) == m.run(a + b),
    decreases b,
{
    if b > 0 {
        law_run_splits(m, a, (b - 1) as nat);
    }
}

} // verus!
