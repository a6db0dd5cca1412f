//! The clock: one tick, and many.

use vstd::prelude::*;

use super::{at, flags_fit, lemma_same_goods, World};
use crate::ids::{kind, K_SRC, NONE};
use crate::model::{Model, Queues, SLOTS};
use crate::order::{law_by_id_sorts, lemma_by_id_short, radix_sort};
use crate::running::{law_can_run_less, law_can_run_on, lemma_ticks_fit};
use crate::ticks::{
    lemma_far_out, lemma_ready_out, lemma_slot_out, lemma_drain_far, lemma_due_far_len,
    lemma_far_once, lemma_first_due, lemma_layout_transitive, lemma_ready_once, lemma_reorder,
    lemma_same_layout, lemma_settle_unique, lemma_slot_once, lemma_step, lemma_timers,
};
use crate::valid::{lemma_next_far, lemma_next_ready, lemma_next_slot, lemma_orderly};

verus! {

impl World {
    /// The list of wheel slot `slot`.
    fn slot_list(&self, slot: usize, list: &mut Vec<u32>)
        requires
            self.rep(),
            self@.orderly(),
            slot < SLOTS,
        ensures
            final(list)@ == self@.q.wheel[slot as int],
    {
        let ghost l = self@.q.wheel[slot as int];
        list.clear();
        let mut cur: u32 = self.wheel[slot];
        assert(self.chain(self.wheel@[slot as int], l));
        assert(l.take(0) =~= Seq::<u32>::empty());
        while cur != NONE
            invariant
                self.rep(),
                self@.orderly(),
                slot < SLOTS,
                l == self@.q.wheel[slot as int],
                self.chain(self.wheel@[slot as int], l),
                list@.len() <= l.len(),
                list@ == l.take(list@.len() as int),
                cur == at(l, list@.len() as int),
            decreases l.len() - list@.len(),
        {
            let ghost k = list@.len() as int;
            assert(k < l.len());
            assert(self@.live(self@.q.wheel[slot as int][k]));
            assert(self.link(l[k]) == at(l, k + 1));
            let next: u32 = self.link_of(cur);
            list.push(cur);
            assert(l.take(k + 1) =~= l.take(k).push(l[k]));
            cur = next;
        }
        proof {
            let k = list@.len() as int;
            if k < l.len() {
                assert(self@.live(self@.q.wheel[slot as int][k]));
            }
            assert(l.take(k) =~= l);
        }
    }

    /// Links the nodes of `list`, which are those of wheel slot `slot`, in the
    /// order of `list`.
    fn relink(&mut self, slot: usize, list: &Vec<u32>)
        requires
            old(self).rep(),
            old(self)@.orderly(),
            slot < SLOTS,
            list@.no_duplicates(),
            forall|x: u32| #[trigger] list@.contains(x) <==> old(self)@.q.wheel[slot as int].contains(x),
        ensures
            final(self).rep(),
            final(self)@ == old(self)@.with_queues(
                (Queues {
                    wheel: old(self)@.q.wheel.update(slot as int, list@),
                    ..old(self)@.q
                }),
            ),
    {
        let ghost pre = *self;
        let ghost q = pre@.q;
        let ghost l = list@;
        let mut head: u32 = NONE;
        let mut k: usize = list.len();
        assert forall|j: int| 0 <= j < l.len() implies pre@.live(#[trigger] l[j]) by {
            assert(l.contains(l[j]));
            let i = choose|i: int|
                0 <= i < q.wheel[slot as int].len() && q.wheel[slot as int][i] == l[j];
            assert(pre@.live(q.wheel[slot as int][i]));
        }
        while k > 0
            invariant
                k <= l.len(),
                l == list@,
                l.no_duplicates(),
                head == at(l, k as int),
                self.same_goods(pre),
                self.wheel == pre.wheel,
                self.ready == pre.ready,
                self.overflow == pre.overflow,
                self.shadow == pre.shadow,
                forall|j: int| 0 <= j < l.len() ==> pre@.live(#[trigger] l[j]),
                forall|j: int| k <= j < l.len() ==> self.link(#[trigger] l[j]) == at(l, j + 1),
                forall|t: u32| #![trigger self.head(t)]
                    #![trigger pre.head(t)]
                    pre@.reachable(t) ==> self.head(t) == pre.head(t),
                forall|x: u32| #![trigger self.link(x)]
                    #![trigger pre.link(x)]
                    pre@.live(x) && !l.contains(x) ==> self.link(x) == pre.link(x),
                forall|x: u32| #![trigger self.flags(x)]
                    #![trigger pre.flags(x)]
                    pre@.live(x) ==> self.flags(x) == pre.flags(x),
            decreases k,
        {
            k = k - 1;
            let id: u32 = list[k];
            let ghost s1 = *self;
            proof {
                assert(l.contains(id));
                assert(pre@.live(l[k as int]));
                assert(self@.live(id));
            }
            self.set_link(id, head);
            proof {
                assert forall|j: int| k <= j < l.len() implies self.link(#[trigger] l[j]) == at(
                    l,
                    j + 1,
                ) by {
                    if j > k {
                        assert(l[j] != l[k as int]);
                        assert(s1@.live(l[j]));
                        assert(s1.link(l[j]) == at(l, j + 1));
                    }
                }
                assert forall|x: u32| pre@.live(x) && !l.contains(x) implies #[trigger] self.link(x)
                    == pre.link(x) by {
                    assert(s1.link(x) == pre.link(x));
                }
                assert forall|x: u32| pre@.live(x) implies #[trigger] self.flags(x) == pre.flags(
                    x,
                ) by {
                    assert(s1.flags(x) == pre.flags(x));
                }
                assert forall|t: u32| pre@.reachable(t) implies #[trigger] self.head(t) == pre.head(
                    t,
                ) by {
                    assert(s1.head(t) == pre.head(t));
                }
            }
            head = id;
        }
        let ghost s2 = *self;
        self.wheel.set(slot, head);
        proof {
            self.shadow@.q.wheel = q.wheel.update(slot as int, l);
            assert(self.same_goods(pre));
            lemma_same_goods(pre, *self);
            lemma_relinked(pre, s2, *self, slot as int, l);
            assert(self.shadow@.q == (Queues { wheel: q.wheel.update(slot as int, l), ..q }));
        }
    }
}

proof fn lemma_relinked(pre: World, mid: World, post: World, slot: int, l: Seq<u32>)
    requires
        pre.rep(),
        pre@.orderly(),
        0 <= slot < SLOTS,
        l.no_duplicates(),
        forall|x: u32| #[trigger] l.contains(x) <==> pre@.q.wheel[slot].contains(x),
        forall|j: int| 0 <= j < l.len() ==> pre@.live(#[trigger] l[j]),
        forall|j: int| 0 <= j < l.len() ==> mid.link(#[trigger] l[j]) == at(l, j + 1),
        forall|t: u32| #![trigger mid.head(t)]
            #![trigger pre.head(t)]
            pre@.reachable(t) ==> mid.head(t) == pre.head(t),
        forall|x: u32| #![trigger mid.link(x)]
            #![trigger pre.link(x)]
            pre@.live(x) && !l.contains(x) ==> mid.link(x) == pre.link(x),
        forall|x: u32| #![trigger mid.flags(x)]
            #![trigger pre.flags(x)]
            pre@.live(x) ==> mid.flags(x) == pre.flags(x),
        mid.wheel == pre.wheel,
        mid.ready == pre.ready,
        mid.overflow == pre.overflow,
        post == (World { wheel: post.wheel, shadow: post.shadow, ..mid }),
        post.wheel@ == pre.wheel@.update(slot, at(l, 0)),
        post.shadow@.q == (Queues { wheel: pre@.q.wheel.update(slot, l), ..pre@.q }),
        post@ == pre@.with_queues(post.shadow@.q),
    ensures
        post.queues_rep(),
{
    let q = pre@.q;
    let q1 = post.shadow@.q;
    assert forall|s: int| 0 <= s < SLOTS implies post.chain(
        post.wheel@[s],
        #[trigger] q1.wheel[s],
    ) by {
        assert(pre.chain(pre.wheel@[s], q.wheel[s]));
        assert forall|k: int| 0 <= k < q1.wheel[s].len() implies post.link(
            #[trigger] q1.wheel[s][k],
        ) == at(q1.wheel[s], k + 1) by {
            if s == slot {
                assert(mid.link(l[k]) == at(l, k + 1));
            } else {
                let x = q.wheel[s][k];
                assert(pre@.live(x));
                assert(!l.contains(x)) by {
                    if l.contains(x) {
                        let j = choose|j: int| 0 <= j < q.wheel[slot].len() && q.wheel[slot][j] == x;
                        assert(q.place[q.wheel[slot][j]]->Wheel_0 % (SLOTS as int) == slot);
                        assert(q.place[q.wheel[s][k]]->Wheel_0 % (SLOTS as int) == s);
                    }
                }
                assert(mid.link(x) == pre.link(x));
            }
        }
    }
    assert forall|t: u32| post@.reachable(t) && kind(t) != K_SRC implies post.chain(
        post.head(t),
        #[trigger] q1.waits[t],
    ) by {
        assert(pre.chain(pre.head(t), q.waits[t]));
        assert(mid.head(t) == pre.head(t));
        assert forall|k: int| 0 <= k < q1.waits[t].len() implies post.link(
            #[trigger] q1.waits[t][k],
        ) == at(q1.waits[t], k + 1) by {
            let x = q.waits[t][k];
            assert(pre@.live(x));
            assert(!l.contains(x)) by {
                if l.contains(x) {
                    let j = choose|j: int| 0 <= j < q.wheel[slot].len() && q.wheel[slot][j] == x;
                    assert(q.place[q.wheel[slot][j]] is Wheel);
                    assert(q.place[q.waits[t][k]] is Waiting);
                }
            }
            assert(mid.link(x) == pre.link(x));
        }
    }
    assert forall|x: u32| post@.live(x) implies flags_fit(q1, x, #[trigger] post.flags(x)) by {
        assert(mid.flags(x) == pre.flags(x));
        assert(flags_fit(q, x, pre.flags(x)));
    }
}

impl World {
    /// Sorts the list of wheel slot `slot`, which is the current one.
    fn sort_slot(&mut self, slot: usize)
        requires
            old(self).rep(),
            old(self)@.valid(),
            slot == old(self)@.slot(),
            old(self).sort_events,
        ensures
            final(self).rep(),
            final(self)@ == old(self)@.reorder(),
    {
        proof {
            lemma_orderly(self@, Set::empty());
        }
        let ghost pre = *self;
        let mut batch: Vec<u32> = Vec::new();
        std::mem::swap(&mut batch, &mut self.batch);
        let mut scratch: Vec<u32> = Vec::new();
        std::mem::swap(&mut scratch, &mut self.batch2);
        proof {
            self.lemma_buffers(pre);
        }
        self.slot_list(slot, &mut batch);
        if batch.len() > 1 {
            proof {
                law_by_id_sorts(batch@);
            }
            radix_sort(&mut batch, &mut scratch);
            self.relink(slot, &batch);
        } else {
            proof {
                lemma_by_id_short(batch@);
                assert(self@.reorder().q.wheel =~= self@.q.wheel);
            }
        }
        let ghost s1 = *self;
        self.batch = batch;
        self.batch2 = scratch;
        proof {
            self.lemma_buffers(s1);
        }
    }

    /// The buffers for sorting are no part of the factory.
    proof fn lemma_buffers(self, pre: World)
        requires
            self == (World { batch: self.batch, batch2: self.batch2, ..pre }),
        ensures
            self@ == pre@,
            pre.rep() ==> self.rep(),
    {
        assert(self.same_goods(pre));
        lemma_same_goods(pre, self);
        assert(self@ =~= pre@);
        if pre.rep() {
            let q = pre.shadow@.q;
            assert forall|s: int| 0 <= s < SLOTS implies self.chain(
                self.wheel@[s],
                #[trigger] q.wheel[s],
            ) by {
                assert(pre.chain(pre.wheel@[s], q.wheel[s]));
                assert forall|k: int| 0 <= k < q.wheel[s].len() implies self.link(
                    #[trigger] q.wheel[s][k],
                ) == at(q.wheel[s], k + 1) by {
                    assert(pre.link(q.wheel[s][k]) == at(q.wheel[s], k + 1));
                }
            }
            assert forall|t: u32| self@.reachable(t) && kind(t) != K_SRC implies self.chain(
                self.head(t),
                #[trigger] q.waits[t],
            ) by {
                assert(pre.chain(pre.head(t), q.waits[t]));
                assert forall|k: int| 0 <= k < q.waits[t].len() implies self.link(
                    #[trigger] q.waits[t][k],
                ) == at(q.waits[t], k + 1) by {
                    assert(pre.link(q.waits[t][k]) == at(q.waits[t], k + 1));
                }
            }
            assert forall|x: u32| self@.live(x) implies flags_fit(q, x, #[trigger] self.flags(x)) by {
                assert(flags_fit(q, x, pre.flags(x)));
            }
        }
    }
}

// ----------------------------------------------------------------------- ticks

impl World {
    /// What must hold in the midst of a tick.
    spec fn ticking(self) -> bool {
        &&& self.rep()
        &&& self@.valid()
    }

    /// Handles the far timers that are due.
    fn step_far(&mut self)
        requires
            old(self).ticking(),
            old(self)@.far_fits(old(self)@.q.far.len()),
        ensures
            final(self).ticking(),
            final(self)@ == old(self)@.drain_far(old(self)@.q.far.len()),
    {
        let ghost goal = self@.drain_far(self@.q.far.len());
        let ghost mut fuel: nat = self@.q.far.len();
        proof {
            lemma_due_far_len(self@);
        }
        loop
            invariant
                self.ticking(),
                self@.drain_far(fuel) == goal,
                self@.far_fits(fuel),
                self@.due_far().len() <= fuel,
            ensures
                self@ == goal,
            decreases fuel,
        {
            let ghost m = self@;
            proof {
                lemma_orderly(m, Set::empty());
                assert forall|p: (int, u32)| #[trigger] m.q.far.contains(p) implies m.live(p.1) by {
                    assert(m.q.holds(p.1));
                }
            }
            match self.take_far() {
                None => {
                    break;
                },
                Some(id) => {
                    let ghost p = m.first_far();
                    proof {
                        lemma_first_due(m);
                        lemma_next_far(m, p);
                        assert(m.due_far().contains(p));
                        assert(m.due_far().len() > 0);
                        lemma_far_out(m, p);
                        lemma_far_once(m, p);
                    }
                    self.fire(id);
                    proof {
                        fuel = (fuel - 1) as nat;
                    }
                },
            }
        }
    }

    /// Handles the nodes of the current wheel slot.
    fn step_slot(&mut self, slot: usize)
        requires
            old(self).ticking(),
            slot == old(self)@.slot(),
            old(self)@.slot_fits(old(self)@.q.wheel[slot as int].len()),
        ensures
            final(self).ticking(),
            final(self)@ == old(self)@.drain_slot(old(self)@.q.wheel[slot as int].len()),
    {
        let ghost goal = self@.drain_slot(self@.q.wheel[slot as int].len());
        loop
            invariant
                self.ticking(),
                slot == self@.slot(),
                self@.drain_slot(self@.q.wheel[slot as int].len()) == goal,
                self@.slot_fits(self@.q.wheel[slot as int].len()),
            ensures
                self@ == goal,
            decreases self@.q.wheel[slot as int].len(),
        {
            let ghost m = self@;
            proof {
                lemma_orderly(m, Set::empty());
            }
            match self.take_slot(slot) {
                None => {
                    break;
                },
                Some(id) => {
                    proof {
                        lemma_next_slot(m);
                        lemma_slot_out(m);
                        lemma_slot_once(m);
                    }
                    self.fire(id);
                },
            }
        }
    }

    /// Handles ready nodes until there are none.
    fn step_ready(&mut self)
        requires
            old(self).ticking(),
            exists|n: nat| #[trigger] old(self)@.settles_within(n) && old(self)@.settle_fits(n),
        ensures
            final(self).ticking(),
            exists|n: nat| #[trigger] old(self)@.settles_within(n) && final(self)@ == old(self)@.settle(n),
    {
        let ghost n = choose|n: nat| #[trigger] self@.settles_within(n) && self@.settle_fits(n);
        let ghost goal = self@.settle(n);
        let ghost mut fuel: nat = n;
        loop
            invariant
                self.ticking(),
                self@.settle(fuel) == goal,
                self@.settle_fits(fuel),
                goal.q.ready.len() == 0,
            ensures
                self@ == goal,
            decreases fuel,
        {
            let ghost m = self@;
            proof {
                lemma_orderly(m, Set::empty());
                assert forall|k: int| 0 <= k < m.q.ready.len() implies m.live(
                    #[trigger] m.q.ready[k],
                ) by {
                    assert(m.q.holds(m.q.ready[k]));
                }
            }
            match self.take_ready() {
                None => {
                    break;
                },
                Some(id) => {
                    proof {
                        lemma_next_ready(m);
                        lemma_ready_out(m);
                        lemma_ready_once(m);
                    }
                    self.fire(id);
                    proof {
                        fuel = (fuel - 1) as nat;
                    }
                },
            }
        }
        assert(old(self)@.settles_within(n));
    }

    /// One tick: every node that has something to do is handled, then the clock
    /// moves on.
    pub fn step(&mut self)
        requires
            old(self).wf(),
            old(self)@.can_run(1),
        ensures
            final(self).wf(),
            final(self)@ == old(self)@.step(),
            final(self)@.same_layout(old(self)@),
            old(self)@.loop_free() ==> final(self)@.loop_free(),
            forall|n: nat| #![trigger final(self)@.can_run(n)]
                old(self)@.can_run(n + 1) ==> final(self)@.can_run(n),
            forall|n: nat| #![trigger final(self)@.sure_to_run(n)]
                old(self)@.sure_to_run(n + 1) ==> final(self)@.sure_to_run(n),
    {
        let ghost m0 = self@;
        proof {
            assert(m0.run(0) == m0);
            lemma_ticks_fit(m0, 1);
            assert(m0.tick_fits());
            lemma_timers(m0);
        }
        let slot: usize = (self.now % SLOTS as u32) as usize;
        self.step_far();
        let ghost m1 = self@;
        proof {
            lemma_due_far_len(m0);
            lemma_drain_far(m0, m0.q.far.len());
            lemma_reorder(m1);
        }
        if self.sort_events {
            self.sort_slot(slot);
        }
        let ghost m2 = self@;
        assert(m2 == m1.reorder());
        self.step_slot(slot);
        assert(self@ == m0.timers());
        self.step_ready();
        let ghost m3 = self@;
        proof {
            let n = choose|n: nat| #[trigger] m0.timers().settles_within(n) && m3
                == m0.timers().settle(n);
            let c = choose|n: nat| #[trigger] m0.timers().settles_within(n);
            lemma_settle_unique(m0.timers(), n, c);
            assert(m3 == m0.events_done());
            lemma_step(m0);
        }
        let ghost s4 = *self;
        self.now = self.now + 1;
        proof {
            lemma_clock_moved(s4, *self);
            assert(self@ =~= m0.step());
            lemma_same_layout(self@, m0);
            assert forall|n: nat| #![trigger self@.can_run(n)] m0.can_run(n + 1) implies self@.can_run(
                n,
            ) by {
                assert(m0.run(1) == m0.step()) by {
                    assert(m0.run(0) == m0);
                }
                law_can_run_on(m0, 1, n);
            }
            assert forall|n: nat| #![trigger self@.sure_to_run(n)] m0.sure_to_run(
                n + 1,
            ) implies self@.sure_to_run(n) by {
                assert(m0.run(1) == m0.step()) by {
                    assert(m0.run(0) == m0);
                }
                law_can_run_on(m0, 1, n);
            }
        }
    }

    /// `ticks` ticks.
    pub fn run(&mut self, ticks: u32)
        requires
            old(self).wf(),
            old(self)@.can_run(ticks as nat),
        ensures
            final(self).wf(),
            final(self)@ == old(self)@.run(ticks as nat),
            final(self)@.same_layout(old(self)@),
            old(self)@.loop_free() ==> final(self)@.loop_free(),
            forall|n: nat| #![trigger final(self)@.can_run(n)]
                old(self)@.can_run(ticks as nat + n) ==> final(self)@.can_run(n),
            forall|n: nat| #![trigger final(self)@.sure_to_run(n)]
                old(self)@.sure_to_run(ticks as nat + n) ==> final(self)@.sure_to_run(n),
    {
        let ghost m0 = self@;
        let mut k: u32 = 0;
        while k < ticks
            invariant
                k <= ticks,
                m0.valid(),
                m0.can_run(ticks as nat),
                self.wf(),
                self@ == m0.run(k as nat),
                self@.same_layout(m0),
            decreases ticks - k,
        {
            let ghost mk = self@;
            proof {
                law_can_run_on(m0, k as nat, (ticks - k) as nat);
                law_can_run_less(mk, 1, (ticks - k) as nat);
            }
            self.step();
            proof {
                lemma_layout_transitive(self@, mk, m0);
                assert(m0.run((k + 1) as nat) == m0.run(k as nat).step());
            }
            k = k + 1;
        }
        proof {
            lemma_same_layout(self@, m0);
            assert forall|n: nat| #![trigger self@.can_run(n)]
                m0.can_run(ticks as nat + n) implies self@.can_run(n) by {
                law_can_run_on(m0, ticks as nat, n);
            }
            assert forall|n: nat| #![trigger self@.sure_to_run(n)]
                m0.sure_to_run(ticks as nat + n) implies self@.sure_to_run(n) by {
                law_can_run_on(m0, ticks as nat, n);
            }
        }
    }
}

/// The factory is stored after the clock has moved on.
proof fn lemma_clock_moved(pre: World, post: World)
    requires
        pre.rep(),
        pre.now < 0xffff_ffff,
        post == (World { now: (pre.now + 1) as u32, ..pre }),
    ensures
        post.rep(),
        post@ == (Model { now: pre@.now + 1, ..pre@ }),
{
    assert forall|i: int| 0 <= i < post.belts@.len() implies #[trigger] post.belt(i) == pre.belt(
        i,
    ) by {
        assert(post.run_views(i) =~= pre.run_views(i));
    }
    assert(post@.belts =~= pre@.belts);
    assert(post@.machines =~= pre@.machines);
    assert(post@.sinks =~= pre@.sinks);
    assert(post@.sources =~= pre@.sources);
    assert forall|i: int| 0 <= i < post.belts@.len() implies #[trigger] post.belt_rep(i) by {
        assert(pre.belt_rep(i));
        assert(post.run_views(i) =~= pre.run_views(i));
    }
    let q = pre.shadow@.q;
    assert forall|s: int| 0 <= s < SLOTS implies post.chain(
        post.wheel@[s],
        #[trigger] q.wheel[s],
    ) by {
        assert(pre.chain(pre.wheel@[s], q.wheel[s]));
        assert forall|k: int| 0 <= k < q.wheel[s].len() implies post.link(#[trigger] q.wheel[s][k])
            == at(q.wheel[s], k + 1) by {
            assert(pre.link(q.wheel[s][k]) == at(q.wheel[s], k + 1));
        }
    }
    assert forall|t: u32| post@.reachable(t) && kind(t) != K_SRC implies post.chain(
        post.head(t),
        #[trigger] q.waits[t],
    ) by {
        assert(pre@.reachable(t));
        assert(pre.chain(pre.head(t), q.waits[t]));
        assert forall|k: int| 0 <= k < q.waits[t].len() implies post.link(#[trigger] q.waits[t][k])
            == at(q.waits[t], k + 1) by {
            assert(pre.link(q.waits[t][k]) == at(q.waits[t], k + 1));
        }
    }
    assert forall|x: u32| post@.live(x) implies flags_fit(q, x, #[trigger] post.flags(x)) by {
        assert(pre@.live(x));
        assert(flags_fit(q, x, pre.flags(x)));
    }
}

} // verus!
