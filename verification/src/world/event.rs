//! Events: what happens when a node is handled.

use vstd::prelude::*;

use super::{lemma_same_belts, lemma_same_lists, lemma_synced, World};
use crate::belts::{lemma_lead, lemma_without_first};
use crate::flags::{
    flag_on, lemma_flag_values, lemma_flags, F_BLOCKED, F_BUSY, F_HASOUT, F_READY, F_WAIT, F_WHEEL,
};
use crate::ids::{idx, idx_of, kind, kind_of, mkid, node, K_BELT, K_MACH, K_SINK, K_SRC, NONE};
use crate::model::{wrap, BeltV, MachineV, Model, SourceV};
use crate::ticks::lemma_same_layout;
use crate::valid::{
    lemma_change_belt, lemma_change_machine, lemma_change_source, lemma_give, lemma_give_keeps_belt,
    lemma_give_keeps_product, lemma_orderly, lemma_sound, out_after_give,
};

verus! {

/// The model's queues name nodes of the factory only, as before.
proof fn lemma_orderly_kept(pre: Model, post: Model)
    requires
        pre.orderly(),
        post.q == pre.q,
        post.now == pre.now,
        post.sizes_ok(),
        post.belts.len() == pre.belts.len(),
        post.machines.len() == pre.machines.len(),
        post.sinks.len() == pre.sinks.len(),
        post.sources.len() == pre.sources.len(),
    ensures
        post.orderly(),
{
    let q = pre.q;
    assert forall|s: int, k: int| 0 <= s < q.wheel.len() && 0 <= k < q.wheel[s].len() implies post.live(
        #[trigger] q.wheel[s][k],
    ) by {
        assert(pre.live(q.wheel[s][k]));
    }
    assert forall|t: u32, k: int| 0 <= k < q.waits[t].len() implies post.live(
        #[trigger] q.waits[t][k],
    ) by {
        assert(pre.live(q.waits[t][k]));
    }
    assert forall|t: u32| (#[trigger] q.waits[t]).len() > 0 implies post.reachable(t) && kind(t)
        != K_SRC by {
        assert(pre.reachable(t));
    }
}

/// Machine `i` has changed, but not its place in the queues.
proof fn lemma_machine_changed(pre: World, post: World, i: int)
    requires
        pre.rep(),
        pre@.orderly(),
        0 <= i < pre.machines@.len(),
        post == (World { machines: post.machines, ..pre }),
        post.machines@.len() == pre.machines@.len(),
        forall|j: int|
            0 <= j < post.machines@.len() && j != i ==> #[trigger] post.machines@[j]
                == pre.machines@[j],
        ({
            let a = post.machines@[i];
            let b = pre.machines@[i];
            &&& a.link == b.link
            &&& a.wait_head == b.wait_head
            &&& flag_on(a.flags, F_WAIT) == flag_on(b.flags, F_WAIT)
            &&& flag_on(a.flags, F_READY) == flag_on(b.flags, F_READY)
            &&& flag_on(a.flags, F_WHEEL) == flag_on(b.flags, F_WHEEL)
        }),
    ensures
        post.rep(),
        post@ == pre@.with_machine(i, post.machine(i)),
        post@.orderly(),
        post.heads_kept(pre),
{
    lemma_same_belts(pre, post);
    assert(post@.machines =~= pre@.machines.update(i, post.machine(i))) by {
        assert forall|j: int| 0 <= j < post.machines@.len() && j != i implies post.machine(j)
            == pre.machine(j) by {
            assert(post.machines@[j] == pre.machines@[j]);
        }
    }
    assert(post@.sinks =~= pre@.sinks);
    assert(post@.sources =~= pre@.sources);
    assert(post.same_lists(pre)) by {
        assert forall|x: u32| post@.live(x) implies #[trigger] post.link(x) == pre.link(x) by {
            if kind(x) == K_MACH && idx(x) != i {
                assert(post.machines@[idx(x)] == pre.machines@[idx(x)]);
            }
        }
        assert forall|t: u32| post@.reachable(t) implies #[trigger] post.head(t) == pre.head(t) by {
            if kind(t) == K_MACH && idx(t) != i {
                assert(post.machines@[idx(t)] == pre.machines@[idx(t)]);
            }
        }
        assert forall|x: u32| post@.live(x) implies {
            &&& flag_on(#[trigger] post.flags(x), F_WAIT) == flag_on(pre.flags(x), F_WAIT)
            &&& flag_on(post.flags(x), F_READY) == flag_on(pre.flags(x), F_READY)
            &&& flag_on(post.flags(x), F_WHEEL) == flag_on(pre.flags(x), F_WHEEL)
        } by {
            if kind(x) == K_MACH && idx(x) != i {
                assert(post.machines@[idx(x)] == pre.machines@[idx(x)]);
            }
        }
    }
    lemma_same_lists(pre, post);
    lemma_orderly_kept(pre@, post@);
}

/// Source `i` has changed, but not its place in the queues.
proof fn lemma_source_changed(pre: World, post: World, i: int)
    requires
        pre.rep(),
        pre@.orderly(),
        0 <= i < pre.sources@.len(),
        post == (World { sources: post.sources, ..pre }),
        post.sources@.len() == pre.sources@.len(),
        forall|j: int|
            0 <= j < post.sources@.len() && j != i ==> #[trigger] post.sources@[j]
                == pre.sources@[j],
        ({
            let a = post.sources@[i];
            let b = pre.sources@[i];
            &&& a.link == b.link
            &&& flag_on(a.flags, F_WAIT) == flag_on(b.flags, F_WAIT)
            &&& flag_on(a.flags, F_READY) == flag_on(b.flags, F_READY)
            &&& flag_on(a.flags, F_WHEEL) == flag_on(b.flags, F_WHEEL)
        }),
    ensures
        post.rep(),
        post@ == pre@.with_source(i, post.source(i)),
        post@.orderly(),
{
    lemma_same_belts(pre, post);
    assert(post@.sources =~= pre@.sources.update(i, post.source(i))) by {
        assert forall|j: int| 0 <= j < post.sources@.len() && j != i implies post.source(j)
            == pre.source(j) by {
            assert(post.sources@[j] == pre.sources@[j]);
        }
    }
    assert(post@.sinks =~= pre@.sinks);
    assert(post@.machines =~= pre@.machines);
    assert(post.same_lists(pre)) by {
        assert forall|x: u32| post@.live(x) implies #[trigger] post.link(x) == pre.link(x) by {
            if kind(x) == K_SRC && idx(x) != i {
                assert(post.sources@[idx(x)] == pre.sources@[idx(x)]);
            }
        }
        assert forall|t: u32| post@.reachable(t) implies #[trigger] post.head(t) == pre.head(t) by {
        }
        assert forall|x: u32| post@.live(x) implies {
            &&& flag_on(#[trigger] post.flags(x), F_WAIT) == flag_on(pre.flags(x), F_WAIT)
            &&& flag_on(post.flags(x), F_READY) == flag_on(pre.flags(x), F_READY)
            &&& flag_on(post.flags(x), F_WHEEL) == flag_on(pre.flags(x), F_WHEEL)
        } by {
            if kind(x) == K_SRC && idx(x) != i {
                assert(post.sources@[idx(x)] == pre.sources@[idx(x)]);
            }
        }
    }
    lemma_same_lists(pre, post);
    lemma_orderly_kept(pre@, post@);
}

/// Sink `i` has changed, but not what waits for it.
pub(super) proof fn lemma_sink_changed(pre: World, post: World, i: int)
    requires
        pre.rep(),
        pre@.orderly(),
        0 <= i < pre.sinks@.len(),
        post == (World { sinks: post.sinks, ..pre }),
        post.sinks@.len() == pre.sinks@.len(),
        forall|j: int|
            0 <= j < post.sinks@.len() && j != i ==> #[trigger] post.sinks@[j] == pre.sinks@[j],
        post.sinks@[i].wait_head == pre.sinks@[i].wait_head,
    ensures
        post.rep(),
        post@ == (Model { sinks: pre@.sinks.update(i, post.sink(i)), ..pre@ }),
        post@.orderly(),
        post.heads_kept(pre),
{
    lemma_same_belts(pre, post);
    assert(post@.sinks =~= pre@.sinks.update(i, post.sink(i))) by {
        assert forall|j: int| 0 <= j < post.sinks@.len() && j != i implies post.sink(j) == pre.sink(
            j,
        ) by {
            assert(post.sinks@[j] == pre.sinks@[j]);
        }
    }
    assert(post@.sources =~= pre@.sources);
    assert(post@.machines =~= pre@.machines);
    assert(post.same_lists(pre)) by {
        assert forall|t: u32| post@.reachable(t) implies #[trigger] post.head(t) == pre.head(t) by {
            if kind(t) == K_SINK && idx(t) != i {
                assert(post.sinks@[idx(t)] == pre.sinks@[idx(t)]);
            }
        }
    }
    lemma_same_lists(pre, post);
    lemma_orderly_kept(pre@, post@);
}

// ------------------------------------------------------------------- machines

impl World {
    /// Machine `i` begins to work if it is free and has enough.
    pub(super) fn mach_try_start(&mut self, i: usize)
        requires
            old(self).rep(),
            old(self)@.orderly(),
            old(self)@.nodes_ok(),
            i < old(self).machines@.len(),
            old(self)@.starts(i as int) ==> !old(self)@.q.holds(node(K_MACH, i as int)),
            old(self)@.starts(i as int) ==> old(self).now + old(self)@.machines[i as int].dur
                <= 0xffff_ffff,
        ensures
            final(self).rep(),
            final(self)@.orderly(),
            final(self)@ == old(self)@.start(i as int),
            final(self).heads_kept(*old(self)),
    {
        let ghost pre = *self;
        proof {
            assert(self@.machines[i as int] == self.machine(i as int));
            assert(self@.machines[i as int].ok());
            lemma_flags(self.machines@[i as int].flags);
            lemma_flag_values(self.machines@[i as int].flags);
        }
        if self.machines[i].flags & (F_BUSY | F_HASOUT) != 0 || self.machines[i].have
            < self.machines[i].need {
            return;
        }
        let until: u32 = self.now + self.machines[i].dur as u32;
        self.machines[i].have = self.machines[i].have - self.machines[i].need;
        self.machines[i].flags |= F_BUSY;
        self.machines[i].until = until;
        proof {
            lemma_machine_changed(pre, *self, i as int);
            let c = pre@.machines[i as int];
            assert(self.machine(i as int) == (MachineV {
                have: c.have - c.need,
                busy: true,
                until: pre@.now + c.dur,
                ..c
            }));
        }
        let id: u32 = mkid(K_MACH, i as u32);
        let ghost s1 = *self;
        self.schedule(id, until);
        let ghost s2 = *self;
        self.wake_waiters(id);
        assert(self.heads_kept(pre)) by {
            assert forall|j: int|
                0 <= j < pre.belts@.len() && pre.belts@[j].gap0 == 0 && pre@.belts[j].runs.len()
                    > 0 implies (#[trigger] self.belts@[j]).gap0 == 0 by {
                assert(s1.belts@[j] == pre.belts@[j]);
                assert(s2.belts@[j].gap0 == s1.belts@[j].gap0);
            }
        }
    }
}

// -------------------------------------------------------------- moving an item

impl World {
    /// Offers `item` to `target`, which takes it if it has room.
    pub(super) fn try_push(&mut self, target: u32, item: u16) -> (taken: bool)
        requires
            old(self).rep(),
            old(self)@.sound(),
            old(self)@.reachable(target),
            old(self)@.accepts(target, item) ==> old(self)@.can_give(target, item),
        ensures
            final(self).rep(),
            taken == old(self)@.accepts(target, item),
            taken ==> final(self)@ == old(self)@.give(target, item),
            !taken ==> final(self)@ == old(self)@,
            !taken && kind(target) == K_BELT ==> final(self).synced(idx(target)),
            final(self).heads_kept(*old(self)),
    {
        let ghost pre = *self;
        proof {
            lemma_sound(self@);
        }
        let k: u32 = kind_of(target);
        let i: usize = idx_of(target);
        if k == K_BELT {
            proof {
                assert(target == node(K_BELT, i as int));
                assert(self@.belts[i as int] == self.belt(i as int));
                assert(self@.belts[i as int].ok(self@.now));
                if self@.belts[i as int].runs.len() == 0 {
                    assert(!self@.engaged(target));
                }
            }
            self.belt_sync(i);
            let ghost mid = *self;
            let taken: bool = self.belt_insert_tail(i, item);
            assert(self.heads_kept(pre)) by {
                assert forall|j: int|
                    0 <= j < pre.belts@.len() && pre.belts@[j].gap0 == 0
                        && pre@.belts[j].runs.len() > 0 implies (
                #[trigger] self.belts@[j]).gap0 == 0 by {
                    assert(mid.belts@[j].gap0 == 0);
                }
            }
            taken
        } else if k == K_MACH {
            proof {
                assert(target == node(K_MACH, i as int));
                assert(self@.machines[i as int] == self.machine(i as int));
                assert(self@.machines[i as int].ok());
            }
            if self.machines[i].have >= self.machines[i].need || self.machines[i].in_item != item {
                return false;
            }
            self.machines[i].have = self.machines[i].have + 1;
            proof {
                lemma_machine_changed(pre, *self, i as int);
                let c = pre@.machines[i as int];
                assert(self.machine(i as int) == (MachineV { have: c.have + 1, ..c }));
                if self@.starts(i as int) {
                    assert(!pre@.engaged(target));
                    assert(!pre@.q.holds(target));
                }
            }
            if self.machines[i].have >= self.machines[i].need {
                let ghost mid = *self;
                self.mach_try_start(i);
                assert(self.heads_kept(pre)) by {
                    assert forall|j: int|
                        0 <= j < pre.belts@.len() && pre.belts@[j].gap0 == 0
                            && pre@.belts[j].runs.len() > 0 implies (
                    #[trigger] self.belts@[j]).gap0 == 0 by {
                        assert(mid.belts@[j].gap0 == 0);
                    }
                }
            }
            true
        } else if k == K_SINK {
            if self.sinks[i].open == 0 {
                return false;
            }
            let count: u64 = self.sinks[i].count.wrapping_add(1);
            self.sinks[i].count = count;
            proof {
                lemma_sink_changed(pre, *self, i as int);
            }
            true
        } else {
            false
        }
    }
}

// --------------------------------------------------------------------- events

impl World {
    /// Belt `i` is handled.
    fn belt_fire(&mut self, i: usize)
        requires
            i < old(self).belts@.len(),
            old(self).can_fire(node(K_BELT, i as int)),
        ensures
            final(self).rep(),
            final(self)@ == old(self)@.fire_belt(i as int),
    {
        let ghost id_g = node(K_BELT, i as int);
        let ghost ex = set![id_g];
        let ghost m0 = self@;
        let ghost b0 = m0.belts[i as int];
        proof {
            assert(m0.sound());
            lemma_sound(m0);
            assert(m0.belts[i as int] == self.belt(i as int));
            assert(b0.ok(m0.now));
        }
        self.belt_sync(i);
        proof {
            assert(self@.belts[i as int] == self.belt(i as int));
            assert(self.belt_rep(i as int));
            lemma_synced(*self, i as int);
        }
        if self.belts[i].run_head == NONE {
            return;
        }
        let id: u32 = mkid(K_BELT, i as u32);
        if self.belts[i].gap0 != 0 {
            let when: u32 = self.belts[i].last + self.belts[i].gap0 as u32
                * self.belts[i].period as u32;
            self.schedule(id, when);
            return;
        }
        proof {
            let c = self.shadow@.chains[i as int];
            assert(c[0] < self.runs@.len());
            assert(self.belt(i as int).runs[0].item == self.runs@[c[0] as int].item);
        }
        let item: u16 = self.runs[self.belts[i].run_head as usize].item;
        let out: u32 = self.belts[i].out;
        if self.try_push(out, item) {
            let ghost m1 = self@;
            let ghost b1 = m1.belts[i as int];
            let ghost left = b1.without_first(m0.now);
            proof {
                lemma_give(m0, ex, out, item);
                assert(out_after_give(m0, ex, out) =~= ex);
                lemma_give_keeps_belt(m0, out, item, i as int);
                assert(self.belts@[i as int].gap0 == 0);
                lemma_orderly(m1, ex);
                assert(b1.ok(m0.now));
                lemma_without_first(b1, m0.now);
            }
            self.belt_stamp(i, false);
            proof {
                let b2 = BeltV { blocked: false, due: m0.now, ..b1 };
                lemma_lead(b2, m0.now);
                lemma_lead(b1, m0.now);
                lemma_change_belt(m1, ex, i as int, b2);
                assert(self@ == m1.with_belt(i as int, b2));
                assert(b2.without_first(m0.now) =~= left);
            }
            self.belt_pop_head(i);
            proof {
                assert(self@ =~= m1.with_belt(i as int, left));
                lemma_change_belt(m1, ex, i as int, left);
                assert(self@.belts[i as int] == self.belt(i as int));
                assert(self.belt_rep(i as int));
                assert(self.belts@[i as int].last == self.now);
                lemma_synced(*self, i as int);
            }
            if self.belts[i].run_head != NONE {
                let when: u32 = self.now + self.belts[i].gap0 as u32 * self.belts[i].period as u32;
                let ghost s3 = *self;
                self.schedule(id, when);
                assert(self.belts@[i as int].last == s3.belts@[i as int].last);
            }
            self.wake_waiters_on_moving_belt(i);
        } else {
            let ghost s2 = *self;
            proof {
                assert(self.belts@[i as int].gap0 == 0);
                lemma_change_blocked(m0, ex, i as int);
            }
            self.belt_stamp(i, true);
            proof {
                if kind(out) == K_BELT {
                    let j = idx(out);
                    assert(m0.belts[j].ok(m0.now));
                    assert(self@.belts[j] == self.belt(j));
                    if j != i {
                        assert(self.belts@[j] == s2.belts@[j]);
                    }
                }
            }
            self.block_on(id, out);
        }
    }
}

/// A belt whose first item is at the head can be blocked.
proof fn lemma_change_blocked(m: Model, ex: Set<u32>, i: int)
    requires
        m.valid_except(ex),
        ex.contains(node(K_BELT, i)),
        0 <= i < m.belts.len(),
        m.belts[i].runs.len() > 0,
        m.belts[i].lead(m.now) == 0,
    ensures
        m.with_belt(
            i,
            (BeltV { blocked: true, due: m.now, ..m.belts[i] }),
        ).valid_except(ex),
{
    let b = m.belts[i];
    assert(b.ok(m.now));
    let b1 = BeltV { blocked: true, due: m.now, ..b };
    lemma_lead(b1, m.now);
    lemma_change_belt(m, ex, i, b1);
}

impl World {
    /// What is needed to wait for `target` after it had no room.
    proof fn lemma_can_block(self, target: u32)
        requires
            self.rep(),
            self@.nodes_ok(),
            self@.reachable(target),
        ensures
            kind(target) == K_BELT ==> self.belts@[idx(target)].period >= 1,
    {
        if kind(target) == K_BELT {
            let b = self@.belts[idx(target)];
            assert(b == self.belt(idx(target)));
            assert(b.ok(self@.now));
        }
    }

    /// Machine `i` is handled.
    fn mach_fire(&mut self, i: usize)
        requires
            i < old(self).machines@.len(),
            old(self).can_fire(node(K_MACH, i as int)),
        ensures
            final(self).rep(),
            final(self)@ == old(self)@.fire_machine(i as int),
    {
        let ghost ex = set![node(K_MACH, i as int)];
        let ghost s0 = *self;
        let ghost m0 = self@;
        let ghost c0 = m0.machines[i as int];
        proof {
            assert(m0.sound());
            lemma_sound(m0);
            assert(c0 == self.machine(i as int));
            assert(c0.ok());
            lemma_flags(self.machines@[i as int].flags);
        }
        let id: u32 = mkid(K_MACH, i as u32);
        let out: u32 = self.machines[i].out;
        let item: u16 = self.machines[i].out_item;
        if self.machines[i].flags & F_BUSY != 0 {
            if self.machines[i].until != self.now {
                return;
            }
            self.machines[i].flags &= !F_BUSY;
            let ghost c1 = MachineV { busy: false, ..c0 };
            let ghost m1 = m0.with_machine(i as int, c1);
            proof {
                lemma_machine_changed(s0, *self, i as int);
                assert(self.machine(i as int) == c1);
                lemma_change_machine(m0, ex, i as int, c1);
                assert(self@ == m1);
                assert(m1.sound());
                lemma_same_layout(m1, m0);
            }
            if self.try_push(out, item) {
                let ghost m2 = self@;
                proof {
                    lemma_give(m1, ex, out, item);
                    assert(m2.sound());
                    lemma_sound(m2);
                    assert(m2.machines[i as int].dur == c0.dur);
                    if m2.starts(i as int) {
                        assert(!m2.engaged(id));
                    }
                }
                self.mach_try_start(i);
            } else {
                let ghost s2 = *self;
                proof {
                    lemma_orderly(m1, ex);
                    assert(m1.machines[i as int] == c1);
                    assert(self@.machines[i as int] == self.machine(i as int));
                    lemma_flags(self.machines@[i as int].flags);
                }
                self.machines[i].flags |= F_HASOUT;
                proof {
                    let c2 = MachineV { has_out: true, ..c1 };
                    lemma_machine_changed(s2, *self, i as int);
                    assert(self.machine(i as int) == c2);
                    lemma_change_machine(m1, ex, i as int, c2);
                    lemma_same_layout(self@, m1);
                    self.lemma_can_block(out);
                }
                self.block_on(id, out);
            }
        } else if self.machines[i].flags & F_HASOUT != 0 {
            if self.try_push(out, item) {
                let ghost s1 = *self;
                let ghost m1 = self@;
                proof {
                    lemma_give(m0, ex, out, item);
                    lemma_give_keeps_product(m0, out, item, i as int);
                    assert(out_after_give(m0, ex, out) =~= ex);
                    lemma_orderly(m1, ex);
                    assert(m1.machines[i as int] == self.machine(i as int));
                    assert(m1.machines[i as int].ok());
                    lemma_flags(self.machines@[i as int].flags);
                }
                self.machines[i].flags &= !F_HASOUT;
                proof {
                    let c2 = MachineV { has_out: false, ..m1.machines[i as int] };
                    lemma_machine_changed(s1, *self, i as int);
                    assert(self.machine(i as int) == c2);
                    lemma_change_machine(m1, ex, i as int, c2);
                    assert(m1.machines[i as int].dur == c0.dur);
                    assert(self@.sound());
                    lemma_sound(self@);
                }
                self.mach_try_start(i);
            } else {
                proof {
                    self.lemma_can_block(out);
                }
                self.block_on(id, out);
            }
        } else {
            self.mach_try_start(i);
        }
    }

    /// Source `i` is handled.
    fn src_fire(&mut self, i: usize)
        requires
            i < old(self).sources@.len(),
            old(self).can_fire(node(K_SRC, i as int)),
        ensures
            final(self).rep(),
            final(self)@ == old(self)@.fire_source(i as int),
    {
        let ghost ex = set![node(K_SRC, i as int)];
        let ghost m0 = self@;
        let ghost c0 = m0.sources[i as int];
        proof {
            assert(m0.sound());
            lemma_sound(m0);
            assert(c0 == self.source(i as int));
            assert(c0.ok());
        }
        let out: u32 = self.sources[i].out;
        let item: u16 = self.sources[i].item;
        let period: u16 = self.sources[i].period;
        let id: u32 = mkid(K_SRC, i as u32);
        if self.try_push(out, item) {
            let ghost s1 = *self;
            let ghost m1 = self@;
            proof {
                lemma_give(m0, ex, out, item);
                assert(out_after_give(m0, ex, out) =~= ex);
                lemma_orderly(m1, ex);
                assert(m1.sources == m0.sources);
                assert(m1.sources[i as int] == self.source(i as int));
                lemma_flags(self.sources@[i as int].flags);
            }
            let until: u32 = self.now + period as u32;
            self.sources[i].flags &= !F_BLOCKED;
            self.sources[i].until = until;
            proof {
                let c1 = SourceV { blocked: false, until: m0.now + c0.period, ..c0 };
                lemma_source_changed(s1, *self, i as int);
                assert(self.source(i as int) == c1);
                lemma_change_source(m1, ex, i as int, c1);
            }
            self.schedule(id, until);
        } else {
            let ghost s1 = *self;
            proof {
                assert(self@.sources[i as int] == self.source(i as int));
                lemma_flags(self.sources@[i as int].flags);
            }
            self.sources[i].flags |= F_BLOCKED;
            proof {
                let c1 = SourceV { blocked: true, ..c0 };
                lemma_source_changed(s1, *self, i as int);
                assert(self.source(i as int) == c1);
                lemma_change_source(m0, ex, i as int, c1);
                lemma_same_layout(self@, m0);
                self.lemma_can_block(out);
            }
            self.block_on(id, out);
        }
    }

    /// The node `id`, out of its queues, is handled.
    pub(super) fn fire(&mut self, id: u32)
        requires
            old(self).can_fire(id),
        ensures
            final(self).rep(),
            final(self)@ == old(self)@.fire(id),
    {
        let ghost pre = *self;
        self.events = self.events.wrapping_add(1);
        proof {
            lemma_same_belts(pre, *self);
            assert(self@.machines =~= pre@.machines);
            assert(self@.sinks =~= pre@.sinks);
            assert(self@.sources =~= pre@.sources);
            lemma_orderly(pre@, set![id]);
            assert(self.same_lists(pre));
            lemma_same_lists(pre, *self);
            assert(self@ =~= (Model { events: (pre@.events + 1) % wrap(), ..pre@ }));
            lemma_event_counted(pre@, id, self@.events);
        }
        let i: usize = idx_of(id);
        match kind_of(id) {
            K_BELT => {
                assert(id == node(K_BELT, i as int));
                self.belt_fire(i)
            },
            K_MACH => {
                assert(id == node(K_MACH, i as int));
                self.mach_fire(i)
            },
            K_SRC => {
                assert(id == node(K_SRC, i as int));
                self.src_fire(i)
            },
            _ => {},
        }
    }
}

/// Counting an event changes nothing else.
proof fn lemma_event_counted(m: Model, id: u32, events: int)
    requires
        m.valid_except(set![id]),
        m.fits(id),
        0 <= events < wrap(),
    ensures
        (Model { events, ..m }).valid_except(set![id]),
        (Model { events, ..m }).fits(id),
        (Model { events, ..m }).same_layout(m),
{
    let r = Model { events, ..m };
    assert forall|x: u32| #[trigger] r.q.holds(x) implies r.live(x) && r.engaged(x) && r.timely(x)
        && !set![id].contains(x) by {
        assert(m.q.holds(x));
    }
    assert forall|x: u32|
        r.live(x) && #[trigger] r.engaged(x) && !set![id].contains(x) implies r.q.holds(x) by {
        assert(m.engaged(x));
    }
}

} // verus!
