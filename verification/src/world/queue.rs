//! Timers and lists of waiting nodes.

use vstd::prelude::*;

use super::{
    at, flags_fit, later, lemma_same_goods, lemma_same_lists, lemma_synced, queue_flag, World,
};
use crate::flags::{flag_on, lemma_flags, F_BLOCKED, F_READY, F_WAIT, F_WHEEL};
use crate::ids::{idx, idx_of, kind, kind_of, mkid, node, K_BELT, K_MACH, K_SINK, K_SRC, NONE};
use crate::model::{not_after, Place, Queues, SLOTS};
use crate::queues::lemma_unlisted;
use crate::ticks::{lemma_first_due, lemma_first_unique};
use crate::timers::timer;
use crate::valid::{lemma_orderly_schedule, lemma_orderly_unpark};

verus! {

impl World {
    // ------------------------------------------------------------ node fields

    pub(super) fn link_of(&self, id: u32) -> (r: u32)
        requires
            self@.live(id),
        ensures
            r == self.link(id),
    {
        match kind_of(id) {
            K_BELT => self.belts[idx_of(id)].link,
            K_MACH => self.machines[idx_of(id)].link,
            K_SRC => self.sources[idx_of(id)].link,
            _ => NONE,
        }
    }

    pub(super) fn set_link(&mut self, id: u32, v: u32)
        requires
            old(self)@.live(id),
        ensures
            final(self).requeued(*old(self), id),
            final(self).link(id) == v,
            final(self).flags(id) == old(self).flags(id),
    {
        match kind_of(id) {
            K_BELT => {
                self.belts[idx_of(id)].link = v;
            },
            K_MACH => {
                self.machines[idx_of(id)].link = v;
            },
            K_SRC => {
                self.sources[idx_of(id)].link = v;
            },
            _ => {},
        }
    }

    pub(super) fn flags_of(&self, id: u32) -> (r: u8)
        requires
            self@.live(id),
        ensures
            r == self.flags(id),
    {
        match kind_of(id) {
            K_BELT => self.belts[idx_of(id)].flags,
            K_MACH => self.machines[idx_of(id)].flags,
            K_SRC => self.sources[idx_of(id)].flags,
            _ => 0,
        }
    }

    pub(super) fn or_flags(&mut self, id: u32, f: u8)
        requires
            old(self)@.live(id),
            queue_flag(f),
        ensures
            final(self).requeued(*old(self), id),
            final(self).link(id) == old(self).link(id),
            final(self).flags(id) == old(self).flags(id) | f,
    {
        proof {
            lemma_flags(self.flags(id));
        }
        match kind_of(id) {
            K_BELT => {
                self.belts[idx_of(id)].flags |= f;
            },
            K_MACH => {
                self.machines[idx_of(id)].flags |= f;
            },
            K_SRC => {
                self.sources[idx_of(id)].flags |= f;
            },
            _ => {},
        }
    }

    pub(super) fn clear_flags(&mut self, id: u32, f: u8)
        requires
            old(self)@.live(id),
            queue_flag(f),
        ensures
            final(self).requeued(*old(self), id),
            final(self).link(id) == old(self).link(id),
            final(self).flags(id) == old(self).flags(id) & !f,
    {
        proof {
            lemma_flags(self.flags(id));
        }
        match kind_of(id) {
            K_BELT => {
                self.belts[idx_of(id)].flags &= !f;
            },
            K_MACH => {
                self.machines[idx_of(id)].flags &= !f;
            },
            K_SRC => {
                self.sources[idx_of(id)].flags &= !f;
            },
            _ => {},
        }
    }

    // ------------------------------------------------------------------ timers

    /// What is written when the node `id` is put on a timer.
    spec fn written(self, pre: World, id: u32, when: int) -> bool {
        &&& self.same_goods(pre)
        &&& self.shadow == pre.shadow
        &&& forall|t: u32| #![trigger self.head(t)]
            #![trigger pre.head(t)]
            pre@.reachable(t) ==> self.head(t) == pre.head(t)
        &&& forall|x: u32| #![trigger self.link(x)]
            #![trigger pre.link(x)]
            pre@.live(x) && x != id ==> self.link(x) == pre.link(x)
        &&& forall|x: u32| #![trigger self.flags(x)]
            #![trigger pre.flags(x)]
            pre@.live(x) && x != id ==> self.flags(x) == pre.flags(x)
        &&& self.flags(id) == pre.flags(id) | (if when <= pre.now {
            F_READY
        } else {
            F_WHEEL
        })
        &&& self.overflow.wf()
        &&& if when <= pre.now {
            &&& self.ready@ == pre.ready@.push(id)
            &&& self.overflow@ == pre.overflow@
            &&& self.wheel@ == pre.wheel@
        } else if when - pre.now >= SLOTS {
            &&& self.ready@ == pre.ready@
            &&& self.overflow@ == pre.overflow@.insert((when, id))
            &&& self.wheel@ == pre.wheel@
        } else {
            let s = when % (SLOTS as int);
            &&& self.ready@ == pre.ready@
            &&& self.overflow@ == pre.overflow@
            &&& self.wheel@ == pre.wheel@.update(s, id)
            &&& self.link(id) == pre.wheel@[s]
        }
    }

    /// Writes the node `id` into a timer.
    fn write_timer(&mut self, id: u32, when: u32)
        requires
            old(self)@.live(id),
            old(self).wheel@.len() == SLOTS,
            old(self).overflow.wf(),
            !old(self).overflow@.contains((when as int, id)),
        ensures
            final(self).written(*old(self), id, when as int),
    {
        if when <= self.now {
            self.or_flags(id, F_READY);
            self.ready.push(id);
            return;
        }
        self.or_flags(id, F_WHEEL);
        if when - self.now >= SLOTS as u32 {
            self.overflow.push(when, id);
            return;
        }
        let slot: usize = (when % SLOTS as u32) as usize;
        let head: u32 = self.wheel[slot];
        self.set_link(id, head);
        self.wheel.set(slot, id);
    }

    /// The node `id` is to be handled at tick `when`. A node that is to be handled
    /// within the current tick anyway stays where it is.
    pub(super) fn schedule(&mut self, id: u32, when: u32)
        requires
            old(self).rep(),
            old(self)@.orderly(),
            old(self)@.live(id),
            old(self)@.q.holds(id) ==> old(self)@.q.place[id] is Ready && when <= old(self).now,
        ensures
            final(self).rep(),
            final(self).same_goods(*old(self)),
            final(self)@ == if old(self)@.q.holds(id) {
                old(self)@
            } else {
                old(self)@.schedule(id, when as int)
            },
            final(self)@.orderly(),
    {
        let ghost pre = *self;
        assert(flags_fit(self.shadow@.q, id, self.flags(id)));
        if when <= self.now && self.flags_of(id) & F_READY != 0 {
            return;
        }
        proof {
            lemma_unlisted(self@.q, self@.now, id);
        }
        self.write_timer(id, when);
        proof {
            self.shadow@.q = pre.shadow@.q.enqueue(pre.now as int, id, when as int);
            lemma_scheduled(pre, *self, id, when as int);
        }
    }
}

/// The factory is stored after a node was put on a timer.
proof fn lemma_scheduled(pre: World, post: World, id: u32, when: int)
    requires
        pre.rep(),
        pre@.orderly(),
        pre@.live(id),
        !pre@.q.holds(id),
        post.shadow@.q == pre.shadow@.q.enqueue(pre.now as int, id, when),
        (World { shadow: pre.shadow, ..post }).written(pre, id, when),
        post.shadow@.chains == pre.shadow@.chains,
        post.shadow@.owner == pre.shadow@.owner,
    ensures
        post.rep(),
        post.same_goods(pre),
        post@ == pre@.schedule(id, when),
        post@.orderly(),
{
    lemma_orderly_schedule(pre@, id, when);
    let mid = World { shadow: pre.shadow, ..post };
    assert(mid.written(pre, id, when));
    assert(post.same_goods(pre));
    lemma_same_goods(pre, post);
    assert(flags_fit(pre.shadow@.q, id, pre.flags(id)));
    lemma_flags(pre.flags(id));
    assert forall|t: u32| pre@.reachable(t) implies #[trigger] post.head(t) == pre.head(t) by {
        assert(mid.head(t) == pre.head(t));
    }
    assert forall|x: u32| pre@.live(x) && x != id implies #[trigger] post.link(x) == pre.link(x) by {
        assert(mid.link(x) == pre.link(x));
    }
    assert forall|x: u32| pre@.live(x) && x != id implies #[trigger] post.flags(x) == pre.flags(
        x,
    ) by {
        assert(mid.flags(x) == pre.flags(x));
    }
    assert(post.flags(id) == mid.flags(id));
    assert(post.link(id) == mid.link(id));
    lemma_enqueued(pre, post, id, when);
}

/// The queues are stored after a node was put on a timer.
proof fn lemma_enqueued(pre: World, post: World, id: u32, when: int)
    requires
        pre.queues_rep(),
        pre@.orderly(),
        pre@.live(id),
        !pre@.q.holds(id),
        post.same_goods(pre),
        post@ == pre@.schedule(id, when),
        post.shadow@.q == pre.shadow@.q.enqueue(pre.now as int, id, when),
        forall|t: u32| #![trigger post.head(t)] pre@.reachable(t) ==> post.head(t) == pre.head(t),
        forall|x: u32| #![trigger post.link(x)]
            pre@.live(x) && x != id ==> post.link(x) == pre.link(x),
        forall|x: u32| #![trigger post.flags(x)]
            pre@.live(x) && x != id ==> post.flags(x) == pre.flags(x),
        flags_fit(post.shadow@.q, id, post.flags(id)),
        post.ready@ == (if when <= pre.now {
            pre.ready@.push(id)
        } else {
            pre.ready@
        }),
        post.overflow.wf(),
        post.overflow@ == (if when - pre.now >= SLOTS {
            pre.overflow@.insert((when, id))
        } else {
            pre.overflow@
        }),
        pre.now < when && when - pre.now < SLOTS ==> {
            let s = when % (SLOTS as int);
            &&& post.wheel@ == pre.wheel@.update(s, id)
            &&& post.link(id) == pre.wheel@[s]
        },
        !(pre.now < when && when - pre.now < SLOTS) ==> post.wheel@ == pre.wheel@,
    ensures
        post.queues_rep(),
{
    let q = pre.shadow@.q;
    let q1 = post.shadow@.q;
    lemma_unlisted(q, pre@.now, id);
    assert(pre@.q == q);
    assert forall|s: int| 0 <= s < SLOTS implies post.chain(
        post.wheel@[s],
        #[trigger] q1.wheel[s],
    ) by {
        assert(pre.chain(pre.wheel@[s], q.wheel[s]));
        let on = pre.now < when && when - pre.now < SLOTS && s == when % (SLOTS as int);
        assert forall|k: int| 0 <= k < q1.wheel[s].len() implies post.link(
            #[trigger] q1.wheel[s][k],
        ) == at(q1.wheel[s], k + 1) by {
            if on {
                if k > 0 {
                    let x = q.wheel[s][k - 1];
                    assert(q1.wheel[s][k] == x);
                    assert(q.wheel[s].contains(x));
                    assert(pre@.live(x));
                    assert(pre.link(x) == at(q.wheel[s], k));
                }
            } else {
                let x = q.wheel[s][k];
                assert(q.wheel[s].contains(x));
                assert(pre@.live(x));
                assert(pre.link(x) == at(q.wheel[s], k + 1));
            }
        }
    }
    assert forall|t: u32| post@.reachable(t) && kind(t) != K_SRC implies post.chain(
        post.head(t),
        #[trigger] q1.waits[t],
    ) by {
        assert(pre.chain(pre.head(t), q.waits[t]));
        assert forall|k: int| 0 <= k < q1.waits[t].len() implies post.link(
            #[trigger] q1.waits[t][k],
        ) == at(q1.waits[t], k + 1) by {
            let x = q.waits[t][k];
            assert(q.waits[t].contains(x));
            assert(pre@.live(x));
        }
    }
    assert forall|x: u32| post@.live(x) implies flags_fit(q1, x, #[trigger] post.flags(x)) by {
        if x != id {
            assert(flags_fit(q, x, pre.flags(x)));
        }
    }
}

// -------------------------------------------------------------------- chains

/// A list with one more node in front.
proof fn lemma_chain_prepend(w: World, head: u32, list: Seq<u32>, id: u32)
    requires
        w.chain(head, list),
        w.link(id) == head,
    ensures
        w.chain(id, seq![id] + list),
{
    let l = seq![id] + list;
    assert forall|k: int| 0 <= k < l.len() implies w.link(#[trigger] l[k]) == at(l, k + 1) by {
        if k > 0 {
            assert(l[k] == list[k - 1]);
            assert(w.link(list[k - 1]) == at(list, k));
        }
    }
}

/// A list without its first node.
proof fn lemma_chain_rest(pre: World, post: World, head: u32, list: Seq<u32>)
    requires
        pre.chain(head, list),
        list.len() > 0,
        list.no_duplicates(),
        forall|k: int|
            0 <= k < list.len() && list[k] != list[0] ==> post.link(#[trigger] list[k]) == pre.link(
                list[k],
            ),
    ensures
        head == list[0],
        post.chain(pre.link(list[0]), list.drop_first()),
{
    let l = list.drop_first();
    assert(pre.link(list[0]) == at(list, 1));
    assert forall|k: int| 0 <= k < l.len() implies post.link(#[trigger] l[k]) == at(l, k + 1) by {
        assert(l[k] == list[k + 1]);
        assert(pre.link(list[k + 1]) == at(list, k + 2));
    }
}

/// The lists that do not name `id` are stored as before when only the link of
/// `id` has changed.
proof fn lemma_lists_kept(pre: World, post: World, id: u32)
    requires
        pre.queues_rep(),
        pre@.orderly(),
        forall|x: u32| #![trigger post.link(x)]
            #![trigger pre.link(x)]
            pre@.live(x) && x != id ==> post.link(x) == pre.link(x),
    ensures
        forall|s: int|
            0 <= s < SLOTS && !pre@.q.wheel[s].contains(id) ==> post.chain(
                pre.wheel@[s],
                #[trigger] pre@.q.wheel[s],
            ),
        forall|t: u32|
            pre@.reachable(t) && kind(t) != K_SRC && !pre@.q.waits[t].contains(id) ==> post.chain(
                pre.head(t),
                #[trigger] pre@.q.waits[t],
            ),
{
    let q = pre@.q;
    assert forall|s: int| 0 <= s < SLOTS && !q.wheel[s].contains(id) implies post.chain(
        pre.wheel@[s],
        #[trigger] q.wheel[s],
    ) by {
        assert(pre.chain(pre.wheel@[s], q.wheel[s]));
        assert forall|k: int| 0 <= k < q.wheel[s].len() implies post.link(#[trigger] q.wheel[s][k])
            == at(q.wheel[s], k + 1) by {
            let x = q.wheel[s][k];
            assert(q.wheel[s].contains(x));
            assert(pre@.live(x));
        }
    }
    assert forall|t: u32|
        pre@.reachable(t) && kind(t) != K_SRC && !q.waits[t].contains(id) implies post.chain(
        pre.head(t),
        #[trigger] q.waits[t],
    ) by {
        assert(pre.chain(pre.head(t), q.waits[t]));
        assert forall|k: int| 0 <= k < q.waits[t].len() implies post.link(#[trigger] q.waits[t][k])
            == at(q.waits[t], k + 1) by {
            let x = q.waits[t][k];
            assert(q.waits[t].contains(x));
            assert(pre@.live(x));
        }
    }
}

/// A node that is queued in one list is in no other.
proof fn lemma_other_lists(q: Queues, now: int, id: u32)
    requires
        q.consistent(now),
        q.holds(id),
    ensures
        !(q.place[id] is Wheel) ==> forall|s: int|
            0 <= s < SLOTS ==> !(#[trigger] q.wheel[s]).contains(id),
        q.place[id] is Wheel ==> forall|s: int|
            0 <= s < SLOTS && s != q.place[id]->Wheel_0 % (SLOTS as int) ==> !(
            #[trigger] q.wheel[s]).contains(id),
        !(q.place[id] is Waiting) ==> forall|t: u32| !(#[trigger] q.waits[t]).contains(id),
        q.place[id] is Waiting ==> forall|t: u32|
            t != q.place[id]->Waiting_0 ==> !(#[trigger] q.waits[t]).contains(id),
{
}

// ------------------------------------------------------------- waiting nodes

impl World {
    pub(super) fn head_of(&self, target: u32) -> (r: u32)
        requires
            self@.reachable(target),
        ensures
            r == self.head(target),
    {
        match kind_of(target) {
            K_BELT => self.belts[idx_of(target)].wait_head,
            K_MACH => self.machines[idx_of(target)].wait_head,
            K_SINK => self.sinks[idx_of(target)].wait_head,
            _ => NONE,
        }
    }

    fn set_head(&mut self, target: u32, v: u32)
        requires
            old(self)@.reachable(target),
            kind(target) != K_SRC,
        ensures
            final(self).reheaded(*old(self), target),
            final(self).head(target) == v,
    {
        match kind_of(target) {
            K_BELT => {
                self.belts[idx_of(target)].wait_head = v;
            },
            K_MACH => {
                self.machines[idx_of(target)].wait_head = v;
            },
            K_SINK => {
                self.sinks[idx_of(target)].wait_head = v;
            },
            _ => {},
        }
    }

    /// Puts `waiter` on the list of the nodes that wait for `target`, unless it
    /// waits already. Nothing ever wakes what waits for a source.
    pub(super) fn push_waiter(&mut self, target: u32, waiter: u32)
        requires
            old(self).rep(),
            old(self)@.orderly(),
            old(self)@.live(waiter),
            old(self)@.reachable(target),
            old(self)@.q.holds(waiter) ==> old(self)@.q.place[waiter] is Waiting,
        ensures
            final(self).rep(),
            final(self).same_goods(*old(self)),
            final(self)@ == if old(self)@.q.holds(waiter) {
                old(self)@
            } else {
                old(self)@.with_queues(old(self)@.q.park(target, waiter))
            },
    {
        let ghost pre = *self;
        assert(flags_fit(self.shadow@.q, waiter, self.flags(waiter)));
        if self.flags_of(waiter) & F_WAIT != 0 {
            return;
        }
        self.write_waiter(target, waiter);
        proof {
            self.shadow@.q = pre.shadow@.q.park(target, waiter);
            lemma_parked(pre, *self, target, waiter);
        }
    }

    /// What is written when `waiter` is put on the list of `target`.
    spec fn written_waiter(self, pre: World, target: u32, waiter: u32) -> bool {
        &&& self.same_goods(pre)
        &&& self.wheel == pre.wheel
        &&& self.ready == pre.ready
        &&& self.overflow == pre.overflow
        &&& self.shadow == pre.shadow
        &&& forall|t: u32| #![trigger self.head(t)]
            #![trigger pre.head(t)]
            pre@.reachable(t) && t != target ==> self.head(t) == pre.head(t)
        &&& forall|x: u32| #![trigger self.link(x)]
            #![trigger pre.link(x)]
            pre@.live(x) && x != waiter ==> self.link(x) == pre.link(x)
        &&& forall|x: u32| #![trigger self.flags(x)]
            #![trigger pre.flags(x)]
            pre@.live(x) && x != waiter ==> self.flags(x) == pre.flags(x)
        &&& self.flags(waiter) == pre.flags(waiter) | F_WAIT
        &&& kind(target) != K_SRC ==> self.head(target) == waiter && self.link(waiter) == pre.head(
            target,
        )
    }

    fn write_waiter(&mut self, target: u32, waiter: u32)
        requires
            old(self)@.live(waiter),
            old(self)@.reachable(target),
        ensures
            final(self).written_waiter(*old(self), target, waiter),
    {
        self.or_flags(waiter, F_WAIT);
        if kind_of(target) == K_SRC {
            return;
        }
        let head: u32 = self.head_of(target);
        self.set_head(target, waiter);
        self.set_link(waiter, head);
    }
}

/// The factory is stored after a node was put on a list of waiting nodes.
proof fn lemma_parked(pre: World, post: World, target: u32, id: u32)
    requires
        pre.rep(),
        pre@.orderly(),
        pre@.live(id),
        pre@.reachable(target),
        !pre@.q.holds(id),
        post.shadow@.q == pre.shadow@.q.park(target, id),
        (World { shadow: pre.shadow, ..post }).written_waiter(pre, target, id),
        post.shadow@.chains == pre.shadow@.chains,
        post.shadow@.owner == pre.shadow@.owner,
    ensures
        post.rep(),
        post.same_goods(pre),
        post@ == pre@.with_queues(pre@.q.park(target, id)),
{
    let mid = World { shadow: pre.shadow, ..post };
    let q = pre@.q;
    let q1 = post.shadow@.q;
    assert(mid.written_waiter(pre, target, id));
    assert(post.same_goods(pre));
    lemma_same_goods(pre, post);
    lemma_unlisted(q, pre@.now, id);
    assert(flags_fit(q, id, pre.flags(id)));
    lemma_flags(pre.flags(id));
    assert forall|t: u32| pre@.reachable(t) && t != target implies #[trigger] post.head(t)
        == pre.head(t) by {
        assert(mid.head(t) == pre.head(t));
    }
    assert forall|x: u32| pre@.live(x) && x != id implies #[trigger] post.link(x) == pre.link(x) by {
        assert(mid.link(x) == pre.link(x));
    }
    assert(post.flags(id) == mid.flags(id));
    assert(post.link(id) == mid.link(id));
    assert(post.head(target) == mid.head(target));
    lemma_lists_kept(pre, post, id);
    assert forall|s: int| 0 <= s < SLOTS implies post.chain(
        post.wheel@[s],
        #[trigger] q1.wheel[s],
    ) by {
        assert(q1.wheel[s] == q.wheel[s]);
    }
    assert forall|t: u32| post@.reachable(t) && kind(t) != K_SRC implies post.chain(
        post.head(t),
        #[trigger] q1.waits[t],
    ) by {
        assert(post.chain(pre.head(t), q.waits[t]));
        if t == target {
            lemma_chain_prepend(post, pre.head(t), q.waits[t], id);
        }
    }
    assert forall|x: u32| post@.live(x) implies flags_fit(q1, x, #[trigger] post.flags(x)) by {
        if x != id {
            assert(mid.flags(x) == pre.flags(x));
            assert(flags_fit(q, x, pre.flags(x)));
        }
    }
}

// --------------------------------------------------------- leaving a queue

/// The factory is stored after the node `id` has left its queue.
proof fn lemma_dequeued(pre: World, post: World, id: u32)
    requires
        pre.rep(),
        pre@.orderly(),
        pre@.live(id),
        post.same_goods(pre),
        post.shadow@.q.place == pre.shadow@.q.place.remove(id),
        forall|x: u32| #![trigger post.link(x)]
            #![trigger pre.link(x)]
            pre@.live(x) && x != id ==> post.link(x) == pre.link(x),
        forall|x: u32| #![trigger post.flags(x)]
            #![trigger pre.flags(x)]
            pre@.live(x) && x != id ==> post.flags(x) == pre.flags(x),
        !flag_on(post.flags(id), F_WAIT),
        !flag_on(post.flags(id), F_READY),
        !flag_on(post.flags(id), F_WHEEL),
        post.overflow.wf(),
        post.overflow@ == post.shadow@.q.far,
        post.ready@ == post.shadow@.q.ready,
        post.wheel@.len() == SLOTS,
        post.shadow@.q.wheel.len() == SLOTS,
        forall|s: int|
            0 <= s < SLOTS ==> {
                ||| post.chain(post.wheel@[s], #[trigger] post.shadow@.q.wheel[s])
                ||| post.shadow@.q.wheel[s] == pre.shadow@.q.wheel[s] && post.wheel@[s]
                    == pre.wheel@[s] && !pre.shadow@.q.wheel[s].contains(id)
            },
        forall|t: u32|
            pre@.reachable(t) && kind(t) != K_SRC ==> {
                ||| post.chain(post.head(t), #[trigger] post.shadow@.q.waits[t])
                ||| post.shadow@.q.waits[t] == pre.shadow@.q.waits[t] && post.head(t) == pre.head(t)
                    && !pre.shadow@.q.waits[t].contains(id)
            },
    ensures
        post.rep(),
        post@ == pre@.with_queues(post.shadow@.q),
{
    let q = pre@.q;
    let q1 = post.shadow@.q;
    lemma_same_goods(pre, post);
    lemma_lists_kept(pre, post, id);
    assert forall|s: int| 0 <= s < SLOTS implies post.chain(
        post.wheel@[s],
        #[trigger] q1.wheel[s],
    ) by {
        if !post.chain(post.wheel@[s], q1.wheel[s]) {
            assert(post.chain(pre.wheel@[s], q.wheel[s]));
        }
    }
    assert forall|t: u32| post@.reachable(t) && kind(t) != K_SRC implies post.chain(
        post.head(t),
        #[trigger] q1.waits[t],
    ) by {
        if !post.chain(post.head(t), q1.waits[t]) {
            assert(post.chain(pre.head(t), q.waits[t]));
        }
    }
    assert forall|x: u32| post@.live(x) implies flags_fit(q1, x, #[trigger] post.flags(x)) by {
        if x != id {
            assert(flags_fit(q, x, pre.flags(x)));
        }
    }
}

/// The flags of a node that has left the queue of flag `f` say that it is in
/// none.
proof fn lemma_flag_cleared(q: Queues, id: u32, x: u8, f: u8)
    requires
        flags_fit(q, id, x),
        q.holds(id),
        f == (match q.place[id] {
            Place::Ready => F_READY,
            Place::Waiting(_) => F_WAIT,
            _ => F_WHEEL,
        }),
    ensures
        !flag_on(x & !f, F_WAIT),
        !flag_on(x & !f, F_READY),
        !flag_on(x & !f, F_WHEEL),
{
    lemma_flags(x);
}

impl World {
    /// The last ready node leaves its queue.
    pub(super) fn take_ready(&mut self) -> (r: Option<u32>)
        requires
            old(self).rep(),
            old(self)@.orderly(),
            forall|k: int|
                0 <= k < old(self)@.q.ready.len() ==> old(self)@.live(
                    #[trigger] old(self)@.q.ready[k],
                ),
        ensures
            final(self).rep(),
            match r {
                None => old(self)@.q.ready.len() == 0 && final(self)@ == old(self)@,
                Some(id) => {
                    &&& old(self)@.q.ready.len() > 0
                    &&& id == old(self)@.q.ready.last()
                    &&& final(self)@ == old(self)@.with_queues(old(self)@.q.take_ready())
                },
            },
    {
        let ghost pre = *self;
        match self.ready.pop() {
            None => {
                proof {
                    lemma_same_goods(pre, *self);
                    lemma_same_lists(pre, *self);
                    assert(self@ == pre@);
                }
                None
            },
            Some(id) => {
                let ghost q = pre@.q;
                proof {
                    assert(q.ready[q.ready.len() - 1] == id);
                    assert(pre@.live(id));
                    assert(q.holds(id));
                    assert(flags_fit(q, id, pre.flags(id)));
                    lemma_flag_cleared(q, id, pre.flags(id), F_READY);
                    lemma_other_lists(q, pre@.now, id);
                }
                let ghost mid = *self;
                assert(mid@.live(id));
                self.clear_flags(id, F_READY);
                proof {
                    let post0 = *self;
                    self.shadow@.q = q.take_ready();
                    let post = *self;
                    assert forall|x: u32| pre@.live(x) && x != id implies #[trigger] post.link(x)
                        == pre.link(x) by {
                        assert(post0.link(x) == mid.link(x));
                    }
                    assert forall|x: u32| pre@.live(x) && x != id implies #[trigger] post.flags(x)
                        == pre.flags(x) by {
                        assert(post0.flags(x) == mid.flags(x));
                    }
                    assert forall|t: u32| pre@.reachable(t) implies #[trigger] post.head(t)
                        == pre.head(t) by {
                        assert(post0.head(t) == mid.head(t));
                    }
                    assert(post.flags(id) == pre.flags(id) & !F_READY);
                    lemma_dequeued(pre, post, id);
                }
                Some(id)
            },
        }
    }

    /// The first node of wheel slot `slot` leaves its queue.
    pub(super) fn take_slot(&mut self, slot: usize) -> (r: Option<u32>)
        requires
            old(self).rep(),
            old(self)@.orderly(),
            slot < SLOTS,
        ensures
            final(self).rep(),
            match r {
                None => old(self)@.q.wheel[slot as int].len() == 0 && final(self)@ == old(self)@,
                Some(id) => {
                    &&& old(self)@.q.wheel[slot as int].len() > 0
                    &&& id == old(self)@.q.wheel[slot as int][0]
                    &&& final(self)@ == old(self)@.with_queues(
                        old(self)@.q.take_slot(slot as int),
                    )
                },
            },
    {
        let ghost pre = *self;
        let ghost q = pre@.q;
        let ghost list = q.wheel[slot as int];
        let cur: u32 = self.wheel[slot];
        proof {
            assert(pre.chain(pre.wheel@[slot as int], list));
            if list.len() > 0 {
                assert(pre@.live(list[0]));
                assert(cur == list[0]);
            }
        }
        if cur == NONE {
            return None;
        }
        proof {
            assert(q.holds(cur));
            assert(flags_fit(q, cur, pre.flags(cur)));
            lemma_flag_cleared(q, cur, pre.flags(cur), F_WHEEL);
            lemma_other_lists(q, pre@.now, cur);
        }
        let next: u32 = self.link_of(cur);
        self.set_link(cur, NONE);
        let ghost s1 = *self;
        self.clear_flags(cur, F_WHEEL);
        let ghost s2 = *self;
        self.wheel.set(slot, next);
        proof {
            self.shadow@.q = q.take_slot(slot as int);
            let post = *self;
            assert forall|x: u32| pre@.live(x) && x != cur implies #[trigger] post.link(x)
                == pre.link(x) by {
                assert(s1.link(x) == pre.link(x));
                assert(s2.link(x) == s1.link(x));
            }
            assert forall|x: u32| pre@.live(x) && x != cur implies #[trigger] post.flags(x)
                == pre.flags(x) by {
                assert(s1.flags(x) == pre.flags(x));
                assert(s2.flags(x) == s1.flags(x));
            }
            assert forall|t: u32| pre@.reachable(t) implies #[trigger] post.head(t) == pre.head(
                t,
            ) by {
                assert(s1.head(t) == pre.head(t));
                assert(s2.head(t) == s1.head(t));
            }
            assert(post.flags(cur) == s2.flags(cur));
            assert(post.same_goods(pre));
            assert forall|k: int| 0 <= k < list.len() implies pre@.live(#[trigger] list[k]) by {
                assert(pre@.live(q.wheel[slot as int][k]));
            }
            lemma_chain_rest(pre, post, pre.wheel@[slot as int], list);
            lemma_dequeued(pre, post, cur);
        }
        Some(cur)
    }

    /// The first far timer leaves its queue if it is due.
    pub(super) fn take_far(&mut self) -> (r: Option<u32>)
        requires
            old(self).rep(),
            old(self)@.orderly(),
            forall|p: (int, u32)| #[trigger]
                old(self)@.q.far.contains(p) ==> old(self)@.live(p.1),
        ensures
            final(self).rep(),
            match r {
                None => !old(self)@.far_due() && final(self)@ == old(self)@,
                Some(id) => {
                    &&& old(self)@.far_due()
                    &&& id == old(self)@.first_far().1
                    &&& final(self)@ == old(self)@.with_queues(
                        old(self)@.q.take_far(old(self)@.first_far()),
                    )
                },
            },
    {
        let ghost pre = *self;
        let ghost q = pre@.q;
        let first: Option<(u32, u32)> = self.overflow.peek();
        match first {
            None => {
                return None;
            },
            Some(p) => {
                if p.0 > self.now {
                    assert(!pre@.far_due()) by {
                        if pre@.far_due() {
                            let o = choose|o: (int, u32)| #[trigger]
                                q.far.contains(o) && o.0 <= pre@.now;
                            assert(not_after(timer(p), o));
                        }
                    }
                    return None;
                }
            },
        }
        let p: (u32, u32) = self.overflow.pop();
        let id: u32 = p.1;
        proof {
            lemma_first_unique(q.far, timer(p), timer(first->0));
            assert(q.far.contains(timer(p)));
            lemma_first_due(pre@);
            lemma_first_unique(q.far, timer(p), pre@.first_far());
            assert(q.holds(id));
            assert(flags_fit(q, id, pre.flags(id)));
            lemma_flag_cleared(q, id, pre.flags(id), F_WHEEL);
            lemma_other_lists(q, pre@.now, id);
        }
        let ghost mid = *self;
        assert(mid@.live(id));
        self.clear_flags(id, F_WHEEL);
        proof {
            let post0 = *self;
            self.shadow@.q = q.take_far(timer(p));
            let post = *self;
            assert forall|x: u32| pre@.live(x) && x != id implies #[trigger] post.link(x)
                == pre.link(x) by {
                assert(post0.link(x) == mid.link(x));
            }
            assert forall|x: u32| pre@.live(x) && x != id implies #[trigger] post.flags(x)
                == pre.flags(x) by {
                assert(post0.flags(x) == mid.flags(x));
            }
            assert forall|t: u32| pre@.reachable(t) implies #[trigger] post.head(t) == pre.head(
                t,
            ) by {
                assert(post0.head(t) == mid.head(t));
            }
            assert(post.flags(id) == pre.flags(id) & !F_WHEEL);
            assert(post.same_goods(pre));
            lemma_dequeued(pre, post, id);
        }
        Some(id)
    }

    /// The first node that waits for `target` leaves its list.
    fn take_waiter(&mut self, target: u32) -> (r: Option<u32>)
        requires
            old(self).rep(),
            old(self)@.orderly(),
            old(self)@.reachable(target),
        ensures
            final(self).rep(),
            final(self).same_goods(*old(self)),
            match r {
                None => old(self)@.q.waits[target].len() == 0 && final(self)@ == old(self)@,
                Some(id) => {
                    &&& old(self)@.q.waits[target].len() > 0
                    &&& id == old(self)@.q.waits[target][0]
                    &&& final(self)@ == old(self)@.with_queues(old(self)@.q.unpark(target))
                },
            },
    {
        let ghost pre = *self;
        let ghost q = pre@.q;
        let ghost list = q.waits[target];
        let cur: u32 = self.head_of(target);
        proof {
            if kind(target) != K_SRC {
                assert(pre.chain(pre.head(target), list));
            }
            if list.len() > 0 {
                assert(pre@.live(list[0]));
                assert(cur == list[0]);
            }
        }
        if cur == NONE {
            return None;
        }
        proof {
            assert(q.holds(cur));
            assert(flags_fit(q, cur, pre.flags(cur)));
            lemma_flag_cleared(q, cur, pre.flags(cur), F_WAIT);
            lemma_other_lists(q, pre@.now, cur);
        }
        let next: u32 = self.link_of(cur);
        self.set_head(target, next);
        let ghost s1 = *self;
        self.clear_flags(cur, F_WAIT);
        let ghost s2 = *self;
        self.set_link(cur, NONE);
        proof {
            let s3 = *self;
            self.shadow@.q = q.unpark(target);
            let post = *self;
            assert forall|x: u32| pre@.live(x) && x != cur implies #[trigger] post.link(x)
                == pre.link(x) by {
                assert(s1.link(x) == pre.link(x));
                assert(s2.link(x) == s1.link(x));
                assert(s3.link(x) == s2.link(x));
            }
            assert forall|x: u32| pre@.live(x) && x != cur implies #[trigger] post.flags(x)
                == pre.flags(x) by {
                assert(s1.flags(x) == pre.flags(x));
                assert(s2.flags(x) == s1.flags(x));
                assert(s3.flags(x) == s2.flags(x));
            }
            assert forall|t: u32| pre@.reachable(t) && t != target implies #[trigger] post.head(t)
                == pre.head(t) by {
                assert(s1.head(t) == pre.head(t));
                assert(s2.head(t) == s1.head(t));
                assert(s3.head(t) == s2.head(t));
            }
            assert(post.head(target) == next) by {
                assert(s2.head(target) == s1.head(target));
                assert(s3.head(target) == s2.head(target));
            }
            assert(post.flags(cur) == s2.flags(cur));
            assert(post.same_goods(pre));
            assert forall|k: int| 0 <= k < list.len() implies pre@.live(#[trigger] list[k]) by {
                assert(pre@.live(q.waits[target][k]));
            }
            lemma_chain_rest(pre, post, pre.head(target), list);
            lemma_dequeued(pre, post, cur);
        }
        Some(cur)
    }

    /// All nodes that wait for `target` are to be handled at tick `when`.
    fn wake_all(&mut self, target: u32, when: u32)
        requires
            old(self).rep(),
            old(self)@.orderly(),
            old(self)@.reachable(target),
        ensures
            final(self).rep(),
            final(self)@.orderly(),
            final(self).same_goods(*old(self)),
            final(self)@ == old(self)@.wake(target, when as int),
    {
        let ghost pre = *self;
        let ghost goal = self@.wake(target, when as int);
        loop
            invariant
                self.rep(),
                self@.orderly(),
                self.same_goods(pre),
                self@.reachable(target),
                self@.wake(target, when as int) == goal,
            ensures
                self@ == goal,
            decreases self@.q.waits[target].len(),
        {
            let ghost m = self@;
            match self.take_waiter(target) {
                None => {
                    break;
                },
                Some(id) => {
                    let ghost mid = *self;
                    proof {
                        lemma_orderly_unpark(m, target);
                    }
                    self.schedule(id, when);
                    assert(self.same_goods(mid));
                },
            }
        }
    }

    /// All nodes that wait for `target` are handled within the current tick.
    pub(super) fn wake_waiters(&mut self, target: u32)
        requires
            old(self).rep(),
            old(self)@.orderly(),
            old(self)@.reachable(target),
        ensures
            final(self).rep(),
            final(self)@.orderly(),
            final(self).same_goods(*old(self)),
            final(self)@ == old(self)@.wake(target, old(self)@.now),
    {
        let now: u32 = self.now;
        self.wake_all(target, now);
    }

    /// The nodes that wait for room at the tail of belt `i` are handled when the
    /// belt next moves on, which makes room.
    pub(super) fn wake_waiters_on_moving_belt(&mut self, i: usize)
        requires
            old(self).rep(),
            old(self)@.orderly(),
            i < old(self).belts@.len(),
            old(self)@.q.waits[node(K_BELT, i as int)].len() > 0 ==> {
                &&& old(self).belts@[i as int].last + old(self).belts@[i as int].period
                    <= 0xffff_ffff
                &&& old(self).now < 0xffff_ffff
            },
        ensures
            final(self).rep(),
            final(self)@.orderly(),
            final(self).same_goods(*old(self)),
            final(self)@ == old(self)@.wake(
                node(K_BELT, i as int),
                later(
                    old(self).belts@[i as int].last + old(self).belts@[i as int].period,
                    old(self).now + 1,
                ),
            ),
    {
        let id: u32 = mkid(K_BELT, i as u32);
        proof {
            assert(id == node(K_BELT, i as int));
            assert(self.chain(self.head(id), self@.q.waits[id]));
        }
        if self.belts[i].wait_head == NONE {
            return;
        }
        let next: u32 = self.belts[i].last + self.belts[i].period as u32;
        let soon: u32 = self.now + 1;
        let when: u32 = if next > soon {
            next
        } else {
            soon
        };
        self.wake_all(id, when);
    }

    /// `pusher` found no room at `target`: it tries again when a belt in motion
    /// moves on, or it waits.
    pub(super) fn block_on(&mut self, pusher: u32, target: u32)
        requires
            old(self).rep(),
            old(self)@.orderly(),
            old(self)@.live(pusher),
            !old(self)@.q.holds(pusher),
            old(self)@.reachable(target),
            old(self)@.can_block(target),
            kind(target) == K_BELT ==> {
                &&& old(self).synced(idx(target))
                &&& old(self).belts@[idx(target)].period >= 1
            },
        ensures
            final(self).rep(),
            final(self).same_goods(*old(self)),
            final(self)@ == old(self)@.block(pusher, target),
    {
        if kind_of(target) == K_BELT {
            let i: usize = idx_of(target);
            proof {
                assert(self.belt_rep(i as int));
                assert(self@.belts[i as int] == self.belt(i as int));
                lemma_synced(*self, i as int);
            }
            if self.belts[i].flags & F_BLOCKED == 0 && self.belts[i].run_head != NONE {
                let next: u32 = self.belts[i].last + self.belts[i].period as u32;
                let soon: u32 = self.now + 1;
                let when: u32 = if next > soon {
                    next
                } else {
                    soon
                };
                self.schedule(pusher, when);
                return;
            }
        }
        self.push_waiter(target, pusher);
    }
}

} // verus!
