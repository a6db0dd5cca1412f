//! Belts: chains of runs in a shared arena, moved only when someone looks.

use vstd::prelude::*;

use super::{at, lemma_same_lists, lemma_synced, moved_up_to, Belt, Run, World};
use crate::belts::{
    lemma_behind_first, lemma_extent_bounds, lemma_extent_front, lemma_extent_push,
    lemma_extent_single, lemma_extent_update, runs_ok,
};
use crate::flags::{flag_on, lemma_flags, F_BLOCKED, F_READY, F_WAIT, F_WHEEL};
use crate::ids::{idx, kind, mkid, node, K_BELT, NONE};
use crate::model::{behind_first, extent, item_count, BeltV, RunV};
use crate::seqs::{lemma_ahead, lemma_append, lemma_behind, lemma_tally_le, lemma_tally_update};

verus! {

impl World {
    /// Nothing but belts and runs has changed since `pre`, and of the belts only
    /// belt `i`, but not its place in the queues.
    spec fn belt_changed(self, pre: World, i: int) -> bool {
        &&& self.now == pre.now
        &&& self.machines == pre.machines
        &&& self.sinks == pre.sinks
        &&& self.sources == pre.sources
        &&& self.wheel == pre.wheel
        &&& self.overflow == pre.overflow
        &&& self.ready == pre.ready
        &&& self.sort_events == pre.sort_events
        &&& self.events == pre.events
        &&& self.shadow@.q == pre.shadow@.q
        &&& self.belts@.len() == pre.belts@.len()
        &&& forall|j: int|
            0 <= j < self.belts@.len() && j != i ==> #[trigger] self.belts@[j] == pre.belts@[j]
        &&& same_queue_fields(self.belts@[i], pre.belts@[i])
    }
}

/// Two belts are in the same queues, and lie in the same place.
spec fn same_queue_fields(a: Belt, b: Belt) -> bool {
    &&& a.out == b.out
    &&& a.cap == b.cap
    &&& a.period == b.period
    &&& a.link == b.link
    &&& a.wait_head == b.wait_head
    &&& flag_on(a.flags, F_WAIT) == flag_on(b.flags, F_WAIT)
    &&& flag_on(a.flags, F_READY) == flag_on(b.flags, F_READY)
    &&& flag_on(a.flags, F_WHEEL) == flag_on(b.flags, F_WHEEL)
}

/// The belts other than belt `i` are stored as before.
proof fn lemma_other_belts(pre: World, post: World, i: int)
    requires
        pre.belts_rep(),
        post.now == pre.now,
        post.belts@.len() == pre.belts@.len(),
        post.shadow@.chains.len() == pre.shadow@.chains.len(),
        pre.runs@.len() <= post.runs@.len(),
        forall|j: int|
            0 <= j < post.belts@.len() && j != i ==> #[trigger] post.belts@[j] == pre.belts@[j],
        forall|j: int|
            0 <= j < post.belts@.len() && j != i ==> #[trigger] post.shadow@.chains[j]
                == pre.shadow@.chains[j],
        forall|r: int|
            #![trigger pre.shadow@.owner[r]]
            0 <= r < pre.runs@.len() && pre.shadow@.owner[r] != i && pre.shadow@.owner[r] != -1
                ==> post.runs@[r] == pre.runs@[r] && post.shadow@.owner[r] == pre.shadow@.owner[r],
    ensures
        forall|j: int| 0 <= j < post.belts@.len() && j != i ==> #[trigger] post.belt_rep(j),
        forall|j: int|
            0 <= j < post.belts@.len() && j != i ==> #[trigger] post.belt(j) == pre.belt(j),
{
    assert forall|j: int| 0 <= j < post.belts@.len() && j != i implies #[trigger] post.belt_rep(
        j,
    ) by {
        lemma_other_belt(pre, post, i, j);
    }
    assert forall|j: int| 0 <= j < post.belts@.len() && j != i implies #[trigger] post.belt(j)
        == pre.belt(j) by {
        lemma_other_belt(pre, post, i, j);
    }
}

proof fn lemma_other_belt(pre: World, post: World, i: int, j: int)
    requires
        pre.belts_rep(),
        post.now == pre.now,
        post.shadow@.chains.len() == pre.shadow@.chains.len(),
        pre.runs@.len() <= post.runs@.len(),
        0 <= j < pre.belts@.len(),
        j != i,
        post.belts@[j] == pre.belts@[j],
        post.shadow@.chains[j] == pre.shadow@.chains[j],
        forall|r: int|
            #![trigger pre.shadow@.owner[r]]
            0 <= r < pre.runs@.len() && pre.shadow@.owner[r] != i && pre.shadow@.owner[r] != -1
                ==> post.runs@[r] == pre.runs@[r] && post.shadow@.owner[r] == pre.shadow@.owner[r],
    ensures
        post.belt_rep(j),
        post.belt(j) == pre.belt(j),
{
    assert(pre.belt_rep(j));
    let c = pre.shadow@.chains[j];
    assert forall|k: int| 0 <= k < c.len() implies {
        &&& (#[trigger] c[k]) < post.runs@.len()
        &&& post.shadow@.owner[c[k] as int] == j
        &&& post.runs@[c[k] as int] == pre.runs@[c[k] as int]
    } by {
        assert(pre.shadow@.owner[c[k] as int] == j);
    }
    assert(post.run_views(j) =~= pre.run_views(j));
}

/// The factory is stored after a change of belt `i` alone.
proof fn lemma_belt_changed(pre: World, post: World, i: int)
    requires
        pre.rep(),
        pre@.orderly(),
        0 <= i < pre.belts@.len(),
        post.belt_changed(pre, i),
        forall|j: int| 0 <= j < post.belts@.len() && j != i ==> #[trigger] post.belt_rep(j),
        forall|j: int|
            0 <= j < post.belts@.len() && j != i ==> #[trigger] post.belt(j) == pre.belt(j),
    ensures
        post@ == pre@.with_belt(i, post.belt(i)),
        post.queues_rep(),
        post@.orderly(),
{
    assert(post@.belts =~= pre@.belts.update(i, post.belt(i)));
    assert(post@.machines =~= pre@.machines);
    assert(post@.sinks =~= pre@.sinks);
    assert(post@.sources =~= pre@.sources);
    assert(post.same_lists(pre)) by {
        assert forall|x: u32| post@.live(x) implies #[trigger] post.link(x) == pre.link(x) by {
            if kind(x) == K_BELT && idx(x) != i {
                assert(post.belts@[idx(x)] == pre.belts@[idx(x)]);
            }
        }
        assert forall|t: u32| post@.reachable(t) implies #[trigger] post.head(t) == pre.head(t) by {
            if kind(t) == K_BELT && idx(t) != i {
                assert(post.belts@[idx(t)] == pre.belts@[idx(t)]);
            }
        }
        assert forall|x: u32| post@.live(x) implies {
            &&& flag_on(#[trigger] post.flags(x), F_WAIT) == flag_on(pre.flags(x), F_WAIT)
            &&& flag_on(post.flags(x), F_READY) == flag_on(pre.flags(x), F_READY)
            &&& flag_on(post.flags(x), F_WHEEL) == flag_on(pre.flags(x), F_WHEEL)
        } by {
            if kind(x) == K_BELT && idx(x) != i {
                assert(post.belts@[idx(x)] == pre.belts@[idx(x)]);
            }
        }
    }
    lemma_same_lists(pre, post);
    assert(post@.tied_lists()) by {
        let q = post@.q;
        assert forall|s: int, k: int| 0 <= s < q.wheel.len() && 0 <= k < q.wheel[s].len() implies post@.live(
            #[trigger] q.wheel[s][k],
        ) by {
            assert(pre@.live(pre@.q.wheel[s][k]));
        }
        assert forall|t: u32, k: int| 0 <= k < q.waits[t].len() implies post@.live(
            #[trigger] q.waits[t][k],
        ) by {
            assert(pre@.live(pre@.q.waits[t][k]));
        }
        assert forall|t: u32| (#[trigger] q.waits[t]).len() > 0 implies post@.reachable(t) && kind(
            t,
        ) != crate::ids::K_SRC by {
            assert(pre@.q.waits[t].len() > 0);
        }
    }
}

// --------------------------------------------------------------------- moving

impl World {
    /// Accounts for the movement of belt `i` up to now. The factory that is
    /// stored stays the same: only when its belts are looked at does it matter
    /// how far they have come.
    pub(super) fn belt_sync(&mut self, i: usize)
        requires
            old(self).rep(),
            old(self)@.orderly(),
            i < old(self).belts@.len(),
            old(self).belts@[i as int].period >= 1,
        ensures
            final(self).rep(),
            final(self)@ == old(self)@,
            final(self).synced(i as int),
            forall|j: int|
                0 <= j < old(self).belts@.len() && j != i ==> #[trigger] final(self).belts@[j]
                    == old(self).belts@[j],
            *final(self) == (World { belts: final(self).belts, ..*old(self) }),
            final(self).belts@.len() == old(self).belts@.len(),
            moved_up_to(
                final(self).belts@[i as int],
                old(self).belts@[i as int],
                old(self).now as int,
            ),
            final(self).heads_kept(*old(self)),
    {
        assert(self.belt_rep(i as int));
        proof {
            let b = self.belts@[i as int];
            let x = self.now - b.last;
            let p = b.period as int;
            assert(x / p >= 0 && 0 * p == 0) by (nonlinear_arith)
                requires
                    x >= 0,
                    p >= 1,
            ;
        }
        if self.belts[i].flags & F_BLOCKED != 0 || self.belts[i].gap0 == 0 {
            return;
        }
        let p: u32 = self.belts[i].period as u32;
        let past: u32 = self.now - self.belts[i].last;
        let gap0: u16 = self.belts[i].gap0;
        let mut moved: u32 = past / p;
        proof {
            let q = past as int / p as int;
            assert(q * p <= past && past < q * p + p) by (nonlinear_arith)
                requires
                    q == past as int / p as int,
                    p >= 1,
            ;
            if q == 0 {
                assert(q * p == 0);
            }
        }
        if moved == 0 {
            return;
        }
        let ghost pre = *self;
        if moved > gap0 as u32 {
            moved = gap0 as u32;
        }
        proof {
            let m = moved as int;
            let q = past as int / p as int;
            assert(m * p <= q * p) by (nonlinear_arith)
                requires
                    m <= q,
                    p >= 1,
            ;
            assert((gap0 - m) * p + m * p == gap0 * p) by (nonlinear_arith);
            lemma_extent_nonneg(*self, i as int);
        }
        self.belts[i].gap0 = gap0 - moved as u16;
        self.belts[i].used = self.belts[i].used - moved as u16;
        self.belts[i].last = self.belts[i].last + moved * p;
        proof {
            lemma_other_belts(pre, *self, i as int);
            assert(self.run_views(i as int) =~= pre.run_views(i as int));
            assert(self.belt_rep(i as int));
            lemma_belt_changed(pre, *self, i as int);
            assert(self.belt(i as int) == pre.belt(i as int));
            assert(self@ =~= pre@);
        }
    }
}

/// Runs take no negative number of cells.
proof fn lemma_extent_nonneg(w: World, i: int)
    requires
        w.belts_rep(),
        0 <= i < w.belts@.len(),
    ensures
        extent(w.run_views(i)) >= 0,
{
    let r = w.run_views(i);
    crate::seqs::lemma_tally_nonneg(r, |k: int, x: RunV| x.gap + x.count);
}

// ------------------------------------------------------------------- inserting

/// The arena has handed out the run `new`, and nothing else has changed.
spec fn allocated(pre: World, post: World, new: u32, run: Run) -> bool {
    &&& new < post.runs@.len()
    &&& if pre.run_free@.len() > 0 {
        &&& new == pre.run_free@.last()
        &&& post.run_free@ == pre.run_free@.drop_last()
        &&& post.runs@ == pre.runs@.update(new as int, run)
    } else {
        &&& new == pre.runs@.len()
        &&& post.run_free@ == pre.run_free@
        &&& post.runs@ == pre.runs@.push(run)
    }
}

impl World {
    /// Takes a run from the arena: a free one if there is any, else a new one.
    fn alloc_run(&mut self, item: u16, count: u16, gap: u16) -> (new: u32)
        requires
            old(self).belts_rep(),
            old(self).run_free@.len() > 0 || old(self).runs@.len() < 0xffff_ffff,
        ensures
            allocated(*old(self), *final(self), new, (Run { next: NONE, item, count, gap })),
            final(self).belts == old(self).belts,
            final(self).now == old(self).now,
            final(self).machines == old(self).machines,
            final(self).sinks == old(self).sinks,
            final(self).sources == old(self).sources,
            final(self).wheel == old(self).wheel,
            final(self).overflow == old(self).overflow,
            final(self).ready == old(self).ready,
            final(self).sort_events == old(self).sort_events,
            final(self).events == old(self).events,
            final(self).shadow == old(self).shadow,
    {
        match self.run_free.pop() {
            Some(new) => {
                assert(old(self).run_free@[old(self).run_free@.len() - 1] == new);
                self.runs.set(new as usize, Run { next: NONE, item, count, gap });
                new
            },
            None => {
                self.runs.push(Run { next: NONE, item, count, gap });
                (self.runs.len() - 1) as u32
            },
        }
    }
}

/// There is a run for one more item as long as runs can be numbered for all
/// cells and some cell is free, or for all items and one more.
proof fn lemma_run_left(w: World, i: int)
    requires
        w.belts_rep(),
        0 <= i < w.belts@.len(),
        w@.runs_last(),
        forall|j: int| 0 <= j < w@.belts.len() ==> (#[trigger] w@.belts[j]).ok(w@.now),
        w@.belts[i].used(w@.now) < w@.belts[i].cap,
    ensures
        w.run_free@.len() > 0 || w.runs@.len() < 0xffff_ffff,
{
    let chains = w.shadow@.chains;
    let more = chains.update(i, chains[i].push(0));
    let f = |k: int, c: Seq<u32>| c.len() as int;
    let g = |k: int, b: BeltV| b.cap;
    lemma_tally_update(chains, f, i, chains[i].push(0));
    assert forall|j: int| 0 <= j < more.len() implies f(j, #[trigger] more[j]) <= g(
        j,
        w@.belts[j],
    ) by {
        let b = w@.belts[j];
        assert(b.ok(w@.now));
        crate::belts::lemma_lead(b, w@.now);
        lemma_extent_bounds(b.runs);
    }
    if w@.cells() <= 0xffff_ffff {
        lemma_tally_le(more, f, w@.belts, g);
    } else {
        let h = |k: int, b: BeltV| item_count(b.runs);
        assert forall|j: int| 0 <= j < chains.len() implies f(j, #[trigger] chains[j]) <= h(
            j,
            w@.belts[j],
        ) by {
            assert(w@.belts[j].ok(w@.now));
            lemma_extent_bounds(w@.belts[j].runs);
        }
        lemma_tally_le(chains, f, w@.belts, h);
    }
}

/// A run was added at the tail of belt `i`.
proof fn lemma_appended(pre: World, post: World, i: int, new: u32, item: u16, gap: u16)
    requires
        pre.rep(),
        0 <= i < pre.belts@.len(),
        pre.synced(i),
        pre.belts@[i].period >= 1,
        pre.belts@[i].used < pre.belts@[i].cap,
        gap == pre.belts@[i].cap - pre.belts@[i].used - 1,
        pre.run_free@.len() > 0 || pre.runs@.len() < 0xffff_ffff,
        runs_ok(pre.belt(i).runs),
        pre.belt(i).runs.len() > 0 ==> gap > 0 || pre.belt(i).runs.last().item != item,
        post.belt_changed(pre, i),
        ({
            let c = pre.shadow@.chains[i];
            let b = pre.belts@[i];
            let run = Run { next: NONE, item, count: 1, gap };
            &&& post.shadow@.chains == pre.shadow@.chains.update(i, c.push(new))
            &&& post.shadow@.owner.len() == post.runs@.len()
            &&& post.shadow@.owner[new as int] == i
            &&& forall|r: int|
                #![trigger post.shadow@.owner[r]]
                0 <= r < pre.runs@.len() && r != new ==> post.shadow@.owner[r]
                    == pre.shadow@.owner[r]
            &&& new < post.runs@.len()
            &&& post.runs@[new as int] == run
            &&& forall|r: int|
                #![trigger post.runs@[r]]
                0 <= r < pre.runs@.len() && r != new && !(c.len() > 0 && r == b.run_tail)
                    ==> post.runs@[r] == pre.runs@[r]
            &&& c.len() > 0 && b.run_tail != new ==> post.runs@[b.run_tail as int] == (Run {
                next: new,
                ..pre.runs@[b.run_tail as int]
            })
            &&& if pre.run_free@.len() > 0 {
                &&& new == pre.run_free@.last()
                &&& post.run_free@ == pre.run_free@.drop_last()
                &&& post.runs@.len() == pre.runs@.len()
            } else {
                &&& new == pre.runs@.len()
                &&& post.run_free@ == pre.run_free@
                &&& post.runs@.len() == pre.runs@.len() + 1
            }
            &&& post.belts@[i] == (if c.len() > 0 {
                Belt { used: b.cap, run_tail: new, ..b }
            } else {
                Belt { used: b.cap, run_head: new, run_tail: new, gap0: gap, last: pre.now, ..b }
            })
            &&& c.len() == 0 ==> !flag_on(b.flags, F_BLOCKED)
        }),
    ensures
        post.belts_rep(),
        post.belt(i) == pre.belt(i).with_item(item, pre.now as int),
        forall|j: int|
            0 <= j < post.belts@.len() && j != i ==> #[trigger] post.belt(j) == pre.belt(j),
{
    let c = pre.shadow@.chains[i];
    let b = pre.belts@[i];
    let d = c.push(new);
    let old_runs = pre.run_views(i);
    assert(pre.belt_rep(i));
    lemma_synced(pre, i);
    assert(new < pre.runs@.len() ==> pre.shadow@.owner[new as int] == -1) by {
        if pre.run_free@.len() > 0 {
            assert(pre.run_free@[pre.run_free@.len() - 1] == new);
        }
    }
    assert forall|k: int| 0 <= k < c.len() implies c[k] != new by {
        assert(pre.shadow@.owner[c[k] as int] == i);
    }
    if c.len() > 0 {
        assert(c[c.len() - 1] == b.run_tail);
    }
    assert forall|r: int|
        #![trigger pre.shadow@.owner[r]]
        0 <= r < pre.runs@.len() && pre.shadow@.owner[r] != i && pre.shadow@.owner[r]
            != -1 implies post.runs@[r] == pre.runs@[r] && post.shadow@.owner[r]
        == pre.shadow@.owner[r] by {
        if c.len() > 0 && r == b.run_tail {
            assert(pre.shadow@.owner[c[c.len() - 1] as int] == i);
        }
    }
    lemma_other_belts(pre, post, i);
    assert forall|k: int| 0 <= k < d.len() implies {
        &&& (#[trigger] d[k]) < post.runs@.len()
        &&& post.shadow@.owner[d[k] as int] == i
        &&& post.runs@[d[k] as int].next == at(d, k + 1)
    } by {
        if k < c.len() {
            assert(d[k] == c[k]);
            assert(pre.shadow@.owner[c[k] as int] == i);
            assert(pre.runs@[c[k] as int].next == at(c, k + 1));
            if k < c.len() - 1 {
                assert(c[k] != c[c.len() - 1]);
                assert(post.runs@[c[k] as int] == pre.runs@[c[k] as int]);
            }
        }
    }
    lemma_append(c, new);
    let views = post.run_views(i);
    assert(post.shadow@.chains[i] == d);
    if c.len() > 0 {
        assert(views =~= old_runs.push(RunV { item, count: 1, gap: gap as int })) by {
            assert forall|k: int| 0 <= k < c.len() implies views[k] == old_runs[k] by {
                assert(d[k] == c[k]);
                assert(pre.shadow@.owner[c[k] as int] == i);
                if k < c.len() - 1 {
                    assert(c[k] != c[c.len() - 1]);
                    assert(post.runs@[c[k] as int] == pre.runs@[c[k] as int]);
                }
            }
        }
        lemma_extent_push(old_runs, RunV { item, count: 1, gap: gap as int });
        assert(post.belt(i) =~= pre.belt(i).with_item(item, pre.now as int));
    } else {
        assert(views =~= seq![RunV { item, count: 1, gap: 0 }]);
        lemma_extent_single(RunV { item, count: 1, gap: 0 });
        assert(post.belt(i) =~= pre.belt(i).with_item(item, pre.now as int));
    }
    assert(post.belt_rep(i));
    lemma_tally_update(
        pre.shadow@.chains,
        |k: int, x: Seq<u32>| x.len() as int,
        i,
        d,
    );
    if pre.run_free@.len() > 0 {
        lemma_ahead(pre.run_free@);
        assert forall|k: int| 0 <= k < post.run_free@.len() implies {
            &&& (#[trigger] post.run_free@[k]) < post.runs@.len()
            &&& post.shadow@.owner[post.run_free@[k] as int] == -1
        } by {
            assert(post.run_free@[k] == pre.run_free@[k]);
            assert(pre.run_free@[k] != pre.run_free@[pre.run_free@.len() - 1]);
        }
    }
}

/// The last run of belt `i` has grown by one item.
proof fn lemma_merged(pre: World, post: World, i: int, item: u16)
    requires
        pre.rep(),
        0 <= i < pre.belts@.len(),
        pre.synced(i),
        pre.belts@[i].period >= 1,
        pre.belts@[i].used + 1 == pre.belts@[i].cap,
        pre.belt(i).runs.len() > 0,
        pre.belt(i).runs.last().item == item,
        post.belt_changed(pre, i),
        post.shadow == pre.shadow,
        post.run_free == pre.run_free,
        post.belts@[i] == (Belt { used: pre.belts@[i].cap, ..pre.belts@[i] }),
        ({
            let t = pre.belts@[i].run_tail as int;
            &&& pre.runs@[t].count < 0xffff
            &&& post.runs@ == pre.runs@.update(
                t,
                Run { count: (pre.runs@[t].count + 1) as u16, ..pre.runs@[t] },
            )
        }),
    ensures
        post.belts_rep(),
        post.belt(i) == pre.belt(i).with_item(item, pre.now as int),
        forall|j: int|
            0 <= j < post.belts@.len() && j != i ==> #[trigger] post.belt(j) == pre.belt(j),
{
    let c = pre.shadow@.chains[i];
    let n = c.len() as int;
    let t = pre.belts@[i].run_tail as int;
    let old_runs = pre.run_views(i);
    assert(pre.belt_rep(i));
    lemma_synced(pre, i);
    assert(c[n - 1] == t);
    assert(pre.shadow@.owner[c[n - 1] as int] == i);
    lemma_other_belts(pre, post, i);
    let last = RunV { count: old_runs[n - 1].count + 1, ..old_runs[n - 1] };
    assert(post.run_views(i) =~= old_runs.update(n - 1, last)) by {
        assert forall|k: int| 0 <= k < n - 1 implies post.run_views(i)[k] == old_runs[k] by {
            assert(c[k] != c[n - 1]);
            assert(c[k] < pre.runs@.len());
        }
    }
    lemma_extent_update(old_runs, n - 1, last);
    assert(post.belt(i) =~= pre.belt(i).with_item(item, pre.now as int));
    assert forall|k: int| 0 <= k < c.len() implies {
        &&& (#[trigger] c[k]) < post.runs@.len()
        &&& post.shadow@.owner[c[k] as int] == i
        &&& post.runs@[c[k] as int].next == at(c, k + 1)
    } by {
        assert(c[k] < pre.runs@.len());
    }
    assert(post.belt_rep(i));
}

impl World {
    /// Puts an item on the last cell of belt `i` if that is free. The movement
    /// of the belt must be accounted for.
    pub(super) fn belt_insert_tail(&mut self, i: usize, item: u16) -> (taken: bool)
        requires
            old(self).rep(),
            old(self)@.orderly(),
            old(self)@.nodes_ok(),
            i < old(self).belts@.len(),
            old(self).synced(i as int),
            old(self)@.accepts(node(K_BELT, i as int), item) ==> old(self)@.can_give(
                node(K_BELT, i as int),
                item,
            ),
            old(self)@.belts[i as int].runs.len() == 0 ==> !old(self)@.q.holds(
                node(K_BELT, i as int),
            ),
        ensures
            final(self).rep(),
            taken == old(self)@.accepts(node(K_BELT, i as int), item),
            taken ==> final(self)@ == old(self)@.give(node(K_BELT, i as int), item),
            !taken ==> *final(self) == *old(self),
            final(self).heads_kept(*old(self)),
    {
        let ghost pre = *self;
        let ghost v = self.belt(i as int);
        let ghost c = self.shadow@.chains[i as int];
        proof {
            assert(self@.belts[i as int] == v);
            assert(v.ok(self@.now));
            assert(self.belt_rep(i as int));
            lemma_synced(*self, i as int);
            lemma_extent_bounds(v.runs);
        }
        let cap: u16 = self.belts[i].cap;
        let used: u16 = self.belts[i].used;
        if used >= cap {
            return false;
        }
        proof {
            lemma_run_left(*self, i as int);
        }
        let gap: u16 = cap - used - 1;
        let was_empty: bool = self.belts[i].run_head == NONE;
        let tail: u32 = self.belts[i].run_tail;
        proof {
            if c.len() > 0 {
                assert(c[c.len() - 1] < self.runs@.len());
                assert(v.runs[c.len() - 1] == v.runs.last());
                crate::seqs::lemma_tally_term(
                    v.runs,
                    |k: int, r: RunV| r.gap + r.count,
                    c.len() - 1,
                );
            }
        }
        if !was_empty && gap == 0 {
            let t: usize = tail as usize;
            if self.runs[t].item == item && self.runs[t].count < u16::MAX {
                self.belts[i].used = cap;
                self.runs[t].count += 1;
                proof {
                    lemma_merged(pre, *self, i as int, item);
                    lemma_belt_changed(pre, *self, i as int);
                }
                return true;
            }
        }
        let new: u32 = self.alloc_run(item, 1, gap);
        self.belts[i].used = cap;
        self.belts[i].run_tail = new;
        if was_empty {
            self.belts[i].run_head = new;
            self.belts[i].gap0 = gap;
            self.belts[i].last = self.now;
        } else {
            proof {
                assert(pre.shadow@.owner[c[c.len() - 1] as int] == i);
                if pre.run_free@.len() > 0 {
                    assert(pre.run_free@[pre.run_free@.len() - 1] == new);
                }
            }
            self.runs[tail as usize].next = new;
        }
        proof {
            self.shadow@.chains = pre.shadow@.chains.update(i as int, c.push(new));
            self.shadow@.owner = if pre.run_free@.len() > 0 {
                pre.shadow@.owner.update(new as int, i as int)
            } else {
                pre.shadow@.owner.push(i as int)
            };
            lemma_appended(pre, *self, i as int, new, item, gap);
            lemma_belt_changed(pre, *self, i as int);
        }
        if was_empty {
            proof {
                let g = gap as int;
                let p = self.belts@[i as int].period as int;
                assert(g * p >= 0) by (nonlinear_arith)
                    requires
                        g >= 0,
                        p >= 1,
                ;
            }
            let when: u32 = self.now + gap as u32 * self.belts[i].period as u32;
            self.schedule(mkid(K_BELT, i as u32), when);
        }
        true
    }
}

// -------------------------------------------------------------------- removing

/// The first item of belt `i` was taken off its first run.
proof fn lemma_popped(pre: World, post: World, i: int)
    requires
        pre.rep(),
        0 <= i < pre.belts@.len(),
        pre.belts@[i].gap0 == 0,
        pre.belts@[i].last == pre.now,
        !flag_on(pre.belts@[i].flags, F_BLOCKED),
        pre.belt(i).runs.len() > 0,
        runs_ok(pre.belt(i).runs),
        post.belt_changed(pre, i),
        ({
            let c = pre.shadow@.chains[i];
            let b = pre.belts@[i];
            let h = c[0] as int;
            let run = Run { count: (pre.runs@[h].count - 1) as u16, ..pre.runs@[h] };
            &&& post.runs@ == pre.runs@.update(h, run)
            &&& post.shadow@.owner.len() == post.runs@.len()
            &&& forall|r: int|
                #![trigger post.shadow@.owner[r]]
                0 <= r < pre.runs@.len() && r != h ==> post.shadow@.owner[r]
                    == pre.shadow@.owner[r]
            &&& if pre.runs@[h].count > 1 {
                &&& post.shadow@.chains == pre.shadow@.chains
                &&& post.shadow@.owner[h] == i
                &&& post.run_free@ == pre.run_free@
                &&& post.belts@[i] == (Belt { gap0: 1, ..b })
            } else {
                &&& post.shadow@.chains == pre.shadow@.chains.update(i, c.drop_first())
                &&& post.shadow@.owner[h] == -1
                &&& post.run_free@ == pre.run_free@.push(c[0])
                &&& post.belts@[i] == (if c.len() == 1 {
                    Belt { run_head: NONE, run_tail: NONE, gap0: 0, used: 0, ..b }
                } else {
                    Belt {
                        run_head: c[1],
                        gap0: (pre.runs@[c[1] as int].gap + 1) as u16,
                        ..b
                    }
                })
            }
        }),
        pre.shadow@.chains[i].len() > 1 ==> pre.runs@[pre.shadow@.chains[i][1] as int].gap < 0xffff,
    ensures
        post.belts_rep(),
        post.belt(i) == pre.belt(i).without_first(pre.now as int),
        forall|j: int|
            0 <= j < post.belts@.len() && j != i ==> #[trigger] post.belt(j) == pre.belt(j),
{
    let c = pre.shadow@.chains[i];
    let d = post.shadow@.chains[i];
    let h = c[0] as int;
    let old_runs = pre.run_views(i);
    let views = post.run_views(i);
    assert(pre.belt_rep(i));
    assert(c[0] < pre.runs@.len());
    assert(pre.shadow@.owner[h] == i);
    assert(old_runs[0].count >= 1);
    lemma_other_belts(pre, post, i);
    lemma_behind_first(old_runs);
    if pre.runs@[h].count > 1 {
        assert(views =~= behind_first(old_runs)) by {
            assert forall|k: int| 1 <= k < c.len() implies views[k] == old_runs[k] by {
                assert(c[k] != c[0]);
                assert(c[k] < pre.runs@.len());
            }
        }
        assert forall|k: int| 0 <= k < d.len() implies {
            &&& (#[trigger] d[k]) < post.runs@.len()
            &&& post.shadow@.owner[d[k] as int] == i
            &&& post.runs@[d[k] as int].next == at(d, k + 1)
        } by {
            assert(c[k] < pre.runs@.len());
            if k > 0 {
                assert(c[k] != c[0]);
            }
        }
    } else {
        lemma_behind(c);
        assert(d == c.drop_first());
        if c.len() > 1 {
            assert(old_runs[1].gap == pre.runs@[c[1] as int].gap);
        }
        assert(views =~= behind_first(old_runs)) by {
            assert forall|k: int| 0 <= k < d.len() implies views[k] == behind_first(
                old_runs,
            )[k] by {
                assert(d[k] == c[k + 1]);
                assert(c[k + 1] != c[0]);
                assert(c[k + 1] < pre.runs@.len());
            }
        }
        assert forall|k: int| 0 <= k < d.len() implies {
            &&& (#[trigger] d[k]) < post.runs@.len()
            &&& post.shadow@.owner[d[k] as int] == i
            &&& post.runs@[d[k] as int].next == at(d, k + 1)
        } by {
            assert(d[k] == c[k + 1]);
            assert(c[k + 1] != c[0]);
            assert(c[k + 1] < pre.runs@.len());
            assert(pre.runs@[c[k + 1] as int].next == at(c, k + 2));
        }
        lemma_append(pre.run_free@, c[0]);
        assert(!pre.run_free@.contains(c[0])) by {
            if pre.run_free@.contains(c[0]) {
                let k = choose|k: int| 0 <= k < pre.run_free@.len() && pre.run_free@[k] == c[0];
                assert(pre.shadow@.owner[pre.run_free@[k] as int] == -1);
            }
        }
        assert forall|k: int| 0 <= k < post.run_free@.len() implies {
            &&& (#[trigger] post.run_free@[k]) < post.runs@.len()
            &&& post.shadow@.owner[post.run_free@[k] as int] == -1
        } by {
            if k < pre.run_free@.len() {
                assert(post.run_free@[k] == pre.run_free@[k]);
                assert(pre.shadow@.owner[pre.run_free@[k] as int] == -1);
            }
        }
        lemma_tally_update(pre.shadow@.chains, |k: int, x: Seq<u32>| x.len() as int, i, d);
    }
    assert(0 * pre.belts@[i].period == 0);
    assert(post.belt(i) =~= pre.belt(i).without_first(pre.now as int));
    assert(post.belt_rep(i));
}

impl World {
    /// Belt `i`, whose first item is at the head, stands there from now on, or
    /// moves on from there.
    pub(super) fn belt_stamp(&mut self, i: usize, blocked: bool)
        requires
            old(self).rep(),
            old(self)@.orderly(),
            i < old(self).belts@.len(),
            old(self).belts@[i as int].gap0 == 0,
        ensures
            final(self).rep(),
            final(self)@.orderly(),
            final(self)@ == old(self)@.with_belt(
                i as int,
                (BeltV { blocked, due: old(self)@.now, ..old(self)@.belts[i as int] }),
            ),
            forall|j: int|
                0 <= j < old(self).belts@.len() && j != i ==> #[trigger] final(self).belts@[j]
                    == old(self).belts@[j],
            final(self).belts@.len() == old(self).belts@.len(),
            final(self).belts@[i as int].gap0 == 0,
            final(self).belts@[i as int].last == old(self).now,
            final(self).belts@[i as int].period == old(self).belts@[i as int].period,
    {
        let ghost pre = *self;
        proof {
            lemma_flags(self.belts@[i as int].flags);
            assert(self.belt_rep(i as int));
        }
        if blocked {
            self.belts[i].flags |= F_BLOCKED;
        } else {
            self.belts[i].flags &= !F_BLOCKED;
        }
        self.belts[i].last = self.now;
        proof {
            lemma_other_belts(pre, *self, i as int);
            assert(self.run_views(i as int) =~= pre.run_views(i as int));
            assert(self.belt_rep(i as int));
            lemma_belt_changed(pre, *self, i as int);
            assert(0 * pre.belts@[i as int].period == 0);
            assert(self@ =~= pre@.with_belt(
                i as int,
                BeltV { blocked, due: pre@.now, ..pre@.belts[i as int] },
            ));
        }
    }

    /// Takes the first item off belt `i`, from its head.
    pub(super) fn belt_pop_head(&mut self, i: usize)
        requires
            old(self).rep(),
            old(self)@.orderly(),
            old(self)@.nodes_ok(),
            i < old(self).belts@.len(),
            old(self).belts@[i as int].gap0 == 0,
            old(self).belts@[i as int].last == old(self).now,
            !old(self)@.belts[i as int].blocked,
            old(self)@.belts[i as int].runs.len() > 0,
        ensures
            final(self).rep(),
            final(self)@.orderly(),
            final(self)@ == old(self)@.with_belt(
                i as int,
                old(self)@.belts[i as int].without_first(old(self)@.now),
            ),
            final(self).belts@.len() == old(self).belts@.len(),
            final(self).belts@[i as int].last == old(self).now,
            final(self).belts@[i as int].period == old(self).belts@[i as int].period,
            final(self).belts@[i as int].run_head != NONE
                <==> final(self)@.belts[i as int].runs.len() > 0,
    {
        let ghost pre = *self;
        let ghost v = self.belt(i as int);
        let ghost c = self.shadow@.chains[i as int];
        proof {
            assert(self@.belts[i as int] == v);
            assert(v.ok(self@.now));
            assert(self.belt_rep(i as int));
            lemma_synced(*self, i as int);
            assert(c[0] < self.runs@.len());
            assert(v.runs[0].count >= 1);
            if c.len() > 1 {
                assert(c[1] < self.runs@.len());
                assert(c[1] != c[0]);
                crate::seqs::lemma_tally_term(v.runs, |k: int, r: RunV| r.gap + r.count, 1);
                lemma_extent_front(v.runs);
                lemma_extent_bounds(v.runs);
                let rest = v.runs.drop_first();
                assert(rest[0] == v.runs[1]);
                assert forall|k: int| 0 <= k < rest.len() implies (#[trigger] rest[k]).count >= 1
                    && rest[k].gap >= 0 by {
                    assert(rest[k] == v.runs[k + 1]);
                }
                crate::seqs::lemma_tally_term(rest, |k: int, r: RunV| r.gap + r.count, 0);
            }
        }
        let head: u32 = self.belts[i].run_head;
        let h: usize = head as usize;
        self.runs[h].count -= 1;
        if self.runs[h].count == 0 {
            let next: u32 = self.runs[h].next;
            self.run_free.push(head);
            self.belts[i].run_head = next;
            if next == NONE {
                self.belts[i].run_tail = NONE;
                self.belts[i].gap0 = 0;
                self.belts[i].used = 0;
            } else {
                self.belts[i].gap0 = self.runs[next as usize].gap + 1;
            }
            proof {
                self.shadow@.chains = pre.shadow@.chains.update(i as int, c.drop_first());
                self.shadow@.owner = pre.shadow@.owner.update(c[0] as int, -1);
            }
        } else {
            self.belts[i].gap0 = 1;
        }
        proof {
            lemma_popped(pre, *self, i as int);
            lemma_belt_changed(pre, *self, i as int);
            assert(self.belt_rep(i as int));
        }
    }
}

} // verus!
