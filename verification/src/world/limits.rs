//! Whether a factory can run for a number of ticks.

use vstd::prelude::*;

use super::World;
use crate::belts::lemma_items_fit;
use crate::flags::{F_BUSY, F_HASOUT};
use crate::ids::{idx, idx_of, kind, kind_of, K_BELT, K_MACH, K_SINK, NONE};
use crate::model::{item_count, BeltV, MachineV, Model, SourceV, SLOTS};
use crate::running::law_asleep_can_run;
use crate::seqs::{
    lemma_tally_at_most, lemma_tally_nonneg, lemma_tally_take, lemma_tally_update, tally,
};
use crate::valid::lemma_orderly;

verus! {

impl Model {
    /// Belt `i` has one cell and delivers to a belt of one cell.
    spec fn narrow(self, i: int) -> bool {
        &&& 0 <= i < self.belts.len()
        &&& self.belts[i].cap == 1
        &&& kind(self.belts[i].out) == K_BELT
        &&& idx(self.belts[i].out) < self.belts.len()
        &&& self.belts[idx(self.belts[i].out)].cap == 1
    }

    /// The belt that belt `i` delivers to.
    spec fn next_belt(self, i: int) -> int {
        idx(self.belts[i].out)
    }

    /// `path` leads from one narrow belt to the next.
    spec fn is_path(self, path: Seq<usize>) -> bool {
        &&& forall|k: int| 0 <= k < path.len() ==> self.narrow(#[trigger] path[k] as int)
        &&& forall|k: int|
            0 < k < path.len() ==> self.next_belt(path[k - 1] as int) == #[trigger] path[k]
    }
}

/// A rank falls along a path.
proof fn lemma_path_falls(m: Model, path: Seq<usize>, rank: spec_fn(int) -> nat, j: int, k: int)
    requires
        m.is_path(path),
        m.ranked_by(rank),
        0 <= j <= k < path.len(),
    ensures
        rank(path[k] as int) + (k - j) <= rank(path[j] as int),
    decreases k - j,
{
    if j < k {
        lemma_path_falls(m, path, rank, j, k - 1);
        let x = path[k - 1] as int;
        assert(m.narrow(x));
        assert(m.next_belt(x) == path[k]);
        assert(m.belts[x].cap == 1);
    }
}

/// A path that comes back to itself allows no rank.
proof fn lemma_path_closed(m: Model, path: Seq<usize>, j: int)
    requires
        m.is_path(path),
        0 <= j < path.len(),
        m.next_belt(path[path.len() - 1] as int) == path[j],
    ensures
        !m.loop_free(),
{
    if m.loop_free() {
        let rank = choose|rank: spec_fn(int) -> nat| m.ranked_by(rank);
        let x = path[path.len() - 1] as int;
        lemma_path_falls(m, path, rank, j, path.len() - 1);
        assert(m.narrow(x));
        assert(m.belts[x].cap == 1);
    }
}

impl World {
    /// Whether an item can be offered to `target`.
    fn is_reachable(&self, target: u32) -> (r: bool)
        ensures
            r == self@.reachable(target),
    {
        let i: usize = idx_of(target);
        match kind_of(target) {
            K_BELT => i < self.belts.len(),
            K_MACH => i < self.machines.len(),
            K_SINK => i < self.sinks.len(),
            _ => true,
        }
    }

    /// Whether every node delivers to a node of the factory, or to nothing.
    fn is_linked(&self) -> (r: bool)
        ensures
            r == self@.linked(),
    {
        let ghost m = self@;
        let mut i: usize = 0;
        while i < self.belts.len()
            invariant
                m == self@,
                self.belts@.len() == m.belts.len(),
                i <= self.belts@.len(),
                forall|j: int| 0 <= j < i ==> m.reachable((#[trigger] m.belts[j]).out),
            decreases self.belts@.len() - i,
        {
            assert(m.belts[i as int].out == self.belts@[i as int].out);
            if !self.is_reachable(self.belts[i].out) {
                return false;
            }
            i = i + 1;
        }
        i = 0;
        while i < self.machines.len()
            invariant
                m == self@,
                self.machines@.len() == m.machines.len(),
                i <= self.machines@.len(),
                forall|j: int| 0 <= j < i ==> m.reachable((#[trigger] m.machines[j]).out),
            decreases self.machines@.len() - i,
        {
            assert(m.machines[i as int].out == self.machines@[i as int].out);
            if !self.is_reachable(self.machines[i].out) {
                return false;
            }
            i = i + 1;
        }
        i = 0;
        while i < self.sources.len()
            invariant
                m == self@,
                self.sources@.len() == m.sources.len(),
                i <= self.sources@.len(),
                forall|j: int| 0 <= j < i ==> m.reachable((#[trigger] m.sources[j]).out),
            decreases self.sources@.len() - i,
        {
            assert(m.sources[i as int].out == self.sources@[i as int].out);
            if !self.is_reachable(self.sources[i].out) {
                return false;
            }
            i = i + 1;
        }
        true
    }

    /// Number of cells of all belts.
    fn cell_count(&self) -> (n: u64)
        requires
            self.wf(),
        ensures
            n == self@.cells(),
    {
        let ghost m = self@;
        let ghost f = |i: int, b: BeltV| b.cap;
        let mut n: u64 = 0;
        let mut i: usize = 0;
        proof {
            assert(m.belts.take(0) =~= Seq::<BeltV>::empty());
        }
        while i < self.belts.len()
            invariant
                m == self@,
                self.belts@.len() == m.belts.len(),
                self.belts@.len() <= 0x4000_0000,
                i <= self.belts@.len(),
                f == (|i: int, b: BeltV| b.cap),
                n == tally(m.belts.take(i as int), f),
                n <= i * 0xffff,
            decreases self.belts@.len() - i,
        {
            proof {
                lemma_tally_take(m.belts, f, i as int);
            }
            n = n + self.belts[i].cap as u64;
            i = i + 1;
        }
        proof {
            assert(m.belts.take(i as int) =~= m.belts);
        }
        n
    }

    /// Whether every timer that can be set at tick `t` fits the clock.
    fn clock_lasts(&self, t: u64) -> (r: bool)
        requires
            self.wf(),
            t <= 0x1_ffff_ffff,
        ensures
            r == self@.clock_fits(t as int),
    {
        let ghost m = self@;
        if t >= 0xffff_ffff {
            return false;
        }
        let mut i: usize = 0;
        while i < self.belts.len()
            invariant
                m == self@,
                m.valid(),
                t < 0xffff_ffff,
                self.belts@.len() == m.belts.len(),
                i <= self.belts@.len(),
                forall|j: int|
                    0 <= j < i ==> t + (#[trigger] m.belts[j]).reach() <= 0xffff_ffff,
            decreases self.belts@.len() - i,
        {
            let cap: u64 = self.belts[i].cap as u64;
            let period: u64 = self.belts[i].period as u64;
            proof {
                assert(m.belts[i as int].ok(m.now));
                assert((cap - 1) * period <= 0xffff * 0xffff) by (nonlinear_arith)
                    requires
                        1 <= cap <= 0xffff,
                        period <= 0xffff,
                ;
            }
            let reach: u64 = if cap > 2 {
                (cap - 1) * period
            } else {
                period
            };
            assert(m.belts[i as int].reach() == reach);
            if t + reach > 0xffff_ffff {
                return false;
            }
            i = i + 1;
        }
        i = 0;
        while i < self.machines.len()
            invariant
                m == self@,
                t < 0xffff_ffff,
                self.machines@.len() == m.machines.len(),
                i <= self.machines@.len(),
                forall|j: int|
                    0 <= j < i ==> t + (#[trigger] m.machines[j]).dur <= 0xffff_ffff,
            decreases self.machines@.len() - i,
        {
            assert(m.machines[i as int].dur == self.machines@[i as int].dur);
            if t + self.machines[i].dur as u64 > 0xffff_ffff {
                return false;
            }
            i = i + 1;
        }
        i = 0;
        while i < self.sources.len()
            invariant
                m == self@,
                t < 0xffff_ffff,
                self.sources@.len() == m.sources.len(),
                i <= self.sources@.len(),
                forall|j: int|
                    0 <= j < i ==> t + (#[trigger] m.sources[j]).period <= 0xffff_ffff,
            decreases self.sources@.len() - i,
        {
            assert(m.sources[i as int].period == self.sources@[i as int].period);
            if t + self.sources[i].period as u64 > 0xffff_ffff {
                return false;
            }
            i = i + 1;
        }
        true
    }

    /// The belt that belt `i` delivers to, if both have one cell.
    fn narrow_next(&self, i: usize) -> (r: Option<usize>)
        requires
            i < self.belts@.len(),
        ensures
            r == (if self@.narrow(i as int) {
                Some(self@.next_belt(i as int) as usize)
            } else {
                None
            }),
    {
        assert(self@.belts[i as int].out == self.belts@[i as int].out);
        assert(self@.belts[i as int].cap == self.belts@[i as int].cap);
        let out: u32 = self.belts[i].out;
        let j: usize = idx_of(out);
        if self.belts[i].cap == 1 && kind_of(out) == K_BELT && j < self.belts.len() {
            assert(self@.belts[j as int].cap == self.belts@[j as int].cap);
            if self.belts[j].cap == 1 {
                return Some(j);
            }
        }
        None
    }
}

// ---------------------------------------------------------------------- loops

/// A belt that was not looked at yet.
const UNSEEN: u8 = 0;

/// A belt on the path that is being followed.
const ON_PATH: u8 = 1;

/// A belt from which every path is known to end.
const DONE: u8 = 2;

/// The belts that are done have ranks that fall along narrow belts.
spec fn settled(m: Model, marks: Seq<u8>, rank: Seq<nat>) -> bool {
    &&& marks.len() == m.belts.len()
    &&& rank.len() == m.belts.len()
    &&& m.belts.len() <= 0x4000_0000
    &&& forall|i: int|
        0 <= i < marks.len() ==> (#[trigger] marks[i]) == UNSEEN || marks[i] == ON_PATH || marks[i]
            == DONE
    &&& forall|i: int|
        #![trigger marks[i]]
        0 <= i < marks.len() && marks[i] == DONE && m.narrow(i) ==> marks[m.next_belt(i)] == DONE
            && rank[m.next_belt(i)] < rank[i]
}

/// Just the belts of `path` are marked as on the path.
spec fn path_marked(marks: Seq<u8>, path: Seq<usize>) -> bool {
    &&& path.no_duplicates()
    &&& forall|k: int|
        0 <= k < path.len() ==> (#[trigger] path[k]) < marks.len() && marks[path[k] as int]
            == ON_PATH
    &&& forall|i: int|
        0 <= i < marks.len() && (#[trigger] marks[i]) == ON_PATH ==> path.contains(i as usize)
}

/// Number of belts that were not looked at yet.
spec fn unseen_count(marks: Seq<u8>) -> int {
    tally(
        marks,
        |i: int, x: u8|
            if x == UNSEEN {
                1int
            } else {
                0
            },
    )
}

proof fn lemma_unseen(marks: Seq<u8>, i: int, x: u8)
    requires
        0 <= i < marks.len(),
        marks[i] == UNSEEN,
        x != UNSEEN,
    ensures
        0 <= unseen_count(marks.update(i, x)) < unseen_count(marks),
{
    let f = |i: int, x: u8|
        if x == UNSEEN {
            1int
        } else {
            0
        };
    lemma_tally_update(marks, f, i, x);
    lemma_tally_nonneg(marks.update(i, x), f);
}

/// A belt is put on the path.
proof fn lemma_path_longer(m: Model, marks: Seq<u8>, rank: Seq<nat>, path: Seq<usize>, x: usize)
    requires
        settled(m, marks, rank),
        path_marked(marks, path),
        m.is_path(path),
        x < marks.len(),
        marks[x as int] == UNSEEN,
        m.narrow(x as int),
        path.len() > 0 ==> m.next_belt(path[path.len() - 1] as int) == x,
    ensures
        settled(m, marks.update(x as int, ON_PATH), rank),
        path_marked(marks.update(x as int, ON_PATH), path.push(x)),
        m.is_path(path.push(x)),
{
    let n = marks.update(x as int, ON_PATH);
    let p = path.push(x);
    assert forall|i: int| 0 <= i < n.len() && (#[trigger] n[i]) == ON_PATH implies p.contains(
        i as usize,
    ) by {
        if i == x {
            assert(p[path.len() as int] == x);
        } else {
            assert(path.contains(i as usize));
            let k = choose|k: int| 0 <= k < path.len() && path[k] == i as usize;
            assert(p[k] == i as usize);
        }
    }
    assert forall|k: int| 0 <= k < p.len() implies m.narrow(#[trigger] p[k] as int) by {
        if k < path.len() {
            assert(m.narrow(path[k] as int));
        }
    }
    assert forall|k: int| 0 < k < p.len() implies m.next_belt(p[k - 1] as int)
        == #[trigger] p[k] by {
        if k < path.len() {
            assert(m.next_belt(path[k - 1] as int) == path[k]);
        }
    }
}

/// The last belt of the path is done.
proof fn lemma_path_shorter(m: Model, marks: Seq<u8>, rank: Seq<nat>, path: Seq<usize>)
    requires
        settled(m, marks, rank),
        path_marked(marks, path),
        m.is_path(path),
        path.len() > 0,
        marks[m.next_belt(path.last() as int)] == DONE,
    ensures
        ({
            let x = path.last() as int;
            let n = marks.update(x, DONE);
            let r = rank.update(x, rank[m.next_belt(x)] + 1);
            &&& settled(m, n, r)
            &&& path_marked(n, path.drop_last())
            &&& m.is_path(path.drop_last())
            &&& unseen_count(n) == unseen_count(marks)
        }),
{
    let x = path.last() as int;
    let n = marks.update(x, DONE);
    let p = path.drop_last();
    assert(marks[path[path.len() - 1] as int] == ON_PATH);
    assert(m.narrow(path[path.len() - 1] as int));
    assert forall|i: int| 0 <= i < n.len() && (#[trigger] n[i]) == ON_PATH implies p.contains(
        i as usize,
    ) by {
        assert(marks[i] == ON_PATH);
        let k = choose|k: int| 0 <= k < path.len() && path[k] == i as usize;
        assert(p[k] == i as usize);
    }
    assert forall|k: int| 0 <= k < p.len() implies (#[trigger] p[k]) < n.len() && n[p[k] as int]
        == ON_PATH by {
        assert(path[k] != path[path.len() - 1]);
        assert(marks[path[k] as int] == ON_PATH);
    }
    assert forall|k: int| 0 < k < p.len() implies m.next_belt(p[k - 1] as int)
        == #[trigger] p[k] by {
        assert(m.next_belt(path[k - 1] as int) == path[k]);
    }
    assert forall|k: int| 0 <= k < p.len() implies m.narrow(#[trigger] p[k] as int) by {
        assert(m.narrow(path[k] as int));
    }
    lemma_tally_update(
        marks,
        |i: int, x: u8|
            if x == UNSEEN {
                1int
            } else {
                0
            },
        x,
        DONE,
    );
}

impl World {
    /// Whether no belts of one cell form a loop.
    fn is_loop_free(&self) -> (r: bool)
        requires
            self.wf(),
        ensures
            r == self@.loop_free(),
    {
        let ghost m = self@;
        let n: usize = self.belts.len();
        let mut marks: Vec<u8> = vec![UNSEEN; n];
        let ghost mut rank: Seq<nat> = Seq::new(n as nat, |i: int| 0nat);
        let mut path: Vec<usize> = Vec::new();
        let mut i: usize = 0;
        while i < n
            invariant
                self.wf(),
                m == self@,
                n == self.belts@.len(),
                n == m.belts.len(),
                n <= 0x4000_0000,
                i <= n,
                path@.len() == 0,
                settled(m, marks@, rank),
                path_marked(marks@, path@),
                forall|j: int| 0 <= j < i ==> (#[trigger] marks@[j]) == DONE,
            decreases n - i,
        {
            let mut cur: usize = i;
            while marks[cur] != DONE
                invariant
                    self.wf(),
                    m == self@,
                    n == self.belts@.len(),
                    n == m.belts.len(),
                    n <= 0x4000_0000,
                    i < n,
                    cur < n,
                    settled(m, marks@, rank),
                    path_marked(marks@, path@),
                    m.is_path(path@),
                    path@.len() > 0 ==> m.next_belt(path@.last() as int) == cur,
                    (if path@.len() > 0 {
                        path@[0]
                    } else {
                        cur
                    }) == i,
                    forall|j: int| 0 <= j < i ==> (#[trigger] marks@[j]) == DONE,
                decreases unseen_count(marks@),
            {
                if marks[cur] == ON_PATH {
                    proof {
                        assert(path@.contains(cur));
                        let j = choose|j: int| 0 <= j < path@.len() && path@[j] == cur;
                        lemma_path_closed(m, path@, j);
                    }
                    return false;
                }
                assert(marks@[cur as int] == UNSEEN);
                let next: Option<usize> = self.narrow_next(cur);
                match next {
                    Some(j) => {
                        proof {
                            lemma_unseen(marks@, cur as int, ON_PATH);
                            lemma_path_longer(m, marks@, rank, path@, cur);
                        }
                        marks.set(cur, ON_PATH);
                        path.push(cur);
                        cur = j;
                    },
                    None => {
                        proof {
                            lemma_unseen(marks@, cur as int, DONE);
                            lemma_end_of_path(m, marks@, rank, path@, cur);
                        }
                        marks.set(cur, DONE);
                    },
                }
            }
            while path.len() > 0
                invariant
                    m.belts.len() == n,
                    i < n,
                    cur < n,
                    marks@.len() == n,
                    marks@[cur as int] == DONE,
                    settled(m, marks@, rank),
                    path_marked(marks@, path@),
                    m.is_path(path@),
                    path@.len() > 0 ==> m.next_belt(path@.last() as int) == cur,
                    (if path@.len() > 0 {
                        path@[0]
                    } else {
                        cur
                    }) == i,
                    forall|j: int| 0 <= j < i ==> (#[trigger] marks@[j]) == DONE,
                decreases path@.len(),
            {
                proof {
                    lemma_path_shorter(m, marks@, rank, path@);
                    let k = path@.len() - 1;
                    assert(path@[k] < marks@.len());
                    if k > 0 {
                        assert(m.next_belt(path@[k - 1] as int) == path@[k]);
                    }
                }
                let last: Option<usize> = path.pop();
                if let Some(x) = last {
                    marks.set(x, DONE);
                    proof {
                        rank = rank.update(x as int, rank[m.next_belt(x as int)] + 1);
                    }
                    cur = x;
                }
            }
            i = i + 1;
        }
        proof {
            let f = |i: int| rank[i];
            assert forall|i: int|
                #![trigger m.belts[i]]
                0 <= i < m.belts.len() && m.belts[i].cap == 1 && kind(m.belts[i].out) == K_BELT
                    && idx(m.belts[i].out) < m.belts.len() && m.belts[idx(m.belts[i].out)].cap
                    == 1 implies f(idx(m.belts[i].out)) < f(i) by {
                assert(m.narrow(i));
                assert(marks@[i] == DONE);
            }
            assert(m.ranked_by(f));
        }
        true
    }

    /// Number of items in machine `i`.
    fn items_in_machine(&self, i: usize) -> (n: u64)
        requires
            self.wf(),
            i < self.machines@.len(),
        ensures
            n == self@.machines[i as int].holding(self@.now),
            n <= 0x1ff,
    {
        assert(self@.machines[i as int].ok());
        let flags: u8 = self.machines[i].flags;
        let mut n: u64 = self.machines[i].have as u64;
        if flags & F_HASOUT != 0 {
            n = n + 1;
        }
        if flags & F_BUSY != 0 {
            n = n + if self.machines[i].until <= self.now {
                1
            } else {
                self.machines[i].need as u64
            };
        }
        n
    }

    /// Number of items that no sink has received.
    fn crowd_count(&self) -> (n: u64)
        requires
            self.wf(),
        ensures
            n == self@.crowd(),
            n <= 0x8000_0000_0000,
    {
        let ghost m = self@;
        let ghost f = |i: int, c: MachineV| c.holding(m.now);
        let ghost g = |i: int, c: SourceV| c.pending(m.now);
        let on_belts: u64 = self.items_on_belts();
        let mut held: u64 = 0;
        let mut i: usize = 0;
        proof {
            assert(m.machines.take(0) =~= Seq::<MachineV>::empty());
            assert(m.sources.take(0) =~= Seq::<SourceV>::empty());
            lemma_belts_hold(m);
        }
        while i < self.machines.len()
            invariant
                self.wf(),
                m == self@,
                self.machines@.len() == m.machines.len(),
                self.machines@.len() <= 0x4000_0000,
                i <= self.machines@.len(),
                f == (|i: int, c: MachineV| c.holding(m.now)),
                held == tally(m.machines.take(i as int), f),
                held <= i * 0x1ff,
            decreases self.machines@.len() - i,
        {
            proof {
                lemma_tally_take(m.machines, f, i as int);
            }
            held = held + self.items_in_machine(i);
            i = i + 1;
        }
        proof {
            assert(m.machines.take(i as int) =~= m.machines);
        }
        let mut due: u64 = 0;
        i = 0;
        while i < self.sources.len()
            invariant
                m == self@,
                self.sources@.len() == m.sources.len(),
                self.sources@.len() <= 0x4000_0000,
                i <= self.sources@.len(),
                g == (|i: int, c: SourceV| c.pending(m.now)),
                due == tally(m.sources.take(i as int), g),
                due <= i,
            decreases self.sources@.len() - i,
        {
            proof {
                lemma_tally_take(m.sources, g, i as int);
                assert(m.sources[i as int].until == self.sources@[i as int].until);
            }
            if self.sources[i].until <= self.now {
                due = due + 1;
            }
            i = i + 1;
        }
        proof {
            assert(m.sources.take(i as int) =~= m.sources);
        }
        on_belts + held + due
    }

    /// Whether no node is to be handled, now or later, unless another wakes it.
    fn is_asleep(&self) -> (r: bool)
        requires
            self.wf(),
        ensures
            r == self@.q.asleep(),
    {
        let ghost q = self@.q;
        proof {
            lemma_orderly(self@, Set::empty());
        }
        if self.ready.len() > 0 {
            return false;
        }
        if self.overflow.peek().is_some() {
            return false;
        }
        let mut s: usize = 0;
        while s < SLOTS
            invariant
                self.wf(),
                self@.orderly(),
                q == self@.q,
                s <= SLOTS,
                forall|k: int| 0 <= k < s ==> (#[trigger] q.wheel[k]).len() == 0,
            decreases SLOTS - s,
        {
            assert(self.chain(self.wheel@[s as int], q.wheel[s as int]));
            if self.wheel[s] != NONE {
                return false;
            }
            proof {
                if q.wheel[s as int].len() > 0 {
                    assert(self@.live(q.wheel[s as int][0]));
                }
            }
            s = s + 1;
        }
        true
    }

    /// Whether the layout, the items and the clock alone tell that the factory
    /// can run for `ticks` ticks.
    fn is_sure_to_run(&self, ticks: u32) -> (r: bool)
        requires
            self.wf(),
        ensures
            r == self@.sure_to_run(ticks as nat),
    {
        if ticks == 0 {
            return true;
        }
        if !self.is_linked() || !self.clock_lasts(self.now as u64 + ticks as u64 - 1)
            || !self.is_loop_free() {
            return false;
        }
        let more: u64 = (ticks - 1) as u64;
        let sources: u64 = self.sources.len() as u64;
        assert(0 <= more * sources <= 0xffff_ffff * 0x4000_0000) by (nonlinear_arith)
            requires
                0 <= more <= 0xffff_ffff,
                0 <= sources <= 0x4000_0000,
        ;
        self.cell_count() <= 0xffff_ffff || self.crowd_count() + more * sources < 0xffff_ffff
    }

    /// Whether the factory can run for `ticks` ticks: its layout, its items and the
    /// clock alone tell so, or nothing will happen in them.
    pub fn can_run(&self, ticks: u32) -> (r: bool)
        requires
            self.wf(),
        ensures
            r ==> self@.can_run(ticks as nat),
            r == (self@.sure_to_run(ticks as nat) || (self@.q.asleep() && self@.now + ticks
                <= 0xffff_ffff)),
    {
        if self.is_sure_to_run(ticks) {
            return true;
        }
        if ticks <= 0xffff_ffff - self.now && self.is_asleep() {
            proof {
                law_asleep_can_run(self@, ticks as nat);
            }
            return true;
        }
        false
    }
}

/// Belts hold no more items than they have cells.
proof fn lemma_belts_hold(m: Model)
    requires
        m.valid(),
    ensures
        m.items_on_belts() <= 0x4000_0000 * 0xffff,
{
    let f = |i: int, b: BeltV| item_count(b.runs);
    assert forall|k: int| 0 <= k < m.belts.len() implies f(k, #[trigger] m.belts[k]) <= 0xffff by {
        assert(m.belts[k].ok(m.now));
        lemma_items_fit(m.belts[k], m.now);
    }
    lemma_tally_at_most(m.belts, f, 0xffff);
}

/// The belt at which a path ends is done.
proof fn lemma_end_of_path(m: Model, marks: Seq<u8>, rank: Seq<nat>, path: Seq<usize>, x: usize)
    requires
        settled(m, marks, rank),
        path_marked(marks, path),
        x < marks.len(),
        marks[x as int] == UNSEEN,
        !m.narrow(x as int),
    ensures
        settled(m, marks.update(x as int, DONE), rank),
        path_marked(marks.update(x as int, DONE), path),
{
    let n = marks.update(x as int, DONE);
    assert forall|i: int| 0 <= i < n.len() && (#[trigger] n[i]) == ON_PATH implies path.contains(
        i as usize,
    ) by {
        assert(marks[i] == ON_PATH);
    }
}

} // verus!
