//! A belt as a row of cells: what its runs and the tick at which it is due say of
//! each cell, and how its operations change it cell by cell.

use vstd::prelude::*;

use crate::belts::{
    lemma_extent_empty, lemma_extent_front, lemma_extent_push, lemma_extent_update, lemma_lead,
    lemma_lead_is, lemma_lead_set, runs_ok,
};
use crate::model::{behind_first, extent, BeltV, RunV};

verus! {

/// How far behind the first item of the runs the first item of run `k` lies.
pub open spec fn start_of(runs: Seq<RunV>, k: int) -> int {
    extent(runs.take(k)) + runs[k].gap
}

/// Run `k` holds an item `d` cells behind the first item of the runs.
pub open spec fn covers(runs: Seq<RunV>, k: int, d: int) -> bool {
    0 <= k < runs.len() && start_of(runs, k) <= d < start_of(runs, k) + runs[k].count
}

/// There is an item `x`, `d` cells behind the first item of the runs.
pub open spec fn run_item(runs: Seq<RunV>, d: int, x: u16) -> bool {
    exists|k: int| #[trigger] covers(runs, k, d) && runs[k].item == x
}

impl BeltV {
    /// There is an item `x` in cell `c`.
    pub open spec fn item_at(self, now: int, c: int, x: u16) -> bool {
        run_item(self.runs, c - self.lead(now), x)
    }
}

/// Where a run ends.
proof fn lemma_run_end(runs: Seq<RunV>, k: int)
    requires
        0 <= k < runs.len(),
    ensures
        start_of(runs, k) + runs[k].count == extent(runs.take(k + 1)),
{
    lemma_extent_push(runs.take(k), runs[k]);
    assert(runs.take(k).push(runs[k]) =~= runs.take(k + 1));
}

/// Runs lie one behind the other.
proof fn lemma_run_order(runs: Seq<RunV>, j: int, k: int)
    requires
        runs_ok(runs),
        0 <= j <= k <= runs.len(),
    ensures
        extent(runs.take(j)) <= extent(runs.take(k)),
    decreases k - j,
{
    if j < k {
        lemma_run_order(runs, j, k - 1);
        lemma_run_end(runs, k - 1);
        assert(runs[k - 1].count >= 1);
    }
}

/// A cell holds at most one item.
pub proof fn law_one_item_per_cell(b: BeltV, now: int, c: int, x: u16, y: u16)
    requires
        b.ok(now),
        b.item_at(now, c, x),
        b.item_at(now, c, y),
    ensures
        x == y,
{
    let runs = b.runs;
    let d = c - b.lead(now);
    let j = choose|k: int| #[trigger] covers(runs, k, d) && runs[k].item == x;
    let k = choose|k: int| #[trigger] covers(runs, k, d) && runs[k].item == y;
    lemma_run_end(runs, j);
    lemma_run_end(runs, k);
    if j < k {
        lemma_run_order(runs, j + 1, k);
        assert(runs[k].gap >= 0);
    } else if k < j {
        lemma_run_order(runs, k + 1, j);
        assert(runs[j].gap >= 0);
    }
}

/// Items lie in the cells of the belt: the first of them `lead` cells from its
/// head, the last in the last cell that is used.
pub proof fn law_items_in_range(b: BeltV, now: int, c: int, x: u16)
    requires
        b.ok(now),
        b.item_at(now, c, x),
    ensures
        0 <= b.lead(now) <= c < b.used(now) <= b.cap,
{
    let runs = b.runs;
    let d = c - b.lead(now);
    let k = choose|k: int| #[trigger] covers(runs, k, d) && runs[k].item == x;
    lemma_lead(b, now);
    lemma_run_end(runs, k);
    lemma_run_order(runs, 0, k);
    lemma_run_order(runs, k + 1, runs.len() as int);
    assert(runs.take(runs.len() as int) =~= runs);
    assert(runs[k].gap >= 0);
    assert(runs.take(0) =~= Seq::<RunV>::empty());
}

/// The first item of a belt lies `lead` cells from its head, and the last one in the last
/// cell that is used.
pub proof fn law_ends_of_items(b: BeltV, now: int)
    requires
        b.ok(now),
        b.runs.len() > 0,
    ensures
        b.item_at(now, b.lead(now), b.runs[0].item),
        b.item_at(now, b.used(now) - 1, b.runs[b.runs.len() - 1].item),
{
    let runs = b.runs;
    let n = runs.len() as int;
    lemma_run_end(runs, n - 1);
    assert(runs.take(n) =~= runs);
    assert(runs[n - 1].count >= 1 && runs[0].count >= 1);
    assert(covers(runs, n - 1, b.used(now) - 1 - b.lead(now)));
    assert(runs.take(0) =~= Seq::<RunV>::empty());
    lemma_extent_empty();
    assert(covers(runs, 0, 0));
}

/// A belt has no room just if there is an item in its last cell.
pub proof fn law_full_belt(b: BeltV, now: int)
    requires
        b.ok(now),
    ensures
        b.used(now) == b.cap <==> exists|x: u16| #[trigger] b.item_at(now, b.cap - 1, x),
{
    let runs = b.runs;
    let n = runs.len() as int;
    if b.used(now) == b.cap {
        law_ends_of_items(b, now);
        assert(b.item_at(now, b.cap - 1, runs[n - 1].item));
    }
    if exists|x: u16| #[trigger] b.item_at(now, b.cap - 1, x) {
        let x = choose|x: u16| #[trigger] b.item_at(now, b.cap - 1, x);
        law_items_in_range(b, now, b.cap - 1, x);
    }
}

/// A run is as long as it can be: the run behind it holds other items, or there are free
/// cells between the two.
pub proof fn law_runs_are_long(b: BeltV, now: int, k: int)
    requires
        b.ok(now),
        0 <= k < b.runs.len(),
    ensures
        b.runs[k].count >= 1,
        b.runs[k].gap >= 0,
        k == 0 ==> b.runs[k].gap == 0,
        k > 0 && b.runs[k].gap == 0 ==> b.runs[k - 1].item != b.runs[k].item,
{
    if k > 0 {
        assert(b.runs[k - 1].count >= 1);
    }
}

/// An item that is put on a belt lies in its last cell; all other cells stay as
/// they are.
pub proof fn law_item_enters_at_tail(b: BeltV, item: u16, now: int, c: int, x: u16)
    requires
        b.ok(now),
        b.used(now) < b.cap,
    ensures
        b.with_item(item, now).item_at(now, c, x) <==> (b.item_at(now, c, x) || (c == b.cap - 1
            && x == item)),
{
    let r = b.with_item(item, now);
    let runs = b.runs;
    let n = runs.len() as int;
    let gap = b.cap - b.used(now) - 1;
    let d = c - b.lead(now);
    lemma_lead(b, now);
    if n == 0 {
        lemma_lead_set(r, now, gap);
        assert(r.runs.take(0) =~= Seq::<RunV>::empty());
        if c == b.cap - 1 && x == item {
            assert(covers(r.runs, 0, c - r.lead(now)));
        }
    } else {
        assert(r.lead(now) == b.lead(now));
        lemma_run_end(runs, n - 1);
        assert(runs.take(n) =~= runs);
        assert forall|k: int| 0 <= k < n implies #[trigger] start_of(r.runs, k) == start_of(
            runs,
            k,
        ) by {
            assert(r.runs.take(k) =~= runs.take(k));
        }
        if b.item_at(now, c, x) {
            let k = choose|k: int| #[trigger] covers(runs, k, d) && runs[k].item == x;
            assert(start_of(r.runs, k) == start_of(runs, k));
            assert(covers(r.runs, k, d));
        }
        if gap == 0 && runs[n - 1].item == item {
            assert(start_of(r.runs, n - 1) == start_of(runs, n - 1));
            if c == b.cap - 1 && x == item {
                assert(covers(r.runs, n - 1, d));
            }
        } else {
            assert(r.runs.take(n) =~= runs);
            if c == b.cap - 1 && x == item {
                assert(covers(r.runs, n, d));
            }
        }
        if r.item_at(now, c, x) {
            let k = choose|k: int| #[trigger] covers(r.runs, k, d) && r.runs[k].item == x;
            if k < n {
                assert(start_of(r.runs, k) == start_of(runs, k));
                if d < start_of(runs, k) + runs[k].count {
                    assert(covers(runs, k, d));
                }
            }
        }
    }
}

/// When the first item leaves a belt from its head, all other items stay in
/// their cells.
pub proof fn law_item_leaves_from_head(b: BeltV, now: int, c: int, x: u16)
    requires
        b.ok(now),
        b.runs.len() > 0,
        b.lead(now) == 0,
    ensures
        b.without_first(now).item_at(now, c, x) <==> (b.item_at(now, c, x) && c != 0),
        b.item_at(now, 0, b.runs[0].item),
{
    let r = b.without_first(now);
    let runs = b.runs;
    let n = runs.len() as int;
    assert(runs[0].count >= 1 && runs[0].gap == 0);
    assert(runs.take(0) =~= Seq::<RunV>::empty());
    assert(covers(runs, 0, 0));
    if runs[0].count > 1 {
        lemma_lead_set(r, now, 1);
        assert(r.runs.take(0) =~= Seq::<RunV>::empty());
        assert forall|k: int| 1 <= k < n implies #[trigger] start_of(r.runs, k) == start_of(runs, k)
            - 1 by {
            assert(r.runs.take(k) =~= runs.take(k).update(0, r.runs[0]));
            lemma_extent_update(runs.take(k), 0, r.runs[0]);
        }
        lemma_same_cells(runs, r.runs, c, x);
    } else if n == 1 {
        lemma_lead_set(r, now, 0);
    } else {
        lemma_lead_set(r, now, runs[1].gap + 1);
        lemma_second_run(runs);
        lemma_later_cells(runs, r.runs, c, x);
    }
}

/// A shortened first run.
proof fn lemma_same_cells(a: Seq<RunV>, b: Seq<RunV>, c: int, x: u16)
    requires
        a.len() > 0,
        a.len() == b.len(),
        a[0].gap == 0,
        b[0].gap == 0,
        a[0].count == b[0].count + 1,
        a[0].item == b[0].item,
        runs_ok(a),
        forall|k: int| 1 <= k < a.len() ==> b[k] == a[k],
        forall|k: int| 1 <= k < a.len() ==> #[trigger] start_of(b, k) == start_of(a, k) - 1,
    ensures
        run_item(b, c - 1, x) <==> (run_item(a, c, x) && c != 0),
{
    assert(a.take(0) =~= Seq::<RunV>::empty());
    assert(b.take(0) =~= Seq::<RunV>::empty());
    if run_item(b, c - 1, x) {
        let k = choose|k: int| #[trigger] covers(b, k, c - 1) && b[k].item == x;
        if k >= 1 {
            assert(start_of(b, k) == start_of(a, k) - 1);
            lemma_run_order(a, 1, k);
            lemma_run_end(a, 0);
            assert(a[k].gap >= 0);
        }
        assert(covers(a, k, c));
    }
    if run_item(a, c, x) && c != 0 {
        let k = choose|k: int| #[trigger] covers(a, k, c) && a[k].item == x;
        if k >= 1 {
            assert(start_of(b, k) == start_of(a, k) - 1);
        }
        assert(covers(b, k, c - 1));
    }
}

/// The runs behind a first run of one item.
proof fn lemma_second_run(runs: Seq<RunV>)
    requires
        runs_ok(runs),
        runs.len() > 1,
        runs[0].count == 1,
    ensures
        forall|k: int|
            0 <= k < runs.len() - 1 ==> #[trigger] start_of(behind_first(runs), k) == start_of(
                runs,
                k + 1,
            ) - 1 - runs[1].gap,
{
    let b = behind_first(runs);
    assert forall|k: int| 0 <= k < runs.len() - 1 implies #[trigger] start_of(b, k) == start_of(
        runs,
        k + 1,
    ) - 1 - runs[1].gap by {
        let t = runs.take(k + 1);
        lemma_extent_front(t);
        assert(t.drop_first() =~= runs.drop_first().take(k));
        if k == 0 {
            assert(b.take(0) =~= Seq::<RunV>::empty());
            assert(t.drop_first() =~= Seq::<RunV>::empty());
        } else {
            assert(b.take(k) =~= t.drop_first().update(0, b[0]));
            lemma_extent_update(t.drop_first(), 0, b[0]);
        }
    }
}

proof fn lemma_later_cells(runs: Seq<RunV>, b: Seq<RunV>, c: int, x: u16)
    requires
        runs_ok(runs),
        runs.len() > 1,
        runs[0].count == 1,
        b == behind_first(runs),
        forall|k: int|
            0 <= k < runs.len() - 1 ==> #[trigger] start_of(b, k) == start_of(runs, k + 1) - 1
                - runs[1].gap,
    ensures
        run_item(b, c - 1 - runs[1].gap, x) <==> (run_item(runs, c, x) && c != 0),
{
    let d = c - 1 - runs[1].gap;
    assert(runs.take(0) =~= Seq::<RunV>::empty());
    assert(runs[1].gap >= 0);
    if run_item(b, d, x) {
        let k = choose|k: int| #[trigger] covers(b, k, d) && b[k].item == x;
        assert(start_of(b, k) == start_of(runs, k + 1) - 1 - runs[1].gap);
        assert(covers(runs, k + 1, c));
        lemma_run_order(runs, 1, k + 1);
        lemma_run_end(runs, 0);
        assert(runs[k + 1].gap >= 0);
    }
    if run_item(runs, c, x) && c != 0 {
        let k = choose|k: int| #[trigger] covers(runs, k, c) && runs[k].item == x;
        assert(k >= 1);
        assert(start_of(b, k - 1) == start_of(runs, k) - 1 - runs[1].gap);
        assert(covers(b, k - 1, d));
    }
}

/// Until a belt next moves, every item stays in its cell.
pub proof fn law_belt_rests(b: BeltV, now: int, t: int, c: int, x: u16)
    requires
        b.ok(now),
        b.lead(now) > 0,
        now <= t < b.next_move(now),
    ensures
        b.item_at(t, c, x) <==> b.item_at(now, c, x),
{
    lemma_lead(b, now);
    let n = b.lead(now);
    assert(n * b.period >= b.period) by (nonlinear_arith)
        requires
            n >= 1,
            b.period >= 1,
    ;
    lemma_lead_is(b, t, n);
}

/// When a belt moves, every item on it goes on by one cell.
pub proof fn law_belt_moves(b: BeltV, now: int, c: int, x: u16)
    requires
        b.ok(now),
        b.lead(now) > 0,
    ensures
        now < b.next_move(now) <= now + b.period,
        b.lead(b.next_move(now)) == b.lead(now) - 1,
        b.item_at(b.next_move(now), c, x) <==> b.item_at(now, c + 1, x),
{
    lemma_lead(b, now);
    let n = b.lead(now);
    let t = b.next_move(now);
    assert((n - 1) * b.period == n * b.period - b.period) by (nonlinear_arith);
    if n == 1 {
        assert(t == b.due) by {
            assert(1 * b.period == b.period);
        }
    } else {
        assert((n - 1) * b.period >= 1) by (nonlinear_arith)
            requires
                n >= 2,
                b.period >= 1,
        ;
        lemma_lead_is(b, t, n - 1);
    }
}

} // verus!
