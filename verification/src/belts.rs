//! What holds of every belt, and how far it has come at a tick.

use vstd::prelude::*;

use crate::model::{behind_first, extent, item_count, BeltV, RunV};
use crate::seqs::{lemma_tally_le, lemma_tally_push, lemma_tally_update, tally};

verus! {

/// Runs as a belt keeps them: each holds an item, no gap is negative, the first
/// has no gap, and neighbours that touch hold different items.
pub open spec fn runs_ok(runs: Seq<RunV>) -> bool {
    &&& forall|k: int| 0 <= k < runs.len() ==> (#[trigger] runs[k]).count >= 1 && runs[k].gap >= 0
    &&& runs.len() > 0 ==> runs[0].gap == 0
    &&& forall|k: int|
        1 <= k < runs.len() && (#[trigger] runs[k]).gap == 0 ==> runs[k].item != runs[k - 1].item
}

impl BeltV {
    /// What holds of every belt.
    pub open spec fn ok(self, now: int) -> bool {
        &&& 1 <= self.cap <= 0xffff
        &&& 1 <= self.period <= 0xffff
        &&& runs_ok(self.runs)
        &&& self.used(now) <= self.cap
        &&& self.runs.len() == 0 ==> self.due <= now && !self.blocked
        &&& self.blocked ==> self.due <= now
    }
}

// ------------------------------------------------------------------- extent

pub proof fn lemma_extent_push(runs: Seq<RunV>, r: RunV)
    ensures
        extent(runs.push(r)) == extent(runs) + r.gap + r.count,
        item_count(runs.push(r)) == item_count(runs) + r.count,
{
    lemma_tally_push(runs, |i: int, x: RunV| x.gap + x.count, r);
    lemma_tally_push(runs, |i: int, x: RunV| x.count, r);
}

pub proof fn lemma_extent_update(runs: Seq<RunV>, k: int, r: RunV)
    requires
        0 <= k < runs.len(),
    ensures
        extent(runs.update(k, r)) == extent(runs) - runs[k].gap - runs[k].count + r.gap + r.count,
        item_count(runs.update(k, r)) == item_count(runs) - runs[k].count + r.count,
{
    lemma_tally_update(runs, |i: int, x: RunV| x.gap + x.count, k, r);
    lemma_tally_update(runs, |i: int, x: RunV| x.count, k, r);
}

pub proof fn lemma_extent_front(runs: Seq<RunV>)
    requires
        runs.len() > 0,
    ensures
        extent(runs) == runs[0].gap + runs[0].count + extent(runs.drop_first()),
        item_count(runs) == runs[0].count + item_count(runs.drop_first()),
    decreases runs.len(),
{
    let f = |i: int, x: RunV| x.gap + x.count;
    let g = |i: int, x: RunV| x.count;
    let rest = runs.drop_first();
    if runs.len() == 1 {
        assert(runs.drop_last() =~= Seq::<RunV>::empty());
        assert(tally(runs.drop_last(), f) == 0);
        assert(tally(runs.drop_last(), g) == 0);
        assert(tally(rest, f) == 0);
        assert(tally(rest, g) == 0);
    } else {
        lemma_extent_front(runs.drop_last());
        assert(runs.drop_last().drop_first() =~= rest.drop_last());
        assert(rest.last() == runs.last());
    }
}

/// Runs hold at least as many cells as items, and at least one item each.
pub proof fn lemma_extent_bounds(runs: Seq<RunV>)
    requires
        forall|k: int|
            0 <= k < runs.len() ==> (#[trigger] runs[k]).count >= 1 && runs[k].gap >= 0,
    ensures
        runs.len() <= item_count(runs) <= extent(runs),
    decreases runs.len(),
{
    lemma_tally_le(
        runs,
        |i: int, x: RunV| x.count,
        runs,
        |i: int, x: RunV| x.gap + x.count,
    );
    if runs.len() > 0 {
        let t = runs.drop_last();
        assert forall|k: int| 0 <= k < t.len() implies (#[trigger] t[k]).count >= 1 && t[k].gap
            >= 0 by {
            assert(t[k] == runs[k]);
        }
        lemma_extent_bounds(t);
        assert(runs[runs.len() - 1].count >= 1);
    }
}

pub proof fn lemma_extent_empty()
    ensures
        extent(Seq::empty()) == 0,
        item_count(Seq::empty()) == 0,
{
}

pub proof fn lemma_extent_single(r: RunV)
    ensures
        extent(seq![r]) == r.gap + r.count,
        item_count(seq![r]) == r.count,
{
    lemma_extent_push(Seq::empty(), r);
    assert(Seq::<RunV>::empty().push(r) =~= seq![r]);
}

/// The runs without their first item.
pub proof fn lemma_behind_first(runs: Seq<RunV>)
    requires
        runs_ok(runs),
        runs.len() > 0,
    ensures
        runs_ok(behind_first(runs)),
        item_count(behind_first(runs)) == item_count(runs) - 1,
        extent(behind_first(runs)) == extent(runs) - 1 - (if runs[0].count == 1 && runs.len() > 1 {
            runs[1].gap
        } else {
            0
        }),
{
    let b = behind_first(runs);
    assert(runs[0].count >= 1);
    if runs[0].count > 1 {
        lemma_extent_update(runs, 0, RunV { count: runs[0].count - 1, ..runs[0] });
        assert forall|k: int| 1 <= k < b.len() && (#[trigger] b[k]).gap == 0 implies b[k].item
            != b[k - 1].item by {
            assert(runs[k].item != runs[k - 1].item);
        }
    } else if runs.len() == 1 {
        assert(runs =~= seq![runs[0]]);
        lemma_extent_single(runs[0]);
    } else {
        let rest = runs.drop_first();
        lemma_extent_front(runs);
        lemma_extent_update(rest, 0, RunV { gap: 0, ..runs[1] });
        assert(runs[1].gap >= 0);
        assert forall|k: int| 0 <= k < b.len() implies (#[trigger] b[k]).count >= 1 && b[k].gap
            >= 0 by {
            assert(rest[k] == runs[k + 1]);
        }
        assert forall|k: int| 1 <= k < b.len() && (#[trigger] b[k]).gap == 0 implies b[k].item
            != b[k - 1].item by {
            assert(rest[k] == runs[k + 1]);
            assert(runs[k + 1].item != runs[k].item);
        }
    }
}

// --------------------------------------------------------------------- lead

/// How far a belt still has to go, in cells and in ticks.
pub proof fn lemma_lead(b: BeltV, now: int)
    requires
        b.period >= 1,
    ensures
        b.lead(now) >= 0,
        b.lead(now) > 0 <==> b.due > now,
        b.due - b.lead(now) * b.period <= now,
        b.due > now ==> now < b.next_move(now) <= now + b.period,
        b.due <= now ==> b.next_move(now) == b.due + b.period,
{
    if b.due > now {
        let d = b.due - now;
        let p = b.period;
        let n = (d + p - 1) / p;
        assert(n * p >= d && (n - 1) * p < d && n >= 1) by (nonlinear_arith)
            requires
                p >= 1,
                d >= 1,
                n == (d + p - 1) / p,
        ;
        assert((n - 1) * p == n * p - p) by (nonlinear_arith);
    } else {
        assert(0 * b.period == 0);
    }
}

/// The lead is the one number of cells that ends between now and one period
/// back.
pub proof fn lemma_lead_is(b: BeltV, now: int, n: int)
    requires
        b.period >= 1,
        n >= 1,
        now - b.period < b.due - n * b.period <= now,
        b.due > now,
    ensures
        b.lead(now) == n,
{
    let d = b.due - now;
    let p = b.period;
    assert((d + p - 1) / p == n) by (nonlinear_arith)
        requires
            p >= 1,
            n >= 1,
            n * p >= d,
            n * p < d + p,
    ;
}

/// A belt that is set to have `n` cells to go has that lead.
pub proof fn lemma_lead_set(b: BeltV, now: int, n: int)
    requires
        b.period >= 1,
        n >= 0,
        b.due == now + n * b.period,
    ensures
        b.lead(now) == n,
{
    if n == 0 {
        assert(n * b.period == 0);
    } else {
        assert(n * b.period >= 1) by (nonlinear_arith)
            requires
                n >= 1,
                b.period >= 1,
        ;
        lemma_lead_is(b, now, n);
    }
}

/// As time goes by a belt's lead does not grow.
pub proof fn lemma_lead_shrinks(b: BeltV, now: int, later: int)
    requires
        b.period >= 1,
        now <= later,
    ensures
        b.lead(later) <= b.lead(now),
{
    if b.due > later {
        let p = b.period;
        let x = b.due - later + p - 1;
        let y = b.due - now + p - 1;
        assert(x / p <= y / p) by (nonlinear_arith)
            requires
                x <= y,
                p >= 1,
        ;
    } else {
        lemma_lead(b, now);
    }
}

/// A belt stays in order as time goes by.
pub proof fn lemma_ok_later(b: BeltV, now: int)
    requires
        b.ok(now),
    ensures
        b.ok(now + 1),
{
    lemma_lead_shrinks(b, now, now + 1);
}

/// An item that is put on a belt with room lies in its last cell.
pub proof fn lemma_with_item(b: BeltV, item: u16, now: int)
    requires
        b.ok(now),
        b.used(now) < b.cap,
    ensures
        b.with_item(item, now).ok(now),
        b.with_item(item, now).used(now) == b.cap,
        b.with_item(item, now).runs.len() > 0,
        item_count(b.with_item(item, now).runs) == item_count(b.runs) + 1,
        b.runs.len() == 0 ==> {
            &&& b.with_item(item, now).lead(now) == b.cap - 1
            &&& now <= b.with_item(item, now).due == now + (b.cap - 1) * b.period
        },
        b.runs.len() > 0 ==> {
            &&& b.with_item(item, now).due == b.due
            &&& b.with_item(item, now).runs[0].item == b.runs[0].item
        },
{
    let w = b.with_item(item, now);
    let n = b.runs.len() as int;
    let gap = b.cap - b.used(now) - 1;
    lemma_lead(b, now);
    lemma_extent_bounds(b.runs);
    if n == 0 {
        lemma_extent_single(RunV { item, count: 1, gap: 0 });
        lemma_extent_empty();
        assert(b.runs =~= Seq::<RunV>::empty());
        lemma_lead_set(w, now, gap);
        assert(gap * b.period >= 0) by (nonlinear_arith)
            requires
                gap >= 0,
                b.period >= 1,
        ;
    } else if gap == 0 && b.runs[n - 1].item == item {
        let r = RunV { count: b.runs[n - 1].count + 1, ..b.runs[n - 1] };
        lemma_extent_update(b.runs, n - 1, r);
        assert(b.runs[n - 1].count >= 1);
        assert forall|k: int| 1 <= k < w.runs.len() && (#[trigger] w.runs[k]).gap == 0 implies w.runs[k].item
            != w.runs[k - 1].item by {
            assert(b.runs[k].item != b.runs[k - 1].item);
        }
        assert(w.lead(now) == b.lead(now));
    } else {
        lemma_extent_push(b.runs, RunV { item, count: 1, gap });
        assert forall|k: int| 1 <= k < w.runs.len() && (#[trigger] w.runs[k]).gap == 0 implies w.runs[k].item
            != w.runs[k - 1].item by {
            if k < n {
                assert(b.runs[k].item != b.runs[k - 1].item);
            }
        }
        assert(w.lead(now) == b.lead(now));
    }
}

/// When the first item leaves a belt from the head, the others stay where they
/// are.
pub proof fn lemma_without_first(b: BeltV, now: int)
    requires
        b.ok(now),
        b.runs.len() > 0,
        b.lead(now) == 0,
    ensures
        b.without_first(now).ok(now),
        item_count(b.without_first(now).runs) == item_count(b.runs) - 1,
        b.without_first(now).runs.len() > 0 ==> {
            &&& b.without_first(now).used(now) == b.used(now)
            &&& 1 <= b.without_first(now).lead(now) <= b.cap - 1
            &&& b.without_first(now).due > now
        },
{
    let w = b.without_first(now);
    let lead = if b.runs[0].count > 1 {
        1
    } else if b.runs.len() == 1 {
        0
    } else {
        b.runs[1].gap + 1
    };
    assert(b.runs[0].count >= 1);
    if b.runs.len() > 1 {
        assert(b.runs[1].gap >= 0);
    }
    lemma_behind_first(b.runs);
    lemma_lead_set(w, now, lead);
    lemma_lead(w, now);
    if w.runs.len() > 0 {
        lemma_extent_bounds(w.runs);
    } else {
        assert(0 * b.period == 0);
    }
}

/// A belt holds no more items than cells.
pub proof fn lemma_items_fit(b: BeltV, now: int)
    requires
        b.ok(now),
    ensures
        0 <= item_count(b.runs) <= b.cap,
{
    lemma_extent_bounds(b.runs);
    lemma_lead(b, now);
}

} // verus!
