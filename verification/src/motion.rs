//! The movement of a belt, accounted for now and then.

use vstd::arithmetic::div_mod::{lemma_fundamental_div_mod, lemma_fundamental_div_mod_converse};
use vstd::prelude::*;

verus! {

/// How far a belt has come, as it was last accounted for.
pub struct Motion {
    /// The tick up to which its movement is accounted for.
    pub last: int,
    /// Number of free cells ahead of its first item.
    pub gap: int,
    /// Position of its last item plus one.
    pub used: int,
}

impl Motion {
    /// Number of cells by which the belt has moved since: one for every `period`
    /// ticks, until its first item is at the head.
    pub open spec fn cells(self, period: int, now: int) -> int {
        if (now - self.last) / period < self.gap {
            (now - self.last) / period
        } else {
            self.gap
        }
    }

    /// The movement accounted for up to `now`.
    pub open spec fn up_to(self, period: int, now: int) -> Motion {
        let k = self.cells(period, now);
        Motion { last: self.last + k * period, gap: self.gap - k, used: self.used - k }
    }
}

/// How many cells a belt moves in two stretches of time.
proof fn lemma_cells(a: Motion, period: int, t: int, now: int)
    requires
        period >= 1,
        0 <= a.gap,
        a.last <= t <= now,
    ensures
        0 <= a.cells(period, t) <= a.cells(period, now) <= a.gap,
        a.up_to(period, t).last <= t,
        a.cells(period, t) + a.up_to(period, t).cells(period, now) == a.cells(period, now),
{
    let x = t - a.last;
    let y = now - a.last;
    let k = a.cells(period, t);
    let q = x / period;
    let p = y / period;
    lemma_fundamental_div_mod(x, period);
    lemma_fundamental_div_mod(y, period);
    let r = x % period;
    let s = y % period;
    assert(0 <= q <= p && q * period <= x) by (nonlinear_arith)
        requires
            period >= 1,
            x == period * q + r,
            y == period * p + s,
            0 <= r < period,
            0 <= s < period,
            0 <= x <= y,
    ;
    assert(k * period <= q * period) by (nonlinear_arith)
        requires
            k <= q,
            period >= 1,
    ;
    // What is left of the time after `k` cells.
    let z = y - k * period;
    assert(z == period * (p - k) + s) by (nonlinear_arith)
        requires
            z == y - k * period,
            y == period * p + s,
    ;
    lemma_fundamental_div_mod_converse(z, period, p - k, s);
}

/// To account for the movement of a belt once more at the same tick changes nothing,
/// and whether it was accounted for on the way makes no difference.
pub proof fn law_accounting_on_the_way(a: Motion, period: int, t: int, now: int)
    requires
        period >= 1,
        0 <= a.gap <= a.used,
        a.last <= t <= now,
    ensures
        a.up_to(period, t).up_to(period, t) == a.up_to(period, t),
        a.up_to(period, t).up_to(period, now) == a.up_to(period, now),
        0 <= a.up_to(period, t).gap <= a.up_to(period, t).used,
        a.up_to(period, t).last <= t,
{
    lemma_cells(a, period, t, t);
    lemma_cells(a, period, t, now);
    let k = a.cells(period, t);
    let l = a.up_to(period, t).cells(period, now);
    assert(k * period + l * period == (k + l) * period) by (nonlinear_arith);
    let z = a.up_to(period, t).cells(period, t);
    assert(z * period == 0) by (nonlinear_arith)
        requires
            z == 0,
    ;
}

} // verus!
