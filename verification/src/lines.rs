//! Production lines: raw items become products, and none is lost.

use vstd::arithmetic::div_mod::lemma_fundamental_div_mod_converse;
use vstd::prelude::*;

use crate::balance::{law_items_grow_slowly, law_sinks_keep_items};
use crate::emission::lemma_emitted;
use crate::history::{law_histories_keep_order, Act};
use crate::ids::{idx, kind, node, K_BELT, K_MACH, K_SINK, K_SRC};
use crate::model::{item_count, wrap, BeltV, MachineV, Model, RunV, SinkV, SourceV};
use crate::scenario::{lemma_lines, lemma_lines_run, Scenario, PRODUCT, RAW};
use crate::seqs::{lemma_tally_combine, lemma_tally_const, lemma_tally_same, tally};
use crate::ticks::{lemma_run, lemma_same_layout, lemma_step};
use crate::valid::{
    lemma_add_belt, lemma_add_machine, lemma_add_sink, lemma_add_source, lemma_empty,
    lemma_set_sink_open,
};
use crate::worth::{gets, law_worth_grows_by_what_is_emitted, runs_worth};

verus! {

impl Scenario {
    /// What the belts and sinks of the production lines get: the belts ahead of
    /// the machine raw items, those behind it and the sink products.
    pub open spec fn carried(self) -> spec_fn(u32) -> u16 {
        |id: u32|
            if kind(id) == K_BELT && idx(id) % self.belts_per_line() >= self.belts_out {
                RAW
            } else {
                PRODUCT
            }
    }

    /// What an item is worth in raw items.
    pub open spec fn price(self) -> spec_fn(u16) -> int {
        |item: u16|
            if item == PRODUCT {
                self.mach_need as int
            } else {
                1
            }
    }
}

/// Number of the items of the runs that are `item`.
pub open spec fn count_of(runs: Seq<RunV>, item: u16) -> int {
    tally(
        runs,
        |k: int, r: RunV|
            if r.item == item {
                r.count
            } else {
                0
            },
    )
}

impl Model {
    /// Number of the items on belts that are `item`.
    pub open spec fn on_belts(self, item: u16) -> int {
        tally(self.belts, |i: int, b: BeltV| count_of(b.runs, item))
    }

    /// Number of raw items: on belts, and in machines that have not begun to work
    /// on them.
    pub open spec fn raw_items(self) -> int {
        self.on_belts(RAW) + tally(self.machines, |i: int, c: MachineV| c.have)
    }

    /// Number of products: being made, made, on belts, and received by sinks.
    pub open spec fn products(self) -> int {
        self.on_belts(PRODUCT) + tally(
            self.machines,
            |i: int, c: MachineV|
                if c.busy || c.has_out {
                    1int
                } else {
                    0
                },
        ) + self.delivered()
    }

    /// The factory is one of the scenario's production lines: machines make
    /// products of raw items, sources emit raw items, and there are no other items
    /// on the belts than those that belong there, nor more than the sources can
    /// have emitted.
    pub open spec fn of_lines(self, cfg: Scenario) -> bool {
        &&& self.linked()
        &&& self.sources.len() == cfg.lines
        &&& forall|i: int|
            0 <= i < self.machines.len() ==> {
                &&& (#[trigger] self.machines[i]).in_item == RAW
                &&& self.machines[i].out_item == PRODUCT
                &&& self.machines[i].need == cfg.mach_need
            }
        &&& forall|i: int| 0 <= i < self.sources.len() ==> (#[trigger] self.sources[i]).item == RAW
        &&& self.graded(cfg.carried())
        &&& self.items() <= (self.now + 1) * cfg.lines
    }

    /// Number of items that the sources emit in `n` ticks.
    pub open spec fn emitted_in(self, n: nat) -> int
        decreases n,
    {
        if n == 0 {
            0
        } else {
            self.emitted_in((n - 1) as nat) + self.run((n - 1) as nat).emitted()
        }
    }
}

// ------------------------------------------------------------------------ built

/// A row of belts that all get the same items.
proof fn lemma_row_graded(
    m: Model,
    grade: spec_fn(u32) -> u16,
    n: nat,
    cap: int,
    period: int,
    out: u32,
    x: u16,
)
    requires
        m.graded(grade),
        gets(grade, out, x),
        m.belts.len() + n <= 0x4000_0000,
        forall|j: int|
            m.belts.len() <= j < m.belts.len() + n ==> grade(#[trigger] node(K_BELT, j)) == x,
    ensures
        ({
            let r = m.with_row(n, cap, period, out);
            &&& r.graded(grade)
            &&& r.belts.len() == m.belts.len() + n
            &&& r.machines == m.machines
            &&& r.sinks == m.sinks
            &&& r.sources == m.sources
            &&& gets(grade, m.end_of_row(n, out), x)
        }),
    decreases n,
{
    if n > 0 {
        let k = (n - 1) as nat;
        lemma_row_graded(m, grade, k, cap, period, out, x);
        let p = m.with_row(k, cap, period, out);
        let r = m.with_row(n, cap, period, out);
        let b = r.belts[p.belts.len() as int];
        assert(b.out == m.end_of_row(k, out));
        assert forall|i: int, j: int|
            0 <= i < r.belts.len() && 0 <= j < r.belts[i].runs.len() implies (
        #[trigger] r.belts[i].runs[j]).item == grade(node(K_BELT, i)) by {
            assert(i < p.belts.len());
            assert(r.belts[i] == p.belts[i]);
            assert(p.belts[i].runs[j].item == grade(node(K_BELT, i)));
        }
    }
}

/// The machines, sinks and sources of production lines as they are built.
spec fn fresh(m: Model, cfg: Scenario) -> bool {
    &&& forall|i: int|
        0 <= i < m.machines.len() ==> {
            &&& (#[trigger] m.machines[i]).in_item == RAW
            &&& m.machines[i].out_item == PRODUCT
            &&& m.machines[i].need == cfg.mach_need
            &&& !m.machines[i].busy
        }
    &&& forall|i: int| 0 <= i < m.sinks.len() ==> (#[trigger] m.sinks[i]).count == 0
    &&& forall|i: int| 0 <= i < m.sources.len() ==> (#[trigger] m.sources[i]).item == RAW
}

proof fn lemma_line_graded(m: Model, cfg: Scenario, n: nat)
    requires
        m.graded(cfg.carried()),
        fresh(m, cfg),
        m.belts.len() == n * cfg.belts_per_line(),
        m.belts.len() + cfg.belts_per_line() <= 0x4000_0000,
        m.machines.len() < 0x4000_0000,
        m.sinks.len() < 0x4000_0000,
        m.sources.len() < 0x3fff_ffff,
    ensures
        m.with_line(cfg).graded(cfg.carried()),
        fresh(m.with_line(cfg), cfg),
{
    let g = cfg.carried();
    let per = cfg.belts_per_line();
    let first = m.belts.len() as int;
    assert forall|j: int| first <= j < first + per implies g(#[trigger] node(K_BELT, j)) == (if j
        - first >= cfg.belts_out {
        RAW
    } else {
        PRODUCT
    }) by {
        assert(j == per * n + (j - first)) by (nonlinear_arith)
            requires
                first == n * per,
        ;
        lemma_fundamental_div_mod_converse(j, per, n as int, j - first);
        assert(idx(node(K_BELT, j)) == j);
    }
    let cap = cfg.belt_cap as int;
    let period = cfg.belt_period as int;
    let sink = node(K_SINK, m.sinks.len() as int);
    let machine = node(K_MACH, m.machines.len() as int);
    let m1 = m.add_sink();
    assert(m1.graded(g));
    assert(gets(g, sink, PRODUCT));
    lemma_row_graded(m1, g, cfg.belts_out as nat, cap, period, sink, PRODUCT);
    let r1 = m1.with_row(cfg.belts_out as nat, cap, period, sink);
    let last_out = m1.end_of_row(cfg.belts_out as nat, sink);
    let m2 = r1.add_machine(
        RAW,
        cfg.mach_need as int,
        PRODUCT,
        cfg.mach_dur as int,
        last_out,
    );
    assert(m2.graded(g));
    lemma_row_graded(m2, g, cfg.belts_in as nat, cap, period, machine, RAW);
    let r2 = m2.with_row(cfg.belts_in as nat, cap, period, machine);
    let m3 = m.with_line(cfg);
    assert(m3.belts == r2.belts);
    assert(m3.graded(g));
}

proof fn lemma_row_valid(m: Model, n: nat, cap: int, period: int, out: u32)
    requires
        m.valid(),
        n > 0 ==> 1 <= cap <= 0xffff && 1 <= period <= 0xffff,
        m.belts.len() + n <= 0x4000_0000,
    ensures
        m.with_row(n, cap, period, out).valid(),
        m.with_row(n, cap, period, out).belts.len() == m.belts.len() + n,
        m.with_row(n, cap, period, out).machines == m.machines,
        m.with_row(n, cap, period, out).sinks == m.sinks,
        m.with_row(n, cap, period, out).sources == m.sources,
    decreases n,
{
    if n > 0 {
        let k = (n - 1) as nat;
        lemma_row_valid(m, k, cap, period, out);
        lemma_add_belt(m.with_row(k, cap, period, out), cap, period, m.end_of_row(k, out));
    }
}

/// Production lines are in order as they are built.
proof fn lemma_lines_valid(cfg: Scenario, n: nat)
    requires
        cfg.buildable(),
        n <= cfg.lines,
    ensures
        Model::lines_of(cfg, n).valid(),
    decreases n,
{
    if n > 0 {
        let k = (n - 1) as nat;
        let per = cfg.belts_per_line();
        assert(k * per + per <= cfg.lines * per) by (nonlinear_arith)
            requires
                k + 1 <= cfg.lines,
                per >= 0,
        ;
        lemma_lines_valid(cfg, k);
        lemma_lines(cfg, k);
        let m = Model::lines_of(cfg, k);
        assert(cfg.lines > 0);
        let cap = cfg.belt_cap as int;
        let period = cfg.belt_period as int;
        let sink = node(K_SINK, m.sinks.len() as int);
        let machine = node(K_MACH, m.machines.len() as int);
        lemma_add_sink(m);
        let m1 = m.add_sink();
        lemma_row_valid(m1, cfg.belts_out as nat, cap, period, sink);
        let r1 = m1.with_row(cfg.belts_out as nat, cap, period, sink);
        let last_out = m1.end_of_row(cfg.belts_out as nat, sink);
        lemma_add_machine(
            r1,
            RAW,
            cfg.mach_need as int,
            PRODUCT,
            cfg.mach_dur as int,
            last_out,
        );
        let m2 = r1.add_machine(
            RAW,
            cfg.mach_need as int,
            PRODUCT,
            cfg.mach_dur as int,
            last_out,
        );
        lemma_row_valid(m2, cfg.belts_in as nat, cap, period, machine);
        lemma_add_source(
            m2.with_row(cfg.belts_in as nat, cap, period, machine),
            RAW,
            cfg.src_period as int,
            m2.end_of_row(cfg.belts_in as nat, machine),
        );
    } else {
        lemma_empty();
    }
}

proof fn lemma_lines_graded(cfg: Scenario, n: nat)
    requires
        n * cfg.belts_per_line() <= 0x4000_0000,
        n <= 0x3fff_ffff,
    ensures
        Model::lines_of(cfg, n).graded(cfg.carried()),
        fresh(Model::lines_of(cfg, n), cfg),
    decreases n,
{
    if n > 0 {
        let k = (n - 1) as nat;
        assert(k * cfg.belts_per_line() + cfg.belts_per_line() == n * cfg.belts_per_line())
            by (nonlinear_arith)
            requires
                k == n - 1,
        ;
        lemma_lines_graded(cfg, k);
        lemma_lines(cfg, k);
        lemma_line_graded(Model::lines_of(cfg, k), cfg, k);
    }
}

/// What is built for a scenario is its production lines, in order.
pub proof fn law_lines_built(cfg: Scenario)
    requires
        cfg.buildable(),
    ensures
        Model::lines_of(cfg, cfg.lines as nat).valid(),
        Model::lines_of(cfg, cfg.lines as nat).between_ticks(),
        Model::lines_of(cfg, cfg.lines as nat).of_lines(cfg),
{
    let n = cfg.lines as nat;
    let m = Model::lines_of(cfg, n);
    lemma_lines(cfg, n);
    lemma_lines_run(cfg);
    lemma_lines_graded(cfg, n);
    lemma_lines_valid(cfg, n);
    lemma_tally_const(m.belts, |i: int, b: BeltV| item_count(b.runs), 0);
    lemma_tally_const(m.machines, |i: int, c: MachineV| c.holding(m.now), 0);
    lemma_tally_const(m.sinks, |i: int, c: SinkV| c.count, 0);
    lemma_tally_const(m.sources, |i: int, c: SourceV| c.pending(m.now), 1);
}

// ----------------------------------------------------------------------- layout

/// A row of belts: each delivers to the one before, the first to `out`.
proof fn lemma_row_layout(m: Model, n: nat, cap: int, period: int, out: u32, j: int)
    requires
        0 <= j < m.belts.len() + n,
    ensures
        ({
            let r = m.with_row(n, cap, period, out);
            let first = m.belts.len() as int;
            let b = r.belts[j];
            &&& r.belts.len() == first + n
            &&& r.machines == m.machines && r.sinks == m.sinks && r.sources == m.sources
            &&& r.q == m.q
            &&& j < first ==> b == m.belts[j]
            &&& j >= first ==> b.cap == cap && b.period == period && b.runs.len() == 0
            &&& j == first ==> b.out == out
            &&& j > first ==> b.out == node(K_BELT, j - 1)
        }),
    decreases n,
{
    if n > 0 {
        let k = (n - 1) as nat;
        if j < m.belts.len() + k {
            lemma_row_layout(m, k, cap, period, out, j);
        } else if m.belts.len() + k > 0 {
            lemma_row_layout(m, k, cap, period, out, 0);
        } else {
            assert(m.with_row(0, cap, period, out) == m);
        }
    }
}

/// Line `k` of the production lines is laid out as it has to be.
spec fn line_laid(m: Model, cfg: Scenario, k: int) -> bool {
    let per = cfg.belts_per_line();
    let c = m.machines[k];
    let s = m.sources[k];
    &&& c.in_item == 1 && c.out_item == 2 && c.need == cfg.mach_need && c.dur == cfg.mach_dur
    &&& c.have == 0 && !c.busy && !c.has_out
    &&& c.out == (if cfg.belts_out > 0 {
        node(K_BELT, k * per + cfg.belts_out - 1)
    } else {
        node(K_SINK, k)
    })
    &&& s.item == 1 && s.period == cfg.src_period && s.until == 0 && !s.blocked
    &&& s.out == (if cfg.belts_in > 0 {
        node(K_BELT, k * per + per - 1)
    } else {
        node(K_MACH, k)
    })
    &&& m.sinks[k].count == 0 && m.sinks[k].open != 0
    &&& m.q.ready[k] == node(K_SRC, k)
    &&& forall|j: int| 0 <= j < per ==> #[trigger] belt_laid(m, cfg, k, j)
}

/// Belt `j` of line `k`, counted from the sink on.
spec fn belt_laid(m: Model, cfg: Scenario, k: int, j: int) -> bool {
    let at = k * cfg.belts_per_line() + j;
    let b = m.belts[at];
    &&& b.cap == cfg.belt_cap && b.period == cfg.belt_period && b.runs.len() == 0
    &&& b.out == (if j == 0 && cfg.belts_out > 0 {
        node(K_SINK, k)
    } else if j == cfg.belts_out {
        node(K_MACH, k)
    } else {
        node(K_BELT, at - 1)
    })
}

/// One more line is laid out as it has to be, and the others stay as they are.
proof fn lemma_line_layout(m: Model, cfg: Scenario, n: nat)
    requires
        m.belts.len() == n * cfg.belts_per_line(),
        m.machines.len() == n,
        m.sinks.len() == n,
        m.sources.len() == n,
        m.q.ready.len() == n,
        m.now == 0,
        forall|k: int| 0 <= k < n ==> #[trigger] line_laid(m, cfg, k),
    ensures
        ({
            let r = m.with_line(cfg);
            &&& r.q.ready.len() == n + 1
            &&& forall|k: int| 0 <= k < n + 1 ==> #[trigger] line_laid(r, cfg, k)
        }),
{
    let per = cfg.belts_per_line();
    let cap = cfg.belt_cap as int;
    let period = cfg.belt_period as int;
    let first = m.belts.len() as int;
    let sink = node(K_SINK, n as int);
    let machine = node(K_MACH, n as int);
    let m1 = m.add_sink();
    let r1 = m1.with_row(cfg.belts_out as nat, cap, period, sink);
    let last_out = m1.end_of_row(cfg.belts_out as nat, sink);
    let m2 = r1.add_machine(
        RAW,
        cfg.mach_need as int,
        PRODUCT,
        cfg.mach_dur as int,
        last_out,
    );
    let r2 = m2.with_row(cfg.belts_in as nat, cap, period, machine);
    let r = m.with_line(cfg);
    lemma_rows_sizes(m1, cfg.belts_out as nat, cap, period, sink);
    lemma_rows_sizes(m2, cfg.belts_in as nat, cap, period, machine);
    assert(r.belts == r2.belts);
    assert(r.machines == m2.machines);
    assert(r.sinks == m1.sinks);
    assert(r.q.ready == m.q.ready.push(node(K_SRC, n as int)));
    assert forall|k: int| 0 <= k < n + 1 implies #[trigger] line_laid(r, cfg, k) by {
        if k < n {
            assert(line_laid(m, cfg, k));
        }
        assert forall|j: int| 0 <= j < per implies #[trigger] belt_laid(r, cfg, k, j) by {
            let at = k * per + j;
            if k < n {
                assert(belt_laid(m, cfg, k, j));
                assert(0 <= at < first) by (nonlinear_arith)
                    requires
                        0 <= k < n,
                        0 <= j < per,
                        at == k * per + j,
                        first == n * per,
                ;
            } else {
                assert(at == first + j);
            }
            if at < first + cfg.belts_out {
                lemma_row_layout(m1, cfg.belts_out as nat, cap, period, sink, at);
            }
            lemma_row_layout(m2, cfg.belts_in as nat, cap, period, machine, at);
        }
    }
}

proof fn lemma_rows_sizes(m: Model, n: nat, cap: int, period: int, out: u32)
    ensures
        ({
            let r = m.with_row(n, cap, period, out);
            &&& r.belts.len() == m.belts.len() + n
            &&& r.machines == m.machines && r.sinks == m.sinks && r.sources == m.sources
            &&& r.q == m.q && r.now == m.now
        }),
    decreases n,
{
    if n > 0 {
        lemma_rows_sizes(m, (n - 1) as nat, cap, period, out);
    }
}

proof fn lemma_lines_layout(cfg: Scenario, n: nat)
    requires
        n * cfg.belts_per_line() <= 0x4000_0000,
        n <= 0x3fff_ffff,
    ensures
        Model::lines_of(cfg, n).q.ready.len() == n,
        forall|k: int| 0 <= k < n ==> #[trigger] line_laid(Model::lines_of(cfg, n), cfg, k),
    decreases n,
{
    if n > 0 {
        let k = (n - 1) as nat;
        assert(k * cfg.belts_per_line() + cfg.belts_per_line() == n * cfg.belts_per_line())
            by (nonlinear_arith)
            requires
                k == n - 1,
        ;
        lemma_lines_layout(cfg, k);
        lemma_lines(cfg, k);
        lemma_line_layout(Model::lines_of(cfg, k), cfg, k);
    }
}

/// How production lines are laid out. Each has its source, its belts, its machine and its
/// sink: the source delivers to the last belt ahead of the machine, each belt to the one
/// before, the first of them to the machine, that to the last belt behind it, and so on
/// down to the sink. Where there are no belts, the source delivers to the machine, and the
/// machine to the sink. Everything is empty and idle, sinks are open, and sources are
/// about to emit.
pub proof fn law_lines_are_laid_out(cfg: Scenario, k: int, j: int)
    requires
        cfg.buildable(),
        0 <= k < cfg.lines,
    ensures
        ({
            let m = Model::lines_of(cfg, cfg.lines as nat);
            let per = cfg.belts_in + cfg.belts_out;
            let c = m.machines[k];
            let s = m.sources[k];
            let at = k * per + j;
            let b = m.belts[at];
            &&& m.belts.len() == cfg.lines * per
            &&& m.machines.len() == cfg.lines && m.sinks.len() == cfg.lines
            &&& m.sources.len() == cfg.lines && m.q.ready.len() == cfg.lines
            &&& c.in_item == 1 && c.out_item == 2
            &&& c.need == cfg.mach_need && c.dur == cfg.mach_dur
            &&& c.have == 0 && !c.busy && !c.has_out
            &&& cfg.belts_out > 0 ==> c.out == node(K_BELT, k * per + cfg.belts_out - 1)
            &&& cfg.belts_out == 0 ==> c.out == node(K_SINK, k)
            &&& s.item == 1 && s.period == cfg.src_period && s.until == 0 && !s.blocked
            &&& cfg.belts_in > 0 ==> s.out == node(K_BELT, k * per + per - 1)
            &&& cfg.belts_in == 0 ==> s.out == node(K_MACH, k)
            &&& m.sinks[k].count == 0 && m.sinks[k].open != 0
            &&& m.q.ready[k] == node(K_SRC, k)
            &&& 0 <= j < per ==> {
                &&& b.cap == cfg.belt_cap && b.period == cfg.belt_period
                &&& b.runs.len() == 0
                &&& j == 0 && cfg.belts_out > 0 ==> b.out == node(K_SINK, k)
                &&& j == cfg.belts_out ==> b.out == node(K_MACH, k)
                &&& j != 0 && j != cfg.belts_out ==> b.out == node(K_BELT, at - 1)
            }
        }),
{
    let n = cfg.lines as nat;
    lemma_lines(cfg, n);
    lemma_lines_layout(cfg, n);
    let m = Model::lines_of(cfg, n);
    assert(line_laid(m, cfg, k));
    if 0 <= j < cfg.belts_per_line() {
        assert(belt_laid(m, cfg, k, j));
    }
}

// ------------------------------------------------------------------------- kept

/// Fewer items than can be counted.
proof fn lemma_countable(m: Model, cfg: Scenario)
    requires
        m.of_lines(cfg),
        0 <= m.now <= 0xffff_ffff,
    ensures
        m.items() < wrap(),
{
    assert((m.now + 1) * cfg.lines <= 0x1_0000_0000 * 0xffff_ffff) by (nonlinear_arith)
        requires
            0 <= m.now <= 0xffff_ffff,
            cfg.lines <= 0xffff_ffff,
    ;
}

/// Production lines stay production lines as they run.
proof fn lemma_lines_step(m: Model, cfg: Scenario)
    requires
        m.valid(),
        m.of_lines(cfg),
        0 <= m.now <= 0xffff_ffff,
    ensures
        m.step().of_lines(cfg),
        m.step().worth(cfg.price(), cfg.carried()) == m.worth(cfg.price(), cfg.carried())
            + m.worth_emitted(cfg.price()),
{
    lemma_countable(m, cfg);
    lemma_step(m);
    let s = m.step();
    lemma_same_layout(s, m);
    assert(m.fair(cfg.price())) by {
        assert forall|i: int| 0 <= i < m.machines.len() implies cfg.price()(
            (#[trigger] m.machines[i]).out_item,
        ) == m.machines[i].need * cfg.price()(m.machines[i].in_item) by {}
    }
    law_worth_grows_by_what_is_emitted(m, cfg.price(), cfg.carried());
    law_items_grow_slowly(m);
    assert((m.now + 1) * cfg.lines + cfg.lines == (s.now + 1) * cfg.lines) by (nonlinear_arith)
        requires
            s.now == m.now + 1,
    ;
}

/// Production lines stay production lines: as they run, and when sinks are opened
/// and closed.
pub proof fn law_lines_stay(m: Model, cfg: Scenario, n: nat, sink: u32, open: bool)
    requires
        m.valid(),
        m.of_lines(cfg),
        0 <= m.now,
        m.now + n <= 0x1_0000_0000,
    ensures
        m.run(n).of_lines(cfg),
        idx(sink) < m.sinks.len() ==> m.set_sink_open(sink, open).of_lines(cfg),
    decreases n,
{
    if n > 0 {
        let k = (n - 1) as nat;
        law_lines_stay(m, cfg, k, sink, open);
        lemma_run(m, k);
        lemma_lines_step(m.run(k), cfg);
    }
    if idx(sink) < m.sinks.len() {
        let r = m.set_sink_open(sink, open);
        lemma_set_sink_open(m, sink, open);
        lemma_same_layout(r, m);
        law_sinks_keep_items(m, sink, open);
        assert(r.belts == m.belts);
        assert(r.machines == m.machines);
        assert(r.sources == m.sources);
        assert(r.graded(cfg.carried())) by {
            assert forall|i: int, k: int|
                0 <= i < r.belts.len() && 0 <= k < r.belts[i].runs.len() implies (
            #[trigger] r.belts[i].runs[k]).item == cfg.carried()(node(K_BELT, i)) by {
                assert(m.belts[i].runs[k].item == cfg.carried()(node(K_BELT, i)));
            }
        }
    }
}

// ---------------------------------------------------------------------- balance

/// In production lines all items together are worth as many raw items as there
/// are, and as were needed for the products.
proof fn lemma_lines_worth(m: Model, cfg: Scenario)
    requires
        m.valid(),
        m.of_lines(cfg),
    ensures
        m.worth(cfg.price(), cfg.carried()) == m.raw_items() + cfg.mach_need * m.products(),
{
    let v = cfg.price();
    let g = cfg.carried();
    let need = cfg.mach_need as int;
    assert forall|i: int| 0 <= i < m.belts.len() implies runs_worth(
        (#[trigger] m.belts[i]).runs,
        v,
    ) == count_of(m.belts[i].runs, RAW) + need * count_of(m.belts[i].runs, PRODUCT) by {
        let runs = m.belts[i].runs;
        let f = |k: int, r: RunV| r.count * v(r.item);
        let one = |item: u16|
            |k: int, r: RunV|
                if r.item == item {
                    r.count
                } else {
                    0
                };
        assert forall|k: int| 0 <= k < runs.len() implies f(k, #[trigger] runs[k]) == one(RAW)(
            k,
            runs[k],
        ) + need * one(PRODUCT)(k, runs[k]) by {
            assert(m.belts[i].runs[k].item == g(node(K_BELT, i)));
            let c = runs[k].count;
            assert(c * need == need * c) by (nonlinear_arith);
            assert(need * 0 == 0) by (nonlinear_arith);
        }
        lemma_tally_combine(runs, f, one(RAW), one(PRODUCT), need);
        assert(one(RAW) =~= |k: int, r: RunV|
            if r.item == RAW {
                r.count
            } else {
                0
            });
        assert(one(PRODUCT) =~= |k: int, r: RunV|
            if r.item == PRODUCT {
                r.count
            } else {
                0
            });
    }
    lemma_tally_combine(
        m.belts,
        |i: int, b: BeltV| runs_worth(b.runs, v),
        |i: int, b: BeltV| count_of(b.runs, RAW),
        |i: int, b: BeltV| count_of(b.runs, PRODUCT),
        need,
    );
    let made = |i: int, c: MachineV|
        if c.busy || c.has_out {
            1int
        } else {
            0
        };
    assert(need * 1 == need && need * 0 == 0) by (nonlinear_arith);
    lemma_tally_combine(
        m.machines,
        |i: int, c: MachineV| c.worth(v),
        |i: int, c: MachineV| c.have,
        made,
        need,
    );
    let none = |i: int, c: SinkV| 0int;
    let count = |i: int, c: SinkV| c.count;
    assert forall|i: int| 0 <= i < m.sinks.len() implies (#[trigger] m.sinks[i]).count * v(
        g(node(K_SINK, i)),
    ) == none(i, m.sinks[i]) + need * count(i, m.sinks[i]) by {
        let c = m.sinks[i].count;
        assert(c * need == need * c) by (nonlinear_arith);
        assert(kind(node(K_SINK, i)) != K_BELT);
    }
    lemma_tally_combine(
        m.sinks,
        |i: int, c: SinkV| c.count * v(g(node(K_SINK, i))),
        none,
        count,
        need,
    );
    lemma_tally_const(m.sinks, none, 0);
    let b = m.on_belts(PRODUCT);
    let c = tally(m.machines, made);
    let d = m.delivered();
    assert(need * (b + c + d) == need * b + need * c + need * d) by (nonlinear_arith);
}

/// In production lines nothing is lost: in each tick the raw items, with those
/// that were needed for the products, grow by just what the sources emit, at most
/// one item for each line.
pub proof fn law_lines_lose_nothing(m: Model, cfg: Scenario)
    requires
        m.valid(),
        m.of_lines(cfg),
        0 <= m.now <= 0xffff_ffff,
    ensures
        m.step().raw_items() + cfg.mach_need * m.step().products() == m.raw_items() + cfg.mach_need
            * m.products() + m.emitted(),
        0 <= m.emitted() <= cfg.lines,
{
    lemma_lines_step(m, cfg);
    lemma_step(m);
    lemma_lines_worth(m, cfg);
    lemma_lines_worth(m.step(), cfg);
    lemma_emitted(m);
    let v = cfg.price();
    lemma_tally_same(
        m.sources,
        |i: int, c: SourceV|
            if m.emits(i) {
                1int
            } else {
                0
            },
        m.sources,
        |i: int, c: SourceV|
            if m.emits(i) {
                v(c.item)
            } else {
                0
            },
    );
}

/// The same over any number of ticks.
pub proof fn law_lines_lose_nothing_in_time(m: Model, cfg: Scenario, n: nat)
    requires
        m.valid(),
        m.of_lines(cfg),
        0 <= m.now,
        m.now + n <= 0x1_0000_0000,
    ensures
        m.run(n).raw_items() + cfg.mach_need * m.run(n).products() == m.raw_items()
            + cfg.mach_need * m.products() + m.emitted_in(n),
        0 <= m.emitted_in(n) <= n * cfg.lines,
    decreases n,
{
    if n > 0 {
        let k = (n - 1) as nat;
        law_lines_lose_nothing_in_time(m, cfg, k);
        law_lines_stay(m, cfg, k, 0, false);
        lemma_run(m, k);
        law_lines_lose_nothing(m.run(k), cfg);
        assert(k * cfg.lines + cfg.lines == n * cfg.lines) by (nonlinear_arith)
            requires
                k == n - 1,
        ;
    } else {
        assert(n * cfg.lines == 0) by (nonlinear_arith)
            requires
                n == 0,
        ;
    }
}

/// The acts that keep the layout: running, opening and closing of sinks, and
/// looking.
pub open spec fn keeps_layout(a: Act) -> bool {
    a is Run || a is Gate || a is Look
}

/// Whatever production lines go through as they run and as sinks are opened and
/// closed, nothing is ever lost.
pub proof fn law_lines_never_lose(cfg: Scenario, acts: Seq<Act>)
    requires
        cfg.buildable(),
        Model::lines_of(cfg, cfg.lines as nat).permits_all(acts),
        forall|k: int| 0 <= k < acts.len() ==> keeps_layout(#[trigger] acts[k]),
    ensures
        ({
            let m = Model::lines_of(cfg, cfg.lines as nat).after(acts);
            &&& m.valid()
            &&& m.of_lines(cfg)
            &&& m.step().raw_items() + cfg.mach_need * m.step().products() == m.raw_items()
                + cfg.mach_need * m.products() + m.emitted()
            &&& 0 <= m.emitted() <= cfg.lines
        }),
{
    let w = Model::lines_of(cfg, cfg.lines as nat);
    law_lines_built(cfg);
    lemma_lines(cfg, cfg.lines as nat);
    lemma_lines_acts(w, cfg, acts);
    law_histories_keep_order(w, acts);
    law_lines_lose_nothing(w.after(acts), cfg);
}

proof fn lemma_lines_acts(w: Model, cfg: Scenario, acts: Seq<Act>)
    requires
        w.valid(),
        w.between_ticks(),
        w.of_lines(cfg),
        w.permits_all(acts),
        0 <= w.now <= 0xffff_ffff,
        forall|k: int| 0 <= k < acts.len() ==> keeps_layout(#[trigger] acts[k]),
    ensures
        w.after(acts).of_lines(cfg),
        0 <= w.after(acts).now <= 0xffff_ffff,
    decreases acts.len(),
{
    if acts.len() > 0 {
        let rest = acts.drop_last();
        assert forall|k: int| 0 <= k < rest.len() implies keeps_layout(#[trigger] rest[k]) by {
            assert(rest[k] == acts[k]);
        }
        lemma_lines_acts(w, cfg, rest);
        law_histories_keep_order(w, rest);
        let p = w.after(rest);
        let a = acts.last();
        assert(keeps_layout(acts[acts.len() - 1]));
        if let Act::Run(n) = a {
            if n > 0 {
                if !p.sure_to_run(n) {
                    assert(p.run((n - 1) as nat).tick_fits());
                    lemma_run(p, (n - 1) as nat);
                }
                law_lines_stay(p, cfg, n, 0, false);
                lemma_run(p, n);
            }
        } else if let Act::Gate(sink, open) = a {
            law_lines_stay(p, cfg, 0, sink, open);
            lemma_set_sink_open(p, sink, open);
            assert(p.set_sink_open(sink, open).now == p.now);
        }
    }
}

} // verus!
