//! Factories of equal production lines:
//! source, belts, machine, belts, sink.

use vstd::prelude::*;

use crate::ids::{idx, kind, node, K_BELT, K_MACH, K_SINK};
use crate::jam::drops;
use crate::model::{item_count, BeltV, MachineV, Model, SourceV};
use crate::seqs::lemma_tally_const;
use crate::world::World;

verus! {

/// The item that the sources emit and the machines take.
pub const RAW: u16 = 1;

/// The item that the machines make.
pub const PRODUCT: u16 = 2;

/// What a factory of equal production lines looks like.
#[derive(Clone, Copy)]
pub struct Scenario {
    /// Number of production lines.
    pub lines: u32,
    /// Number of belts ahead of the machine.
    pub belts_in: u32,
    /// Number of belts behind the machine.
    pub belts_out: u32,
    /// Number of cells of each belt.
    pub belt_cap: u16,
    /// Ticks per cell.
    pub belt_period: u16,
    pub mach_dur: u16,
    pub mach_need: u8,
    pub src_period: u16,
}

impl Scenario {
    /// Number of belts of each line.
    pub open spec fn belts_per_line(self) -> int {
        self.belts_in + self.belts_out
    }

    /// Such a factory can be built: it fits the identifiers of its nodes, and
    /// its nodes can be.
    pub open spec fn buildable(self) -> bool {
        &&& self.belts_per_line() <= 0xffff_ffff
        &&& self.lines * self.belts_per_line() <= 0x4000_0000
        &&& self.lines <= 0x3fff_ffff
        &&& self.lines > 0 && self.belts_per_line() > 0 ==> self.belt_cap >= 1 && self.belt_period
            >= 1
        &&& self.lines > 0 ==> self.mach_need >= 1 && self.mach_dur >= 1 && self.src_period >= 1
    }

    /// The most ticks ahead for which a belt of this kind can set a timer.
    pub open spec fn belt_reach(self) -> int {
        BeltV {
            out: 0,
            cap: self.belt_cap as int,
            period: self.belt_period as int,
            due: 0,
            blocked: false,
            runs: Seq::empty(),
        }.reach()
    }

    /// Such a factory, newly built, can run for `n` ticks: its items can be
    /// numbered and the clock does not run out.
    pub open spec fn runs_for(self, n: nat) -> bool {
        n > 0 ==> {
            &&& n <= 0xffff_ffff
            &&& self.lines * self.belts_per_line() * self.belt_cap <= 0xffff_ffff || n * self.lines
                < 0xffff_ffff
            &&& self.lines > 0 && self.belts_per_line() > 0 ==> n - 1 + self.belt_reach()
                <= 0xffff_ffff
            &&& self.lines > 0 ==> n - 1 + self.mach_dur <= 0xffff_ffff && n - 1 + self.src_period
                <= 0xffff_ffff
        }
    }

    /// Number of nodes of each line.
    pub fn nodes_per_line(&self) -> (n: u32)
        requires
            self.belts_per_line() + 3 <= 0xffff_ffff,
        ensures
            n == self.belts_per_line() + 3,
    {
        1 + self.belts_in + 1 + self.belts_out + 1
    }

    /// Whether such a factory can be built.
    pub fn can_build(&self) -> (r: bool)
        ensures
            r == self.buildable(),
            r <==> self.belts_in + self.belts_out <= 0xffff_ffff && self.lines * (self.belts_in
                + self.belts_out) <= 0x4000_0000 && self.lines < 0x4000_0000 && (self.lines == 0
                || ((self.belts_in + self.belts_out == 0 || (self.belt_cap > 0
                && self.belt_period > 0)) && self.mach_need > 0 && self.mach_dur > 0
                && self.src_period > 0)),
    {
        let per: u64 = self.belts_in as u64 + self.belts_out as u64;
        if per > 0xffff_ffff {
            return false;
        }
        assert(self.lines * per <= 0xffff_ffff * 0xffff_ffff) by (nonlinear_arith)
            requires
                self.lines <= 0xffff_ffff,
                per <= 0xffff_ffff,
        ;
        let belts: u64 = self.lines as u64 * per;
        if belts > 0x4000_0000 || self.lines > 0x3fff_ffff {
            return false;
        }
        if self.lines == 0 {
            return true;
        }
        (per == 0 || (self.belt_cap >= 1 && self.belt_period >= 1)) && self.mach_need >= 1
            && self.mach_dur >= 1 && self.src_period >= 1
    }

    /// Ticks after which items have come through all belts and the machine.
    pub fn warmup_ticks(&self) -> (n: u32)
        requires
            self.belt_cap * self.belt_period * (self.belts_per_line() + 2) <= 0xffff_ffff,
            self.belts_per_line() + 2 <= 0xffff_ffff,
        ensures
            n == self.belt_cap * self.belt_period * (self.belts_per_line() + 2),
    {
        assert(self.belt_cap * self.belt_period <= 0xffff * 0xffff) by (nonlinear_arith)
            requires
                self.belt_cap <= 0xffff,
                self.belt_period <= 0xffff,
        ;
        self.belt_cap as u32 * self.belt_period as u32 * (self.belts_in + self.belts_out + 2)
    }
}

/// A factory of about `target_nodes` nodes, of lines with eight belts ahead of
/// the machine and eight behind it, in which everything keeps the pace of the
/// belts.
pub fn cfg_for(target_nodes: u32, belt_cap: u16, belt_period: u16) -> (c: Scenario)
    ensures
        c.belts_in == 8 && c.belts_out == 8,
        c.belt_cap == belt_cap && c.belt_period == belt_period,
        c.mach_dur == belt_period && c.src_period == belt_period,
        c.mach_need == 1,
        c.lines == (if target_nodes < 38 {
            1
        } else {
            target_nodes as int / 19
        }),
{
    let mut c = Scenario {
        lines: 1,
        belts_in: 8,
        belts_out: 8,
        belt_cap,
        belt_period,
        mach_dur: belt_period,
        mach_need: 1,
        src_period: belt_period,
    };
    let lines: u32 = target_nodes / c.nodes_per_line();
    c.lines = if lines > 1 {
        lines
    } else {
        1
    };
    c
}

/// What happens to the sinks ahead of tick `tick` of a factory whose sinks are
/// all opened and closed in turn, every `half` ticks.
pub fn churn_gate(tick: u32, half: u32) -> (open: Option<bool>)
    requires
        half >= 1,
    ensures
        open == (if tick as int % half as int == 0 {
            Some((tick as int / half as int) % 2 == 0)
        } else {
            None
        }),
{
    if tick % half == 0 {
        Some((tick / half) % 2 == 0)
    } else {
        None
    }
}

// ---------------------------------------------------------------------- lines

impl Model {
    /// The last of `n` belts added in a row that starts at `out`.
    pub open spec fn end_of_row(self, n: nat, out: u32) -> u32 {
        if n == 0 {
            out
        } else {
            node(K_BELT, self.belts.len() + n - 1)
        }
    }

    /// `n` belts more, each of which delivers to the one before, the first of
    /// them to `out`.
    pub open spec fn with_row(self, n: nat, cap: int, period: int, out: u32) -> Model
        decreases n,
    {
        if n == 0 {
            self
        } else {
            self.with_row((n - 1) as nat, cap, period, out).add_belt(
                cap,
                period,
                self.end_of_row((n - 1) as nat, out),
            )
        }
    }

    /// One production line more, from its sink up to its source.
    pub open spec fn with_line(self, cfg: Scenario) -> Model {
        let cap = cfg.belt_cap as int;
        let period = cfg.belt_period as int;
        let sink = node(K_SINK, self.sinks.len() as int);
        let machine = node(K_MACH, self.machines.len() as int);
        let m1 = self.add_sink();
        let m2 = m1.with_row(cfg.belts_out as nat, cap, period, sink).add_machine(
            RAW,
            cfg.mach_need as int,
            PRODUCT,
            cfg.mach_dur as int,
            m1.end_of_row(cfg.belts_out as nat, sink),
        );
        m2.with_row(cfg.belts_in as nat, cap, period, machine).add_source(
            RAW,
            cfg.src_period as int,
            m2.end_of_row(cfg.belts_in as nat, machine),
        )
    }

    /// The factory of `n` such lines.
    pub open spec fn lines_of(cfg: Scenario, n: nat) -> Model
        decreases n,
    {
        if n == 0 {
            Model::empty()
        } else {
            Model::lines_of(cfg, (n - 1) as nat).with_line(cfg)
        }
    }

    /// What `out` is, or delivers to, is not a belt that came after the first `n`.
    pub open spec fn below(self, out: u32, n: int) -> bool {
        &&& kind(out) == K_BELT ==> idx(out) < n
        &&& kind(out) == K_MACH && kind(self.machines[idx(out)].out) == K_BELT ==> idx(
            self.machines[idx(out)].out,
        ) < n
    }

    /// Every node delivers to a node that was there before it, and is of the
    /// kind that the scenario asks for; nothing has happened yet.
    pub open spec fn downhill(self, cfg: Scenario) -> bool {
        &&& forall|i: int|
            0 <= i < self.belts.len() ==> {
                let b = #[trigger] self.belts[i];
                &&& self.reachable(b.out)
                &&& self.below(b.out, i)
                &&& b.cap == cfg.belt_cap
                &&& b.period == cfg.belt_period
                &&& b.runs.len() == 0
            }
        &&& forall|i: int|
            0 <= i < self.machines.len() ==> {
                let c = #[trigger] self.machines[i];
                self.reachable(c.out) && kind(c.out) != K_MACH && c.dur == cfg.mach_dur && c.holding(
                    0,
                ) == 0
            }
        &&& forall|i: int|
            0 <= i < self.sources.len() ==> {
                let c = #[trigger] self.sources[i];
                self.reachable(c.out) && c.period == cfg.src_period && c.until == 0
            }
    }
}

/// A row of belts keeps what was there.
proof fn lemma_row(m: Model, cfg: Scenario, n: nat, out: u32)
    requires
        m.downhill(cfg),
        m.reachable(out),
        m.below(out, m.belts.len() as int),
        m.belts.len() + n <= 0x4000_0000,
    ensures
        ({
            let r = m.with_row(n, cfg.belt_cap as int, cfg.belt_period as int, out);
            &&& r.downhill(cfg)
            &&& r.belts.len() == m.belts.len() + n
            &&& r.machines == m.machines
            &&& r.sinks == m.sinks
            &&& r.sources == m.sources
            &&& r.reachable(m.end_of_row(n, out))
            &&& r.below(m.end_of_row(n, out), r.belts.len() as int)
            &&& n > 0 || kind(out) != K_MACH ==> kind(m.end_of_row(n, out)) != K_MACH
        }),
    decreases n,
{
    if n > 0 {
        let cap = cfg.belt_cap as int;
        let period = cfg.belt_period as int;
        let p = m.with_row((n - 1) as nat, cap, period, out);
        let r = m.with_row(n, cap, period, out);
        let to = m.end_of_row((n - 1) as nat, out);
        lemma_row(m, cfg, (n - 1) as nat, out);
        assert forall|i: int| 0 <= i < r.belts.len() implies {
            let b = #[trigger] r.belts[i];
            &&& r.reachable(b.out)
            &&& r.below(b.out, i)
            &&& b.cap == cfg.belt_cap
            &&& b.period == cfg.belt_period
            &&& b.runs.len() == 0
        } by {
            if i < p.belts.len() {
                assert(p.reachable(p.belts[i].out));
            } else {
                assert(p.reachable(to));
            }
        }
        assert forall|i: int| 0 <= i < r.machines.len() implies {
            let c = #[trigger] r.machines[i];
            r.reachable(c.out) && kind(c.out) != K_MACH && c.dur == cfg.mach_dur && c.holding(
                    0,
                ) == 0
        } by {
            assert(p.reachable(p.machines[i].out));
        }
        assert forall|i: int| 0 <= i < r.sources.len() implies {
            let c = #[trigger] r.sources[i];
            r.reachable(c.out) && c.period == cfg.src_period && c.until == 0
        } by {
            assert(p.reachable(p.sources[i].out));
        }
    }
}

/// A node more that is not a belt keeps what was there.
proof fn lemma_downhill_grown(m: Model, r: Model, cfg: Scenario)
    requires
        m.downhill(cfg),
        r.belts == m.belts,
        m.machines.len() <= r.machines.len(),
        m.sinks.len() <= r.sinks.len(),
        m.sources.len() <= r.sources.len(),
        forall|i: int| 0 <= i < m.machines.len() ==> #[trigger] r.machines[i] == m.machines[i],
        forall|i: int| 0 <= i < m.sources.len() ==> #[trigger] r.sources[i] == m.sources[i],
        forall|i: int|
            m.machines.len() <= i < r.machines.len() ==> {
                let c = #[trigger] r.machines[i];
                r.reachable(c.out) && kind(c.out) != K_MACH && c.dur == cfg.mach_dur && c.holding(
                    0,
                ) == 0
            },
        forall|i: int|
            m.sources.len() <= i < r.sources.len() ==> {
                let c = #[trigger] r.sources[i];
                r.reachable(c.out) && c.period == cfg.src_period && c.until == 0
            },
    ensures
        r.downhill(cfg),
{
    assert forall|i: int| 0 <= i < r.belts.len() implies {
        let b = #[trigger] r.belts[i];
        &&& r.reachable(b.out)
        &&& r.below(b.out, i)
        &&& b.cap == cfg.belt_cap
        &&& b.period == cfg.belt_period
        &&& b.runs.len() == 0
    } by {
        assert(m.reachable(m.belts[i].out));
    }
    assert forall|i: int| 0 <= i < r.machines.len() implies {
        let c = #[trigger] r.machines[i];
        r.reachable(c.out) && kind(c.out) != K_MACH && c.dur == cfg.mach_dur && c.holding(
                    0,
                ) == 0
    } by {
        if i < m.machines.len() {
            assert(m.reachable(m.machines[i].out));
        }
    }
    assert forall|i: int| 0 <= i < r.sources.len() implies {
        let c = #[trigger] r.sources[i];
        r.reachable(c.out) && c.period == cfg.src_period && c.until == 0
    } by {
        if i < m.sources.len() {
            assert(m.reachable(m.sources[i].out));
        }
    }
}

/// A line more keeps what was there.
proof fn lemma_line(m: Model, cfg: Scenario)
    requires
        m.downhill(cfg),
        m.belts.len() + cfg.belts_per_line() <= 0x4000_0000,
        m.machines.len() < 0x4000_0000,
        m.sinks.len() < 0x4000_0000,
        m.sources.len() < 0x3fff_ffff,
    ensures
        m.with_line(cfg).downhill(cfg),
        m.with_line(cfg).belts.len() == m.belts.len() + cfg.belts_per_line(),
        m.with_line(cfg).machines.len() == m.machines.len() + 1,
        m.with_line(cfg).sinks.len() == m.sinks.len() + 1,
        m.with_line(cfg).sources.len() == m.sources.len() + 1,
{
    let cap = cfg.belt_cap as int;
    let period = cfg.belt_period as int;
    let sink = node(K_SINK, m.sinks.len() as int);
    let machine = node(K_MACH, m.machines.len() as int);
    let m1 = m.add_sink();
    lemma_downhill_grown(m, m1, cfg);
    lemma_row(m1, cfg, cfg.belts_out as nat, sink);
    let r1 = m1.with_row(cfg.belts_out as nat, cap, period, sink);
    let m2 = r1.add_machine(
        RAW,
        cfg.mach_need as int,
        PRODUCT,
        cfg.mach_dur as int,
        m1.end_of_row(cfg.belts_out as nat, sink),
    );
    lemma_downhill_grown(r1, m2, cfg);
    lemma_row(m2, cfg, cfg.belts_in as nat, machine);
    let r2 = m2.with_row(cfg.belts_in as nat, cap, period, machine);
    lemma_downhill_grown(r2, m.with_line(cfg), cfg);
}

/// The factory of `n` lines.
pub proof fn lemma_lines(cfg: Scenario, n: nat)
    requires
        n * cfg.belts_per_line() <= 0x4000_0000,
        n <= 0x3fff_ffff,
    ensures
        ({
            let m = Model::lines_of(cfg, n);
            &&& m.downhill(cfg)
            &&& m.belts.len() == n * cfg.belts_per_line()
            &&& m.machines.len() == n
            &&& m.sinks.len() == n
            &&& m.sources.len() == n
            &&& m.now == 0
        }),
    decreases n,
{
    if n > 0 {
        let k = (n - 1) as nat;
        assert(k * cfg.belts_per_line() + cfg.belts_per_line() == n * cfg.belts_per_line())
            by (nonlinear_arith)
            requires
                k == n - 1,
        ;
        lemma_lines(cfg, k);
        lemma_line(Model::lines_of(cfg, k), cfg);
        lemma_line_now(Model::lines_of(cfg, k), cfg);
    } else {
        assert(n * cfg.belts_per_line() == 0) by (nonlinear_arith)
            requires
                n == 0,
        ;
    }
}

proof fn lemma_row_now(m: Model, n: nat, cap: int, period: int, out: u32)
    ensures
        m.with_row(n, cap, period, out).now == m.now,
    decreases n,
{
    if n > 0 {
        lemma_row_now(m, (n - 1) as nat, cap, period, out);
    }
}

proof fn lemma_line_now(m: Model, cfg: Scenario)
    ensures
        m.with_line(cfg).now == m.now,
{
    let cap = cfg.belt_cap as int;
    let period = cfg.belt_period as int;
    let sink = node(K_SINK, m.sinks.len() as int);
    let machine = node(K_MACH, m.machines.len() as int);
    let m1 = m.add_sink();
    lemma_row_now(m1, cfg.belts_out as nat, cap, period, sink);
    let m2 = m1.with_row(cfg.belts_out as nat, cap, period, sink).add_machine(
        RAW,
        cfg.mach_need as int,
        PRODUCT,
        cfg.mach_dur as int,
        m1.end_of_row(cfg.belts_out as nat, sink),
    );
    lemma_row_now(m2, cfg.belts_in as nat, cap, period, machine);
}

/// A factory of equal lines can run as long as its scenario says.
pub proof fn lemma_lines_run(cfg: Scenario)
    requires
        cfg.buildable(),
    ensures
        Model::lines_of(cfg, cfg.lines as nat).linked(),
        Model::lines_of(cfg, cfg.lines as nat).loop_free(),
        Model::lines_of(cfg, cfg.lines as nat).acyclic(),
        forall|n: nat|
            cfg.runs_for(n) ==> #[trigger] Model::lines_of(cfg, cfg.lines as nat).sure_to_run(n),
{
    let m = Model::lines_of(cfg, cfg.lines as nat);
    lemma_lines(cfg, cfg.lines as nat);
    let rank = |i: int|
        if i >= 0 {
            i as nat
        } else {
            0nat
        };
    assert(m.ranked_by(rank));
    let depth = |id: u32|
        if kind(id) == K_BELT {
            (2 * idx(id) + 2) as nat
        } else if kind(m.machines[idx(id)].out) == K_BELT {
            (2 * idx(m.machines[idx(id)].out) + 3) as nat
        } else {
            1nat
        };
    assert forall|i: int| 0 <= i < m.belts.len() implies drops(
        depth,
        0x8000_0003,
        node(K_BELT, i),
        (#[trigger] m.belts[i]).out,
    ) by {
        assert(m.below(m.belts[i].out, i));
    }
    assert forall|i: int| 0 <= i < m.machines.len() implies drops(
        depth,
        0x8000_0003,
        node(K_MACH, i),
        (#[trigger] m.machines[i]).out,
    ) by {
        assert(m.reachable(m.machines[i].out));
    }
    assert(m.falls_by(depth, 0x8000_0003));
    let f = |i: int, b: BeltV| b.cap;
    lemma_tally_const(m.belts, f, cfg.belt_cap as int);
    lemma_tally_const(m.belts, |i: int, b: BeltV| item_count(b.runs), 0);
    lemma_tally_const(m.machines, |i: int, c: MachineV| c.holding(m.now), 0);
    lemma_tally_const(m.sources, |i: int, c: SourceV| c.pending(m.now), 1);
    assert forall|n: nat| cfg.runs_for(n) implies #[trigger] m.sure_to_run(n) by {
        if n > 0 {
            assert(cfg.lines + (n - 1) * cfg.lines == n * cfg.lines) by (nonlinear_arith);
            assert forall|i: int| 0 <= i < m.belts.len() implies n - 1 + (
            #[trigger] m.belts[i]).reach() <= 0xffff_ffff by {
                assert(cfg.lines * cfg.belts_per_line() > 0);
                if cfg.lines == 0 {
                    assert(cfg.lines * cfg.belts_per_line() == 0);
                }
                if cfg.belts_per_line() == 0 {
                    assert(cfg.lines * cfg.belts_per_line() == 0);
                }
                assert(m.belts[i].reach() == cfg.belt_reach());
            }
            assert(m.clock_fits(m.now + n - 1));
        }
    }
}

/// Adds `n` belts to `w`, each of which delivers to the one before, the first of
/// them to `out`; returns the last of them.
fn add_row(w: &mut World, n: u32, cap: u16, period: u16, out: u32) -> (end: u32)
    requires
        old(w).wf(),
        n > 0 ==> cap >= 1 && period >= 1,
        old(w)@.belts.len() + n <= 0x4000_0000,
    ensures
        final(w).wf(),
        final(w)@ == old(w)@.with_row(n as nat, cap as int, period as int, out),
        end == old(w)@.end_of_row(n as nat, out),
{
    let ghost m = w@;
    let mut next: u32 = out;
    let mut k: u32 = 0;
    while k < n
        invariant
            w.wf(),
            k <= n,
            n > 0 ==> cap >= 1 && period >= 1,
            m.belts.len() + n <= 0x4000_0000,
            w@.belts.len() == m.belts.len() + k,
            w@ == m.with_row(k as nat, cap as int, period as int, out),
            next == m.end_of_row(k as nat, out),
        decreases n - k,
    {
        next = w.add_belt(cap, period, next);
        k = k + 1;
    }
    next
}

/// Adds one production line to `w`.
fn add_line(w: &mut World, cfg: Scenario)
    requires
        old(w).wf(),
        cfg.buildable(),
        cfg.lines > 0,
        old(w)@.downhill(cfg),
        old(w)@.belts.len() + cfg.belts_per_line() <= 0x4000_0000,
        old(w)@.machines.len() < 0x4000_0000,
        old(w)@.sinks.len() < 0x4000_0000,
        old(w)@.sources.len() < 0x3fff_ffff,
    ensures
        final(w).wf(),
        final(w)@ == old(w)@.with_line(cfg),
{
    let ghost m = w@;
    let sink: u32 = w.add_sink();
    proof {
        lemma_downhill_grown(m, m.add_sink(), cfg);
        lemma_row(m.add_sink(), cfg, cfg.belts_out as nat, sink);
    }
    let last_out: u32 = add_row(w, cfg.belts_out, cfg.belt_cap, cfg.belt_period, sink);
    let ghost r = w@;
    let machine: u32 = w.add_machine(RAW, cfg.mach_need, PRODUCT, cfg.mach_dur, last_out);
    proof {
        lemma_downhill_grown(r, w@, cfg);
        lemma_row(w@, cfg, cfg.belts_in as nat, machine);
    }
    let last_in: u32 = add_row(w, cfg.belts_in, cfg.belt_cap, cfg.belt_period, machine);
    w.add_source(RAW, cfg.src_period, last_in);
}

/// Builds the factory of a scenario.
pub fn build(cfg: Scenario) -> (w: World)
    requires
        cfg.buildable(),
    ensures
        w.wf(),
        w@ == Model::lines_of(cfg, cfg.lines as nat),
        w@.now == 0,
        w@.belts.len() == cfg.lines * cfg.belts_per_line(),
        w@.machines.len() == cfg.lines,
        w@.sinks.len() == cfg.lines,
        w@.sources.len() == cfg.lines,
        w@.linked(),
        w@.loop_free(),
        w@.acyclic(),
        forall|n: nat| #![trigger w@.sure_to_run(n)]
            #![trigger w@.can_run(n)] cfg.runs_for(n) ==> w@.sure_to_run(n),
{
    let mut w = World::new();
    let per: usize = cfg.lines as usize;
    let belts: usize = per * (cfg.belts_in + cfg.belts_out) as usize;
    if w.can_reserve(belts, per, per, per) {
        w.reserve(belts, per, per, per);
    }
    let mut k: u32 = 0;
    while k < cfg.lines
        invariant
            cfg.buildable(),
            k <= cfg.lines,
            w.wf(),
            w@ == Model::lines_of(cfg, k as nat),
        decreases cfg.lines - k,
    {
        proof {
            let p = cfg.belts_per_line();
            assert(k * p + p <= cfg.lines * p) by (nonlinear_arith)
                requires
                    k + 1 <= cfg.lines,
                    p >= 0,
            ;
            lemma_lines(cfg, k as nat);
        }
        add_line(&mut w, cfg);
        k = k + 1;
    }
    proof {
        lemma_lines(cfg, cfg.lines as nat);
        lemma_lines_run(cfg);
    }
    w
}

/// A factory of equal lines has as many nodes as all its lines together.
pub proof fn law_node_count(cfg: Scenario)
    requires
        cfg.buildable(),
    ensures
        ({
            let m = Model::lines_of(cfg, cfg.lines as nat);
            m.belts.len() + m.machines.len() + m.sinks.len() + m.sources.len() == cfg.lines * (
            cfg.belts_per_line() + 3)
        }),
{
    lemma_lines(cfg, cfg.lines as nat);
    assert(cfg.lines * (cfg.belts_per_line() + 3) == cfg.lines * cfg.belts_per_line() + 3
        * cfg.lines) by (nonlinear_arith);
}

/// Production lines with not too many cells can run until the clock is at its end but
/// for the longest way over a belt, the longest work and the longest pause.
pub proof fn law_lines_can_run(cfg: Scenario, n: nat)
    requires
        cfg.lines * (cfg.belts_in + cfg.belts_out) * cfg.belt_cap <= 0xffff_ffff,
        cfg.belt_cap >= 1,
        n + cfg.belt_cap * cfg.belt_period <= 0xffff_ffff,
        n + cfg.mach_dur <= 0xffff_ffff,
        n + cfg.src_period <= 0xffff_ffff,
    ensures
        cfg.runs_for(n),
{
    let c = cfg.belt_cap as int;
    let p = cfg.belt_period as int;
    assert((c - 1) * p <= c * p && p <= c * p) by (nonlinear_arith)
        requires
            c >= 1,
            p >= 0,
    ;
}

} // verus!
