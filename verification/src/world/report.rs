//! What a factory reports of itself: the hash of its state, the items
//! delivered and under way, and the memory that it takes.

use vstd::layout::size_of;
use vstd::prelude::*;

use super::{at, lemma_synced, Belt, Machine, Run, Sink, Source, World};
use crate::belts::{lemma_extent_bounds, lemma_items_fit};
use crate::digest::{
    belt_words, digest, lemma_digest_append, lemma_digest_next, lemma_digest_one,
    lemma_digest_three, lemma_digest_two, machine_words, mix, run_words, sink_words, source_words,
    END_OF_BELT, HASH_SEED,
};
use crate::flags::{lemma_flag_values, F_BLOCKED, F_BUSY, F_HASOUT};
use crate::ids::{idx, idx_of, NONE};
use crate::model::{item_count, wrap, BeltV, MachineV, RunV, SinkV, SourceV, SLOTS};
use crate::rest::law_machine_timer;
use crate::seqs::{flat, lemma_tally_take, tally};
use crate::valid::lemma_orderly;

verus! {

impl World {
    /// Hashes belt `i`, whose movement is accounted for, on top of `h`.
    fn hash_belt(&self, i: usize, h: u64) -> (r: u64)
        requires
            self.wf(),
            self.synced(i as int),
            i < self.belts@.len(),
        ensures
            r == digest(h, belt_words(self@.belts[i as int], self@.now)),
    {
        let ghost b = self@.belts[i as int];
        let ghost now = self@.now;
        let ghost lead = b.lead(now);
        let ghost f = |k: int, x: RunV| run_words(x, k, lead);
        let ghost c = self.shadow@.chains[i as int];
        let ghost first = seq![
            b.cap as u64,
            b.used(now) as u64,
            lead as u64,
            if b.blocked {
                1u64
            } else {
                0u64
            },
        ];
        proof {
            assert(b.ok(now));
            lemma_synced(*self, i as int);
            assert(self.belt_rep(i as int));
            lemma_flag_values(self.belts@[i as int].flags);
        }
        let gap0: u16 = self.belts[i].gap0;
        let mut r: u64 = mix(h, self.belts[i].cap as u64);
        r = mix(r, self.belts[i].used as u64);
        r = mix(r, gap0 as u64);
        r = mix(r, (self.belts[i].flags & F_BLOCKED) as u64);
        proof {
            assert(first =~= seq![first[0], first[1], first[2]] + seq![first[3]]);
            lemma_digest_append(h, seq![first[0], first[1], first[2]], seq![first[3]]);
            lemma_digest_three(h, first[0], first[1], first[2]);
            lemma_digest_one(digest(h, seq![first[0], first[1], first[2]]), first[3]);
            assert(r == digest(h, first));
            assert(b.runs.take(0) =~= Seq::<RunV>::empty());
            assert(flat(b.runs.take(0), f) =~= Seq::<u64>::empty());
            assert(digest(r, Seq::<u64>::empty()) == r);
        }
        let ghost start = r;
        let ghost mut k: int = 0;
        let mut cur: u32 = self.belts[i].run_head;
        let mut ahead: bool = true;
        while cur != NONE
            invariant
                self.wf(),
                i < self.belts@.len(),
                c == self.shadow@.chains[i as int],
                b == self.belt(i as int),
                self.belt_rep(i as int),
                self.runs@.len() <= 0xffff_ffff,
                0 <= k <= c.len(),
                cur == at(c, k),
                ahead == (k == 0),
                gap0 == lead,
                f == (|k: int, x: RunV| run_words(x, k, lead)),
                r == digest(start, flat(b.runs.take(k), f)),
            decreases c.len() - k,
        {
            assert(k < c.len());
            assert(c[k] < self.runs@.len());
            assert(b.runs[k].item == self.runs@[cur as int].item);
            r = mix(r, self.runs[cur as usize].item as u64);
            r = mix(r, self.runs[cur as usize].count as u64);
            r = mix(
                r,
                if ahead {
                    gap0 as u64
                } else {
                    self.runs[cur as usize].gap as u64
                },
            );
            ahead = false;
            cur = self.runs[cur as usize].next;
            proof {
                let w = run_words(b.runs[k], k, lead);
                lemma_digest_next(start, b.runs, f, k);
                lemma_digest_three(digest(start, flat(b.runs.take(k), f)), w[0], w[1], w[2]);
                k = k + 1;
            }
        }
        proof {
            if k < c.len() {
                assert(c[k] < self.runs@.len());
            }
            assert(b.runs.take(k) =~= b.runs);
            lemma_digest_append(h, first, flat(b.runs, f));
            lemma_digest_append(h, first + flat(b.runs, f), seq![END_OF_BELT]);
            lemma_digest_one(r, END_OF_BELT);
        }
        mix(r, END_OF_BELT)
    }

    /// Hashes machine `i` on top of `h`.
    fn hash_machine(&self, i: usize, h: u64) -> (r: u64)
        requires
            self.wf(),
            i < self.machines@.len(),
        ensures
            r == digest(h, machine_words(self@.machines[i as int], self@.now)),
    {
        let ghost c = self@.machines[i as int];
        proof {
            assert(c.ok());
            if c.busy {
                law_machine_timer(self@, i as int);
            }
            lemma_flag_values(self.machines@[i as int].flags);
            let w = machine_words(c, self@.now);
            lemma_digest_three(h, w[0], w[1], w[2]);
        }
        let flags: u8 = self.machines[i].flags;
        let mut r: u64 = mix(h, self.machines[i].have as u64);
        r = mix(r, (flags & (F_BUSY | F_HASOUT)) as u64);
        mix(
            r,
            if flags & F_BUSY != 0 {
                (self.machines[i].until - self.now) as u64
            } else {
                0
            },
        )
    }

    /// Hashes source `i` on top of `h`.
    fn hash_source(&self, i: usize, h: u64) -> (r: u64)
        requires
            self.wf(),
            i < self.sources@.len(),
        ensures
            r == digest(h, source_words(self@.sources[i as int], self@.now)),
    {
        proof {
            lemma_flag_values(self.sources@[i as int].flags);
            let w = source_words(self@.sources[i as int], self@.now);
            lemma_digest_two(h, w[0], w[1]);
        }
        let flags: u8 = self.sources[i].flags;
        let until: u32 = self.sources[i].until;
        let r: u64 = mix(h, (flags & F_BLOCKED) as u64);
        mix(
            r,
            if flags & F_BLOCKED == 0 && until > self.now {
                (until - self.now) as u64
            } else {
                0
            },
        )
    }

    /// The hash of the state of the factory. Accounts for the movement of all
    /// belts up to now, which leaves the factory the same.
    pub fn state_hash(&mut self) -> (h: u64)
        requires
            old(self).wf(),
        ensures
            final(self).wf(),
            final(self)@ == old(self)@,
            h == old(self)@.state_hash(),
    {
        let ghost m = self@;
        let ghost fb = |i: int, b: BeltV| belt_words(b, m.now);
        let ghost fm = |i: int, c: MachineV| machine_words(c, m.now);
        let ghost fk = |i: int, c: SinkV| sink_words(c);
        let ghost fs = |i: int, c: SourceV| source_words(c, m.now);
        let ghost w0 = seq![m.now as u64];
        let mut h: u64 = mix(HASH_SEED, self.now as u64);
        proof {
            lemma_digest_one(HASH_SEED, m.now as u64);
            assert(m.belts.take(0) =~= Seq::<BeltV>::empty());
            assert(flat(m.belts.take(0), fb) =~= Seq::<u64>::empty());
            assert(digest(h, Seq::<u64>::empty()) == h);
        }
        let ghost h0 = h;
        let mut i: usize = 0;
        while i < self.belts.len()
            invariant
                self.wf(),
                self@ == m,
                m.valid(),
                i <= self.belts@.len(),
                self.belts@.len() == m.belts.len(),
                fb == (|i: int, b: BeltV| belt_words(b, m.now)),
                h == digest(h0, flat(m.belts.take(i as int), fb)),
            decreases self.belts@.len() - i,
        {
            proof {
                lemma_orderly(m, Set::empty());
                assert(m.belts[i as int].ok(m.now));
            }
            self.belt_sync(i);
            h = self.hash_belt(i, h);
            proof {
                lemma_digest_next(h0, m.belts, fb, i as int);
            }
            i = i + 1;
        }
        proof {
            assert(m.belts.take(i as int) =~= m.belts);
            lemma_digest_append(HASH_SEED, w0, flat(m.belts, fb));
            assert(m.machines.take(0) =~= Seq::<MachineV>::empty());
            assert(flat(m.machines.take(0), fm) =~= Seq::<u64>::empty());
            assert(digest(h, Seq::<u64>::empty()) == h);
        }
        let ghost h1 = h;
        let ghost w1 = w0 + flat(m.belts, fb);
        i = 0;
        while i < self.machines.len()
            invariant
                self.wf(),
                self@ == m,
                i <= self.machines@.len(),
                self.machines@.len() == m.machines.len(),
                fm == (|i: int, c: MachineV| machine_words(c, m.now)),
                h == digest(h1, flat(m.machines.take(i as int), fm)),
            decreases self.machines@.len() - i,
        {
            h = self.hash_machine(i, h);
            proof {
                lemma_digest_next(h1, m.machines, fm, i as int);
            }
            i = i + 1;
        }
        proof {
            assert(m.machines.take(i as int) =~= m.machines);
            lemma_digest_append(HASH_SEED, w1, flat(m.machines, fm));
            assert(m.sinks.take(0) =~= Seq::<SinkV>::empty());
            assert(flat(m.sinks.take(0), fk) =~= Seq::<u64>::empty());
            assert(digest(h, Seq::<u64>::empty()) == h);
        }
        let ghost h2 = h;
        let ghost w2 = w1 + flat(m.machines, fm);
        i = 0;
        while i < self.sinks.len()
            invariant
                self.wf(),
                self@ == m,
                i <= self.sinks@.len(),
                self.sinks@.len() == m.sinks.len(),
                fk == (|i: int, c: SinkV| sink_words(c)),
                h == digest(h2, flat(m.sinks.take(i as int), fk)),
            decreases self.sinks@.len() - i,
        {
            proof {
                let w = sink_words(m.sinks[i as int]);
                lemma_digest_next(h2, m.sinks, fk, i as int);
                lemma_digest_two(h, w[0], w[1]);
            }
            h = mix(h, self.sinks[i].count);
            h = mix(h, self.sinks[i].open as u64);
            i = i + 1;
        }
        proof {
            assert(m.sinks.take(i as int) =~= m.sinks);
            lemma_digest_append(HASH_SEED, w2, flat(m.sinks, fk));
            assert(m.sources.take(0) =~= Seq::<SourceV>::empty());
            assert(flat(m.sources.take(0), fs) =~= Seq::<u64>::empty());
            assert(digest(h, Seq::<u64>::empty()) == h);
        }
        let ghost h3 = h;
        let ghost w3 = w2 + flat(m.sinks, fk);
        i = 0;
        while i < self.sources.len()
            invariant
                self.wf(),
                self@ == m,
                i <= self.sources@.len(),
                self.sources@.len() == m.sources.len(),
                fs == (|i: int, c: SourceV| source_words(c, m.now)),
                h == digest(h3, flat(m.sources.take(i as int), fs)),
            decreases self.sources@.len() - i,
        {
            h = self.hash_source(i, h);
            proof {
                lemma_digest_next(h3, m.sources, fs, i as int);
            }
            i = i + 1;
        }
        proof {
            assert(m.sources.take(i as int) =~= m.sources);
            lemma_digest_append(HASH_SEED, w3, flat(m.sources, fs));
            assert(m.state_words() == w3 + flat(m.sources, fs));
        }
        h
    }

    /// The current tick.
    pub fn now(&self) -> (t: u32)
        ensures
            t == self@.now,
    {
        self.now
    }

    /// Number of events handled, modulo 2^64.
    pub fn events(&self) -> (n: u64)
        ensures
            n == self@.events,
    {
        self.events
    }

    /// Number of items that the sink has received, modulo 2^64.
    pub fn received(&self, sink: u32) -> (n: u64)
        requires
            idx(sink) < self@.sinks.len(),
        ensures
            n == self@.sinks[idx(sink)].count,
    {
        self.sinks[idx_of(sink)].count
    }

    /// Whether the sink is open.
    pub fn is_open(&self, sink: u32) -> (open: bool)
        requires
            idx(sink) < self@.sinks.len(),
        ensures
            open == (self@.sinks[idx(sink)].open != 0),
    {
        self.sinks[idx_of(sink)].open != 0
    }

    /// Number of items that the sinks have received, modulo 2^64.
    pub fn delivered(&self) -> (n: u64)
        requires
            self.wf(),
        ensures
            n == self@.delivered() % wrap(),
            n == self@.delivered() % 0x1_0000_0000_0000_0000,
    {
        let ghost m = self@;
        let ghost f = |i: int, c: SinkV| c.count;
        let mut n: u64 = 0;
        let mut i: usize = 0;
        proof {
            assert(m.sinks.take(0) =~= Seq::<SinkV>::empty());
        }
        while i < self.sinks.len()
            invariant
                self@ == m,
                i <= self.sinks@.len(),
                self.sinks@.len() == m.sinks.len(),
                f == (|i: int, c: SinkV| c.count),
                n == tally(m.sinks.take(i as int), f) % wrap(),
            decreases self.sinks@.len() - i,
        {
            proof {
                lemma_tally_take(m.sinks, f, i as int);
            }
            n = n.wrapping_add(self.sinks[i].count);
            i = i + 1;
        }
        proof {
            assert(m.sinks.take(i as int) =~= m.sinks);
        }
        n
    }

    /// Number of items on belt `i`.
    fn items_on_belt(&self, i: usize) -> (n: u64)
        requires
            self.wf(),
            i < self.belts@.len(),
        ensures
            n == item_count(self@.belts[i as int].runs),
            n <= 0xffff,
    {
        let ghost b = self@.belts[i as int];
        let ghost f = |k: int, x: RunV| x.count;
        let ghost c = self.shadow@.chains[i as int];
        proof {
            assert(b.ok(self@.now));
            lemma_items_fit(b, self@.now);
            assert(self.belt_rep(i as int));
            assert(b.runs.take(0) =~= Seq::<RunV>::empty());
        }
        let ghost mut k: int = 0;
        let mut n: u64 = 0;
        let mut cur: u32 = self.belts[i].run_head;
        while cur != NONE
            invariant
                self.wf(),
                i < self.belts@.len(),
                c == self.shadow@.chains[i as int],
                b == self.belt(i as int),
                self.belt_rep(i as int),
                self.runs@.len() <= 0xffff_ffff,
                0 <= k <= c.len(),
                cur == at(c, k),
                f == (|k: int, x: RunV| x.count),
                n == tally(b.runs.take(k), f),
                n <= k * 0xffff,
                k <= 0xffff_ffff,
            decreases c.len() - k,
        {
            assert(k < c.len());
            assert(c[k] < self.runs@.len());
            proof {
                assert(b.runs[k].count == self.runs@[cur as int].count);
                lemma_tally_take(b.runs, f, k);
                lemma_chain_short(*self, i as int);
            }
            n = n + self.runs[cur as usize].count as u64;
            cur = self.runs[cur as usize].next;
            proof {
                k = k + 1;
            }
        }
        proof {
            if k < c.len() {
                assert(c[k] < self.runs@.len());
            }
            assert(b.runs.take(k) =~= b.runs);
        }
        n
    }

    /// Number of items on the belts.
    pub fn items_on_belts(&self) -> (n: u64)
        requires
            self.wf(),
        ensures
            n == self@.items_on_belts(),
    {
        let ghost m = self@;
        let ghost f = |i: int, b: BeltV| item_count(b.runs);
        let mut n: u64 = 0;
        let mut i: usize = 0;
        proof {
            assert(m.belts.take(0) =~= Seq::<BeltV>::empty());
        }
        while i < self.belts.len()
            invariant
                self.wf(),
                self@ == m,
                i <= self.belts@.len(),
                self.belts@.len() == m.belts.len(),
                self.belts@.len() <= 0x4000_0000,
                f == (|i: int, b: BeltV| item_count(b.runs)),
                n == tally(m.belts.take(i as int), f),
                n <= i * 0xffff,
            decreases self.belts@.len() - i,
        {
            proof {
                lemma_tally_take(m.belts, f, i as int);
            }
            n = n + self.items_on_belt(i);
            i = i + 1;
        }
        proof {
            assert(m.belts.take(i as int) =~= m.belts);
        }
        n
    }
}

/// A belt has no more runs than cells.
proof fn lemma_chain_short(w: World, i: int)
    requires
        w.wf(),
        0 <= i < w.belts@.len(),
    ensures
        w.shadow@.chains[i].len() <= 0xffff,
{
    let b = w@.belts[i];
    assert(b.ok(w@.now));
    lemma_items_fit(b, w@.now);
    lemma_extent_bounds(b.runs);
}

// --------------------------------------------------------------------- memory

/// `Vec::capacity`: the number of elements for which `v` has room. It has room
/// for those that it holds; how much more is up to the allocator.
#[verifier::external_body]
pub(super) fn capacity<T>(v: &Vec<T>) -> (n: usize)
    ensures
        n >= v@.len(),
{
    v.capacity()
}

/// What `f` says of `v`.
fn asked<T, F: Fn(&Vec<T>) -> usize>(f: F, v: &Vec<T>) -> (n: usize)
    requires
        call_requires(f, (v,)),
    ensures
        call_ensures(f, (v,), n),
{
    f(v)
}

/// For how many elements the arrays of a factory have room.
pub struct Capacities {
    pub belts: usize,
    pub machines: usize,
    pub sinks: usize,
    pub sources: usize,
    pub runs: usize,
    pub run_free: usize,
    pub wheel: usize,
}

/// `x` as far as a `usize` can say.
pub open spec fn capped(x: int) -> int {
    if x <= usize::MAX {
        x
    } else {
        usize::MAX as int
    }
}

/// Bytes that one run takes.
pub closed spec fn run_bytes() -> nat {
    size_of::<Run>()
}

impl Capacities {
    /// Bytes that the arrays take.
    pub open spec fn total(self) -> int {
        self.belts * size_of::<Belt>() + self.machines * size_of::<Machine>() + self.sinks
            * size_of::<Sink>() + self.sources * size_of::<Source>() + self.runs * run_bytes()
            + self.run_free * 4 + self.wheel * 4
    }

    /// Bytes that the arrays take, as far as a `usize` can say.
    pub fn bytes(&self) -> (n: usize)
        ensures
            n == capped(self.total()),
    {
        let mut n: usize = 0;
        n = add_bytes(n, self.belts, core::mem::size_of::<Belt>(), Ghost(0));
        let ghost t = self.belts * size_of::<Belt>();
        n = add_bytes(n, self.machines, core::mem::size_of::<Machine>(), Ghost(t));
        let ghost t = t + self.machines * size_of::<Machine>();
        n = add_bytes(n, self.sinks, core::mem::size_of::<Sink>(), Ghost(t));
        let ghost t = t + self.sinks * size_of::<Sink>();
        n = add_bytes(n, self.sources, core::mem::size_of::<Source>(), Ghost(t));
        let ghost t = t + self.sources * size_of::<Source>();
        n = add_bytes(n, self.runs, core::mem::size_of::<Run>(), Ghost(t));
        let ghost t = t + self.runs * size_of::<Run>();
        n = add_bytes(n, self.run_free, 4, Ghost(t));
        let ghost t = t + self.run_free * 4;
        add_bytes(n, self.wheel, 4, Ghost(t))
    }
}

/// The sum `sum` of bytes with those of `n` more elements.
fn add_bytes(sum: usize, n: usize, size: usize, Ghost(total): Ghost<int>) -> (r: usize)
    requires
        sum == capped(total),
        total >= 0,
    ensures
        r == capped(total + n * size),
        n * size >= 0,
{
    assert(n * size >= 0) by (nonlinear_arith);
    match n.checked_mul(size) {
        Some(more) => match sum.checked_add(more) {
            Some(r) => r,
            None => usize::MAX,
        },
        None => usize::MAX,
    }
}

impl World {
    /// The arrays of the factory have room for so many elements each, as their
    /// capacities say.
    pub closed spec fn takes(&self, c: Capacities) -> bool {
        &&& call_ensures(capacity::<Belt>, (&self.belts,), c.belts)
        &&& call_ensures(capacity::<Machine>, (&self.machines,), c.machines)
        &&& call_ensures(capacity::<Sink>, (&self.sinks,), c.sinks)
        &&& call_ensures(capacity::<Source>, (&self.sources,), c.sources)
        &&& call_ensures(capacity::<Run>, (&self.runs,), c.runs)
        &&& call_ensures(capacity::<u32>, (&self.run_free,), c.run_free)
        &&& call_ensures(capacity::<u32>, (&self.wheel,), c.wheel)
    }

    /// For how many elements the arrays of the factory have room.
    pub fn capacities(&self) -> (c: Capacities)
        requires
            self.wf(),
        ensures
            self.takes(c),
            c.belts >= self@.belts.len(),
            c.machines >= self@.machines.len(),
            c.sinks >= self@.sinks.len(),
            c.sources >= self@.sources.len(),
            c.wheel >= SLOTS,
    {
        Capacities {
            belts: asked(capacity::<Belt>, &self.belts),
            machines: asked(capacity::<Machine>, &self.machines),
            sinks: asked(capacity::<Sink>, &self.sinks),
            sources: asked(capacity::<Source>, &self.sources),
            runs: asked(capacity::<Run>, &self.runs),
            run_free: asked(capacity::<u32>, &self.run_free),
            wheel: asked(capacity::<u32>, &self.wheel),
        }
    }

    /// Bytes that the arrays of the factory take, as far as a `usize` can say: at
    /// least those of its nodes and of the timing wheel. How much room the arrays
    /// have beyond what they hold is up to the allocator.
    pub fn mem_bytes(&self) -> (n: usize)
        requires
            self.wf(),
        ensures
            exists|c: Capacities| #[trigger] self.takes(c) && n == capped(c.total()),
            n == usize::MAX || n >= self@.belts.len() * size_of::<Belt>() + self@.machines.len()
                * size_of::<Machine>() + self@.sinks.len() * size_of::<Sink>()
                + self@.sources.len() * size_of::<Source>() + 4 * SLOTS,
    {
        let c = self.capacities();
        proof {
            lemma_more_bytes(self@.belts.len(), c.belts as nat, size_of::<Belt>());
            lemma_more_bytes(self@.machines.len(), c.machines as nat, size_of::<Machine>());
            lemma_more_bytes(self@.sinks.len(), c.sinks as nat, size_of::<Sink>());
            lemma_more_bytes(self@.sources.len(), c.sources as nat, size_of::<Source>());
            lemma_more_bytes(0, c.runs as nat, run_bytes());
        }
        c.bytes()
    }
}

/// What the capacities of the arrays of a factory are.
pub(super) proof fn lemma_takes(w: World, c: Capacities)
    requires
        w.takes(c),
    ensures
        call_ensures(capacity::<Belt>, (&w.belts,), c.belts),
        call_ensures(capacity::<Machine>, (&w.machines,), c.machines),
        call_ensures(capacity::<Sink>, (&w.sinks,), c.sinks),
        call_ensures(capacity::<Source>, (&w.sources,), c.sources),
        call_ensures(capacity::<Run>, (&w.runs,), c.runs),
        call_ensures(capacity::<u32>, (&w.run_free,), c.run_free),
        call_ensures(capacity::<u32>, (&w.wheel,), c.wheel),
{
}

/// More elements take more bytes.
proof fn lemma_more_bytes(a: nat, b: nat, size: nat)
    by (nonlinear_arith)
    requires
        a <= b,
    ensures
        a * size <= b * size,
        0 * size == 0,
{
}

/// The bytes of the arrays add up: each has as many more as its elements take.
pub proof fn law_bytes_add_up(c: Capacities)
    ensures
        c.belts < usize::MAX ==> (Capacities {
            belts: (c.belts + 1) as usize,
            ..c
        }).total() == c.total() + size_of::<Belt>(),
        c.machines < usize::MAX ==> (Capacities {
            machines: (c.machines + 1) as usize,
            ..c
        }).total() == c.total() + size_of::<Machine>(),
        c.sinks < usize::MAX ==> (Capacities {
            sinks: (c.sinks + 1) as usize,
            ..c
        }).total() == c.total() + size_of::<Sink>(),
        c.sources < usize::MAX ==> (Capacities {
            sources: (c.sources + 1) as usize,
            ..c
        }).total() == c.total() + size_of::<Source>(),
        c.runs < usize::MAX ==> (Capacities {
            runs: (c.runs + 1) as usize,
            ..c
        }).total() == c.total() + run_bytes(),
        c.run_free < usize::MAX ==> (Capacities {
            run_free: (c.run_free + 1) as usize,
            ..c
        }).total() == c.total() + 4,
        c.wheel < usize::MAX ==> (Capacities {
            wheel: (c.wheel + 1) as usize,
            ..c
        }).total() == c.total() + 4,
        (Capacities {
            belts: 0,
            machines: 0,
            sinks: 0,
            sources: 0,
            runs: 0,
            run_free: 0,
            wheel: 0,
        }).total() == 0,
{
    lemma_one_more(c.belts as nat, size_of::<Belt>());
    lemma_one_more(c.machines as nat, size_of::<Machine>());
    lemma_one_more(c.sinks as nat, size_of::<Sink>());
    lemma_one_more(c.sources as nat, size_of::<Source>());
    lemma_one_more(c.runs as nat, run_bytes());
}

proof fn lemma_one_more(a: nat, size: nat)
    by (nonlinear_arith)
    ensures
        (a + 1) * size == a * size + size,
        0 * size == 0,
{
}

} // verus!
