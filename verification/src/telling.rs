//! What the hash of a state tells apart.

use vstd::arithmetic::div_mod::{lemma_mod_multiples_vanish, lemma_mul_mod_noop_left};
use vstd::prelude::*;

use crate::belts::{lemma_extent_bounds, lemma_extent_update, lemma_items_fit, lemma_lead};
use crate::digest::{
    belt_words, digest, lemma_digest_append, machine_words, mixed, run_words, sink_words,
    source_words, END_OF_BELT, HASH_PRIME, HASH_SEED,
};
use crate::ids::{node, K_MACH};
use crate::model::{wrap, BeltV, MachineV, Model, RunV, SinkV, SourceV};
use crate::rest::law_machine_timer;
use crate::seqs::{flat, lemma_tally_nonneg, lemma_tally_same, lemma_tally_term, tally};

verus! {

/// What undoes the multiplication by the factor of the hash.
spec fn undo() -> int {
    0xce96_5057_aff6_957b
}

/// Multiplication by the factor of the hash can be undone.
proof fn lemma_undo(x: u64)
    ensures
        ((x * HASH_PRIME) % wrap()) * undo() % wrap() == x,
{
    let p = HASH_PRIME as int;
    let u = undo();
    let k = 887_285_111_055int;
    assert(p * u == wrap() * k + 1);
    lemma_mul_mod_noop_left(x * p, u, wrap());
    assert(x * p * u == wrap() * (k * x) + x) by (nonlinear_arith)
        requires
            p * u == wrap() * k + 1,
    ;
    lemma_mod_multiples_vanish(k * x, x as int, wrap());
}

/// Hashing a word on top of two hashes, or two words on top of one, gives two hashes.
pub proof fn lemma_mixed_differ(g: u64, h: u64, a: u64, b: u64)
    ensures
        g != h ==> mixed(g, a) != mixed(h, a),
        a != b ==> mixed(g, a) != mixed(g, b),
{
    lemma_undo(g ^ a);
    lemma_undo(h ^ a);
    lemma_undo(g ^ b);
    assert(g != h ==> g ^ a != h ^ a) by (bit_vector);
    assert(a != b ==> g ^ a != g ^ b) by (bit_vector);
}

/// More words keep hashes apart.
proof fn lemma_digest_apart(g: u64, h: u64, words: Seq<u64>)
    requires
        g != h,
    ensures
        digest(g, words) != digest(h, words),
    decreases words.len(),
{
    if words.len() > 0 {
        lemma_digest_apart(g, h, words.drop_last());
        lemma_mixed_differ(
            digest(g, words.drop_last()),
            digest(h, words.drop_last()),
            words.last(),
            words.last(),
        );
    }
}

/// Words that differ in one place have different hashes.
proof fn lemma_one_word(h: u64, a: Seq<u64>, b: Seq<u64>, k: int)
    requires
        a.len() == b.len(),
        0 <= k < a.len(),
        a[k] != b[k],
        forall|i: int| 0 <= i < a.len() && i != k ==> #[trigger] a[i] == b[i],
    ensures
        digest(h, a) != digest(h, b),
    decreases a.len(),
{
    if k == a.len() - 1 {
        assert(a.drop_last() =~= b.drop_last());
        lemma_mixed_differ(digest(h, a.drop_last()), h, a.last(), b.last());
    } else {
        let p = a.drop_last();
        let q = b.drop_last();
        assert forall|i: int| 0 <= i < p.len() && i != k implies #[trigger] p[i] == q[i] by {
            assert(a[i] == b[i]);
        }
        lemma_one_word(h, p, q, k);
        assert(a[a.len() - 1] == b[b.len() - 1]);
        lemma_mixed_differ(digest(h, p), digest(h, q), a.last(), b.last());
    }
}

/// Two elements whose words have different hashes give the words of all elements
/// different hashes.
proof fn lemma_flat_apart<A>(
    h: u64,
    s: Seq<A>,
    f: spec_fn(int, A) -> Seq<u64>,
    i: int,
    x: A,
    y: A,
)
    requires
        0 <= i < s.len(),
        forall|g: u64| #[trigger] digest(g, f(i, x)) != digest(g, f(i, y)),
    ensures
        digest(h, flat(s.update(i, x), f)) != digest(h, flat(s.update(i, y), f)),
    decreases s.len(),
{
    let n = s.len() - 1;
    let a = s.update(i, x);
    let b = s.update(i, y);
    let p = flat(a.drop_last(), f);
    let q = flat(b.drop_last(), f);
    lemma_digest_append(h, p, f(n, a.last()));
    lemma_digest_append(h, q, f(n, b.last()));
    if i == n {
        assert(a.drop_last() =~= b.drop_last());
        assert(digest(digest(h, p), f(i, x)) != digest(digest(h, p), f(i, y)));
    } else {
        assert(a.drop_last() =~= s.drop_last().update(i, x));
        assert(b.drop_last() =~= s.drop_last().update(i, y));
        lemma_flat_apart(h, s.drop_last(), f, i, x, y);
        lemma_digest_apart(digest(h, p), digest(h, q), f(n, a.last()));
    }
}

impl Model {
    /// The hash of the clock and the belts.
    spec fn hash_of_belts(self) -> u64 {
        digest(
            digest(HASH_SEED, seq![self.now as u64]),
            flat(self.belts, |i: int, b: BeltV| belt_words(b, self.now)),
        )
    }

    /// The words of the machines.
    spec fn words_of_machines(self) -> Seq<u64> {
        flat(self.machines, |i: int, c: MachineV| machine_words(c, self.now))
    }

    /// The words of the sinks.
    spec fn words_of_sinks(self) -> Seq<u64> {
        flat(self.sinks, |i: int, c: SinkV| sink_words(c))
    }

    /// The words of the sources.
    spec fn words_of_sources(self) -> Seq<u64> {
        flat(self.sources, |i: int, c: SourceV| source_words(c, self.now))
    }
}

/// The hash is made kind by kind.
proof fn lemma_hash_parts(m: Model)
    ensures
        m.state_hash() == digest(
            digest(digest(m.hash_of_belts(), m.words_of_machines()), m.words_of_sinks()),
            m.words_of_sources(),
        ),
{
    let clock = seq![m.now as u64];
    let belts = flat(m.belts, |i: int, b: BeltV| belt_words(b, m.now));
    let machines = m.words_of_machines();
    let sinks = m.words_of_sinks();
    lemma_digest_append(HASH_SEED, clock, belts);
    lemma_digest_append(HASH_SEED, clock + belts, machines);
    lemma_digest_append(HASH_SEED, clock + belts + machines, sinks);
    lemma_digest_append(HASH_SEED, clock + belts + machines + sinks, m.words_of_sources());
}

/// Two states that differ in one word only have different hashes.
pub proof fn law_hash_tells_one_word(a: Model, b: Model, k: int)
    requires
        a.state_words().len() == b.state_words().len(),
        0 <= k < a.state_words().len(),
        a.state_words()[k] != b.state_words()[k],
        forall|i: int|
            0 <= i < a.state_words().len() && i != k ==> #[trigger] a.state_words()[i]
                == b.state_words()[i],
    ensures
        a.state_hash() != b.state_hash(),
{
    lemma_one_word(HASH_SEED, a.state_words(), b.state_words(), k);
}

/// Two states that differ in one sink only, and there either in what it has received
/// or in its gate, have different hashes.
pub proof fn law_hash_tells_sinks(m: Model, i: int, a: SinkV, b: SinkV)
    requires
        0 <= i < m.sinks.len(),
        a.ok(),
        b.ok(),
        a.count == b.count <==> a.open != b.open,
    ensures
        (Model { sinks: m.sinks.update(i, a), ..m }).state_hash() != (Model {
            sinks: m.sinks.update(i, b),
            ..m
        }).state_hash(),
{
    let p = Model { sinks: m.sinks.update(i, a), ..m };
    let q = Model { sinks: m.sinks.update(i, b), ..m };
    let f = |i: int, c: SinkV| sink_words(c);
    lemma_hash_parts(p);
    lemma_hash_parts(q);
    assert forall|g: u64| #[trigger] digest(g, f(i, a)) != digest(g, f(i, b)) by {
        if a.count != b.count {
            lemma_one_word(g, sink_words(a), sink_words(b), 0);
        } else {
            lemma_one_word(g, sink_words(a), sink_words(b), 1);
        }
    }
    let h = digest(m.hash_of_belts(), m.words_of_machines());
    lemma_flat_apart(h, m.sinks, f, i, a, b);
    lemma_digest_apart(
        digest(h, p.words_of_sinks()),
        digest(h, q.words_of_sinks()),
        m.words_of_sources(),
    );
}

/// Two states that differ only in how much input one machine holds have different
/// hashes.
pub proof fn law_hash_tells_input(m: Model, i: int, a: int, b: int)
    requires
        0 <= i < m.machines.len(),
        0 <= a <= 0xff,
        0 <= b <= 0xff,
        a != b,
    ensures
        m.with_machine(i, MachineV { have: a, ..m.machines[i] }).state_hash() != m.with_machine(
            i,
            MachineV { have: b, ..m.machines[i] },
        ).state_hash(),
{
    let x = MachineV { have: a, ..m.machines[i] };
    let y = MachineV { have: b, ..m.machines[i] };
    let p = m.with_machine(i, x);
    let q = m.with_machine(i, y);
    let f = |i: int, c: MachineV| machine_words(c, m.now);
    lemma_hash_parts(p);
    lemma_hash_parts(q);
    assert forall|g: u64| #[trigger] digest(g, f(i, x)) != digest(g, f(i, y)) by {
        lemma_one_word(g, machine_words(x, m.now), machine_words(y, m.now), 0);
    }
    let h = m.hash_of_belts();
    lemma_flat_apart(h, m.machines, f, i, x, y);
    lemma_digest_apart(
        digest(h, p.words_of_machines()),
        digest(h, q.words_of_machines()),
        m.words_of_sinks(),
    );
    lemma_digest_apart(
        digest(digest(h, p.words_of_machines()), m.words_of_sinks()),
        digest(digest(h, q.words_of_machines()), m.words_of_sinks()),
        m.words_of_sources(),
    );
}

/// Two states that differ only in the item of one run on one belt have different hashes.
pub proof fn law_hash_tells_items(m: Model, i: int, k: int, x: u16, y: u16)
    requires
        0 <= i < m.belts.len(),
        0 <= k < m.belts[i].runs.len(),
        x != y,
    ensures
        m.with_belt(i, m.belts[i].with_run(k, RunV { item: x, ..m.belts[i].runs[k] })).state_hash()
            != m.with_belt(
            i,
            m.belts[i].with_run(k, RunV { item: y, ..m.belts[i].runs[k] }),
        ).state_hash(),
{
    let b = m.belts[i];
    let rx = RunV { item: x, ..b.runs[k] };
    let ry = RunV { item: y, ..b.runs[k] };
    let bx = b.with_run(k, rx);
    let by_ = b.with_run(k, ry);
    let p = m.with_belt(i, bx);
    let q = m.with_belt(i, by_);
    lemma_hash_parts(p);
    lemma_hash_parts(q);
    lemma_extent_update(b.runs, k, rx);
    lemma_extent_update(b.runs, k, ry);
    let now = m.now;
    let lead = b.lead(now);
    let f = |k: int, r: RunV| run_words(r, k, lead);
    let head = seq![
        b.cap as u64,
        bx.used(now) as u64,
        lead as u64,
        if b.blocked {
            1u64
        } else {
            0
        },
    ];
    let fb = |i: int, b: BeltV| belt_words(b, now);
    assert forall|g: u64| #[trigger] digest(g, fb(i, bx)) != digest(g, fb(i, by_)) by {
        let h = digest(g, head);
        assert forall|d: u64| #[trigger] digest(d, f(k, rx)) != digest(d, f(k, ry)) by {
            lemma_one_word(d, run_words(rx, k, lead), run_words(ry, k, lead), 0);
        }
        lemma_flat_apart(h, b.runs, f, k, rx, ry);
        let wx = flat(bx.runs, f);
        let wy = flat(by_.runs, f);
        lemma_digest_append(g, head, wx);
        lemma_digest_append(g, head, wy);
        lemma_digest_append(g, head + wx, seq![END_OF_BELT]);
        lemma_digest_append(g, head + wy, seq![END_OF_BELT]);
        lemma_digest_apart(digest(h, wx), digest(h, wy), seq![END_OF_BELT]);
        assert(belt_words(bx, now) == head + wx + seq![END_OF_BELT]);
        assert(belt_words(by_, now) == head + wy + seq![END_OF_BELT]);
    }
    let h = digest(HASH_SEED, seq![now as u64]);
    lemma_flat_apart(h, m.belts, fb, i, bx, by_);
    assert(p.hash_of_belts() != q.hash_of_belts());
    assert(p.words_of_machines() == q.words_of_machines());
    lemma_digest_apart(p.hash_of_belts(), q.hash_of_belts(), m.words_of_machines());
    lemma_digest_apart(
        digest(p.hash_of_belts(), m.words_of_machines()),
        digest(q.hash_of_belts(), m.words_of_machines()),
        m.words_of_sinks(),
    );
    lemma_digest_apart(
        digest(digest(p.hash_of_belts(), m.words_of_machines()), m.words_of_sinks()),
        digest(digest(q.hash_of_belts(), m.words_of_machines()), m.words_of_sinks()),
        m.words_of_sources(),
    );
}

impl BeltV {
    /// The belt with another run `k`.
    pub open spec fn with_run(self, k: int, r: RunV) -> BeltV {
        BeltV { runs: self.runs.update(k, r), ..self }
    }
}

// ------------------------------------------------------------------------- words

/// Where the words of an element stand if all have equally many.
proof fn lemma_flat_even<A>(s: Seq<A>, f: spec_fn(int, A) -> Seq<u64>, w: int, k: int, j: int)
    requires
        w >= 0,
        forall|k: int| 0 <= k < s.len() ==> (#[trigger] f(k, s[k])).len() == w,
    ensures
        flat(s, f).len() == w * s.len(),
        0 <= k < s.len() && 0 <= j < w ==> 0 <= w * k + j < w * s.len() && flat(s, f)[w * k + j]
            == f(k, s[k])[j],
    decreases s.len(),
{
    if s.len() == 0 {
        assert(w * 0 == 0) by (nonlinear_arith);
    } else {
        let t = s.drop_last();
        let n = t.len() as int;
        assert forall|k: int| 0 <= k < t.len() implies (#[trigger] f(k, t[k])).len() == w by {
            assert(f(k, s[k]).len() == w);
        }
        lemma_flat_even(t, f, w, k, j);
        assert(f(n, s[n]).len() == w);
        assert(w * n + w == w * (n + 1)) by (nonlinear_arith);
        assert(w * n >= 0) by (nonlinear_arith)
            requires
                w >= 0,
                n >= 0,
        ;
        if 0 <= k < n && 0 <= j < w {
            assert(flat(t, f)[w * k + j] == f(k, t[k])[j]);
            assert(flat(s, f)[w * k + j] == flat(t, f)[w * k + j]);
        }
    }
}

/// Where the words of an element stand.
proof fn lemma_flat_at<A>(s: Seq<A>, f: spec_fn(int, A) -> Seq<u64>, i: int, j: int)
    requires
        0 <= i < s.len(),
        0 <= j < f(i, s[i]).len(),
    ensures
        ({
            let at = tally(s.take(i), |k: int, x: A| f(k, x).len() as int);
            &&& 0 <= at
            &&& at + j < flat(s, f).len()
            &&& flat(s, f)[at + j] == f(i, s[i])[j]
        }),
        flat(s, f).len() == tally(s, |k: int, x: A| f(k, x).len() as int),
    decreases s.len(),
{
    let t = s.drop_last();
    let n = t.len() as int;
    let len = |k: int, x: A| f(k, x).len() as int;
    lemma_flat_len(t, f);
    lemma_tally_nonneg(s.take(i), len);
    if i < n {
        assert(t.take(i) =~= s.take(i));
        lemma_flat_at(t, f, i, j);
    } else {
        assert(s.take(i) =~= t);
    }
}

proof fn lemma_flat_len<A>(s: Seq<A>, f: spec_fn(int, A) -> Seq<u64>)
    ensures
        flat(s, f).len() == tally(s, |k: int, x: A| f(k, x).len() as int),
    decreases s.len(),
{
    if s.len() > 0 {
        lemma_flat_len(s.drop_last(), f);
    }
}

/// The words of a belt: its number of cells, the position of its last item plus one, that
/// of its first item, whether it is blocked, of each run the item, how many, and the free
/// cells ahead of it, and an end.
pub proof fn law_words_of_belts(b: BeltV, now: int, k: int)
    requires
        b.ok(now),
    ensures
        ({
            let w = belt_words(b, now);
            let n = b.runs.len() as int;
            &&& w.len() == 5 + 3 * n
            &&& w[0] == b.cap
            &&& w[1] == b.used(now)
            &&& w[2] == b.lead(now)
            &&& w[3] == (if b.blocked {
                1int
            } else {
                0
            })
            &&& w[4 + 3 * n] == 0xffff_ffff
            &&& 0 <= k < n ==> {
                &&& w[4 + 3 * k] == b.runs[k].item
                &&& w[5 + 3 * k] == b.runs[k].count
                &&& w[6 + 3 * k] == (if k == 0 {
                    b.lead(now)
                } else {
                    b.runs[k].gap
                })
            }
        }),
{
    let lead = b.lead(now);
    let f = |k: int, r: RunV| run_words(r, k, lead);
    lemma_lead(b, now);
    lemma_items_fit(b, now);
    lemma_extent_bounds(b.runs);
    lemma_flat_even(b.runs, f, 3, k, 0);
    lemma_flat_even(b.runs, f, 3, k, 1);
    lemma_flat_even(b.runs, f, 3, k, 2);
    if b.runs.len() == 0 {
        assert(b.due <= now);
    }
    if 0 <= k < b.runs.len() {
        let r = b.runs[k];
        assert(r.count >= 1 && r.gap >= 0);
        assert forall|j: int| 0 <= j < b.runs.len() implies b.runs[j].gap + (
        #[trigger] b.runs[j]).count >= 0 by {}
        lemma_tally_term(b.runs, |i: int, r: RunV| r.gap + r.count, k);
        assert(f(k, b.runs[k])[0] == r.item as u64);
        assert(f(k, b.runs[k])[1] == r.count as u64);
        assert(f(k, b.runs[k])[2] == (if k == 0 {
            lead as u64
        } else {
            r.gap as u64
        }));
    }
}

/// Number of words of a belt.
pub open spec fn words_of_belt() -> spec_fn(int, BeltV) -> int {
    |k: int, b: BeltV| 5int + 3 * b.runs.len()
}

/// How many words there are of each kind of node.
proof fn lemma_words(m: Model)
    requires
        m.nodes_ok(),
    ensures
        ({
            let belts = flat(m.belts, |i: int, b: BeltV| belt_words(b, m.now));
            &&& m.state_words() == seq![m.now as u64] + belts + m.words_of_machines()
                + m.words_of_sinks() + m.words_of_sources()
            &&& belts.len() == tally(m.belts, words_of_belt())
            &&& m.words_of_machines().len() == 3 * m.machines.len()
            &&& m.words_of_sinks().len() == 2 * m.sinks.len()
            &&& m.words_of_sources().len() == 2 * m.sources.len()
        }),
{
    let fb = |i: int, b: BeltV| belt_words(b, m.now);
    let len = |k: int, x: BeltV| fb(k, x).len() as int;
    assert forall|k: int| 0 <= k < m.belts.len() implies len(k, #[trigger] m.belts[k])
        == words_of_belt()(k, m.belts[k]) by {
        assert(m.belts[k].ok(m.now));
        law_words_of_belts(m.belts[k], m.now, 0);
    }
    lemma_flat_len(m.belts, fb);
    lemma_tally_same(m.belts, len, m.belts, words_of_belt());
    lemma_flat_even(m.machines, |i: int, c: MachineV| machine_words(c, m.now), 3, 0, 0);
    lemma_flat_even(m.sinks, |i: int, c: SinkV| sink_words(c), 2, 0, 0);
    lemma_flat_even(m.sources, |i: int, c: SourceV| source_words(c, m.now), 2, 0, 0);
}

/// The words of a state begin with the clock. There is one for it, five of each belt and
/// three more of each of its runs, three of each machine, two of each sink and two of each
/// source.
pub proof fn law_clock_in_words(m: Model)
    requires
        m.nodes_ok(),
        0 <= m.now <= 0xffff_ffff_ffff_ffff,
    ensures
        m.state_words()[0] == m.now,
        m.state_words().len() == 1 + tally(
            m.belts,
            |i: int, b: BeltV| 5 + 3 * b.runs.len() as int,
        ) + 3 * m.machines.len() + 2 * m.sinks.len() + 2 * m.sources.len(),
{
    lemma_words(m);
    lemma_tally_same(
        m.belts,
        words_of_belt(),
        m.belts,
        |i: int, b: BeltV| 5 + 3 * b.runs.len() as int,
    );
}

/// Behind the clock come the words of each belt in turn.
pub proof fn law_belts_in_words(m: Model, i: int, j: int)
    requires
        m.valid(),
        0 <= i < m.belts.len(),
        0 <= j < 5 + 3 * m.belts[i].runs.len(),
    ensures
        m.state_words()[1 + tally(m.belts.take(i), words_of_belt()) + j] == belt_words(
            m.belts[i],
            m.now,
        )[j],
{
    lemma_words(m);
    let fb = |i: int, b: BeltV| belt_words(b, m.now);
    let len = |k: int, x: BeltV| fb(k, x).len() as int;
    let p = m.belts.take(i);
    assert forall|k: int| 0 <= k < p.len() implies len(k, #[trigger] p[k]) == words_of_belt()(
        k,
        p[k],
    ) by {
        assert(m.belts[k].ok(m.now));
        law_words_of_belts(m.belts[k], m.now, 0);
    }
    lemma_tally_same(p, len, p, words_of_belt());
    assert(m.belts[i].ok(m.now));
    law_words_of_belts(m.belts[i], m.now, 0);
    lemma_flat_at(m.belts, fb, i, j);
}

/// Behind the words of the belts come those of the machines: of each what it has, what it
/// is doing, and for how long still.
pub proof fn law_machines_in_words(m: Model, i: int)
    requires
        m.valid(),
        0 <= i < m.machines.len(),
    ensures
        ({
            let w = m.state_words();
            let at = 1 + tally(m.belts, words_of_belt()) + 3 * i;
            let c = m.machines[i];
            &&& w[at] == c.have
            &&& w[at + 1] == (if c.busy {
                8int
            } else if c.has_out {
                16
            } else {
                0
            })
            &&& w[at + 2] == (if c.busy {
                c.until - m.now
            } else {
                0
            })
        }),
{
    lemma_words(m);
    let c = m.machines[i];
    let f = |i: int, c: MachineV| machine_words(c, m.now);
    assert(c.ok());
    if c.busy {
        law_machine_timer(m, i);
        let id = node(K_MACH, i);
        assert(m.live(id) && m.engaged(id));
        assert(m.timely(id));
    }
    lemma_flat_even(m.machines, f, 3, i, 0);
    lemma_flat_even(m.machines, f, 3, i, 1);
    lemma_flat_even(m.machines, f, 3, i, 2);
    lemma_tally_nonneg(m.belts, words_of_belt());
}

/// Behind those come the words of the sinks: of each how much it has received and whether
/// it is open.
pub proof fn law_sinks_in_words(m: Model, i: int)
    requires
        m.valid(),
        0 <= i < m.sinks.len(),
    ensures
        ({
            let w = m.state_words();
            let at = 1 + tally(m.belts, words_of_belt()) + 3 * m.machines.len() + 2 * i;
            &&& w[at] == m.sinks[i].count
            &&& w[at + 1] == m.sinks[i].open
        }),
{
    lemma_words(m);
    let f = |i: int, c: SinkV| sink_words(c);
    assert(m.sinks[i].ok());
    lemma_flat_even(m.sinks, f, 2, i, 0);
    lemma_flat_even(m.sinks, f, 2, i, 1);
    lemma_tally_nonneg(m.belts, words_of_belt());
}

/// And at last those of the sources: of each whether it is blocked and, if not, for how
/// long it still pauses.
pub proof fn law_sources_in_words(m: Model, i: int)
    requires
        m.valid(),
        0 <= i < m.sources.len(),
    ensures
        ({
            let w = m.state_words();
            let at = 1 + tally(m.belts, words_of_belt()) + 3 * m.machines.len() + 2
                * m.sinks.len() + 2 * i;
            let c = m.sources[i];
            &&& w[at] == (if c.blocked {
                1int
            } else {
                0
            })
            &&& c.blocked || c.until <= m.now ==> w[at + 1] == 0
            &&& !c.blocked && m.now <= c.until < m.now + wrap() ==> w[at + 1] == c.until - m.now
        }),
{
    lemma_words(m);
    let f = |i: int, c: SourceV| source_words(c, m.now);
    lemma_flat_even(m.sources, f, 2, i, 0);
    lemma_flat_even(m.sources, f, 2, i, 1);
    lemma_tally_nonneg(m.belts, words_of_belt());
}

/// The hash of a state starts from a fixed number and takes in its words one after the
/// other: each is combined with the hash bit by bit, and the whole is then multiplied,
/// modulo 2^64.
pub proof fn law_hash_of_words(m: Model, h: u64, words: Seq<u64>, v: u64)
    ensures
        m.state_hash() == digest(0xcbf2_9ce4_8422_2325, m.state_words()),
        digest(h, Seq::empty()) == h,
        digest(h, words.push(v)) == ((digest(h, words) ^ v) * 0x100_0000_01b3)
            % 0x1_0000_0000_0000_0000,
{
    assert(words.push(v).drop_last() =~= words);
}

} // verus!
