//! The state of a factory as words, and their hash.

use vstd::prelude::*;

use crate::model::{wrap, BeltV, MachineV, Model, RunV, SinkV, SourceV};
use crate::seqs::{flat, lemma_flat_take};

verus! {

/// The hash of no words.
pub const HASH_SEED: u64 = 0xcbf2_9ce4_8422_2325;

/// The factor of the hash.
pub const HASH_PRIME: u64 = 0x100_0000_01b3;

/// Stands behind the runs of each belt.
pub const END_OF_BELT: u64 = 0xffff_ffff;

/// The hash `h` with one more word.
pub open spec fn mixed(h: u64, v: u64) -> u64 {
    (((h ^ v) * HASH_PRIME) % wrap()) as u64
}

/// The hash `h` with more words.
pub open spec fn digest(h: u64, words: Seq<u64>) -> u64
    decreases words.len(),
{
    if words.len() == 0 {
        h
    } else {
        mixed(digest(h, words.drop_last()), words.last())
    }
}

/// What is hashed of run `k` of a belt whose first item is `lead` cells from
/// its head.
pub open spec fn run_words(r: RunV, k: int, lead: int) -> Seq<u64> {
    seq![
        r.item as u64,
        r.count as u64,
        if k == 0 {
            lead as u64
        } else {
            r.gap as u64
        },
    ]
}

/// What is hashed of a belt: how far it has come, and what lies where on it.
pub open spec fn belt_words(b: BeltV, now: int) -> Seq<u64> {
    seq![
        b.cap as u64,
        b.used(now) as u64,
        b.lead(now) as u64,
        if b.blocked {
            1
        } else {
            0
        },
    ] + flat(b.runs, |k: int, r: RunV| run_words(r, k, b.lead(now))) + seq![END_OF_BELT]
}

/// What is hashed of a machine: what it holds, what it is doing, and for how
/// long still.
pub open spec fn machine_words(c: MachineV, now: int) -> Seq<u64> {
    seq![
        c.have as u64,
        ((if c.busy {
            8int
        } else {
            0
        }) + (if c.has_out {
            16int
        } else {
            0
        })) as u64,
        if c.busy {
            (c.until - now) as u64
        } else {
            0
        },
    ]
}

/// What is hashed of a sink.
pub open spec fn sink_words(c: SinkV) -> Seq<u64> {
    seq![c.count as u64, c.open as u64]
}

/// What is hashed of a source: whether it is blocked, and if not, how long it
/// is until its next item.
pub open spec fn source_words(c: SourceV, now: int) -> Seq<u64> {
    seq![
        if c.blocked {
            1
        } else {
            0
        },
        if c.blocked || c.until <= now {
            0
        } else {
            (c.until - now) as u64
        },
    ]
}

impl Model {
    /// The state of the factory as words. Neither its queues nor its number of
    /// events are part of it.
    pub open spec fn state_words(self) -> Seq<u64> {
        seq![self.now as u64] + flat(self.belts, |i: int, b: BeltV| belt_words(b, self.now)) + flat(
            self.machines,
            |i: int, c: MachineV| machine_words(c, self.now),
        ) + flat(self.sinks, |i: int, c: SinkV| sink_words(c)) + flat(
            self.sources,
            |i: int, c: SourceV| source_words(c, self.now),
        )
    }

    /// The hash of the state of the factory.
    pub open spec fn state_hash(self) -> u64 {
        digest(HASH_SEED, self.state_words())
    }
}

/// Words are hashed one after the other.
pub proof fn lemma_digest_append(h: u64, a: Seq<u64>, b: Seq<u64>)
    ensures
        digest(h, a + b) == digest(digest(h, a), b),
    decreases b.len(),
{
    if b.len() == 0 {
        assert(a + b =~= a);
    } else {
        assert((a + b).drop_last() =~= a + b.drop_last());
        assert((a + b).last() == b.last());
        lemma_digest_append(h, a, b.drop_last());
    }
}

pub proof fn lemma_digest_one(h: u64, v: u64)
    ensures
        digest(h, seq![v]) == mixed(h, v),
{
    assert(seq![v].drop_last() =~= Seq::<u64>::empty());
    assert(seq![v].last() == v);
    assert(digest(h, Seq::<u64>::empty()) == h);
}

pub proof fn lemma_digest_two(h: u64, a: u64, b: u64)
    ensures
        digest(h, seq![a, b]) == mixed(mixed(h, a), b),
{
    assert(seq![a, b] =~= seq![a] + seq![b]);
    lemma_digest_append(h, seq![a], seq![b]);
    lemma_digest_one(h, a);
    lemma_digest_one(mixed(h, a), b);
}

pub proof fn lemma_digest_three(h: u64, a: u64, b: u64, c: u64)
    ensures
        digest(h, seq![a, b, c]) == mixed(mixed(mixed(h, a), b), c),
{
    assert(seq![a, b, c] =~= seq![a, b] + seq![c]);
    lemma_digest_append(h, seq![a, b], seq![c]);
    lemma_digest_two(h, a, b);
    lemma_digest_one(mixed(mixed(h, a), b), c);
}

/// The hash over the words of one more element.
pub proof fn lemma_digest_next<A>(h: u64, s: Seq<A>, f: spec_fn(int, A) -> Seq<u64>, i: int)
    requires
        0 <= i < s.len(),
    ensures
        digest(h, flat(s.take(i + 1), f)) == digest(digest(h, flat(s.take(i), f)), f(i, s[i])),
{
    lemma_flat_take(s, f, i);
    lemma_digest_append(h, flat(s.take(i), f), f(i, s[i]));
}

/// One more word is hashed.
pub fn mix(h: u64, v: u64) -> (r: u64)
    ensures
        r == mixed(h, v),
        r as int == ((h ^ v) * 0x100_0000_01b3) % 0x1_0000_0000_0000_0000,
{
    (h ^ v).wrapping_mul(HASH_PRIME)
}

} // verus!
