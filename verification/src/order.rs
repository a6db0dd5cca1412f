//! The order in which the events of one tick are taken when they are sorted.

use vstd::prelude::*;

use crate::ids::{idx, kind};
use crate::seqs::lemma_append;

verus! {

/// Number of values of one digit of a sort key.
const BUCKETS: usize = 0x2000;

/// The digit of an identifier that pass `pass` of the sort goes by.
pub open spec fn digit(pass: int) -> spec_fn(u32) -> int {
    |x: u32|
        if pass == 0 {
            x as int % 0x2000
        } else if pass == 1 {
            (x as int / 0x2000) % 0x2000
        } else {
            x as int / 0x400_0000
        }
}

/// The two lower digits of an identifier.
spec fn lower() -> spec_fn(u32) -> int {
    |x: u32| x as int % 0x400_0000
}

/// The whole identifier.
pub open spec fn whole() -> spec_fn(u32) -> int {
    |x: u32| x as int
}

/// The elements of `s` with key `d`, in their order.
pub open spec fn having(s: Seq<u32>, key: spec_fn(u32) -> int, d: int) -> Seq<u32> {
    s.filter(|x: u32| key(x) == d)
}

/// The elements of `s` whose key is below `n`, by ascending key; elements of
/// equal key keep the order that they have in `s`.
pub open spec fn gather(s: Seq<u32>, key: spec_fn(u32) -> int, n: nat) -> Seq<u32>
    decreases n,
{
    if n == 0 {
        Seq::empty()
    } else {
        gather(s, key, (n - 1) as nat) + having(s, key, n - 1)
    }
}

/// `s` in ascending order: first by kind, then by index.
pub open spec fn by_id(s: Seq<u32>) -> Seq<u32> {
    gather(s, whole(), 0x1_0000_0000)
}

// ---------------------------------------------------------------- one element

proof fn lemma_having_push(s: Seq<u32>, key: spec_fn(u32) -> int, d: int, x: u32)
    ensures
        having(s.push(x), key, d) == if key(x) == d {
            having(s, key, d).push(x)
        } else {
            having(s, key, d)
        },
{
    reveal(Seq::filter);
    assert(s.push(x).drop_last() =~= s);
}

proof fn lemma_having_keys(s: Seq<u32>, key: spec_fn(u32) -> int, d: int)
    ensures
        forall|k: int|
            0 <= k < having(s, key, d).len() ==> key(#[trigger] having(s, key, d)[k]) == d,
        forall|x: u32| #[trigger]
            having(s, key, d).contains(x) <==> (s.contains(x) && key(x) == d),
        s.no_duplicates() ==> having(s, key, d).no_duplicates(),
    decreases s.len(),
{
    if s.len() == 0 {
        reveal(Seq::filter);
        assert(having(s, key, d) == s);
    } else {
        let t = s.drop_last();
        let x = s.last();
        assert(s =~= t.push(x));
        lemma_having_push(t, key, d, x);
        lemma_having_keys(t, key, d);
        lemma_append(t, x);
        lemma_append(having(t, key, d), x);
        if s.no_duplicates() {
            assert(!t.contains(x)) by {
                if t.contains(x) {
                    let k = choose|k: int| 0 <= k < t.len() && t[k] == x;
                    assert(s[k] == s[s.len() - 1]);
                }
            }
        }
    }
}

/// How many elements of a prefix have a key.
proof fn lemma_having_prefix(s: Seq<u32>, key: spec_fn(u32) -> int, d: int, i: int)
    requires
        0 <= i < s.len(),
    ensures
        having(s.take(i + 1), key, d) == if key(s[i]) == d {
            having(s.take(i), key, d).push(s[i])
        } else {
            having(s.take(i), key, d)
        },
        having(s.take(i + 1), key, d).len() <= having(s, key, d).len(),
    decreases s.len() - i,
{
    assert(s.take(i + 1) =~= s.take(i).push(s[i]));
    lemma_having_push(s.take(i), key, d, s[i]);
    if i + 1 < s.len() {
        lemma_having_prefix(s, key, d, i + 1);
    } else {
        assert(s.take(i + 1) =~= s);
    }
}

// --------------------------------------------------------------- whole orders

/// The buckets of an order follow each other.
proof fn lemma_gather_len(s: Seq<u32>, key: spec_fn(u32) -> int, a: nat, b: nat)
    requires
        a <= b,
    ensures
        gather(s, key, a).len() <= gather(s, key, b).len(),
        forall|p: int|
            0 <= p < gather(s, key, a).len() ==> #[trigger] gather(s, key, b)[p] == gather(
                s,
                key,
                a,
            )[p],
    decreases b,
{
    if a < b {
        lemma_gather_len(s, key, a, (b - 1) as nat);
        assert forall|p: int| 0 <= p < gather(s, key, a).len() implies #[trigger] gather(
            s,
            key,
            b,
        )[p] == gather(s, key, a)[p] by {
            assert(gather(s, key, b)[p] == gather(s, key, (b - 1) as nat)[p]);
        }
    }
}

/// An order names what has a small enough key, by ascending key.
pub proof fn lemma_gather(s: Seq<u32>, key: spec_fn(u32) -> int, n: nat)
    ensures
        forall|x: u32| #[trigger]
            gather(s, key, n).contains(x) <==> (s.contains(x) && 0 <= key(x) < n),
        forall|i: int, j: int|
            0 <= i <= j < gather(s, key, n).len() ==> key(#[trigger] gather(s, key, n)[i]) <= key(
                #[trigger] gather(s, key, n)[j],
            ),
        s.no_duplicates() ==> gather(s, key, n).no_duplicates(),
    decreases n,
{
    if n > 0 {
        let g = gather(s, key, (n - 1) as nat);
        let h = having(s, key, n - 1);
        let r = gather(s, key, n);
        lemma_gather(s, key, (n - 1) as nat);
        lemma_having_keys(s, key, n - 1);
        assert forall|x: u32| #[trigger] r.contains(x) <==> (s.contains(x) && 0 <= key(x) < n) by {
            if r.contains(x) {
                let k = choose|k: int| 0 <= k < r.len() && r[k] == x;
                if k < g.len() {
                    assert(g[k] == x);
                    assert(g.contains(x));
                } else {
                    assert(h[k - g.len()] == x);
                    assert(h.contains(x));
                }
            }
            if s.contains(x) && 0 <= key(x) < n {
                if key(x) == n - 1 {
                    assert(h.contains(x));
                    let k = choose|k: int| 0 <= k < h.len() && h[k] == x;
                    assert(r[k + g.len()] == x);
                } else {
                    assert(g.contains(x));
                    let k = choose|k: int| 0 <= k < g.len() && g[k] == x;
                    assert(r[k] == x);
                }
            }
        }
        assert forall|i: int| 0 <= i < g.len() implies key(#[trigger] g[i]) < n - 1 by {
            assert(g.contains(g[i]));
        }
        assert forall|i: int, j: int| 0 <= i <= j < r.len() implies key(#[trigger] r[i]) <= key(
            #[trigger] r[j],
        ) by {
            if j < g.len() {
                assert(r[i] == g[i] && r[j] == g[j]);
            } else if i < g.len() {
                assert(r[i] == g[i] && r[j] == h[j - g.len()]);
            } else {
                assert(r[i] == h[i - g.len()] && r[j] == h[j - g.len()]);
            }
        }
        if s.no_duplicates() {
            assert forall|i: int, j: int| 0 <= i < r.len() && 0 <= j < r.len() && i != j implies r[i]
                != r[j] by {
                if i < g.len() && j < g.len() {
                    assert(g[i] != g[j]);
                } else if i < g.len() {
                    assert(key(g[i]) < n - 1 && key(h[j - g.len()]) == n - 1);
                } else if j < g.len() {
                    assert(key(g[j]) < n - 1 && key(h[i - g.len()]) == n - 1);
                } else {
                    assert(h[i - g.len()] != h[j - g.len()]);
                }
            }
        }
    }
}

/// Every digit fits its buckets.
proof fn lemma_digit_range(pass: int, id: u32)
    requires
        0 <= pass < 3,
    ensures
        0 <= digit(pass)(id) < 0x2000,
        0 <= digit(2)(id) < 0x40,
{
}

/// Sorting names the same nodes, each as often as before, in ascending order.
pub proof fn law_by_id_sorts(s: Seq<u32>)
    ensures
        forall|x: u32| #[trigger] by_id(s).contains(x) <==> s.contains(x),
        by_id(s).to_multiset() == s.to_multiset(),
        by_id(s).len() == s.len(),
        s.no_duplicates() ==> by_id(s).no_duplicates(),
        forall|i: int, j: int|
            0 <= i <= j < by_id(s).len() ==> #[trigger] by_id(s)[i] <= #[trigger] by_id(s)[j],
{
    broadcast use vstd::seq_lib::group_to_multiset_ensures;

    let r = by_id(s);
    lemma_gather(s, whole(), 0x1_0000_0000);
    assert forall|i: int, j: int| 0 <= i <= j < r.len() implies #[trigger] r[i]
        <= #[trigger] r[j] by {
        assert(whole()(r[i]) <= whole()(r[j]));
    }
    assert forall|x: u32| r.to_multiset().count(x) == s.to_multiset().count(x) by {
        lemma_gather_count(s, whole(), 0x1_0000_0000, x);
    }
    assert(r.to_multiset() =~= s.to_multiset());
    assert(r.to_multiset().len() == r.len());
    assert(s.to_multiset().len() == s.len());
}

/// There is nothing to sort in a list of one element or none.
pub proof fn lemma_by_id_short(s: Seq<u32>)
    requires
        s.len() <= 1,
    ensures
        by_id(s) == s,
{
    law_by_id_sorts(s);
    if s.len() == 1 {
        assert(s.contains(s[0]));
        assert(by_id(s).contains(s[0]));
    }
    assert(by_id(s) =~= s);
}

/// Identifiers in ascending order are ordered by their kinds, and within a kind by
/// their indices.
pub proof fn law_ids_by_kind_and_index(a: u32, b: u32)
    ensures
        a <= b <==> kind(a) < kind(b) || (kind(a) == kind(b) && idx(a) <= idx(b)),
{
}

proof fn lemma_having_count(s: Seq<u32>, key: spec_fn(u32) -> int, d: int, x: u32)
    ensures
        having(s, key, d).to_multiset().count(x) == if key(x) == d {
            s.to_multiset().count(x)
        } else {
            0
        },
    decreases s.len(),
{
    broadcast use vstd::seq_lib::group_to_multiset_ensures;

    if s.len() == 0 {
        reveal(Seq::filter);
        assert(having(s, key, d) == s);
        assert(s =~= Seq::<u32>::empty());
    } else {
        let t = s.drop_last();
        let y = s.last();
        assert(s =~= t.push(y));
        lemma_having_push(t, key, d, y);
        lemma_having_count(t, key, d, x);
    }
}

proof fn lemma_gather_count(s: Seq<u32>, key: spec_fn(u32) -> int, n: nat, x: u32)
    ensures
        gather(s, key, n).to_multiset().count(x) == if 0 <= key(x) < n {
            s.to_multiset().count(x)
        } else {
            0
        },
    decreases n,
{
    broadcast use vstd::seq_lib::group_to_multiset_ensures;

    if n > 0 {
        let g = gather(s, key, (n - 1) as nat);
        let h = having(s, key, n - 1);
        lemma_gather_count(s, key, (n - 1) as nat, x);
        lemma_having_count(s, key, n - 1, x);
        vstd::seq_lib::lemma_multiset_commutative(g, h);
    }
}

// ------------------------------------------------------ several passes, one order

/// The key `c` is made of the digits `hi` and `lo`, of which `lo` is below `a`.
spec fn made_of(
    c: spec_fn(u32) -> int,
    hi: spec_fn(u32) -> int,
    lo: spec_fn(u32) -> int,
    a: nat,
) -> bool {
    forall|x: u32| 0 <= #[trigger] lo(x) < a && c(x) == hi(x) * a + lo(x)
}

/// The `n` buckets of `s` from key `base` on.
spec fn slice(s: Seq<u32>, key: spec_fn(u32) -> int, base: int, n: nat) -> Seq<u32>
    decreases n,
{
    if n == 0 {
        Seq::empty()
    } else {
        slice(s, key, base, (n - 1) as nat) + having(s, key, base + n - 1)
    }
}

proof fn lemma_digits(a: int, h: int, l: int, g: int, k: int)
    requires
        0 <= l < a,
        0 <= k < a,
    ensures
        h * a + l == g * a + k <==> h == g && l == k,
{
    if h * a + l == g * a + k {
        assert(h == g) by (nonlinear_arith)
            requires
                h * a + l == g * a + k,
                0 <= l < a,
                0 <= k < a,
        ;
    }
}

proof fn lemma_twice(
    s: Seq<u32>,
    c: spec_fn(u32) -> int,
    hi: spec_fn(u32) -> int,
    lo: spec_fn(u32) -> int,
    a: nat,
    h: int,
    l: int,
)
    requires
        made_of(c, hi, lo, a),
        0 <= l < a,
    ensures
        having(having(s, lo, l), hi, h) == having(s, c, h * a + l),
    decreases s.len(),
{
    if s.len() == 0 {
        reveal(Seq::filter);
    } else {
        let t = s.drop_last();
        let x = s.last();
        assert(s =~= t.push(x));
        lemma_twice(t, c, hi, lo, a, h, l);
        lemma_having_push(t, lo, l, x);
        lemma_having_push(having(t, lo, l), hi, h, x);
        lemma_having_push(t, c, h * a + l, x);
        assert(0 <= lo(x) < a && c(x) == hi(x) * a + lo(x));
        lemma_digits(a as int, hi(x), lo(x), h, l);
    }
}

proof fn lemma_row(
    s: Seq<u32>,
    c: spec_fn(u32) -> int,
    hi: spec_fn(u32) -> int,
    lo: spec_fn(u32) -> int,
    a: nat,
    h: int,
    n: nat,
)
    requires
        made_of(c, hi, lo, a),
        n <= a,
    ensures
        having(gather(s, lo, n), hi, h) == slice(s, c, h * a, n),
    decreases n,
{
    if n == 0 {
        reveal(Seq::filter);
    } else {
        lemma_row(s, c, hi, lo, a, h, (n - 1) as nat);
        lemma_twice(s, c, hi, lo, a, h, n - 1);
        Seq::filter_distributes_over_add(
            gather(s, lo, (n - 1) as nat),
            having(s, lo, n - 1),
            |x: u32| hi(x) == h,
        );
    }
}

proof fn lemma_rows_join(s: Seq<u32>, key: spec_fn(u32) -> int, base: nat, n: nat)
    ensures
        gather(s, key, base + n) == gather(s, key, base) + slice(s, key, base as int, n),
    decreases n,
{
    if n == 0 {
        assert(gather(s, key, base) =~= gather(s, key, base) + slice(s, key, base as int, n));
    } else {
        lemma_rows_join(s, key, base, (n - 1) as nat);
        assert(gather(s, key, base + n) =~= gather(s, key, base) + slice(
            s,
            key,
            base as int,
            n,
        ));
    }
}

/// Ordering by a low digit and then by a high one orders by both.
proof fn lemma_two_passes(
    s: Seq<u32>,
    c: spec_fn(u32) -> int,
    hi: spec_fn(u32) -> int,
    lo: spec_fn(u32) -> int,
    a: nat,
    h: nat,
)
    requires
        made_of(c, hi, lo, a),
    ensures
        gather(gather(s, lo, a), hi, h) == gather(s, c, h * a),
    decreases h,
{
    if h > 0 {
        let g = (h - 1) as nat;
        lemma_two_passes(s, c, hi, lo, a, g);
        lemma_row(s, c, hi, lo, a, g as int, a);
        lemma_rows_join(s, c, g * a, a);
        assert(g * a + a == h * a) by (nonlinear_arith)
            requires
                g == h - 1,
        ;
    } else {
        assert(h * a == 0) by (nonlinear_arith)
            requires
                h == 0,
        ;
    }
}

/// Buckets for keys that no element has are empty.
proof fn lemma_gather_beyond(s: Seq<u32>, key: spec_fn(u32) -> int, a: nat, b: nat)
    requires
        a <= b,
        forall|x: u32| #[trigger] key(x) < a,
    ensures
        gather(s, key, b) == gather(s, key, a),
    decreases b,
{
    if a < b {
        lemma_gather_beyond(s, key, a, (b - 1) as nat);
        lemma_having_keys(s, key, b - 1);
        let h = having(s, key, b - 1);
        if h.len() > 0 {
            assert(key(h[0]) == b - 1);
        }
        assert(gather(s, key, b) =~= gather(s, key, (b - 1) as nat));
    }
}

/// The three passes order by the whole identifier.
proof fn lemma_three_passes(s: Seq<u32>)
    ensures
        gather(gather(gather(s, digit(0), 0x2000), digit(1), 0x2000), digit(2), 0x2000) == by_id(
            s,
        ),
{
    assert(made_of(lower(), digit(1), digit(0), 0x2000));
    lemma_two_passes(s, lower(), digit(1), digit(0), 0x2000, 0x2000);
    let t = gather(s, lower(), 0x400_0000);
    assert forall|x: u32| #[trigger] digit(2)(x) < 0x40 by {
        lemma_digit_range(2, x);
    }
    lemma_gather_beyond(t, digit(2), 0x40, 0x2000);
    assert(made_of(whole(), digit(2), lower(), 0x400_0000));
    lemma_two_passes(s, whole(), digit(2), lower(), 0x400_0000, 0x40);
}

// ------------------------------------------------------------------- the sort

/// The digit of an identifier that a pass goes by.
fn digit_of(id: u32, pass: u8) -> (d: usize)
    requires
        pass < 3,
    ensures
        d < BUCKETS,
        d == digit(pass as int)(id),
{
    if pass == 0 {
        (id % 0x2000) as usize
    } else if pass == 1 {
        ((id / 0x2000) % 0x2000) as usize
    } else {
        (id / 0x400_0000) as usize
    }
}

/// One pass of the sort: `to` receives the elements of `from` by ascending
/// digit, with ties in their order in `from`.
fn radix_pass(from: &Vec<u32>, to: &mut Vec<u32>, counts: &mut Vec<usize>, pass: u8)
    requires
        pass < 3,
        old(to)@.len() == from@.len(),
        old(counts)@.len() == BUCKETS + 1,
    ensures
        final(to)@ == gather(from@, digit(pass as int), 0x2000),
        final(to)@.len() == from@.len(),
        final(counts)@.len() == BUCKETS + 1,
{
    let ghost key = digit(pass as int);
    let ghost s = from@;
    let n: usize = from.len();
    let mut c: usize = 0;
    while c <= BUCKETS
        invariant
            c <= BUCKETS + 1,
            counts@.len() == BUCKETS + 1,
            forall|j: int| 0 <= j < c ==> counts@[j] == 0,
        decreases BUCKETS + 1 - c,
    {
        counts[c] = 0;
        c = c + 1;
    }
    proof {
        reveal(Seq::filter);
        assert(s.take(0) =~= Seq::<u32>::empty());
        assert forall|d: int| having(s.take(0), key, d).len() == 0 by {}
    }
    let mut i: usize = 0;
    while i < n
        invariant
            i <= n,
            n == s.len(),
            s == from@,
            pass < 3,
            key == digit(pass as int),
            counts@.len() == BUCKETS + 1,
            counts@[0] == 0,
            forall|d: int|
                0 <= d < BUCKETS ==> counts@[d + 1] == #[trigger] having(
                    s.take(i as int),
                    key,
                    d,
                ).len(),
            forall|d: int|
                0 <= d < BUCKETS ==> #[trigger] having(s.take(i as int), key, d).len() <= i,
        decreases n - i,
    {
        let b: usize = digit_of(from[i], pass);
        proof {
            assert forall|d: int| 0 <= d < BUCKETS implies #[trigger] having(
                s.take(i + 1),
                key,
                d,
            ).len() == having(s.take(i as int), key, d).len() + (if d == b {
                1int
            } else {
                0
            }) by {
                lemma_having_prefix(s, key, d, i as int);
            }
            assert(having(s.take(i as int), key, b as int).len() <= i);
        }
        let ghost before = counts@;
        counts[b + 1] = counts[b + 1] + 1;
        i = i + 1;
        proof {
            assert forall|d: int| 0 <= d < BUCKETS implies counts@[d + 1] == #[trigger] having(
                s.take(i as int),
                key,
                d,
            ).len() && having(s.take(i as int), key, d).len() <= i by {
                assert(before[d + 1] == having(s.take(i - 1), key, d).len());
            }
        }
    }
    assert(s.take(n as int) =~= s);
    proof {
        lemma_gather_total(s, pass as int);
    }
    let mut k: usize = 0;
    while k < BUCKETS
        invariant
            k <= BUCKETS,
            n == s.len(),
            counts@.len() == BUCKETS + 1,
            gather(s, key, 0x2000).len() == n,
            forall|j: int| 0 <= j <= k ==> counts@[j] == #[trigger] gather(s, key, j as nat).len(),
            forall|d: int|
                k <= d < BUCKETS ==> counts@[d + 1] == #[trigger] having(s, key, d).len(),
        decreases BUCKETS - k,
    {
        proof {
            lemma_gather_len(s, key, (k + 1) as nat, 0x2000);
            assert(counts@[k as int] == gather(s, key, k as nat).len());
            assert(counts@[k + 1] == having(s, key, k as int).len());
        }
        let ghost before = counts@;
        counts[k + 1] = counts[k + 1] + counts[k];
        k = k + 1;
        proof {
            assert forall|j: int| 0 <= j <= k implies counts@[j] == #[trigger] gather(
                s,
                key,
                j as nat,
            ).len() by {
                if j < k {
                    assert(before[j] == gather(s, key, j as nat).len());
                }
            }
        }
    }
    proof {
        reveal(Seq::filter);
        assert forall|d: int| having(s.take(0), key, d).len() == 0 by {}
    }
    let mut p: usize = 0;
    while p < n
        invariant
            p <= n,
            n == s.len(),
            s == from@,
            pass < 3,
            key == digit(pass as int),
            to@.len() == n,
            counts@.len() == BUCKETS + 1,
            gather(s, key, 0x2000).len() == n,
            forall|d: int|
                0 <= d < BUCKETS ==> counts@[d] == gather(s, key, d as nat).len()
                    + #[trigger] having(s.take(p as int), key, d).len(),
            forall|d: int, j: int|
                0 <= d < BUCKETS && 0 <= j < having(s.take(p as int), key, d).len()
                    ==> to@[gather(s, key, d as nat).len() + j] == #[trigger] having(
                    s.take(p as int),
                    key,
                    d,
                )[j],
        decreases n - p,
    {
        let v: u32 = from[p];
        let b: usize = digit_of(v, pass);
        let ghost start = gather(s, key, b as nat).len();
        let ghost had = having(s.take(p as int), key, b as int).len();
        proof {
            lemma_having_prefix(s, key, b as int, p as int);
            lemma_gather_len(s, key, (b + 1) as nat, 0x2000);
            assert(gather(s, key, (b + 1) as nat).len() == start + having(s, key, b as int).len());
            assert(counts@[b as int] == start + had);
            assert(start + had < n);
        }
        let at: usize = counts[b];
        let ghost to0 = to@;
        let ghost counts0 = counts@;
        to.set(at, v);
        counts.set(b, at + 1);
        p = p + 1;
        proof {
            assert forall|d: int| 0 <= d < BUCKETS implies counts@[d] == gather(
                s,
                key,
                d as nat,
            ).len() + #[trigger] having(s.take(p as int), key, d).len() by {
                lemma_having_prefix(s, key, d, p - 1);
                assert(counts0[d] == gather(s, key, d as nat).len() + having(
                    s.take(p - 1),
                    key,
                    d,
                ).len());
            }
            assert forall|d: int, j: int|
                0 <= d < BUCKETS && 0 <= j < having(s.take(p as int), key, d).len() implies to@[gather(
                s,
                key,
                d as nat,
            ).len() + j] == #[trigger] having(s.take(p as int), key, d)[j] by {
                lemma_having_prefix(s, key, d, p - 1);
                if d == b && j == had {
                } else {
                    assert(to0[gather(s, key, d as nat).len() + j] == having(
                        s.take(p - 1),
                        key,
                        d,
                    )[j]);
                    lemma_gather_len(s, key, (d + 1) as nat, 0x2000);
                    assert(gather(s, key, (d + 1) as nat).len() == gather(s, key, d as nat).len()
                        + having(s, key, d).len());
                    if d < b {
                        lemma_gather_len(s, key, (d + 1) as nat, b as nat);
                    } else if d > b {
                        lemma_gather_len(s, key, (b + 1) as nat, d as nat);
                    }
                }
            }
        }
    }
    proof {
        assert(s.take(n as int) =~= s);
        lemma_placed(s, key, to@, 0x2000);
        assert(to@ =~= gather(s, key, 0x2000));
    }
}

/// The buckets of a digit hold all elements.
proof fn lemma_gather_total(s: Seq<u32>, pass: int)
    requires
        0 <= pass < 3,
    ensures
        gather(s, digit(pass), 0x2000).len() == s.len(),
{
    broadcast use vstd::seq_lib::group_to_multiset_ensures;

    let key = digit(pass);
    let g = gather(s, key, 0x2000);
    assert forall|x: u32| g.to_multiset().count(x) == s.to_multiset().count(x) by {
        lemma_digit_range(pass, x);
        lemma_gather_count(s, key, 0x2000, x);
    }
    assert(g.to_multiset() =~= s.to_multiset());
    assert(g.to_multiset().len() == g.len());
    assert(s.to_multiset().len() == s.len());
}

/// What was placed bucket by bucket is the whole order.
proof fn lemma_placed(s: Seq<u32>, key: spec_fn(u32) -> int, to: Seq<u32>, n: nat)
    requires
        n <= 0x2000,
        forall|d: int, j: int|
            0 <= d < 0x2000 && 0 <= j < having(s, key, d).len() ==> to[gather(
                s,
                key,
                d as nat,
            ).len() + j] == #[trigger] having(s, key, d)[j],
    ensures
        forall|p: int| 0 <= p < gather(s, key, n).len() ==> to[p] == #[trigger] gather(s, key, n)[p],
    decreases n,
{
    if n > 0 {
        let g = gather(s, key, (n - 1) as nat);
        lemma_placed(s, key, to, (n - 1) as nat);
        assert forall|p: int| 0 <= p < gather(s, key, n).len() implies to[p] == #[trigger] gather(
            s,
            key,
            n,
        )[p] by {
            if p < g.len() {
                assert(to[p] == g[p]);
            } else {
                assert(gather(s, key, n)[p] == having(s, key, n - 1)[p - g.len()]);
            }
        }
    }
}

/// Sorts identifiers, by kind and then by index, in three passes of 13 bits each.
/// `scratch` is working space; what it held does not matter.
pub fn radix_sort(a: &mut Vec<u32>, scratch: &mut Vec<u32>)
    ensures
        final(a)@ == by_id(old(a)@),
        final(a)@.len() == old(a)@.len(),
        final(a)@.to_multiset() == old(a)@.to_multiset(),
        forall|i: int, j: int|
            0 <= i <= j < final(a)@.len() ==> #[trigger] final(a)@[i] <= #[trigger] final(a)@[j],
        final(scratch)@.len() == old(a)@.len(),
{
    let n: usize = a.len();
    scratch.clear();
    scratch.resize(n, 0);
    let mut counts: Vec<usize> = vec![0usize; BUCKETS + 1];
    radix_pass(a, scratch, &mut counts, 0);
    radix_pass(scratch, a, &mut counts, 1);
    radix_pass(a, scratch, &mut counts, 2);
    std::mem::swap(a, scratch);
    proof {
        lemma_three_passes(old(a)@);
        law_by_id_sorts(old(a)@);
    }
}

} // verus!
