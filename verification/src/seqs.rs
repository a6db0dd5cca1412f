//! Facts about sequences that the proofs of the other modules share.

use vstd::prelude::*;

verus! {

/// What a sequence holds after an element was put in front of it.
pub proof fn lemma_prepend<A>(s: Seq<A>, a: A)
    ensures
        forall|x: A| #[trigger] (seq![a] + s).contains(x) <==> (x == a || s.contains(x)),
        s.no_duplicates() && !s.contains(a) ==> (seq![a] + s).no_duplicates(),
{
    let t = seq![a] + s;
    assert forall|x: A| #[trigger] t.contains(x) <==> (x == a || s.contains(x)) by {
        if x == a {
            assert(t[0] == a);
        } else if s.contains(x) {
            let k = choose|k: int| 0 <= k < s.len() && s[k] == x;
            assert(t[k + 1] == x);
        } else if t.contains(x) {
            let k = choose|k: int| 0 <= k < t.len() && t[k] == x;
            assert(s[k - 1] == x);
        }
    }
    if s.no_duplicates() && !s.contains(a) {
        assert forall|i: int, j: int| 0 <= i < t.len() && 0 <= j < t.len() && i != j implies t[i]
            != t[j] by {
            if i == 0 {
                assert(s[j - 1] == t[j]);
            } else if j == 0 {
                assert(s[i - 1] == t[i]);
            } else {
                assert(s[i - 1] != s[j - 1]);
            }
        }
    }
}

/// What a sequence holds after an element was put behind it.
pub proof fn lemma_append<A>(s: Seq<A>, a: A)
    ensures
        forall|x: A| #[trigger] s.push(a).contains(x) <==> (x == a || s.contains(x)),
        s.no_duplicates() && !s.contains(a) ==> s.push(a).no_duplicates(),
{
    let t = s.push(a);
    assert forall|x: A| #[trigger] t.contains(x) <==> (x == a || s.contains(x)) by {
        if x == a {
            assert(t[s.len() as int] == a);
        } else if s.contains(x) {
            let k = choose|k: int| 0 <= k < s.len() && s[k] == x;
            assert(t[k] == x);
        } else if t.contains(x) {
            let k = choose|k: int| 0 <= k < t.len() && t[k] == x;
            assert(s[k] == x);
        }
    }
    if s.no_duplicates() && !s.contains(a) {
        assert forall|i: int, j: int| 0 <= i < t.len() && 0 <= j < t.len() && i != j implies t[i]
            != t[j] by {
            if i < s.len() && j < s.len() {
                assert(s[i] != s[j]);
            } else if i < s.len() {
                assert(s[i] == t[i]);
            } else {
                assert(s[j] == t[j]);
            }
        }
    }
}

/// What a sequence without duplicates holds after its first element has left.
pub proof fn lemma_behind<A>(s: Seq<A>)
    requires
        s.len() > 0,
        s.no_duplicates(),
    ensures
        forall|x: A| #[trigger] s.drop_first().contains(x) <==> (x != s[0] && s.contains(x)),
        s.drop_first().no_duplicates(),
{
    let t = s.drop_first();
    assert forall|x: A| #[trigger] t.contains(x) <==> (x != s[0] && s.contains(x)) by {
        if t.contains(x) {
            let k = choose|k: int| 0 <= k < t.len() && t[k] == x;
            assert(s[k + 1] == x);
        } else if x != s[0] && s.contains(x) {
            let k = choose|k: int| 0 <= k < s.len() && s[k] == x;
            assert(t[k - 1] == x);
        }
    }
}

/// What a sequence without duplicates holds after its last element has left.
pub proof fn lemma_ahead<A>(s: Seq<A>)
    requires
        s.len() > 0,
        s.no_duplicates(),
    ensures
        forall|x: A| #[trigger] s.drop_last().contains(x) <==> (x != s.last() && s.contains(x)),
        s.drop_last().no_duplicates(),
{
    let t = s.drop_last();
    assert forall|x: A| #[trigger] t.contains(x) <==> (x != s.last() && s.contains(x)) by {
        if t.contains(x) {
            let k = choose|k: int| 0 <= k < t.len() && t[k] == x;
            assert(s[k] == x);
        } else if x != s.last() && s.contains(x) {
            let k = choose|k: int| 0 <= k < s.len() && s[k] == x;
            assert(t[k] == x);
        }
    }
}

/// The sum of `f` over the elements of `s`; `f` also sees an element's index.
pub open spec fn tally<A>(s: Seq<A>, f: spec_fn(int, A) -> int) -> int
    decreases s.len(),
{
    if s.len() == 0 {
        0
    } else {
        tally(s.drop_last(), f) + f(s.len() - 1, s.last())
    }
}

/// A sum after one element was replaced.
pub proof fn lemma_tally_update<A>(s: Seq<A>, f: spec_fn(int, A) -> int, i: int, a: A)
    requires
        0 <= i < s.len(),
    ensures
        tally(s.update(i, a), f) == tally(s, f) - f(i, s[i]) + f(i, a),
    decreases s.len(),
{
    let t = s.update(i, a);
    if i == s.len() - 1 {
        assert(t.drop_last() =~= s.drop_last());
    } else {
        assert(t.drop_last() =~= s.drop_last().update(i, a));
        lemma_tally_update(s.drop_last(), f, i, a);
    }
}

/// A sum after one element was added.
pub proof fn lemma_tally_push<A>(s: Seq<A>, f: spec_fn(int, A) -> int, a: A)
    ensures
        tally(s.push(a), f) == tally(s, f) + f(s.len() as int, a),
{
    assert(s.push(a).drop_last() =~= s);
}

/// A sum of smaller terms is smaller.
pub proof fn lemma_tally_le<A, B>(
    s: Seq<A>,
    f: spec_fn(int, A) -> int,
    t: Seq<B>,
    g: spec_fn(int, B) -> int,
)
    requires
        s.len() == t.len(),
        forall|i: int| 0 <= i < s.len() ==> f(i, #[trigger] s[i]) <= g(i, t[i]),
    ensures
        tally(s, f) <= tally(t, g),
    decreases s.len(),
{
    if s.len() > 0 {
        assert forall|i: int| 0 <= i < s.drop_last().len() implies f(
            i,
            #[trigger] s.drop_last()[i],
        ) <= g(i, t.drop_last()[i]) by {
            assert(s.drop_last()[i] == s[i]);
        }
        lemma_tally_le(s.drop_last(), f, t.drop_last(), g);
        assert(f(s.len() - 1, s[s.len() - 1]) <= g(t.len() - 1, t[t.len() - 1]));
    }
}

/// A sum of terms that are none of them negative is at least each term.
pub proof fn lemma_tally_term<A>(s: Seq<A>, f: spec_fn(int, A) -> int, i: int)
    requires
        0 <= i < s.len(),
        forall|k: int| 0 <= k < s.len() ==> f(k, #[trigger] s[k]) >= 0,
    ensures
        tally(s, f) >= f(i, s[i]) >= 0,
    decreases s.len(),
{
    let t = s.drop_last();
    assert forall|k: int| 0 <= k < t.len() implies f(k, #[trigger] t[k]) >= 0 by {
        assert(t[k] == s[k]);
    }
    assert(f(s.len() - 1, s[s.len() - 1]) >= 0);
    if i < s.len() - 1 {
        lemma_tally_term(t, f, i);
    } else {
        lemma_tally_nonneg(t, f);
    }
}

/// A sum of terms that are none of them negative is not negative.
pub proof fn lemma_tally_nonneg<A>(s: Seq<A>, f: spec_fn(int, A) -> int)
    requires
        forall|k: int| 0 <= k < s.len() ==> f(k, #[trigger] s[k]) >= 0,
    ensures
        tally(s, f) >= 0,
    decreases s.len(),
{
    if s.len() > 0 {
        let t = s.drop_last();
        assert forall|k: int| 0 <= k < t.len() implies f(k, #[trigger] t[k]) >= 0 by {
            assert(t[k] == s[k]);
        }
        lemma_tally_nonneg(t, f);
        assert(f(s.len() - 1, s[s.len() - 1]) >= 0);
    }
}

/// The words of all elements of `s`, one after the other.
pub open spec fn flat<A>(s: Seq<A>, f: spec_fn(int, A) -> Seq<u64>) -> Seq<u64>
    decreases s.len(),
{
    if s.len() == 0 {
        Seq::empty()
    } else {
        flat(s.drop_last(), f) + f(s.len() - 1, s.last())
    }
}

/// The words of one element more.
pub proof fn lemma_flat_take<A>(s: Seq<A>, f: spec_fn(int, A) -> Seq<u64>, i: int)
    requires
        0 <= i < s.len(),
    ensures
        flat(s.take(i + 1), f) == flat(s.take(i), f) + f(i, s[i]),
{
    assert(s.take(i + 1).drop_last() =~= s.take(i));
    assert(s.take(i + 1).last() == s[i]);
}

/// A sum over one element more.
pub proof fn lemma_tally_take<A>(s: Seq<A>, f: spec_fn(int, A) -> int, i: int)
    requires
        0 <= i < s.len(),
    ensures
        tally(s.take(i + 1), f) == tally(s.take(i), f) + f(i, s[i]),
{
    assert(s.take(i + 1).drop_last() =~= s.take(i));
    assert(s.take(i + 1).last() == s[i]);
}

/// A sum of terms of at most `most`.
pub proof fn lemma_tally_at_most<A>(s: Seq<A>, f: spec_fn(int, A) -> int, most: int)
    requires
        forall|k: int| 0 <= k < s.len() ==> f(k, #[trigger] s[k]) <= most,
    ensures
        tally(s, f) <= s.len() * most,
    decreases s.len(),
{
    if s.len() > 0 {
        let t = s.drop_last();
        assert forall|k: int| 0 <= k < t.len() implies f(k, #[trigger] t[k]) <= most by {
            assert(t[k] == s[k]);
        }
        lemma_tally_at_most(t, f, most);
        assert(f(s.len() - 1, s[s.len() - 1]) <= most);
        assert(t.len() * most + most == s.len() * most) by (nonlinear_arith)
            requires
                t.len() == s.len() - 1,
        ;
    }
}

/// A sum of equal terms.
pub proof fn lemma_tally_const<A>(s: Seq<A>, f: spec_fn(int, A) -> int, x: int)
    requires
        forall|k: int| 0 <= k < s.len() ==> f(k, #[trigger] s[k]) == x,
    ensures
        tally(s, f) == s.len() * x,
    decreases s.len(),
{
    if s.len() > 0 {
        let t = s.drop_last();
        assert forall|k: int| 0 <= k < t.len() implies f(k, #[trigger] t[k]) == x by {
            assert(t[k] == s[k]);
        }
        lemma_tally_const(t, f, x);
        assert(f(s.len() - 1, s[s.len() - 1]) == x);
        assert(t.len() * x + x == s.len() * x) by (nonlinear_arith)
            requires
                t.len() == s.len() - 1,
        ;
    }
}

/// A sum of terms that are put together from those of two sums.
pub proof fn lemma_tally_combine<A>(
    s: Seq<A>,
    f: spec_fn(int, A) -> int,
    g: spec_fn(int, A) -> int,
    h: spec_fn(int, A) -> int,
    c: int,
)
    requires
        forall|i: int| 0 <= i < s.len() ==> f(i, #[trigger] s[i]) == g(i, s[i]) + c * h(i, s[i]),
    ensures
        tally(s, f) == tally(s, g) + c * tally(s, h),
    decreases s.len(),
{
    if s.len() > 0 {
        let t = s.drop_last();
        assert forall|i: int| 0 <= i < t.len() implies f(i, #[trigger] t[i]) == g(i, t[i]) + c * h(
            i,
            t[i],
        ) by {
            assert(t[i] == s[i]);
        }
        lemma_tally_combine(t, f, g, h, c);
        let a = tally(t, h);
        let b = h(s.len() - 1, s[s.len() - 1]);
        assert(c * (a + b) == c * a + c * b) by (nonlinear_arith);
    } else {
        assert(c * 0 == 0) by (nonlinear_arith);
    }
}

/// A sum of differences.
pub proof fn lemma_tally_difference<A>(
    s: Seq<A>,
    f: spec_fn(int, A) -> int,
    t: Seq<A>,
    g: spec_fn(int, A) -> int,
    h: spec_fn(int, A) -> int,
)
    requires
        s.len() == t.len(),
        forall|i: int| 0 <= i < s.len() ==> f(i, #[trigger] s[i]) - g(i, t[i]) == h(i, s[i]),
    ensures
        tally(s, f) - tally(t, g) == tally(s, h),
    decreases s.len(),
{
    if s.len() > 0 {
        let s1 = s.drop_last();
        let t1 = t.drop_last();
        assert forall|i: int| 0 <= i < s1.len() implies f(i, #[trigger] s1[i]) - g(i, t1[i]) == h(
            i,
            s1[i],
        ) by {
            assert(s1[i] == s[i]);
        }
        lemma_tally_difference(s1, f, t1, g, h);
        let n = s.len() - 1;
        assert(f(n, s[n]) - g(n, t[n]) == h(n, s[n]));
    }
}

/// Two sums that differ in one term.
pub proof fn lemma_tally_differs<A>(
    s: Seq<A>,
    f: spec_fn(int, A) -> int,
    t: Seq<A>,
    g: spec_fn(int, A) -> int,
    i: int,
)
    requires
        s.len() == t.len(),
        0 <= i < s.len(),
        forall|k: int| 0 <= k < s.len() && k != i ==> f(k, #[trigger] s[k]) == g(k, t[k]),
    ensures
        tally(t, g) == tally(s, f) - f(i, s[i]) + g(i, t[i]),
    decreases s.len(),
{
    let s1 = s.drop_last();
    let t1 = t.drop_last();
    let n = s.len() - 1;
    if i == n {
        assert forall|k: int| 0 <= k < s1.len() implies f(k, #[trigger] s1[k]) == g(k, t1[k]) by {
            assert(s1[k] == s[k]);
        }
        lemma_tally_same(s1, f, t1, g);
    } else {
        assert forall|k: int| 0 <= k < s1.len() && k != i implies f(k, #[trigger] s1[k]) == g(
            k,
            t1[k],
        ) by {
            assert(s1[k] == s[k]);
        }
        lemma_tally_differs(s1, f, t1, g, i);
        assert(f(n, s[n]) == g(n, t[n]));
    }
}

/// Two sums of the same terms.
pub proof fn lemma_tally_same<A>(
    s: Seq<A>,
    f: spec_fn(int, A) -> int,
    t: Seq<A>,
    g: spec_fn(int, A) -> int,
)
    requires
        s.len() == t.len(),
        forall|k: int| 0 <= k < s.len() ==> f(k, #[trigger] s[k]) == g(k, t[k]),
    ensures
        tally(t, g) == tally(s, f),
{
    lemma_tally_le(s, f, t, g);
    assert forall|k: int| 0 <= k < t.len() implies g(k, #[trigger] t[k]) <= f(k, s[k]) by {
        assert(f(k, s[k]) == g(k, t[k]));
    }
    lemma_tally_le(t, g, s, f);
}

} // verus!
