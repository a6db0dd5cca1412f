//! A priority queue for the timers that are too far ahead for the wheel.

use vstd::prelude::*;

use crate::model::{is_first, not_after};
use crate::seqs::{lemma_ahead, lemma_append};

verus! {

/// The timer that the pair of a tick and a node stands for.
pub open spec fn timer(p: (u32, u32)) -> (int, u32) {
    (p.0 as int, p.1)
}

/// Timers in the order of a binary heap: the earliest first, and of those for
/// one tick the one of the smallest node.
pub struct TimerHeap {
    data: Vec<(u32, u32)>,
}

/// `a` comes before `b`.
fn before(a: (u32, u32), b: (u32, u32)) -> (r: bool)
    ensures
        r == !not_after(timer(b), timer(a)),
{
    a.0 < b.0 || (a.0 == b.0 && a.1 < b.1)
}

/// Swapping two elements changes neither what a sequence holds nor that it
/// holds nothing twice.
proof fn lemma_swap(s: Seq<(int, u32)>, i: int, j: int)
    requires
        0 <= i < s.len(),
        0 <= j < s.len(),
        s.no_duplicates(),
    ensures
        s.update(i, s[j]).update(j, s[i]).no_duplicates(),
        s.update(i, s[j]).update(j, s[i]).to_set() == s.to_set(),
{
    let t = s.update(i, s[j]).update(j, s[i]);
    assert forall|x: (int, u32)| t.contains(x) <==> s.contains(x) by {
        if s.contains(x) {
            let k = choose|k: int| 0 <= k < s.len() && s[k] == x;
            if k == i {
                assert(t[j] == x);
            } else if k == j {
                assert(t[i] == x);
            } else {
                assert(t[k] == x);
            }
        }
        if t.contains(x) {
            let k = choose|k: int| 0 <= k < t.len() && t[k] == x;
            if k == j {
                assert(s[i] == x);
            } else if k == i {
                assert(s[j] == x);
            } else {
                assert(s[k] == x);
            }
        }
    }
    assert(t.to_set() =~= s.to_set());
}

impl TimerHeap {
    /// The timers in the order in which they are stored.
    pub closed spec fn keys(self) -> Seq<(int, u32)> {
        self.data@.map_values(|p: (u32, u32)| timer(p))
    }

    /// The timers.
    pub closed spec fn view(&self) -> Set<(int, u32)> {
        self.keys().to_set()
    }

    /// The place `k` of a stored timer is in order with the place above it.
    spec fn ordered(s: Seq<(int, u32)>, k: int) -> bool {
        not_after(s[(k - 1) / 2], s[k])
    }

    /// The stored timers form a heap, and none is there twice.
    pub closed spec fn wf(self) -> bool {
        &&& self.keys().no_duplicates()
        &&& forall|k: int| 1 <= k < self.keys().len() ==> #[trigger] Self::ordered(self.keys(), k)
    }

    /// Nothing comes before the timer at the top.
    proof fn lemma_top(s: Seq<(int, u32)>, k: int)
        requires
            0 <= k < s.len(),
            forall|j: int| 1 <= j < s.len() ==> #[trigger] Self::ordered(s, j),
        ensures
            not_after(s[0], s[k]),
        decreases k,
    {
        if k > 0 {
            Self::lemma_top(s, (k - 1) / 2);
            assert(Self::ordered(s, k));
        }
    }

    /// A queue without timers.
    pub fn new() -> (r: TimerHeap)
        ensures
            r.wf(),
            r@ == Set::<(int, u32)>::empty(),
    {
        let r = TimerHeap { data: Vec::new() };
        assert(r.keys() =~= Seq::<(int, u32)>::empty());
        assert(r@ =~= Set::<(int, u32)>::empty());
        r
    }

    /// The first timer, if there is one.
    pub fn peek(&self) -> (r: Option<(u32, u32)>)
        requires
            self.wf(),
        ensures
            r is None <==> self@ == Set::<(int, u32)>::empty(),
            r matches Some(p) ==> is_first(self@, timer(p)),
            r matches Some(p) ==> self@.contains((p.0 as int, p.1)) && forall|o: (int, u32)|
                #[trigger]
                self@.contains(o) ==> p.0 < o.0 || (p.0 == o.0 && p.1 <= o.1),
    {
        if self.data.len() == 0 {
            assert(self@ =~= Set::<(int, u32)>::empty());
            None
        } else {
            let ghost s = self.keys();
            assert(s.contains(s[0]));
            assert(self@.contains(s[0]));
            assert forall|o: (int, u32)| #[trigger] self@.contains(o) implies not_after(s[0], o) by {
                let k = choose|k: int| 0 <= k < s.len() && s[k] == o;
                Self::lemma_top(s, k);
            }
            Some(self.data[0])
        }
    }

    /// Swaps two stored timers.
    fn swap(&mut self, i: usize, j: usize)
        requires
            i < old(self).keys().len(),
            j < old(self).keys().len(),
            old(self).keys().no_duplicates(),
        ensures
            final(self).keys() == old(self).keys().update(
                i as int,
                old(self).keys()[j as int],
            ).update(j as int, old(self).keys()[i as int]),
            final(self).keys().no_duplicates(),
            final(self)@ == old(self)@,
    {
        let a: (u32, u32) = self.data[i];
        let b: (u32, u32) = self.data[j];
        self.data.set(i, b);
        self.data.set(j, a);
        proof {
            lemma_swap(old(self).keys(), i as int, j as int);
            assert(self.keys() =~= old(self).keys().update(
                i as int,
                old(self).keys()[j as int],
            ).update(j as int, old(self).keys()[i as int]));
        }
    }

    /// Adds a timer.
    pub fn push(&mut self, tick: u32, id: u32)
        requires
            old(self).wf(),
            !old(self)@.contains((tick as int, id)),
        ensures
            final(self).wf(),
            final(self)@ == old(self)@.insert((tick as int, id)),
    {
        let ghost s0 = self.keys();
        let mut k: usize = self.data.len();
        self.data.push((tick, id));
        proof {
            assert(self.keys() =~= s0.push((tick as int, id)));
            lemma_append(s0, (tick as int, id));
            assert(self@ =~= old(self)@.insert((tick as int, id)));
            assert forall|j: int| 1 <= j < self.keys().len() && j != k implies #[trigger] Self::ordered(
                self.keys(),
                j,
            ) by {
                assert(Self::ordered(s0, j));
            }
        }
        while k > 0
            invariant
                k < self.keys().len(),
                self.keys().len() == self.data@.len(),
                self.keys().no_duplicates(),
                self@ == old(self)@.insert((tick as int, id)),
                forall|j: int|
                    1 <= j < self.keys().len() && j != k ==> #[trigger] Self::ordered(
                        self.keys(),
                        j,
                    ),
                forall|j: int|
                    #![trigger self.keys()[j]]
                    1 <= j < self.keys().len() && (j - 1) / 2 == k && k > 0 ==> not_after(
                        self.keys()[(k - 1) / 2],
                        self.keys()[j],
                    ),
            ensures
                self.keys().no_duplicates(),
                self@ == old(self)@.insert((tick as int, id)),
                forall|j: int|
                    1 <= j < self.keys().len() ==> #[trigger] Self::ordered(self.keys(), j),
            decreases k,
        {
            let up: usize = (k - 1) / 2;
            if !before(self.data[k], self.data[up]) {
                assert(Self::ordered(self.keys(), k as int));
                break;
            }
            let ghost s = self.keys();
            self.swap(k, up);
            proof {
                let t = self.keys();
                assert forall|j: int| 1 <= j < t.len() && j != up implies #[trigger] Self::ordered(
                    t,
                    j,
                ) by {
                    if j == k {
                    } else if (j - 1) / 2 == k {
                        assert(s[j] == t[j]);
                        assert(not_after(s[up as int], s[j]));
                    } else if (j - 1) / 2 == up {
                        assert(Self::ordered(s, j));
                    } else {
                        assert(Self::ordered(s, j));
                    }
                }
                assert forall|j: int|
                    #![trigger t[j]]
                    1 <= j < t.len() && (j - 1) / 2 == up && up > 0 implies not_after(
                    t[(up - 1) / 2],
                    t[j],
                ) by {
                    assert(Self::ordered(s, up as int));
                    if j != k {
                        assert(Self::ordered(s, j));
                    }
                }
            }
            k = up;
        }
    }

    /// Removes the first timer.
    pub fn pop(&mut self) -> (p: (u32, u32))
        requires
            old(self).wf(),
            old(self)@ != Set::<(int, u32)>::empty(),
        ensures
            final(self).wf(),
            is_first(old(self)@, timer(p)),
            final(self)@ == old(self)@.remove(timer(p)),
            old(self)@.contains((p.0 as int, p.1)),
            final(self)@ == old(self)@.remove((p.0 as int, p.1)),
            forall|o: (int, u32)| #[trigger]
                old(self)@.contains(o) ==> p.0 < o.0 || (p.0 == o.0 && p.1 <= o.1),
    {
        let ghost s0 = self.keys();
        proof {
            if s0.len() == 0 {
                assert(self@ =~= Set::<(int, u32)>::empty());
            }
        }
        let n: usize = self.data.len() - 1;
        let top: (u32, u32) = self.data[0];
        proof {
            assert(s0.contains(s0[0]));
            assert forall|o: (int, u32)| #[trigger] self@.contains(o) implies not_after(s0[0], o) by {
                let k = choose|k: int| 0 <= k < s0.len() && s0[k] == o;
                Self::lemma_top(s0, k);
            }
        }
        self.swap(0, n);
        let ghost s1 = self.keys();
        self.data.pop();
        let mut k: usize = 0;
        proof {
            assert(self.keys() =~= s1.drop_last());
            lemma_ahead(s1);
            assert(s1.last() == timer(top));
            assert(self@ =~= old(self)@.remove(timer(top)));
            assert forall|j: int|
                1 <= j < self.keys().len() && (j - 1) / 2 != 0 implies #[trigger] Self::ordered(
                self.keys(),
                j,
            ) by {
                assert(Self::ordered(s0, j));
            }
        }
        while k < n / 2
            invariant
                n == self.keys().len(),
                self.keys().len() == self.data@.len(),
                k <= n,
                self.keys().no_duplicates(),
                self@ == old(self)@.remove(timer(top)),
                forall|j: int|
                    1 <= j < n && (j - 1) / 2 != k ==> #[trigger] Self::ordered(self.keys(), j),
                forall|j: int|
                    #![trigger self.keys()[j]]
                    1 <= j < n && (j - 1) / 2 == k && k > 0 ==> not_after(
                        self.keys()[(k - 1) / 2],
                        self.keys()[j],
                    ),
            ensures
                self.keys().no_duplicates(),
                self@ == old(self)@.remove(timer(top)),
                forall|j: int|
                    1 <= j < self.keys().len() ==> #[trigger] Self::ordered(self.keys(), j),
            decreases n - k,
        {
            let left: usize = 2 * k + 1;
            let down: usize = if left + 1 < n && before(self.data[left + 1], self.data[left]) {
                left + 1
            } else {
                left
            };
            let ghost s = self.keys();
            if !before(self.data[down], self.data[k]) {
                proof {
                    assert forall|j: int| 1 <= j < n implies #[trigger] Self::ordered(s, j) by {
                        if (j - 1) / 2 == k {
                            assert(j == left || j == left + 1);
                        }
                    }
                }
                break;
            }
            self.swap(k, down);
            proof {
                let t = self.keys();
                assert forall|j: int| 1 <= j < n && (j - 1) / 2 != down implies #[trigger] Self::ordered(
                    t,
                    j,
                ) by {
                    if (j - 1) / 2 == k {
                        assert(j == left || j == left + 1);
                    } else if j == k {
                        assert(not_after(s[(k - 1) / 2], s[down as int]));
                    } else {
                        assert(Self::ordered(s, j));
                    }
                }
                assert forall|j: int|
                    #![trigger t[j]]
                    1 <= j < n && (j - 1) / 2 == down && down > 0 implies not_after(
                    t[(down - 1) / 2],
                    t[j],
                ) by {
                    assert(Self::ordered(s, j));
                }
            }
            k = down;
        }
        top
    }
}

} // verus!
