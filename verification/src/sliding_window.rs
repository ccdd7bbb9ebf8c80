//! Sliding-window minimum and maximum over a stream of `i32` values, in
//! amortized constant time per step. A monotone deque keeps, for the
//! current window, exactly the candidates that can still become extremal;
//! its front is always the window's minimum (or maximum).

use std::collections::VecDeque;

use vstd::prelude::*;

verus! {

broadcast use vstd::std_specs::vec::group_vec_axioms;

/// `m` is the smallest value of `s` (and occurs in it).
pub open spec fn is_min_of(m: i32, s: Seq<i32>) -> bool {
    &&& s.contains(m)
    &&& forall|i: int| 0 <= i < s.len() ==> m <= s[i]
}

/// `m` is the largest value of `s` (and occurs in it).
pub open spec fn is_max_of(m: i32, s: Seq<i32>) -> bool {
    &&& s.contains(m)
    &&& forall|i: int| 0 <= i < s.len() ==> m >= s[i]
}

/// A deque of candidate positions into a window, kept monotone: values are
/// non-decreasing from the front for a minimum deque, non-increasing for a
/// maximum deque.
struct MonoDeque {
    deque: VecDeque<i32>,
    /// Window positions of the stored values, oldest first.
    positions: Ghost<Seq<int>>,
    /// Whether this deque tracks the maximum instead of the minimum.
    maximize: bool,
}

impl MonoDeque {
    /// `a` is at least as extremal as `b` for this deque's direction.
    spec fn beats(self, a: i32, b: i32) -> bool {
        if self.maximize {
            a >= b
        } else {
            a <= b
        }
    }

    /// The shape part of the deque invariant: positions are in range,
    /// strictly increasing, name the stored values, and the values are
    /// ordered from most to least extremal.
    spec fn wf_core(self, w: Seq<i32>) -> bool {
        let idx = self.positions@;
        &&& idx.len() == self.deque@.len()
        &&& (forall|t: int| 0 <= t < idx.len() ==> 0 <= #[trigger] idx[t] < w.len())
        &&& (forall|t: int, u: int| 0 <= t < u < idx.len() ==> idx[t] < idx[u])
        &&& (forall|t: int| 0 <= t < idx.len() ==> self.deque@[t] == w[#[trigger] idx[t]])
        &&& (forall|t: int, u: int|
            0 <= t < u < idx.len() ==> self.beats(w[#[trigger] idx[t]], w[#[trigger] idx[u]]))
    }

    /// The full deque invariant over the window `w`: additionally the deque
    /// ends at the newest position, and every window position outside the
    /// deque is strictly beaten by a later deque position.
    spec fn wf(self, w: Seq<i32>) -> bool {
        let idx = self.positions@;
        &&& self.wf_core(w)
        &&& (w.len() > 0 ==> idx.len() > 0 && idx.last() == w.len() - 1)
        &&& (w.len() == 0 ==> idx.len() == 0)
        &&& (forall|j: int|
            0 <= j < w.len() && !idx.contains(j) ==> exists|t: int|
                0 <= t < idx.len() && #[trigger] idx[t] > j && self.beats(w[idx[t]], w[j])
                && w[idx[t]] != w[j])
    }

    fn new(maximize: bool) -> (r: MonoDeque)
        ensures
            r.wf(Seq::empty()),
            r.maximize == maximize,
    {
        let r = MonoDeque { deque: VecDeque::new(), positions: Ghost(Seq::empty()), maximize };
        proof {
            if r.positions@.contains(0int) {
            }
        }
        r
    }

    /// Extends the window by `val`, discarding candidates it strictly beats.
    fn push(&mut self, val: i32, Ghost(w): Ghost<Seq<i32>>)
        requires
            old(self).wf(w),
        ensures
            final(self).wf(w.push(val)),
            final(self).maximize == old(self).maximize,
    {
        loop
            invariant
                self.maximize == old(self).maximize,
                self.wf_core(w),
                // All discarded positions are strictly beaten by val.
                forall|j: int|
                    0 <= j < w.len() && !self.positions@.contains(j) ==> (exists|t: int|
                        0 <= t < self.positions@.len() && #[trigger] self.positions@[t] > j
                            && self.beats(w[self.positions@[t]], w[j]) && w[self.positions@[t]]
                            != w[j]) || (self.beats(val, w[j]) && val != w[j]),
            ensures
                self.maximize == old(self).maximize,
                self.wf_core(w),
                forall|j: int|
                    0 <= j < w.len() && !self.positions@.contains(j) ==> (exists|t: int|
                        0 <= t < self.positions@.len() && #[trigger] self.positions@[t] > j
                            && self.beats(w[self.positions@[t]], w[j]) && w[self.positions@[t]]
                            != w[j]) || (self.beats(val, w[j]) && val != w[j]),
                self.deque@.len() == 0 || self.beats(self.deque@.last(), val),
            decreases self.deque@.len(),
        {
            let n = self.deque.len();
            if n == 0 {
                break ;
            }
            let back = self.deque[n - 1];
            let pop = if self.maximize {
                val > back
            } else {
                val < back
            };
            if !pop {
                break ;
            }
            let ghost oldidx = self.positions@;
            self.deque.pop_back();
            proof {
                self.positions@ = oldidx.drop_last();
                assert forall|j: int|
                    0 <= j < w.len() && !self.positions@.contains(j) implies (exists|t: int|
                        0 <= t < self.positions@.len() && #[trigger] self.positions@[t] > j
                            && self.beats(w[self.positions@[t]], w[j]) && w[self.positions@[t]]
                            != w[j]) || (self.beats(val, w[j]) && val != w[j]) by {
                    let idx = self.positions@;
                    if !oldidx.contains(j) {
                        // j already had a cover or is beaten by val.
                        if exists|t: int|
                            0 <= t < oldidx.len() && #[trigger] oldidx[t] > j && self.beats(
                                w[oldidx[t]],
                                w[j],
                            ) && w[oldidx[t]] != w[j] {
                            let t = choose|t: int|
                                0 <= t < oldidx.len() && #[trigger] oldidx[t] > j && self.beats(
                                    w[oldidx[t]],
                                    w[j],
                                ) && w[oldidx[t]] != w[j];
                            if t < oldidx.len() - 1 {
                                assert(idx[t] == oldidx[t]);
                            } else {
                                // The cover was the popped back, which val
                                // strictly beats.
                                assert(w[oldidx[t]] == back);
                            }
                        }
                    } else {
                        // j was the popped back itself.
                        let t = choose|t: int| 0 <= t < oldidx.len() && oldidx[t] == j;
                        assert(t == oldidx.len() - 1) by {
                            if t < oldidx.len() - 1 {
                                assert(idx[t] == oldidx[t]);
                                assert(idx.contains(j)) by {
                                    assert(idx[t] == j);
                                }
                            }
                        }
                        assert(w[j] == back);
                    }
                }
            }
        }
        let ghost oldidx = self.positions@;
        self.deque.push_back(val);
        proof {
            self.positions@ = oldidx.push(w.len() as int);
            let idx = self.positions@;
            let w2 = w.push(val);
            assert(w2[w.len() as int] == val);
            assert(forall|j: int| 0 <= j < w.len() ==> w2[j] == w[j]);
            assert(idx.last() == w2.len() - 1);
            assert forall|t: int, u: int| 0 <= t < u < idx.len() implies self.beats(
                w2[#[trigger] idx[t]],
                w2[#[trigger] idx[u]],
            ) by {
                if u < idx.len() - 1 {
                    assert(idx[t] == oldidx[t] && idx[u] == oldidx[u]);
                } else {
                    // The new back does not beat any survivor.
                    assert(idx[u] == w.len() as int);
                    if idx.len() >= 2 {
                        assert(idx[t] == oldidx[t]);
                        let lastold = oldidx.len() - 1;
                        assert(self.beats(w[oldidx[t]], w[oldidx[lastold]]));
                        assert(w2[idx[u]] == val);
                    }
                }
            }
            assert forall|j: int|
                0 <= j < w2.len() && !idx.contains(j) implies exists|t: int|
                0 <= t < idx.len() && #[trigger] idx[t] > j && self.beats(w2[idx[t]], w2[j])
                    && w2[idx[t]] != w2[j] by {
                assert(j < w.len());
                assert(!oldidx.contains(j)) by {
                    if oldidx.contains(j) {
                        let t = choose|t: int| 0 <= t < oldidx.len() && oldidx[t] == j;
                        assert(idx[t] == j);
                        assert(idx.contains(j));
                    }
                }
                if exists|t: int|
                    0 <= t < oldidx.len() && #[trigger] oldidx[t] > j && self.beats(
                        w[oldidx[t]],
                        w[j],
                    ) && w[oldidx[t]] != w[j] {
                    let t = choose|t: int|
                        0 <= t < oldidx.len() && #[trigger] oldidx[t] > j && self.beats(
                            w[oldidx[t]],
                            w[j],
                        ) && w[oldidx[t]] != w[j];
                    assert(idx[t] == oldidx[t]);
                    assert(idx[t] > j && self.beats(w2[idx[t]], w2[j]) && w2[idx[t]] != w2[j]);
                } else {
                    let t = idx.len() - 1;
                    assert(idx[t] == w.len() as int);
                    assert(idx[t] > j && self.beats(w2[idx[t]], w2[j]) && w2[idx[t]] != w2[j]);
                }
            }
        }
    }

    /// The extremal value of the window: the front of the deque.
    fn peek(&self, Ghost(w): Ghost<Seq<i32>>) -> (r: i32)
        requires
            self.wf(w),
            w.len() > 0,
        ensures
            if self.maximize {
                is_max_of(r, w)
            } else {
                is_min_of(r, w)
            },
    {
        proof {
            let idx = self.positions@;
            assert(w.contains(w[idx[0]])) by {
                assert(0 <= idx[0] < w.len());
            }
            assert forall|i: int| 0 <= i < w.len() implies self.beats(w[idx[0]], w[i]) by {
                if idx.contains(i) {
                    let t = choose|t: int| 0 <= t < idx.len() && idx[t] == i;
                    if t > 0 {
                        assert(self.beats(w[idx[0]], w[idx[t]]));
                    }
                } else {
                    let t = choose|t: int|
                        0 <= t < idx.len() && #[trigger] idx[t] > i && self.beats(w[idx[t]], w[i])
                            && w[idx[t]] != w[i];
                    if t > 0 {
                        assert(self.beats(w[idx[0]], w[idx[t]]));
                    }
                }
            }
            assert(self.deque@[0] == w[idx[0]]);
            assert(w.contains(self.deque@[0]));
            if self.maximize {
                assert forall|i: int| 0 <= i < w.len() implies self.deque@[0] >= w[i] by {
                    assert(self.beats(w[idx[0]], w[i]));
                }
                assert(is_max_of(self.deque@[0], w));
            } else {
                assert forall|i: int| 0 <= i < w.len() implies self.deque@[0] <= w[i] by {
                    assert(self.beats(w[idx[0]], w[i]));
                }
                assert(is_min_of(self.deque@[0], w));
            }
        }
        self.deque[0]
    }

    /// Shrinks the window at the front, dropping the front candidate when it
    /// is the departing position.
    fn drop_head(&mut self, val: i32, Ghost(w): Ghost<Seq<i32>>)
        requires
            old(self).wf(w),
            w.len() > 0,
            val == w[0],
        ensures
            final(self).wf(w.drop_first()),
            final(self).maximize == old(self).maximize,
    {
        let ghost idx = self.positions@;
        let ghost w2 = w.drop_first();
        let front = self.deque[0];
        proof {
            assert(forall|j: int| 0 <= j < w2.len() ==> w2[j] == w[j + 1]);
        }
        if front == val {
            // The departing position is the front candidate.
            proof {
                assert(idx[0] == 0) by {
                    if idx[0] > 0 {
                        assert(!idx.contains(0int)) by {
                            if idx.contains(0int) {
                                let t = choose|t: int| 0 <= t < idx.len() && idx[t] == 0;
                                if t > 0 {
                                    assert(idx[0] < idx[t]);
                                }
                            }
                        }
                        let t = choose|t: int|
                            0 <= t < idx.len() && #[trigger] idx[t] > 0 && self.beats(
                                w[idx[t]],
                                w[0],
                            ) && w[idx[t]] != w[0];
                        assert(self.deque@[0] == w[idx[0]]);
                        if t > 0 {
                            assert(self.beats(w[idx[0]], w[idx[t]]));
                        }
                        assert(w[idx[t]] != w[0]);
                        assert(self.beats(w[idx[t]], w[0]));
                        assert(w[idx[0]] == front == val == w[0]);
                        assert(false);
                    }
                }
            }
            self.deque.pop_front();
            proof {
                let oldidx = idx;
                self.positions@ = oldidx.drop_first().map_values(|p: int| p - 1);
                let nidx = self.positions@;
                assert(nidx.len() == oldidx.len() - 1);
                assert(forall|t: int| 0 <= t < nidx.len() ==> #[trigger] nidx[t] == oldidx[t + 1]
                    - 1);
                assert forall|j: int|
                    0 <= j < w2.len() && !nidx.contains(j) implies exists|t: int|
                    0 <= t < nidx.len() && #[trigger] nidx[t] > j && self.beats(w2[nidx[t]], w2[j])
                        && w2[nidx[t]] != w2[j] by {
                    assert(!oldidx.contains(j + 1)) by {
                        if oldidx.contains(j + 1) {
                            let t = choose|t: int| 0 <= t < oldidx.len() && oldidx[t] == j + 1;
                            assert(t >= 1) by {
                                if t == 0 {
                                    assert(oldidx[0] == 0);
                                }
                            }
                            assert(nidx[t - 1] == j);
                            assert(nidx.contains(j));
                        }
                    }
                    let t = choose|t: int|
                        0 <= t < oldidx.len() && #[trigger] oldidx[t] > j + 1 && self.beats(
                            w[oldidx[t]],
                            w[j + 1],
                        ) && w[oldidx[t]] != w[j + 1];
                    assert(t >= 1) by {
                        if t == 0 {
                            assert(oldidx[0] == 0);
                        }
                    }
                    assert(nidx[t - 1] == oldidx[t] - 1);
                    assert(w2[nidx[t - 1]] == w[oldidx[t]]);
                    assert(w2[j] == w[j + 1]);
                    assert(nidx[t - 1] > j && self.beats(w2[nidx[t - 1]], w2[j]) && w2[nidx[t
                        - 1]] != w2[j]);
                }
                if w2.len() > 0 {
                    assert(nidx.last() == w2.len() - 1) by {
                        assert(oldidx.last() == w.len() - 1);
                        assert(oldidx.len() >= 2) by {
                            if oldidx.len() == 1 {
                                assert(oldidx.last() == oldidx[0] == 0);
                            }
                        }
                    }
                }
            }
        } else {
            // The departing position was not a candidate; only reindex.
            proof {
                assert(idx[0] != 0) by {
                    if idx[0] == 0 {
                        assert(self.deque@[0] == w[0]);
                    }
                }
                let oldidx = idx;
                self.positions@ = oldidx.map_values(|p: int| p - 1);
                let nidx = self.positions@;
                assert(forall|t: int| 0 <= t < nidx.len() ==> #[trigger] nidx[t] == oldidx[t] - 1);
                assert forall|j: int|
                    0 <= j < w2.len() && !nidx.contains(j) implies exists|t: int|
                    0 <= t < nidx.len() && #[trigger] nidx[t] > j && self.beats(w2[nidx[t]], w2[j])
                        && w2[nidx[t]] != w2[j] by {
                    assert(!oldidx.contains(j + 1)) by {
                        if oldidx.contains(j + 1) {
                            let t = choose|t: int| 0 <= t < oldidx.len() && oldidx[t] == j + 1;
                            assert(nidx[t] == j);
                            assert(nidx.contains(j));
                        }
                    }
                    let t = choose|t: int|
                        0 <= t < oldidx.len() && #[trigger] oldidx[t] > j + 1 && self.beats(
                            w[oldidx[t]],
                            w[j + 1],
                        ) && w[oldidx[t]] != w[j + 1];
                    assert(nidx[t] == oldidx[t] - 1);
                    assert(w2[nidx[t]] == w[oldidx[t]]);
                    assert(w2[j] == w[j + 1]);
                    assert(nidx[t] > j && self.beats(w2[nidx[t]], w2[j]) && w2[nidx[t]] != w2[j]);
                }
                assert(w2.len() > 0) by {
                    assert(0 <= idx[0] < w.len());
                    assert(idx[0] >= 1);
                }
                assert(nidx.last() == w2.len() - 1);
            }
        }
    }
}

/// Incremental sliding-window extrema: values enter at the tail and leave
/// at the head; the current minimum and maximum are always available.
pub struct SlidingWindowMinMax {
    min_deque: MonoDeque,
    max_deque: MonoDeque,
    /// The values currently inside the window, oldest first.
    window: Ghost<Seq<i32>>,
}

impl SlidingWindowMinMax {
    /// The values currently in the window.
    pub closed spec fn view(&self) -> Seq<i32> {
        self.window@
    }

    /// Both deques track the same window, one per direction.
    pub closed spec fn wf(self) -> bool {
        &&& self.min_deque.wf(self.window@)
        &&& self.max_deque.wf(self.window@)
        &&& !self.min_deque.maximize
        &&& self.max_deque.maximize
    }

    /// Creates an instance with an empty window.
    pub fn new() -> (r: SlidingWindowMinMax)
        ensures
            r.wf(),
            r@ == Seq::<i32>::empty(),
    {
        SlidingWindowMinMax {
            min_deque: MonoDeque::new(false),
            max_deque: MonoDeque::new(true),
            window: Ghost(Seq::empty()),
        }
    }

    /// The smallest value in the window.
    pub fn get_minimum(&self) -> (r: i32)
        requires
            self.wf(),
            self@.len() > 0,
        ensures
            is_min_of(r, self@),
    {
        self.min_deque.peek(Ghost(self.window@))
    }

    /// The largest value in the window.
    pub fn get_maximum(&self) -> (r: i32)
        requires
            self.wf(),
            self@.len() > 0,
        ensures
            is_max_of(r, self@),
    {
        self.max_deque.peek(Ghost(self.window@))
    }

    /// Appends `val` at the tail of the window.
    pub fn add_tail(&mut self, val: i32)
        requires
            old(self).wf(),
        ensures
            final(self).wf(),
            final(self)@ == old(self)@.push(val),
    {
        let ghost w = self.window@;
        self.min_deque.push(val, Ghost(w));
        self.max_deque.push(val, Ghost(w));
        proof {
            self.window@ = w.push(val);
        }
    }

    /// Removes the value at the head of the window, which the caller names.
    pub fn remove_head(&mut self, val: i32)
        requires
            old(self).wf(),
            old(self)@.len() > 0,
            val == old(self)@[0],
        ensures
            final(self).wf(),
            final(self)@ == old(self)@.drop_first(),
    {
        let ghost w = self.window@;
        self.min_deque.drop_head(val, Ghost(w));
        self.max_deque.drop_head(val, Ghost(w));
        proof {
            self.window@ = w.drop_first();
        }
    }
}

/// Computes, for every full window of the given width, its minimum (or
/// maximum when `maximize` is set), in order.
pub fn compute_sliding_window_min_or_max(array: &Vec<i32>, window: usize, maximize: bool) -> (r:
    Vec<i32>)
    requires
        window >= 1,
    ensures
        array@.len() >= window ==> r@.len() == array@.len() - window + 1,
        array@.len() < window ==> r@.len() == 0,
        forall|k: int|
            0 <= k < r@.len() ==> (if maximize {
                is_max_of(#[trigger] r@[k], array@.subrange(k, k + window))
            } else {
                is_min_of(#[trigger] r@[k], array@.subrange(k, k + window))
            }),
{
    let mut sw = SlidingWindowMinMax::new();
    let mut result: Vec<i32> = Vec::new();
    let mut i: usize = 0;
    let n = array.len();
    proof {
        assert(sw@ =~= array@.subrange(0, 0));
    }
    while i < n
        invariant
            window >= 1,
            i <= n,
            n == array@.len(),
            sw.wf(),
            sw@ == array@.subrange(
                if i + 1 >= window {
                    i + 1 - window as int
                } else {
                    0
                },
                i as int,
            ),
            result@.len() == (if i + 1 > window {
                i + 1 - window as int
            } else {
                0
            }),
            forall|k: int|
                0 <= k < result@.len() ==> (if maximize {
                    is_max_of(#[trigger] result@[k], array@.subrange(k, k + window))
                } else {
                    is_min_of(#[trigger] result@[k], array@.subrange(k, k + window))
                }),
        decreases n - i,
    {
        let ghost lo = if i + 1 >= window {
            i + 1 - window as int
        } else {
            0
        };
        sw.add_tail(array[i]);
        proof {
            assert(sw@ =~= array@.subrange(lo, i + 1));
        }
        if i + 1 >= window {
            let m = if maximize {
                sw.get_maximum()
            } else {
                sw.get_minimum()
            };
            result.push(m);
            proof {
                assert(lo == i + 1 - window as int);
                assert(result@.last() == m);
                assert(result@.len() - 1 == lo);
            }
            sw.remove_head(array[i + 1 - window]);
            proof {
                assert(array@.subrange(lo, i + 1)[0] == array@[lo]);
                assert(sw@ =~= array@.subrange(lo + 1, i + 1));
            }
        }
        i += 1;
    }
    result
}

} // verus!
