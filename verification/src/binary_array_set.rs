//! A set of `i32` values stored as a forest of sorted runs: slot `i` holds
//! either nothing or exactly `2^i` elements in ascending order, and any two
//! slots are disjoint. Insertion works like binary addition, merging runs
//! of equal size upward until a free slot is found.

use vstd::arithmetic::power2::lemma_pow2_strictly_increases;
use vstd::arithmetic::power2::lemma_pow2_unfold;
use vstd::arithmetic::power2::pow2;
use vstd::prelude::*;

use crate::seq_facts::sorted_strict;

verus! {

broadcast use vstd::std_specs::vec::group_vec_axioms;

pub struct BinaryArraySet {
    /// Slot `i` is empty or holds `2^i` ascending elements.
    values: Vec<Vec<i32>>,
    size: usize,
}

/// A sorted run contains a value exactly when binary search finds it.
fn sorted_run_contains(vals: &Vec<i32>, val: i32) -> (r: bool)
    requires
        sorted_strict(vals@),
    ensures
        r == vals@.contains(val),
{
    let mut lo: usize = 0;
    let mut hi: usize = vals.len();
    while lo < hi
        invariant
            lo <= hi <= vals@.len(),
            sorted_strict(vals@),
            forall|j: int| 0 <= j < lo ==> vals@[j] < val,
            forall|j: int| hi <= j < vals@.len() ==> vals@[j] > val,
        decreases hi - lo,
    {
        let mid = lo + (hi - lo) / 2;
        let k = vals[mid];
        if k == val {
            proof {
                assert(vals@.contains(val)) by {
                    assert(vals@[mid as int] == val);
                }
            }
            return true;
        } else if k < val {
            proof {
                assert forall|j: int| 0 <= j < mid + 1 implies vals@[j] < val by {
                    assert(vals@[j] <= vals@[mid as int]);
                }
            }
            lo = mid + 1;
        } else {
            hi = mid;
        }
    }
    proof {
        if vals@.contains(val) {
            let j = choose|j: int| 0 <= j < vals@.len() && vals@[j] == val;
        }
    }
    false
}

/// Merges two sorted, disjoint runs into one sorted run holding exactly
/// the elements of both.
#[verifier::rlimit(100)]
fn merge_runs(xs: Vec<i32>, ys: Vec<i32>) -> (r: Vec<i32>)
    requires
        sorted_strict(xs@),
        sorted_strict(ys@),
        forall|v: i32| !(#[trigger] xs@.contains(v) && ys@.contains(v)),
        xs@.len() + ys@.len() <= usize::MAX,
    ensures
        sorted_strict(r@),
        r@.len() == xs@.len() + ys@.len(),
        forall|v: i32| #[trigger] r@.contains(v) <==> xs@.contains(v) || ys@.contains(v),
{
    let mut result: Vec<i32> = Vec::new();
    let mut xi: usize = 0;
    let mut yi: usize = 0;
    while xi < xs.len() || yi < ys.len()
        invariant
            xi <= xs@.len(),
            yi <= ys@.len(),
            sorted_strict(xs@),
            sorted_strict(ys@),
            forall|v: i32| !(#[trigger] xs@.contains(v) && ys@.contains(v)),
            result@.len() == xi + yi,
            sorted_strict(result@),
            forall|p: int, j: int|
                0 <= p < result@.len() && xi <= j < xs@.len() ==> result@[p] < xs@[j],
            forall|p: int, j: int|
                0 <= p < result@.len() && yi <= j < ys@.len() ==> result@[p] < ys@[j],
            forall|v: i32|
                #[trigger] result@.contains(v) <==> (xs@.subrange(0, xi as int).contains(v)
                    || ys@.subrange(0, yi as int).contains(v)),
        decreases xs@.len() + ys@.len() - xi - yi,
    {
        let takex: bool = if yi == ys.len() {
            true
        } else if xi == xs.len() {
            false
        } else {
            xs[xi] <= ys[yi]
        };
        let ghost oldres = result@;
        if takex {
            let x = xs[xi];
            proof {
                // `x` lies strictly below every remaining element.
                assert forall|j: int| yi <= j < ys@.len() implies x < ys@[j] by {
                    assert(x <= ys@[yi as int]);
                    assert(x != ys@[j]) by {
                        if x == ys@[j] {
                            assert(xs@.contains(x)) by {
                                assert(xs@[xi as int] == x);
                            }
                            assert(ys@.contains(x)) by {
                                assert(ys@[j] == x);
                            }
                        }
                    }
                    assert(ys@[yi as int] <= ys@[j]);
                }
            }
            result.push(x);
            xi = xi + 1;
            proof {
                assert(sorted_strict(result@)) by {
                    assert forall|p: int, q: int|
                        0 <= p < q < result@.len() implies result@[p] < result@[q] by {
                        if q == result@.len() - 1 {
                            assert(result@[p] == oldres[p]);
                            assert(result@[q] == x);
                            assert(oldres[p] < xs@[xi - 1]);
                        } else {
                            assert(result@[p] == oldres[p] && result@[q] == oldres[q]);
                        }
                    }
                }
                assert forall|v: i32| #[trigger] result@.contains(v) <==> (xs@.subrange(
                    0,
                    xi as int,
                ).contains(v) || ys@.subrange(0, yi as int).contains(v)) by {
                    let xpre = xs@.subrange(0, xi as int);
                    if result@.contains(v) {
                        let p = choose|p: int| 0 <= p < result@.len() && result@[p] == v;
                        if p < oldres.len() {
                            assert(oldres[p] == v);
                            assert(oldres.contains(v));
                        } else {
                            assert(v == x);
                            assert(xpre[xi - 1] == v);
                            assert(xpre.contains(v));
                        }
                    }
                    if xpre.contains(v) {
                        let p = choose|p: int| 0 <= p < xpre.len() && xpre[p] == v;
                        if p < xi - 1 {
                            assert(xs@.subrange(0, xi - 1)[p] == v);
                            assert(xs@.subrange(0, xi - 1).contains(v));
                            assert(oldres.contains(v));
                        } else {
                            assert(v == x);
                            assert(result@[result@.len() - 1] == v);
                            assert(result@.contains(v));
                        }
                    }
                    if ys@.subrange(0, yi as int).contains(v) {
                        assert(oldres.contains(v));
                    }
                    if oldres.contains(v) {
                        let q = choose|q: int| 0 <= q < oldres.len() && oldres[q] == v;
                        assert(result@[q] == v);
                        assert(result@.contains(v));
                    }
                }
            }
        } else {
            let y = ys[yi];
            proof {
                assert forall|j: int| xi <= j < xs@.len() implies y < xs@[j] by {
                    assert(y < xs@[xi as int]) by {
                        assert(xs@[xi as int] != y) by {
                            if xs@[xi as int] == y {
                                assert(xs@.contains(y)) by {
                                    assert(xs@[xi as int] == y);
                                }
                                assert(ys@.contains(y)) by {
                                    assert(ys@[yi as int] == y);
                                }
                            }
                        }
                    }
                    assert(xs@[xi as int] <= xs@[j]);
                }
            }
            result.push(y);
            yi = yi + 1;
            proof {
                assert(sorted_strict(result@)) by {
                    assert forall|p: int, q: int|
                        0 <= p < q < result@.len() implies result@[p] < result@[q] by {
                        if q == result@.len() - 1 {
                            assert(result@[p] == oldres[p]);
                            assert(result@[q] == y);
                            assert(oldres[p] < ys@[yi - 1]);
                        } else {
                            assert(result@[p] == oldres[p] && result@[q] == oldres[q]);
                        }
                    }
                }
                assert forall|v: i32| #[trigger] result@.contains(v) <==> (xs@.subrange(
                    0,
                    xi as int,
                ).contains(v) || ys@.subrange(0, yi as int).contains(v)) by {
                    let ypre = ys@.subrange(0, yi as int);
                    if result@.contains(v) {
                        let p = choose|p: int| 0 <= p < result@.len() && result@[p] == v;
                        if p < oldres.len() {
                            assert(oldres[p] == v);
                            assert(oldres.contains(v));
                        } else {
                            assert(v == y);
                            assert(ypre[yi - 1] == v);
                            assert(ypre.contains(v));
                        }
                    }
                    if ypre.contains(v) {
                        let p = choose|p: int| 0 <= p < ypre.len() && ypre[p] == v;
                        if p < yi - 1 {
                            assert(ys@.subrange(0, yi - 1)[p] == v);
                            assert(ys@.subrange(0, yi - 1).contains(v));
                            assert(oldres.contains(v));
                        } else {
                            assert(v == y);
                            assert(result@[result@.len() - 1] == v);
                            assert(result@.contains(v));
                        }
                    }
                    if xs@.subrange(0, xi as int).contains(v) {
                        assert(oldres.contains(v));
                    }
                    if oldres.contains(v) {
                        let q = choose|q: int| 0 <= q < oldres.len() && oldres[q] == v;
                        assert(result@[q] == v);
                        assert(result@.contains(v));
                    }
                }
            }
        }
    }
    proof {
        assert(xs@.subrange(0, xs@.len() as int) =~= xs@);
        assert(ys@.subrange(0, ys@.len() as int) =~= ys@);
    }
    result
}

impl BinaryArraySet {
    /// Whether `v` is stored in one of the slots.
    pub closed spec fn mem(self, v: i32) -> bool {
        exists|i: int| 0 <= i < self.values.len() && (#[trigger] self.values[i])@.contains(v)
    }

    /// Total number of stored elements in slots `i..`.
    spec fn count_from(self, i: int) -> nat
        decreases self.values.len() - i,
    {
        if i < 0 || i >= self.values.len() {
            0
        } else {
            self.values[i]@.len() + self.count_from(i + 1)
        }
    }

    /// The set of all stored values.
    pub closed spec fn view(&self) -> Set<i32> {
        Set::new(|v: i32| self.mem(v))
    }

    /// The element count as a specification value.
    pub closed spec fn spec_len(self) -> nat {
        self.count_from(0)
    }

    /// Structural soundness: slot sizes are zero or the matching power of
    /// two, runs are sorted and pairwise disjoint, the size counter matches
    /// the slot contents, and the top slot is occupied.
    pub closed spec fn wf(self) -> bool {
        &&& (forall|i: int|
            0 <= i < self.values.len() ==> ((#[trigger] self.values[i])@.len() == 0
                || self.values[i]@.len() == pow2(i as nat)))
        &&& (forall|i: int|
            0 <= i < self.values.len() ==> sorted_strict((#[trigger] self.values[i])@))
        &&& (forall|i: int, j: int, v: i32|
            0 <= i < self.values.len() && 0 <= j < self.values.len() && i != j && (
            #[trigger] self.values[i]@.contains(v)) ==> !(#[trigger] self.values[j]@.contains(v)))
        &&& self.size == self.count_from(0)
        &&& (self.values.len() > 0 ==> self.values[self.values.len() - 1]@.len() > 0)
    }

    /// Counting only the slots from `j` on never exceeds the count from `i`.
    proof fn lemma_count_from_le(self, i: int, j: int)
        requires
            0 <= i <= j,
        ensures
            self.count_from(j) <= self.count_from(i),
            j < self.values.len() ==> self.values[j]@.len() <= self.count_from(i),
        decreases j - i,
    {
        if i < j {
            self.lemma_count_from_le(i + 1, j);
        }
    }

    /// Empty slots contribute nothing to the count.
    proof fn lemma_count_empty_prefix(self, i: int)
        requires
            0 <= i,
            forall|j: int| 0 <= j < i ==> (#[trigger] self.values[j])@.len() == 0,
        ensures
            i <= self.values.len() ==> self.count_from(0) == self.count_from(i),
        decreases i,
    {
        if i > 0 && i <= self.values.len() {
            self.lemma_count_empty_prefix(i - 1);
            assert(self.count_from(i - 1) == self.values[i - 1]@.len() + self.count_from(i));
        }
    }

    /// Counts agree between two states whose slots from `i` on are equal.
    proof fn lemma_count_congruent(a: BinaryArraySet, b: BinaryArraySet, i: int)
        requires
            0 <= i,
            a.values.len() == b.values.len(),
            forall|j: int| i <= j < a.values.len() ==> a.values[j] == b.values[j],
        ensures
            a.count_from(i) == b.count_from(i),
        decreases a.values.len() - i,
    {
        if i < a.values.len() {
            Self::lemma_count_congruent(a, b, i + 1);
        }
    }

    /// Creates an empty set.
    pub fn new() -> (r: BinaryArraySet)
        ensures
            r.wf(),
            r@ == Set::<i32>::empty(),
            r.spec_len() == 0,
    {
        let r = BinaryArraySet { values: Vec::new(), size: 0 };
        proof {
            assert forall|v: i32| !r.mem(v) by {
                if r.mem(v) {
                    let i = choose|i: int|
                        0 <= i < r.values.len() && (#[trigger] r.values[i])@.contains(v);
                }
            }
            assert(r@ =~= Set::<i32>::empty());
        }
        r
    }

    /// Whether the set holds no elements.
    pub fn is_empty(&self) -> (r: bool)
        requires
            self.wf(),
        ensures
            r == (self@ == Set::<i32>::empty()),
    {
        proof {
            if self.size == 0 {
                assert forall|v: i32| !self.mem(v) by {
                    if self.mem(v) {
                        let i = choose|i: int|
                            0 <= i < self.values.len() && (#[trigger] self.values[i])@.contains(v);
                        self.lemma_count_from_le(0, i);
                        assert(self.values[i]@.len() >= 1);
                    }
                }
                assert(self@ =~= Set::<i32>::empty());
            } else {
                assert(self.values.len() > 0) by {
                    if self.values.len() == 0 {
                        assert(self.count_from(0) == 0);
                    }
                }
                let last = self.values.len() - 1;
                let w = self.values[last as int]@[0];
                assert(self.values[last as int]@.contains(w));
                assert(self.mem(w));
                assert(self@.contains(w));
                assert(self@ != Set::<i32>::empty());
            }
        }
        self.size == 0
    }

    /// The number of stored elements.
    pub fn len(&self) -> (r: usize)
        requires
            self.wf(),
        ensures
            r == self.spec_len(),
    {
        self.size
    }

    /// Discards all elements.
    pub fn clear(&mut self)
        ensures
            final(self).wf(),
            final(self)@ == Set::<i32>::empty(),
            final(self).spec_len() == 0,
    {
        self.values = Vec::new();
        self.size = 0;
        proof {
            assert forall|v: i32| !final(self).mem(v) by {
                if final(self).mem(v) {
                    let i = choose|i: int|
                        0 <= i < final(self).values.len() && (#[trigger] final(
                        self).values[i])@.contains(v);
                }
            }
            assert(final(self)@ =~= Set::<i32>::empty());
        }
    }

    /// Whether `val` is a member.
    pub fn contains(&self, val: i32) -> (r: bool)
        requires
            self.wf(),
        ensures
            r == self@.contains(val),
    {
        let n = self.values.len();
        let mut i: usize = 0;
        while i < n
            invariant
                self.wf(),
                i <= n,
                n == self.values.len(),
                forall|j: int| 0 <= j < i ==> !(#[trigger] self.values[j])@.contains(val),
            decreases n - i,
        {
            if sorted_run_contains(&self.values[i], val) {
                proof {
                    assert(self.mem(val));
                }
                return true;
            }
            i += 1;
        }
        proof {
            if self.mem(val) {
                let j = choose|j: int|
                    0 <= j < self.values.len() && (#[trigger] self.values[j])@.contains(val);
            }
        }
        false
    }

    /// Adds `val` unless it is already present; returns whether it was new.
    pub fn insert(&mut self, val: i32) -> (r: bool)
        requires
            old(self).wf(),
            old(self).spec_len() < usize::MAX,
        ensures
            final(self).wf(),
            r == !old(self)@.contains(val),
            final(self)@ == old(self)@.insert(val),
            final(self).spec_len() == old(self).spec_len() + (if r {
                1int
            } else {
                0
            }),
    {
        let result = !self.contains(val);
        if result {
            self.insert_unique(val);
        } else {
            proof {
                assert(final(self)@ =~= old(self)@.insert(val));
            }
        }
        result
    }

    /// Adds `val`, which the caller knows is not yet present.
    #[verifier::rlimit(100)]
    pub fn insert_unique(&mut self, val: i32)
        requires
            old(self).wf(),
            !old(self)@.contains(val),
            old(self).spec_len() < usize::MAX,
        ensures
            final(self).wf(),
            final(self)@ == old(self)@.insert(val),
            final(self).spec_len() == old(self).spec_len() + 1,
    {
        let ghost orig = *old(self);
        self.size = self.size + 1;
        let mut toput: Vec<i32> = Vec::new();
        toput.push(val);
        let mut i: usize = 0;
        let n = self.values.len();
        proof {
            assert(toput@.contains(val)) by {
                assert(toput@[0] == val);
            }
            assert(!orig.mem(val));
            assert(sorted_strict(toput@));
            vstd::arithmetic::power2::lemma2_to64();
        }
        while i < n
            invariant
                orig == *old(self),
                i <= n,
                n == self.values.len(),
                n == orig.values.len(),
                self.size == orig.size + 1,
                orig.wf(),
                !orig.mem(val),
                sorted_strict(toput@),
                toput@.len() == pow2(i as nat),
                toput@.len() + orig.count_from(i as int) == orig.count_from(0) + 1,
                forall|j: int| 0 <= j < i ==> (#[trigger] self.values[j])@.len() == 0,
                forall|j: int| i <= j < n ==> #[trigger] self.values[j] == orig.values[j],
                forall|v: i32|
                    #[trigger] toput@.contains(v) <==> (v == val || exists|j: int|
                        0 <= j < i && (#[trigger] orig.values[j])@.contains(v)),
            decreases n - i,
    {
            let ghost ii = i as int;
            if self.values[i].is_empty() {
                let ghost pre = *self;
                let ghost tp = toput@;
                self.values[i] = toput;
                proof {
                    let fin = *self;
                    assert(fin.values[ii]@ == tp);
                    assert(forall|j: int|
                        0 <= j < n && j != ii ==> fin.values[j] == pre.values[j]);
                    // Disjointness of the rebuilt slots.
                    assert forall|a: int, b: int, v: i32|
                        0 <= a < n && 0 <= b < n && a != b && (#[trigger] fin.values[a]@.contains(
                            v,
                        )) implies !(#[trigger] fin.values[b]@.contains(v)) by {
                        if fin.values[b]@.contains(v) {
                            if a < ii && a != ii {
                                assert(fin.values[a]@.len() == 0);
                                if fin.values[a]@.contains(v) {
                                    let p = choose|p: int|
                                        0 <= p < fin.values[a]@.len() && fin.values[a]@[p] == v;
                                }
                            } else if b < ii && b != ii {
                                assert(fin.values[b]@.len() == 0);
                                let p = choose|p: int|
                                    0 <= p < fin.values[b]@.len() && fin.values[b]@[p] == v;
                            } else if a == ii {
                                assert(tp.contains(v));
                                assert(fin.values[b] == orig.values[b]);
                                if v == val {
                                    assert(orig.mem(val));
                                } else {
                                    let j = choose|j: int|
                                        0 <= j < ii && (#[trigger] orig.values[j])@.contains(v);
                                }
                            } else if b == ii {
                                assert(tp.contains(v));
                                assert(fin.values[a] == orig.values[a]);
                                if v == val {
                                    assert(orig.mem(val));
                                } else {
                                    let j = choose|j: int|
                                        0 <= j < ii && (#[trigger] orig.values[j])@.contains(v);
                                }
                            } else {
                                assert(fin.values[a] == orig.values[a]);
                                assert(fin.values[b] == orig.values[b]);
                            }
                        }
                    }
                    // Size bookkeeping.
                    fin.lemma_count_empty_prefix(ii);
                    assert(fin.count_from(ii) == tp.len() + fin.count_from(ii + 1));
                    Self::lemma_count_congruent(fin, orig, ii + 1);
                    assert(orig.count_from(ii) == orig.values[ii]@.len() + orig.count_from(
                        ii + 1,
                    ));
                    assert(orig.values[ii]@.len() == 0);
                    assert(fin.count_from(0) == orig.count_from(0) + 1);
                    // The top slot stays occupied.
                    assert(fin.values[n - 1]@.len() > 0) by {
                        if ii == n - 1 {
                            assert(tp.len() >= 1);
                        } else {
                            assert(fin.values[n - 1] == orig.values[n - 1]);
                        }
                    }
                    assert(fin.wf());
                    // The view gained exactly val.
                    assert forall|v: i32| fin.mem(v) <==> (orig.mem(v) || v == val) by {
                        if fin.mem(v) {
                            let j = choose|j: int|
                                0 <= j < fin.values.len() && (#[trigger] fin.values[j])@.contains(
                                    v,
                                );
                            if j == ii {
                                assert(tp.contains(v));
                                if v != val {
                                    let k = choose|k: int|
                                        0 <= k < ii && (#[trigger] orig.values[k])@.contains(v);
                                    assert(orig.mem(v));
                                }
                            } else if j < ii {
                                assert(fin.values[j]@.len() == 0);
                                let p = choose|p: int|
                                    0 <= p < fin.values[j]@.len() && fin.values[j]@[p] == v;
                            } else {
                                assert(fin.values[j] == orig.values[j]);
                                assert(orig.mem(v));
                            }
                        }
                        if v == val {
                            assert(tp.contains(v));
                            assert(fin.values[ii]@.contains(v));
                            assert(fin.mem(v));
                        }
                        if orig.mem(v) {
                            let j = choose|j: int|
                                0 <= j < orig.values.len() && (#[trigger] orig.values[j])@.contains(
                                    v,
                                );
                            if j < ii {
                                assert(tp.contains(v));
                                assert(fin.values[ii]@.contains(v));
                            } else {
                                assert(fin.values[j] == orig.values[j]);
                                assert(fin.values[j]@.contains(v));
                            }
                            assert(fin.mem(v));
                        }
                    }
                    assert(fin@ =~= orig@.insert(val));
                }
                return ;
            }
            let mut cur: Vec<i32> = Vec::new();
            std::mem::swap(&mut cur, &mut self.values[i]);
            proof {
                assert(cur@ == orig.values[ii]@);
                assert(self.values[ii]@.len() == 0);
                assert(cur@.len() == pow2(ii as nat));
                assert forall|v: i32| !(#[trigger] cur@.contains(v) && toput@.contains(v)) by {
                    if cur@.contains(v) && toput@.contains(v) {
                        if v == val {
                            assert(orig.mem(val));
                        } else {
                            let j = choose|j: int|
                                0 <= j < ii && (#[trigger] orig.values[j])@.contains(v);
                        }
                    }
                }
                assert(orig.count_from(ii) == cur@.len() + orig.count_from(ii + 1));
                assert(cur@.len() + toput@.len() <= usize::MAX);
            }
            let merged = merge_runs(cur, toput);
            toput = merged;
            proof {
                lemma_pow2_unfold((ii + 1) as nat);
                assert(toput@.len() == pow2((ii + 1) as nat));
                assert(toput@.len() + orig.count_from(ii + 1) == orig.count_from(0) + 1);
                assert forall|v: i32| #[trigger] toput@.contains(v) <==> (v == val || exists|j: int|
                    0 <= j < ii + 1 && (#[trigger] orig.values[j])@.contains(v)) by {
                    if toput@.contains(v) {
                        if orig.values[ii]@.contains(v) {
                            assert(0 <= ii < ii + 1 && orig.values[ii]@.contains(v));
                        }
                    } else {
                        if exists|j: int|
                            0 <= j < ii + 1 && (#[trigger] orig.values[j])@.contains(v) {
                            let j = choose|j: int|
                                0 <= j < ii + 1 && (#[trigger] orig.values[j])@.contains(v);
                            if j == ii {
                                assert(orig.values[ii]@.contains(v));
                            }
                        }
                    }
                }
            }
            i += 1;
        }
        // Every slot was full: open a new top slot for the merged run.
        let ghost pre = *self;
        let ghost tp = toput@;
        self.values.push(toput);
        proof {
            let fin = *self;
            assert(fin.values@.len() == n + 1);
            assert(fin.values[n as int]@ == tp);
            assert(forall|j: int| 0 <= j < n ==> fin.values[j] == pre.values[j]);
            assert forall|a: int, b: int, v: i32|
                0 <= a < fin.values.len() && 0 <= b < fin.values.len() && a != b && (
            #[trigger] fin.values[a]@.contains(v)) implies !(#[trigger] fin.values[b]@.contains(
                v,
            )) by {
                if a != n {
                    assert(fin.values[a]@.len() == 0);
                    if fin.values[a]@.contains(v) {
                        let p = choose|p: int|
                            0 <= p < fin.values[a]@.len() && fin.values[a]@[p] == v;
                    }
                } else if b != n {
                    assert(fin.values[b]@.len() == 0);
                    if fin.values[b]@.contains(v) {
                        let p = choose|p: int|
                            0 <= p < fin.values[b]@.len() && fin.values[b]@[p] == v;
                    }
                }
            }
            fin.lemma_count_empty_prefix(n as int);
            assert(fin.count_from(n as int) == tp.len() + fin.count_from(n + 1));
            assert(fin.count_from(0) == tp.len());
            assert(orig.count_from(n as int) == 0);
            assert(tp.len() == orig.count_from(0) + 1);
            assert(fin.wf());
            assert forall|v: i32| fin.mem(v) <==> (orig.mem(v) || v == val) by {
                if fin.mem(v) {
                    let j = choose|j: int|
                        0 <= j < fin.values.len() && (#[trigger] fin.values[j])@.contains(v);
                    if j == n {
                        assert(tp.contains(v));
                        if v != val {
                            let k = choose|k: int|
                                0 <= k < n && (#[trigger] orig.values[k])@.contains(v);
                            assert(orig.mem(v));
                        }
                    } else {
                        assert(fin.values[j]@.len() == 0);
                        let p = choose|p: int|
                            0 <= p < fin.values[j]@.len() && fin.values[j]@[p] == v;
                    }
                }
                if v == val {
                    assert(tp.contains(v));
                    assert(fin.values[n as int]@.contains(v));
                    assert(fin.mem(v));
                }
                if orig.mem(v) {
                    let j = choose|j: int|
                        0 <= j < orig.values.len() && (#[trigger] orig.values[j])@.contains(v);
                    assert(tp.contains(v));
                    assert(fin.values[n as int]@.contains(v));
                    assert(fin.mem(v));
                }
            }
            assert(fin@ =~= orig@.insert(val));
        }
    }

    /// Checks slot sizes, run ordering and the size counter. On a valid set
    /// every check passes.
    pub fn check_structure(&self) -> (ok: bool)
        requires
            self.wf(),
        ensures
            ok,
    {
        let n = self.values.len();
        let mut sum: usize = 0;
        let mut expected: usize = 1;
        let mut i: usize = 0;
        proof {
            vstd::arithmetic::power2::lemma2_to64();
        }
        while i < n
            invariant
                self.wf(),
                i <= n,
                n == self.values.len(),
                i < n ==> expected == pow2(i as nat),
                sum + self.count_from(i as int) == self.count_from(0),
            decreases n - i,
        {
            let ghost ii = i as int;
            proof {
                self.lemma_count_from_le(0, ii);
                assert(self.count_from(ii) == self.values[ii]@.len() + self.count_from(ii + 1));
            }
            let len = self.values[i].len();
            if len != 0 && len != expected {
                proof {
                    assert(false);
                }
                return false;
            }
            let mut j: usize = 1;
            while j < len
                invariant
                    self.wf(),
                    i < self.values.len(),
                    len == self.values[i as int]@.len(),
                    1 <= j,
                decreases len - j,
            {
                if self.values[i][j - 1] >= self.values[i][j] {
                    proof {
                        assert(false);
                    }
                    return false;
                }
                j += 1;
            }
            sum = sum + len;
            i += 1;
            if i < n {
                proof {
                    // The next power of two still fits: the occupied top
                    // slot bounds it by the total element count.
                    let last = n - 1;
                    assert(self.values[last as int]@.len() == pow2(last as nat));
                    self.lemma_count_from_le(0, last as int);
                    assert(pow2(last as nat) <= self.count_from(0));
                    if (i as nat) < (last as nat) {
                        lemma_pow2_strictly_increases(i as nat, last as nat);
                    }
                    assert(pow2(i as nat) <= self.count_from(0));
                    lemma_pow2_unfold(i as nat);
                }
                expected = expected * 2;
            }
        }
        sum == self.size
    }
}

} // verus!
