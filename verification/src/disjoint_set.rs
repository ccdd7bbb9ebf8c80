//! A disjoint-set forest (union-find) over the elements `0 .. n`, with
//! union by size and partial path compression. A ghost level assignment,
//! strictly decreasing from child to parent, witnesses that the parent
//! pointers are acyclic, so every chain reaches a representative.

use vstd::prelude::*;

verus! {

broadcast use vstd::std_specs::vec::group_vec_axioms;

#[derive(Clone, Copy)]
enum DisjointSetNode {
    /// The canonical element of a set, holding the set's size.
    Representative { size: usize },
    /// A non-canonical element pointing towards its representative.
    Child { parent: usize },
}

pub struct DisjointSet {
    num_sets: usize,
    nodes: Vec<DisjointSetNode>,
    /// Ghost witness of acyclicity: parents have strictly smaller levels.
    levels: Ghost<Seq<nat>>,
}

impl DisjointSet {
    spec fn is_rep(self, i: int) -> bool {
        self.nodes[i] is Representative
    }

    /// The stored size of the set whose representative is `i`.
    pub closed spec fn size_at(self, i: int) -> nat {
        self.nodes[i]->Representative_size as nat
    }

    spec fn parent_at(self, i: int) -> int {
        self.nodes[i]->Child_parent as int
    }

    /// Number of representatives among elements `i..`.
    spec fn count_reps(self, i: int) -> nat
        decreases self.nodes.len() - i,
    {
        if i < 0 || i >= self.nodes.len() {
            0
        } else {
            (if self.is_rep(i) {
                1nat
            } else {
                0
            }) + self.count_reps(i + 1)
        }
    }

    /// Total of the representatives' sizes among elements `i..`.
    spec fn sum_sizes(self, i: int) -> nat
        decreases self.nodes.len() - i,
    {
        if i < 0 || i >= self.nodes.len() {
            0
        } else {
            (if self.is_rep(i) {
                self.size_at(i)
            } else {
                0
            }) + self.sum_sizes(i + 1)
        }
    }

    /// Parent pointers stay in range and strictly descend in level, so
    /// every chain terminates at a representative.
    spec fn links_ok(self) -> bool {
        &&& self.levels@.len() == self.nodes.len()
        &&& (forall|i: int|
            0 <= i < self.nodes.len() && !self.is_rep(i) ==> {
                &&& 0 <= #[trigger] self.parent_at(i) < self.nodes.len()
                &&& self.parent_at(i) != i
                &&& self.levels@[self.parent_at(i)] < self.levels@[i]
            })
    }

    /// Structural soundness: acyclic links, representative sizes positive
    /// and bounded, and the counters match the node array.
    pub closed spec fn wf(self) -> bool {
        &&& self.links_ok()
        &&& (forall|i: int|
            0 <= i < self.nodes.len() && self.is_rep(i) ==> 1 <= #[trigger] self.size_at(i)
                <= self.nodes.len())
        &&& self.num_sets == self.count_reps(0)
        &&& self.sum_sizes(0) == self.nodes.len()
    }

    /// The representative reached from `i` within `fuel` steps.
    spec fn root_via(self, i: int, fuel: nat) -> int
        decreases fuel,
    {
        if !(0 <= i < self.nodes.len()) {
            i
        } else if self.is_rep(i) {
            i
        } else if fuel == 0 {
            i
        } else {
            self.root_via(self.parent_at(i), (fuel - 1) as nat)
        }
    }

    /// The representative of the set holding `i`.
    pub closed spec fn root(self, i: int) -> int {
        self.root_via(i, self.levels@[i] + 1)
    }

    /// Any sufficient fuel reaches the same representative.
    proof fn lemma_root_fuel(self, i: int, fuel: nat)
        requires
            self.links_ok(),
            0 <= i < self.nodes.len(),
            fuel >= self.levels@[i] + 1,
        ensures
            self.root_via(i, fuel) == self.root(i),
            0 <= self.root(i) < self.nodes.len(),
            self.is_rep(self.root(i)),
        decreases self.levels@[i],
    {
        if !self.is_rep(i) {
            let p = self.parent_at(i);
            self.lemma_root_fuel(p, (fuel - 1) as nat);
            self.lemma_root_fuel(p, self.levels@[i] as nat);
        }
    }

    /// A child's representative is its parent's representative.
    proof fn lemma_root_step(self, i: int)
        requires
            self.links_ok(),
            0 <= i < self.nodes.len(),
            !self.is_rep(i),
        ensures
            self.root(i) == self.root(self.parent_at(i)),
            0 <= self.root(i) < self.nodes.len(),
            self.is_rep(self.root(i)),
        decreases self.levels@[i],
    {
        let p = self.parent_at(i);
        self.lemma_root_fuel(p, self.levels@[i] as nat);
        self.lemma_root_fuel(i, (self.levels@[i] + 1) as nat);
    }

    /// Rerouting one child to another element of its own set preserves
    /// every element's representative.
    proof fn lemma_root_preserved(a: DisjointSet, b: DisjointSet, e: int, j: int)
        requires
            a.links_ok(),
            b.links_ok(),
            b.nodes.len() == a.nodes.len(),
            b.levels@ == a.levels@,
            0 <= e < a.nodes.len(),
            !a.is_rep(e),
            !b.is_rep(e),
            a.root(b.parent_at(e)) == a.root(e),
            forall|k: int| 0 <= k < a.nodes.len() && k != e ==> a.nodes[k] == b.nodes[k],
            0 <= j < a.nodes.len(),
        ensures
            b.root(j) == a.root(j),
        decreases a.levels@[j],
    {
        if j == e {
            let p = b.parent_at(e);
            b.lemma_root_step(e);
            Self::lemma_root_preserved(a, b, e, p);
        } else if !a.is_rep(j) {
            let p = a.parent_at(j);
            a.lemma_root_step(j);
            b.lemma_root_step(j);
            Self::lemma_root_preserved(a, b, e, p);
        }
    }

    /// Counts after replacing the node at `e`.
    proof fn lemma_counts_update(a: DisjointSet, b: DisjointSet, e: int, i: int)
        requires
            0 <= i,
            0 <= e < a.nodes.len(),
            a.nodes.len() == b.nodes.len(),
            forall|k: int| 0 <= k < a.nodes.len() && k != e ==> a.nodes[k] == b.nodes[k],
        ensures
            i <= e ==> b.count_reps(i) + (if a.is_rep(e) {
                1nat
            } else {
                0
            }) == a.count_reps(i) + (if b.is_rep(e) {
                1nat
            } else {
                0
            }),
            i <= e ==> b.sum_sizes(i) + (if a.is_rep(e) {
                a.size_at(e)
            } else {
                0
            }) == a.sum_sizes(i) + (if b.is_rep(e) {
                b.size_at(e)
            } else {
                0
            }),
            i > e ==> b.count_reps(i) == a.count_reps(i) && b.sum_sizes(i) == a.sum_sizes(i),
        decreases a.nodes.len() - i,
    {
        if i < a.nodes.len() {
            Self::lemma_counts_update(a, b, e, i + 1);
        }
    }

    /// A single representative's size is bounded by the total.
    proof fn lemma_sum_single(self, i: int, r: int)
        requires
            i <= r < self.nodes.len(),
            0 <= i,
            self.is_rep(r),
        ensures
            self.sum_sizes(i) >= self.size_at(r),
            self.count_reps(i) >= 1,
        decreases r - i,
    {
        if i < r {
            self.lemma_sum_single(i + 1, r);
        }
    }

    /// Two distinct representatives' sizes together stay within the total.
    proof fn lemma_sum_pair(self, i: int, r0: int, r1: int)
        requires
            0 <= i <= r0 < r1 < self.nodes.len(),
            self.is_rep(r0),
            self.is_rep(r1),
        ensures
            self.sum_sizes(i) >= self.size_at(r0) + self.size_at(r1),
            self.count_reps(i) >= 2,
        decreases r0 - i,
    {
        if i < r0 {
            self.lemma_sum_pair(i + 1, r0, r1);
        } else {
            self.lemma_sum_single(i + 1, r1);
        }
    }

    /// Creates `numelems` singleton sets, one for each element.
    pub fn new(numelems: usize) -> (r: DisjointSet)
        ensures
            r.wf(),
            r.spec_elems() == numelems,
            r.spec_sets() == numelems,
    {
        let mut result = DisjointSet { num_sets: 0, nodes: Vec::new(), levels: Ghost(Seq::empty()) };
        let mut i: usize = 0;
        while i < numelems
            invariant
                i <= numelems,
                result.wf(),
                result.spec_elems() == i,
                result.spec_sets() == i,
            decreases numelems - i,
        {
            result.add_set();
            i += 1;
        }
        result
    }

    /// The number of elements.
    pub fn get_num_elems(&self) -> (r: usize)
        ensures
            r == self.spec_elems(),
    {
        self.nodes.len()
    }

    /// The number of disjoint sets.
    pub fn get_num_sets(&self) -> (r: usize)
        ensures
            r == self.spec_sets(),
    {
        self.num_sets
    }

    pub closed spec fn spec_elems(self) -> nat {
        self.nodes.len() as nat
    }

    pub closed spec fn spec_sets(self) -> nat {
        self.num_sets as nat
    }

    /// Finds the representative of `elemindex`'s set and that set's size,
    /// compressing the path it walks. No element changes its set.
    fn get_repr(&mut self, elemindex: usize) -> (r: (usize, usize))
        requires
            old(self).wf(),
            elemindex < old(self).spec_elems(),
        ensures
            final(self).wf(),
            final(self).spec_elems() == old(self).spec_elems(),
            final(self).spec_sets() == old(self).spec_sets(),
            forall|j: int|
                0 <= j < old(self).spec_elems() ==> #[trigger] final(self).root(j) == old(
                    self,
                ).root(j),
            forall|j: int|
                0 <= j < old(self).spec_elems() ==> #[trigger] final(self).is_rep(j) == old(
                    self,
                ).is_rep(j),
            forall|j: int|
                0 <= j < old(self).spec_elems() && old(self).is_rep(j) ==> #[trigger] final(
                    self).size_at(j) == old(self).size_at(j),
            r.0 == old(self).root(elemindex as int),
            final(self).is_rep(r.0 as int),
            r.1 == final(self).size_at(r.0 as int),
    {
        let ghost orig = *old(self);
        let mut elem = elemindex;
        proof {
            self.lemma_root_fuel(elem as int, (self.levels@[elem as int] + 1) as nat);
        }
        loop
            invariant
                self.wf(),
                self.spec_elems() == orig.spec_elems(),
                self.spec_sets() == orig.spec_sets(),
                (elem as int) < self.spec_elems(),
                self.root(elem as int) == orig.root(elemindex as int),
                forall|j: int|
                    0 <= j < orig.spec_elems() ==> #[trigger] self.root(j) == orig.root(j),
                forall|j: int|
                    0 <= j < orig.spec_elems() ==> #[trigger] self.is_rep(j) == orig.is_rep(j),
                forall|j: int|
                    0 <= j < orig.spec_elems() && orig.is_rep(j) ==> #[trigger] self.size_at(j)
                        == orig.size_at(j),
            ensures
                self.wf(),
                self.spec_elems() == orig.spec_elems(),
                self.spec_sets() == orig.spec_sets(),
                forall|j: int|
                    0 <= j < orig.spec_elems() ==> #[trigger] self.root(j) == orig.root(j),
                forall|j: int|
                    0 <= j < orig.spec_elems() ==> #[trigger] self.is_rep(j) == orig.is_rep(j),
                forall|j: int|
                    0 <= j < orig.spec_elems() && orig.is_rep(j) ==> #[trigger] self.size_at(j)
                        == orig.size_at(j),
                (elem as int) < self.spec_elems(),
                self.is_rep(elem as int),
                elem as int == orig.root(elemindex as int),
            decreases self.levels@[elem as int],
        {
            let node = self.nodes[elem];
            match node {
                DisjointSetNode::Representative { size: _ } => {
                    proof {
                        assert(self.root(elem as int) == elem as int);
                    }
                    break ;
                },
                DisjointSetNode::Child { parent } => {
                    let pnode = self.nodes[parent];
                    match pnode {
                        DisjointSetNode::Representative { size: _ } => {
                            proof {
                                self.lemma_root_step(elem as int);
                                assert(self.root(parent as int) == parent as int);
                            }
                            elem = parent;
                            proof {
                                assert(self.is_rep(elem as int));
                            }
                            break ;
                        },
                        DisjointSetNode::Child { parent: grandparent } => {
                            let ghost pre = *self;
                            proof {
                                pre.lemma_root_step(elem as int);
                                pre.lemma_root_step(parent as int);
                            }
                            self.nodes[elem] = DisjointSetNode::Child { parent: grandparent };
                            proof {
                                let cur = *self;
                                assert(forall|k: int|
                                    0 <= k < pre.nodes.len() && k != elem as int
                                        ==> pre.nodes[k] == cur.nodes[k]);
                                assert(cur.parent_at(elem as int) == grandparent as int);
                                assert(pre.parent_at(elem as int) == parent as int);
                                assert(pre.parent_at(parent as int) == grandparent as int);
                                assert(pre.levels@[grandparent as int] < pre.levels@[
                                    parent as int]);
                                assert(pre.levels@[parent as int] < pre.levels@[elem as int]);
                                assert(grandparent as int != elem as int);
                                assert(cur.wf()) by {
                                    Self::lemma_counts_update(pre, cur, elem as int, 0);
                                    assert(cur.count_reps(0) == pre.count_reps(0));
                                    assert(cur.sum_sizes(0) == pre.sum_sizes(0));
                                    assert forall|k: int|
                                        0 <= k < cur.nodes.len() && cur.is_rep(k) implies 1 <= (
                                    #[trigger] cur.size_at(k)) <= cur.nodes.len() by {
                                        assert(k != elem as int);
                                        assert(cur.nodes[k] == pre.nodes[k]);
                                        assert(1 <= pre.size_at(k) <= pre.nodes.len());
                                    }
                                    assert forall|k: int|
                                        0 <= k < cur.nodes.len() && !cur.is_rep(k) implies {
                                        &&& 0 <= #[trigger] cur.parent_at(k) < cur.nodes.len()
                                        &&& cur.parent_at(k) != k
                                        &&& cur.levels@[cur.parent_at(k)] < cur.levels@[k]
                                    } by {
                                        if k != elem as int {
                                            assert(cur.nodes[k] == pre.nodes[k]);
                                            assert(pre.parent_at(k) == cur.parent_at(k));
                                            assert(0 <= pre.parent_at(k) < pre.nodes.len());
                                            assert(pre.levels@[pre.parent_at(k)] < pre.levels@[
                                                k]);
                                        }
                                    }
                                }
                                assert(cur.root(grandparent as int) == pre.root(
                                    grandparent as int,
                                ) == pre.root(elem as int)) by {
                                    pre.lemma_root_step(parent as int);
                                    Self::lemma_root_preserved(
                                        pre,
                                        cur,
                                        elem as int,
                                        grandparent as int,
                                    );
                                }
                                assert forall|j: int| 0 <= j < orig.spec_elems() implies
                                    #[trigger] cur.root(j) == orig.root(j) by {
                                    assert(pre.root(cur.parent_at(elem as int)) == pre.root(
                                        elem as int,
                                    )) by {
                                        pre.lemma_root_step(parent as int);
                                    }
                                    Self::lemma_root_preserved(pre, cur, elem as int, j);
                                }
                                assert forall|j: int| 0 <= j < orig.spec_elems() implies
                                    #[trigger] cur.is_rep(j) == orig.is_rep(j) by {
                                    assert(pre.is_rep(j) == orig.is_rep(j));
                                    if j != elem as int {
                                        assert(cur.nodes[j] == pre.nodes[j]);
                                    } else {
                                        assert(!cur.is_rep(j) && !pre.is_rep(j));
                                    }
                                }
                                assert forall|j: int|
                                    0 <= j < orig.spec_elems() && orig.is_rep(j) implies
                                    #[trigger] cur.size_at(j) == orig.size_at(j) by {
                                    assert(pre.is_rep(j) == orig.is_rep(j));
                                    assert(j != elem as int);
                                    assert(cur.nodes[j] == pre.nodes[j]);
                                    assert(pre.size_at(j) == orig.size_at(j));
                                }
                            }
                            elem = parent;
                        },
                    }
                },
            }
        }
        let size = match self.nodes[elem] {
            DisjointSetNode::Representative { size } => size,
            DisjointSetNode::Child { .. } => {
                proof {
                    assert(false);
                }
                0
            },
        };
        (elem, size)
    }

    /// The size of the set containing `elemindex`.
    pub fn get_size_of_set(&mut self, elemindex: usize) -> (r: usize)
        requires
            old(self).wf(),
            elemindex < old(self).spec_elems(),
        ensures
            final(self).wf(),
            final(self).spec_elems() == old(self).spec_elems(),
            final(self).spec_sets() == old(self).spec_sets(),
            forall|j: int|
                0 <= j < old(self).spec_elems() ==> #[trigger] final(self).root(j) == old(
                    self,
                ).root(j),
            r == old(self).size_at(old(self).root(elemindex as int)),
    {
        let (root, size) = self.get_repr(elemindex);
        proof {
            let rt = old(self).root(elemindex as int);
            assert(old(self).is_rep(rt) && 0 <= rt < old(self).spec_elems()) by {
                old(self).lemma_root_fuel(
                    elemindex as int,
                    (old(self).levels@[elemindex as int] + 1) as nat,
                );
            }
            assert(final(self).is_rep(rt));
            assert(final(self).size_at(rt) == old(self).size_at(rt));
        }
        size
    }

    /// Whether the two elements belong to the same set.
    pub fn are_in_same_set(&mut self, elemindex0: usize, elemindex1: usize) -> (r: bool)
        requires
            old(self).wf(),
            elemindex0 < old(self).spec_elems(),
            elemindex1 < old(self).spec_elems(),
        ensures
            final(self).wf(),
            final(self).spec_elems() == old(self).spec_elems(),
            final(self).spec_sets() == old(self).spec_sets(),
            forall|j: int|
                0 <= j < old(self).spec_elems() ==> #[trigger] final(self).root(j) == old(
                    self,
                ).root(j),
            r == (old(self).root(elemindex0 as int) == old(self).root(elemindex1 as int)),
    {
        let (r0, _) = self.get_repr(elemindex0);
        let (r1, _) = self.get_repr(elemindex1);
        r0 == r1
    }

    /// Adds a new singleton set; returns the new element's index.
    pub fn add_set(&mut self) -> (r: usize)
        requires
            old(self).wf(),
            old(self).spec_elems() < usize::MAX,
        ensures
            final(self).wf(),
            final(self).spec_elems() == old(self).spec_elems() + 1,
            final(self).spec_sets() == old(self).spec_sets() + 1,
            r == old(self).spec_elems(),
            forall|j: int|
                0 <= j < old(self).spec_elems() ==> #[trigger] final(self).root(j) == old(
                    self,
                ).root(j),
    {
        let ghost orig = *old(self);
        let elemindex = self.nodes.len();
        self.nodes.push(DisjointSetNode::Representative { size: 1 });
        proof {
            self.levels@ = orig.levels@.push(0);
            assert(self.num_sets < usize::MAX) by {
                orig.lemma_count_le(0);
            }
        }
        self.num_sets = self.num_sets + 1;
        proof {
            let fin = *self;
            assert(forall|k: int| 0 <= k < orig.nodes.len() ==> fin.nodes[k] == orig.nodes[k]);
            Self::lemma_counts_push(orig, fin, 0);
            assert(fin.links_ok()) by {
                assert forall|k: int|
                    0 <= k < fin.nodes.len() && !fin.is_rep(k) implies {
                    &&& 0 <= #[trigger] fin.parent_at(k) < fin.nodes.len()
                    &&& fin.parent_at(k) != k
                    &&& fin.levels@[fin.parent_at(k)] < fin.levels@[k]
                } by {
                    assert(k < orig.nodes.len());
                    assert(fin.nodes[k] == orig.nodes[k]);
                    assert(0 <= orig.parent_at(k) < orig.nodes.len());
                    assert(fin.levels@[orig.parent_at(k)] == orig.levels@[orig.parent_at(k)]);
                    assert(fin.levels@[k] == orig.levels@[k]);
                }
            }
            assert forall|k: int|
                0 <= k < fin.nodes.len() && fin.is_rep(k) implies 1 <= (#[trigger] fin.size_at(
                k,
            )) <= fin.nodes.len() by {
                if k < orig.nodes.len() {
                    assert(fin.nodes[k] == orig.nodes[k]);
                    assert(1 <= orig.size_at(k) <= orig.nodes.len());
                }
            }
            assert(fin.wf());
            assert forall|j: int| 0 <= j < orig.spec_elems() implies #[trigger] fin.root(j)
                == orig.root(j) by {
                Self::lemma_root_push(orig, fin, j);
            }
        }
        elemindex
    }

    /// The representative count never exceeds the element count.
    proof fn lemma_count_le(self, i: int)
        requires
            0 <= i <= self.nodes.len(),
        ensures
            self.count_reps(i) + i <= self.nodes.len(),
        decreases self.nodes.len() - i,
    {
        if i < self.nodes.len() {
            self.lemma_count_le(i + 1);
        }
    }

    /// Counts after appending one representative of size one.
    proof fn lemma_counts_push(a: DisjointSet, b: DisjointSet, i: int)
        requires
            0 <= i <= a.nodes.len(),
            b.nodes.len() == a.nodes.len() + 1,
            forall|k: int| 0 <= k < a.nodes.len() ==> a.nodes[k] == b.nodes[k],
            b.is_rep(a.nodes.len() as int),
            b.size_at(a.nodes.len() as int) == 1,
        ensures
            b.count_reps(i) == a.count_reps(i) + 1,
            b.sum_sizes(i) == a.sum_sizes(i) + 1,
        decreases a.nodes.len() - i,
    {
        if i < a.nodes.len() {
            Self::lemma_counts_push(a, b, i + 1);
        } else {
            assert(b.count_reps(i) == 1 + b.count_reps(i + 1));
            assert(b.sum_sizes(i) == 1 + b.sum_sizes(i + 1));
            assert(b.count_reps(i + 1) == 0);
            assert(b.sum_sizes(i + 1) == 0);
        }
    }

    /// Appending an element does not change the old elements' roots.
    proof fn lemma_root_push(a: DisjointSet, b: DisjointSet, j: int)
        requires
            a.links_ok(),
            b.links_ok(),
            b.nodes.len() == a.nodes.len() + 1,
            b.levels@ == a.levels@.push(0),
            forall|k: int| 0 <= k < a.nodes.len() ==> a.nodes[k] == b.nodes[k],
            0 <= j < a.nodes.len(),
        ensures
            b.root(j) == a.root(j),
        decreases a.levels@[j],
    {
        if !a.is_rep(j) {
            a.lemma_root_step(j);
            b.lemma_root_step(j);
            Self::lemma_root_push(a, b, a.parent_at(j));
        }
    }

    /// Merges the sets holding the two elements; returns whether they were
    /// distinct. Afterwards both old sets share one representative and all
    /// other sets are untouched.
    #[verifier::rlimit(100)]
    pub fn merge_sets(&mut self, elemindex0: usize, elemindex1: usize) -> (r: bool)
        requires
            old(self).wf(),
            elemindex0 < old(self).spec_elems(),
            elemindex1 < old(self).spec_elems(),
        ensures
            final(self).wf(),
            final(self).spec_elems() == old(self).spec_elems(),
            r == (old(self).root(elemindex0 as int) != old(self).root(elemindex1 as int)),
            r ==> final(self).spec_sets() == old(self).spec_sets() - 1,
            !r ==> final(self).spec_sets() == old(self).spec_sets(),
            final(self).root(elemindex0 as int) == old(self).root(elemindex0 as int) || final(
                self).root(elemindex0 as int) == old(self).root(elemindex1 as int),
            forall|j: int|
                0 <= j < old(self).spec_elems() ==> #[trigger] final(self).root(j) == (if old(
                    self,
                ).root(j) == old(self).root(elemindex0 as int) || old(self).root(j) == old(
                    self,
                ).root(elemindex1 as int) {
                    final(self).root(elemindex0 as int)
                } else {
                    old(self).root(j)
                }),
    {
        let ghost orig = *old(self);
        let (mut repr0, mut size0) = self.get_repr(elemindex0);
        let ghost s1 = *self;
        let (mut repr1, mut size1) = self.get_repr(elemindex1);
        proof {
            assert(repr1 as int == orig.root(elemindex1 as int));
            assert(repr0 as int == orig.root(elemindex0 as int));
            assert(0 <= (repr0 as int) < orig.spec_elems() && 0 <= (repr1 as int)
                < orig.spec_elems()) by {
                orig.lemma_root_fuel(
                    elemindex0 as int,
                    (orig.levels@[elemindex0 as int] + 1) as nat,
                );
                orig.lemma_root_fuel(
                    elemindex1 as int,
                    (orig.levels@[elemindex1 as int] + 1) as nat,
                );
            }
            // Both representatives and their sizes survive into the current
            // state.
            assert(s1.is_rep(repr0 as int) && size0 == s1.size_at(repr0 as int));
            assert(self.is_rep(repr0 as int) && self.size_at(repr0 as int) == size0);
            assert(self.is_rep(repr1 as int) && self.size_at(repr1 as int) == size1);
        }
        if repr0 == repr1 {
            return false;
        }
        if size0 < size1 {
            let t = repr0;
            repr0 = repr1;
            repr1 = t;
            let ts = size0;
            size0 = size1;
            size1 = ts;
        }
        let ghost mid = *self;
        proof {
            assert(mid.is_rep(repr0 as int) && mid.is_rep(repr1 as int));
            assert(mid.size_at(repr0 as int) == size0 && mid.size_at(repr1 as int) == size1);
            // The two sizes together fit within the element count.
            if (repr0 as int) < (repr1 as int) {
                mid.lemma_sum_pair(0, repr0 as int, repr1 as int);
            } else {
                mid.lemma_sum_pair(0, repr1 as int, repr0 as int);
            }
            assert(size0 + size1 <= mid.nodes.len());
        }
        // Graft the smaller tree under the larger representative.
        self.nodes[repr0] = DisjointSetNode::Representative { size: size0 + size1 };
        let ghost mid2 = *self;
        proof {
            Self::lemma_counts_update(mid, mid2, repr0 as int, 0);
            assert(mid2.links_ok()) by {
                assert forall|k: int|
                    0 <= k < mid2.nodes.len() && !mid2.is_rep(k) implies {
                    &&& 0 <= #[trigger] mid2.parent_at(k) < mid2.nodes.len()
                    &&& mid2.parent_at(k) != k
                    &&& mid2.levels@[mid2.parent_at(k)] < mid2.levels@[k]
                } by {
                    assert(mid2.nodes[k] == mid.nodes[k]);
                    assert(0 <= mid.parent_at(k) < mid.nodes.len());
                    assert(mid.levels@[mid.parent_at(k)] < mid.levels@[k]);
                }
            }
            assert forall|j: int| 0 <= j < orig.spec_elems() implies #[trigger] mid2.root(j)
                == mid.root(j) by {
                Self::lemma_root_same_shape(mid, mid2, j);
            }
        }
        self.nodes[repr1] = DisjointSetNode::Child { parent: repr0 };
        self.num_sets = self.num_sets - 1;
        proof {
            self.levels@ = mid.levels@.map_values(|l: nat| l + 1).update(repr0 as int, 0nat);
        }
        proof {
            let fin = *self;
            assert(fin.levels@.len() == fin.nodes.len());
            assert forall|i: int|
                0 <= i < fin.nodes.len() && !fin.is_rep(i) implies {
                &&& 0 <= #[trigger] fin.parent_at(i) < fin.nodes.len()
                &&& fin.parent_at(i) != i
                &&& fin.levels@[fin.parent_at(i)] < fin.levels@[i]
            } by {
                if i == repr1 as int {
                    assert(fin.parent_at(i) == repr0 as int);
                    assert(fin.levels@[repr0 as int] == 0);
                    assert(fin.levels@[repr1 as int] == mid.levels@[repr1 as int] + 1);
                } else {
                    assert(mid2.nodes[i] == fin.nodes[i]);
                    assert(!mid2.is_rep(i));
                    assert(mid2.parent_at(i) == fin.parent_at(i));
                    assert(mid2.levels@[mid2.parent_at(i)] < mid2.levels@[i]);
                    let p = fin.parent_at(i);
                    assert(p != repr0 as int ==> fin.levels@[p] == mid.levels@[p] + 1);
                    assert(fin.levels@[i] == mid.levels@[i] + 1) by {
                        assert(i != repr0 as int) by {
                            if i == repr0 as int {
                                assert(fin.is_rep(i));
                            }
                        }
                    }
                }
            }
            Self::lemma_counts_update(mid2, fin, repr1 as int, 0);
            assert(fin.count_reps(0) == mid2.count_reps(0) - 1);
            assert(fin.sum_sizes(0) == mid2.sum_sizes(0) - size1);
            assert(mid2.sum_sizes(0) == mid.sum_sizes(0) + size1) by {
                Self::lemma_counts_update(mid, mid2, repr0 as int, 0);
            }
            assert forall|k: int|
                0 <= k < fin.nodes.len() && fin.is_rep(k) implies 1 <= (#[trigger] fin.size_at(
                k,
            )) <= fin.nodes.len() by {
                if k == repr0 as int {
                    assert(fin.size_at(k) == size0 + size1);
                } else {
                    assert(k != repr1 as int ==> fin.nodes[k] == mid.nodes[k]);
                    assert(k != repr1 as int ==> 1 <= mid.size_at(k) <= mid.nodes.len());
                    assert(k != repr1 as int);
                }
            }
            assert(fin.wf());
            // Roots: everything in either old set now reaches repr0.
            assert forall|j: int| 0 <= j < orig.spec_elems() implies #[trigger] fin.root(j) == (
            if mid2.root(j) == repr1 as int {
                repr0 as int
            } else {
                mid2.root(j)
            }) by {
                Self::lemma_root_merge(mid2, fin, repr1 as int, repr0 as int, j);
            }
            let w = repr0 as int;
            assert(w == orig.root(elemindex0 as int) || w == orig.root(elemindex1 as int));
            assert(fin.root(elemindex0 as int) == w) by {
                assert(mid2.root(elemindex0 as int) == orig.root(elemindex0 as int));
                assert(orig.root(elemindex0 as int) == repr0 as int || orig.root(
                    elemindex0 as int,
                ) == repr1 as int);
            }
            assert forall|j: int| 0 <= j < orig.spec_elems() implies #[trigger] fin.root(j) == (
            if orig.root(j) == orig.root(elemindex0 as int) || orig.root(j) == orig.root(
                elemindex1 as int,
            ) {
                fin.root(elemindex0 as int)
            } else {
                orig.root(j)
            }) by {
                assert(mid2.root(j) == mid.root(j) == orig.root(j));
                assert(orig.root(elemindex0 as int) == repr0 as int || orig.root(
                    elemindex0 as int,
                ) == repr1 as int);
                assert(orig.root(elemindex1 as int) == repr0 as int || orig.root(
                    elemindex1 as int,
                ) == repr1 as int);
                assert(orig.root(elemindex0 as int) != orig.root(elemindex1 as int));
            }
        }
        true
    }

    /// Changing only a representative's stored size leaves all roots alone.
    proof fn lemma_root_same_shape(a: DisjointSet, b: DisjointSet, j: int)
        requires
            a.links_ok(),
            b.links_ok(),
            b.nodes.len() == a.nodes.len(),
            b.levels@ == a.levels@,
            forall|k: int|
                0 <= k < a.nodes.len() ==> (#[trigger] a.is_rep(k) == b.is_rep(k) && (!a.is_rep(k)
                    ==> a.parent_at(k) == b.parent_at(k))),
            0 <= j < a.nodes.len(),
        ensures
            b.root(j) == a.root(j),
        decreases a.levels@[j],
    {
        if !a.is_rep(j) {
            a.lemma_root_step(j);
            b.lemma_root_step(j);
            Self::lemma_root_same_shape(a, b, a.parent_at(j));
        }
    }

    /// Grafting the representative `loser` under `winner` reroutes exactly
    /// the members of `loser`'s set.
    proof fn lemma_root_merge(a: DisjointSet, b: DisjointSet, loser: int, winner: int, j: int)
        requires
            a.links_ok(),
            b.links_ok(),
            b.nodes.len() == a.nodes.len(),
            0 <= loser < a.nodes.len(),
            0 <= winner < a.nodes.len(),
            loser != winner,
            a.is_rep(loser),
            a.is_rep(winner),
            b.is_rep(winner),
            !b.is_rep(loser),
            b.parent_at(loser) == winner,
            forall|k: int| 0 <= k < a.nodes.len() && k != loser ==> a.nodes[k] == b.nodes[k],
            0 <= j < a.nodes.len(),
        ensures
            b.root(j) == (if a.root(j) == loser {
                winner
            } else {
                a.root(j)
            }),
        decreases a.levels@[j],
    {
        if j == loser {
            b.lemma_root_step(loser);
            assert(b.root(winner) == winner);
            assert(a.root(loser) == loser);
        } else if a.is_rep(j) {
            assert(a.root(j) == j);
            assert(b.root(j) == j);
        } else {
            a.lemma_root_step(j);
            b.lemma_root_step(j);
            Self::lemma_root_merge(a, b, loser, winner, a.parent_at(j));
        }
    }

    /// Checks index bounds, size bounds and the two counters. On a valid
    /// structure every check passes.
    pub fn check_structure(&self) -> (ok: bool)
        requires
            self.wf(),
        ensures
            ok,
    {
        let n = self.nodes.len();
        let mut numrepr: usize = 0;
        let mut sizesum: usize = 0;
        let mut i: usize = 0;
        while i < n
            invariant
                self.wf(),
                i <= n,
                n == self.nodes.len(),
                numrepr + self.count_reps(i as int) == self.count_reps(0),
                sizesum + self.sum_sizes(i as int) == self.sum_sizes(0),
            decreases n - i,
        {
            proof {
                assert(self.count_reps(i as int) == (if self.is_rep(i as int) {
                    1nat
                } else {
                    0
                }) + self.count_reps(i as int + 1));
                assert(self.sum_sizes(i as int) == (if self.is_rep(i as int) {
                    self.size_at(i as int)
                } else {
                    0
                }) + self.sum_sizes(i as int + 1));
                self.lemma_sum_from_le(0, i as int);
                self.lemma_sum_from_le(i as int, i as int + 1);
            }
            match self.nodes[i] {
                DisjointSetNode::Representative { size } => {
                    proof {
                        assert(self.is_rep(i as int));
                        assert(self.size_at(i as int) == size as nat);
                    }
                    if !(1 <= size && size <= n) {
                        proof {
                            assert(false);
                        }
                        return false;
                    }
                    numrepr = numrepr + 1;
                    sizesum = sizesum + size;
                },
                DisjointSetNode::Child { parent } => {
                    proof {
                        assert(!self.is_rep(i as int));
                        assert(self.parent_at(i as int) == parent as int);
                        assert(0 <= self.parent_at(i as int) < self.nodes.len());
                        assert(self.parent_at(i as int) != i as int);
                    }
                    if parent == i || parent >= n {
                        proof {
                            assert(false);
                        }
                        return false;
                    }
                },
            }
            i += 1;
        }
        proof {
            assert(self.count_reps(n as int) == 0);
            assert(self.sum_sizes(n as int) == 0);
            self.lemma_count_le(0);
        }
        numrepr == self.num_sets && self.num_sets <= n && sizesum == n
    }

    /// Partial counts and sums are monotone in the starting index.
    proof fn lemma_sum_from_le(self, i: int, j: int)
        requires
            0 <= i <= j,
        ensures
            self.sum_sizes(j) <= self.sum_sizes(i),
            self.count_reps(j) <= self.count_reps(i),
        decreases j - i,
    {
        if i < j {
            self.lemma_sum_from_le(i + 1, j);
        }
    }
}

} // verus!
