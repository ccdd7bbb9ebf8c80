//! An ordered set of `i32` values stored in a B-tree with a configurable
//! minimum branching degree. Insertion splits full nodes proactively while
//! descending; removal borrows from or merges with siblings before
//! descending, so every rebalancing step completes before the next begins.
//!
//! The abstract view of a set is the strictly ascending sequence of its
//! members; every public operation is specified against that sequence.

use vstd::prelude::*;

use crate::seq_facts::lemma_concat_contains;
use crate::seq_facts::lemma_insert_sorted_props;
use crate::seq_facts::lemma_remove_sorted_props;
use crate::seq_facts::lemma_sorted_concat;
use crate::seq_facts::lemma_sorted_unique;
use crate::seq_facts::seq_above;
use crate::seq_facts::seq_below;
use crate::seq_facts::seq_insert_sorted;
use crate::seq_facts::seq_remove_sorted;
use crate::seq_facts::sorted_strict;

verus! {

broadcast use vstd::std_specs::vec::group_vec_axioms;

/// The ways a B-tree operation can fail.
#[derive(Clone, Copy, PartialEq, Eq, Debug)]
pub enum SetError {
    /// The requested degree is below 2 or so large that the derived
    /// key-count bound cannot be represented.
    InvalidConfiguration,
    /// The set already holds the maximum representable number of elements.
    CapacityExceeded,
}

struct Node {
    /// Strictly ascending keys of this node.
    keys: Vec<i32>,
    /// Empty for a leaf; exactly `keys.len() + 1` subtrees for an internal node.
    children: Vec<Node>,
}

pub struct BTreeSet {
    root: Node,
    size: usize,
    /// Lower key bound for non-root nodes; equals `degree - 1`.
    min_keys: usize,
    /// Upper key bound for every node; equals `2 * degree - 1`.
    max_keys: usize,
}

impl Node {
    /// Distance from this node down to its leaves (0 for a leaf).
    spec fn height(self) -> nat
        decreases self,
    {
        if self.children.len() == 0 {
            0
        } else {
            1 + self.children[0].height()
        }
    }

    /// Whether `v` is stored somewhere in the subtree rooted here.
    spec fn mem(self, v: i32) -> bool
        decreases self, self.children.len() + 1int,
    {
        if self.children.len() == 0 {
            self.keys@.contains(v)
        } else {
            self.mem_from(0, v)
        }
    }

    /// Membership restricted to children `i..` and keys `i..`.
    spec fn mem_from(self, i: int, v: i32) -> bool
        decreases self, self.children.len() - i,
    {
        if i < 0 || i >= self.children.len() {
            false
        } else {
            ||| self.children[i].mem(v)
            ||| (i < self.keys.len() && self.keys[i] == v)
            ||| self.mem_from(i + 1, v)
        }
    }

    /// Number of keys stored in the subtree rooted here.
    spec fn count(self) -> nat
        decreases self, self.children.len() + 1int,
    {
        if self.children.len() == 0 {
            self.keys.len() as nat
        } else {
            self.count_from(0)
        }
    }

    /// Key count restricted to children `i..` and keys `i..`.
    spec fn count_from(self, i: int) -> nat
        decreases self, self.children.len() - i,
    {
        if i < 0 || i >= self.children.len() {
            0
        } else {
            self.children[i].count() + (if i < self.keys.len() { 1nat } else { 0 })
                + self.count_from(i + 1)
        }
    }

    /// The ascending sequence of all keys in the subtree rooted here.
    spec fn subtree_seq(self) -> Seq<i32>
        decreases self, self.children.len() + 1int,
    {
        if self.children.len() == 0 {
            self.keys@
        } else {
            self.seq_from(0)
        }
    }

    /// The ascending sequence restricted to children `i..` and keys `i..`.
    spec fn seq_from(self, i: int) -> Seq<i32>
        decreases self, self.children.len() - i,
    {
        if i < 0 || i >= self.children.len() {
            Seq::empty()
        } else {
            self.children[i].subtree_seq()
                + (if i < self.keys.len() { seq![self.keys[i]] } else { Seq::empty() })
                + self.seq_from(i + 1)
        }
    }

    /// Every member of this subtree lies strictly below `b`.
    spec fn all_below(self, b: i32) -> bool {
        forall|v: i32| self.mem(v) ==> v < b
    }

    /// Every member of this subtree lies strictly above `b`.
    spec fn all_above(self, b: i32) -> bool {
        forall|v: i32| self.mem(v) ==> v > b
    }

    /// Structural soundness of the subtree rooted here: key counts within
    /// bounds, keys strictly ascending, children separated by the keys, and
    /// all leaves at the same depth. The lower occupancy bound applies to
    /// the children, so a root node is covered by this predicate as well.
    spec fn wf(self, mink: int, maxk: int) -> bool
        decreases self,
    {
        &&& self.keys.len() <= maxk
        &&& sorted_strict(self.keys@)
        &&& (self.children.len() > 0 ==> {
            &&& self.children.len() == self.keys.len() + 1
            &&& (forall|i: int|
                0 <= i < self.children.len() ==> (#[trigger] self.children[i]).wf(mink, maxk))
            &&& (forall|i: int|
                0 <= i < self.children.len() ==> (#[trigger] self.children[i]).keys.len() >= mink)
            &&& (forall|i: int|
                0 <= i < self.children.len() ==> (#[trigger] self.children[i]).height() + 1
                    == self.height())
            &&& (forall|i: int|
                0 <= i < self.keys.len() ==> (#[trigger] self.children[i]).all_below(
                    self.keys[i],
                ))
            &&& (forall|i: int|
                1 <= i < self.children.len() ==> (#[trigger] self.children[i]).all_above(
                    self.keys[i - 1],
                ))
        })
    }

    spec fn is_leaf_spec(self) -> bool {
        self.children.len() == 0
    }

    fn is_leaf(&self) -> (r: bool)
        ensures
            r == self.is_leaf_spec(),
    {
        self.children.len() == 0
    }

    fn new() -> (r: Node)
        ensures
            r.keys.len() == 0,
            r.children.len() == 0,
            r.height() == 0,
            r.count() == 0,
            forall|v: i32| !r.mem(v),
            r.subtree_seq() == Seq::<i32>::empty(),
            forall|mink: int, maxk: int| 0 <= maxk ==> r.wf(mink, maxk),
    {
        let r = Node { keys: Vec::new(), children: Vec::new() };
        proof {
            assert(r.subtree_seq() =~= Seq::<i32>::empty());
            assert forall|v: i32| !r.mem(v) by {
                if r.keys@.contains(v) {
                    let i = choose|i: int| 0 <= i < r.keys@.len() && r.keys@[i] == v;
                }
            }
        }
        r
    }

    /// Scan this node's keys for `val`: either the index where it sits, or
    /// the index of the child to descend into.
    fn search(&self, val: i32) -> (r: (bool, usize))
        requires
            sorted_strict(self.keys@),
        ensures
            r.1 <= self.keys.len(),
            r.0 ==> r.1 < self.keys.len() && self.keys[r.1 as int] == val,
            !r.0 ==> forall|j: int| 0 <= j < r.1 ==> self.keys[j] < val,
            !r.0 ==> (r.1 < self.keys.len() ==> val < self.keys[r.1 as int]),
            !r.0 ==> !self.keys@.contains(val),
    {
        let mut i: usize = 0;
        let n = self.keys.len();
        while i < n
            invariant
                i <= n,
                n == self.keys.len(),
                sorted_strict(self.keys@),
                forall|j: int| 0 <= j < i ==> self.keys[j] < val,
            decreases n - i,
        {
            let k = self.keys[i];
            if k == val {
                return (true, i);
            } else if k > val {
                proof {
                    assert forall|j: int| 0 <= j < self.keys.len() implies self.keys[j] != val by {
                        if j > i {
                            assert(self.keys[i as int] < self.keys[j]);
                        }
                    }
                    if self.keys@.contains(val) {
                        let j = choose|j: int| 0 <= j < self.keys@.len() && self.keys@[j] == val;
                    }
                }
                return (false, i);
            }
            i += 1;
        }
        proof {
            if self.keys@.contains(val) {
                let j = choose|j: int| 0 <= j < self.keys@.len() && self.keys@[j] == val;
            }
        }
        (false, i)
    }

    /// A member of this subtree witnessed inside child `k` or at key `k`.
    spec fn mem_at(self, k: int, v: i32) -> bool {
        (0 <= k < self.children.len() && self.children[k].mem(v)) || (0 <= k < self.keys.len()
            && k < self.children.len() && self.keys[k] == v)
    }

    /// Flattens the recursive `mem_from` into explicit witnesses: a member
    /// is either in one of the children `i..` or equals one of the keys `i..`.
    proof fn lemma_mem_iff(self, i: int)
        requires
            0 <= i,
        ensures
            forall|v: i32|
                #[trigger] self.mem_from(i, v) <==> exists|k: int| k >= i && self.mem_at(k, v),
        decreases self.children.len() - i,
    {
        if i >= self.children.len() {
            assert forall|v: i32| !self.mem_from(i, v) && !(exists|k: int|
                k >= i && self.mem_at(k, v)) by {
                if exists|k: int| k >= i && self.mem_at(k, v) {
                    let k = choose|k: int| k >= i && self.mem_at(k, v);
                    assert(k < self.children.len());
                }
            }
        } else {
            self.lemma_mem_iff(i + 1);
            assert forall|v: i32| #[trigger] self.mem_from(i, v) implies exists|k: int|
                k >= i && self.mem_at(k, v) by {
                if self.children[i].mem(v) || (i < self.keys.len() && self.keys[i] == v) {
                    assert(self.mem_at(i, v));
                    assert(i >= i && self.mem_at(i, v));
                } else {
                    assert(self.mem_from(i + 1, v));
                    let k = choose|k: int| k >= i + 1 && self.mem_at(k, v);
                    assert(k >= i && self.mem_at(k, v));
                }
            }
            assert forall|v: i32| (exists|k: int| k >= i && self.mem_at(k, v))
                implies #[trigger] self.mem_from(i, v) by {
                let k = choose|k: int| k >= i && self.mem_at(k, v);
                if k == i {
                    assert(self.mem_from(i, v));
                } else {
                    assert(k >= i + 1 && self.mem_at(k, v));
                    assert(self.mem_from(i + 1, v));
                }
            }
        }
    }

    /// Membership witnessed anywhere except inside child `j`.
    spec fn mem_sans_child(self, j: int, v: i32) -> bool {
        (exists|k: int|
            0 <= k < self.children.len() && k != j && (#[trigger] self.children[k]).mem(v)) || (
        exists|k: int|
            0 <= k < self.keys.len() && k < self.children.len() && self.keys[k] == v)
    }

    /// Splits membership into child `j` and everything else.
    proof fn lemma_mem_sans(self, j: int)
        requires
            self.children.len() > 0,
            0 <= j < self.children.len(),
        ensures
            forall|v: i32|
                #[trigger] self.mem(v) <==> self.mem_sans_child(j, v) || self.children[j].mem(v),
    {
        self.lemma_mem_iff(0);
        assert forall|v: i32| #[trigger] self.mem(v) implies self.mem_sans_child(j, v)
            || self.children[j].mem(v) by {
            assert(self.mem_from(0, v));
            let k = choose|k: int| k >= 0 && self.mem_at(k, v);
            if self.children[k].mem(v) {
                if k != j {
                    assert(self.mem_sans_child(j, v));
                }
            } else {
                assert(0 <= k < self.keys.len() && self.keys[k] == v);
                assert(self.mem_sans_child(j, v));
            }
        }
        assert forall|v: i32| self.mem_sans_child(j, v) || self.children[j].mem(v)
            implies #[trigger] self.mem(v) by {
            if self.children[j].mem(v) {
                assert(j >= 0 && self.mem_at(j, v));
                assert(self.mem_from(0, v));
            } else if exists|k: int|
                0 <= k < self.children.len() && k != j && (#[trigger] self.children[k]).mem(v) {
                let k = choose|k: int|
                    0 <= k < self.children.len() && k != j && (#[trigger] self.children[k]).mem(v);
                assert(k >= 0 && self.mem_at(k, v));
                assert(self.mem_from(0, v));
            } else {
                let k = choose|k: int|
                    0 <= k < self.keys.len() && k < self.children.len() && self.keys[k] == v;
                assert(k >= 0 && self.mem_at(k, v));
                assert(self.mem_from(0, v));
            }
        }
    }

    /// `mem_sans_child` ignores child `j`, so it transfers between nodes
    /// that agree on their keys and all other children.
    proof fn lemma_mem_sans_congruent(self, other: Node, j: int)
        requires
            self.keys@ == other.keys@,
            self.children.len() == other.children.len(),
            forall|k: int|
                0 <= k < self.children.len() && k != j ==> self.children[k] == other.children[k],
        ensures
            forall|v: i32|
                #[trigger] self.mem_sans_child(j, v) <==> other.mem_sans_child(j, v),
    {
        assert forall|v: i32| #[trigger] self.mem_sans_child(j, v) implies other.mem_sans_child(
            j,
            v,
        ) by {
            if exists|k: int|
                0 <= k < self.children.len() && k != j && (#[trigger] self.children[k]).mem(v) {
                let k = choose|k: int|
                    0 <= k < self.children.len() && k != j && (#[trigger] self.children[k]).mem(v);
                assert(other.children[k].mem(v));
            } else {
                let k = choose|k: int|
                    0 <= k < self.keys.len() && k < self.children.len() && self.keys[k] == v;
                assert(other.keys[k] == v);
            }
        }
        assert forall|v: i32| other.mem_sans_child(j, v) implies #[trigger] self.mem_sans_child(
            j,
            v,
        ) by {
            if exists|k: int|
                0 <= k < other.children.len() && k != j && (#[trigger] other.children[k]).mem(v) {
                let k = choose|k: int|
                    0 <= k < other.children.len() && k != j && (#[trigger] other.children[k]).mem(
                        v,
                    );
                assert(self.children[k].mem(v));
            } else {
                let k = choose|k: int|
                    0 <= k < other.keys.len() && k < other.children.len() && other.keys[k] == v;
                assert(self.keys[k] == v);
            }
        }
    }

    /// A node that replaces child `j` of a well-formed node with a
    /// well-formed substitute of the same height and the same key range is
    /// itself well formed.
    proof fn lemma_parent_update_wf(self, other: Node, j: int, mink: int, maxk: int)
        requires
            self.wf(mink, maxk),
            self.children.len() > 0,
            0 <= j < self.children.len(),
            other.keys@ == self.keys@,
            other.children.len() == self.children.len(),
            forall|k: int|
                0 <= k < self.children.len() && k != j ==> other.children[k] == self.children[k],
            other.children[j].wf(mink, maxk),
            other.children[j].keys.len() >= mink,
            other.children[j].height() == self.children[j].height(),
            j < self.keys.len() ==> other.children[j].all_below(self.keys[j]),
            j >= 1 ==> other.children[j].all_above(self.keys[j - 1]),
        ensures
            other.wf(mink, maxk),
            other.height() == self.height(),
    {
        assert(other.height() == self.height()) by {
            if j == 0 {
                assert(other.children[0].height() == self.children[0].height());
            } else {
                assert(other.children[0] == self.children[0]);
            }
            assert(other.height() == 1 + other.children[0].height());
        }
        assert forall|i: int| 0 <= i < other.children.len() implies (#[trigger] other.children[i]).wf(
            mink,
            maxk,
        ) && other.children[i].keys.len() >= mink && other.children[i].height() + 1
            == other.height() by {
            if i != j {
                assert(other.children[i] == self.children[i]);
                assert(self.children[i].wf(mink, maxk));
            }
        }
        assert forall|i: int| 0 <= i < other.keys.len() implies (#[trigger] other.children[i]).all_below(
            other.keys[i],
        ) by {
            if i != j {
                assert(other.children[i] == self.children[i]);
                assert(self.children[i].all_below(self.keys[i]));
            }
        }
        assert forall|i: int| 1 <= i < other.children.len() implies (
        #[trigger] other.children[i]).all_above(other.keys[i - 1]) by {
            if i != j {
                assert(other.children[i] == self.children[i]);
                assert(self.children[i].all_above(self.keys[i - 1]));
            }
        }
    }

    /// Every member of a child is a member of the node.
    proof fn lemma_child_member(self, k: int)
        requires
            0 <= k < self.children.len(),
        ensures
            forall|v: i32| #[trigger] self.children[k].mem(v) ==> self.mem(v),
    {
        self.lemma_mem_iff(0);
        assert forall|v: i32| #[trigger] self.children[k].mem(v) implies self.mem(v) by {
            assert(k >= 0 && self.mem_at(k, v));
            assert(self.mem_from(0, v));
        }
    }

    /// Every key of a node is a member of the node.
    proof fn lemma_key_member(self, k: int)
        requires
            0 <= k < self.keys.len(),
            self.children.len() > 0 ==> k < self.children.len(),
        ensures
            self.mem(self.keys[k]),
    {
        if self.children.len() == 0 {
            assert(self.keys@.contains(self.keys[k])) by {
                assert(self.keys@[k] == self.keys[k]);
            }
        } else {
            self.lemma_mem_iff(0);
            assert(k >= 0 && self.mem_at(k, self.keys[k]));
            assert(self.mem_from(0, self.keys[k]));
        }
    }

    /// In a well-formed internal node, a value that the keys route to child
    /// `idx` can only be stored in child `idx`.
    proof fn lemma_descend(self, mink: int, maxk: int, idx: int, val: i32)
        requires
            self.wf(mink, maxk),
            self.children.len() > 0,
            0 <= idx <= self.keys.len(),
            forall|j: int| 0 <= j < idx ==> self.keys[j] < val,
            idx < self.keys.len() ==> val < self.keys[idx],
        ensures
            self.mem(val) <==> self.children[idx].mem(val),
            !self.mem_sans_child(idx, val),
    {
        assert(!self.mem_sans_child(idx, val)) by {
            if exists|k: int|
                0 <= k < self.children.len() && k != idx && (#[trigger] self.children[k]).mem(
                    val,
                ) {
                let k = choose|k: int|
                    0 <= k < self.children.len() && k != idx && (#[trigger] self.children[k]).mem(
                        val,
                    );
                if k < idx {
                    assert(self.children[k].all_below(self.keys[k]));
                    assert(val < self.keys[k]);
                    assert(self.keys[k] < val);
                } else {
                    assert(self.children[k].all_above(self.keys[k - 1]));
                    assert(val > self.keys[k - 1]);
                    assert(idx < self.keys.len());
                    if idx < k - 1 {
                        assert(self.keys[idx] < self.keys[k - 1]);
                    }
                }
            } else if exists|k: int|
                0 <= k < self.keys.len() && k < self.children.len() && self.keys[k] == val {
                let k = choose|k: int|
                    0 <= k < self.keys.len() && k < self.children.len() && self.keys[k] == val;
                if k < idx {
                    assert(self.keys[k] < val);
                } else {
                    assert(idx < self.keys.len());
                    if k > idx {
                        assert(self.keys[idx] < self.keys[k]);
                    }
                    assert(val < self.keys[k]);
                }
            }
        }
        self.lemma_mem_iff(0);
        assert(self.mem(val) == self.mem_from(0, val));
        if self.mem(val) {
            let k = choose|k: int| k >= 0 && self.mem_at(k, val);
            if self.children[k].mem(val) {
                if k < idx {
                    assert(self.children[k].all_below(self.keys[k]));
                    assert(val < self.keys[k]);
                    assert(self.keys[k] < val);
                    assert(false);
                } else if k > idx {
                    assert(self.children[k].all_above(self.keys[k - 1]));
                    assert(val > self.keys[k - 1]);
                    assert(idx < self.keys.len());
                    if idx < k - 1 {
                        assert(self.keys[idx] < self.keys[k - 1]);
                    }
                    assert(false);
                }
                assert(self.children[idx].mem(val));
            } else {
                assert(0 <= k < self.keys.len() && self.keys[k] == val);
                if k < idx {
                    assert(self.keys[k] < val);
                    assert(false);
                } else {
                    assert(idx < self.keys.len());
                    if k > idx {
                        assert(self.keys[idx] < self.keys[k]);
                    }
                    assert(val < self.keys[k]);
                    assert(false);
                }
            }
        }
        if self.children[idx].mem(val) {
            assert(self.mem_at(idx, val));
            assert(idx >= 0 && self.mem_at(idx, val));
            assert(self.mem_from(0, val));
        }
    }

    /// The in-order sequence of children and keys `i..` of a well-formed
    /// internal node is strictly ascending, has exactly the flattened
    /// members, and sits strictly above the separating key `keys[i-1]`.
    proof fn lemma_from_props(self, mink: int, maxk: int, i: int)
        requires
            self.wf(mink, maxk),
            self.children.len() > 0,
            0 <= i,
        ensures
            forall|v: i32| #[trigger] self.seq_from(i).contains(v) <==> self.mem_from(i, v),
            sorted_strict(self.seq_from(i)),
            1 <= i < self.children.len() ==> seq_above(self.seq_from(i), self.keys[i - 1]),
        decreases self, self.children.len() - i,
    {
        if i >= self.children.len() {
            assert forall|v: i32| !(#[trigger] self.seq_from(i).contains(v)) by {
                if self.seq_from(i).contains(v) {
                    let j = choose|j: int|
                        0 <= j < self.seq_from(i).len() && self.seq_from(i)[j] == v;
                }
            }
        } else {
            let c = self.children[i];
            let cs = c.subtree_seq();
            let mid: Seq<i32> = if i < self.keys.len() {
                seq![self.keys[i]]
            } else {
                Seq::empty()
            };
            let rest = self.seq_from(i + 1);
            let s = self.seq_from(i);
            c.lemma_main(mink, maxk);
            self.lemma_from_props(mink, maxk, i + 1);
            assert(s == cs + mid + rest);
            assert forall|v: i32| #[trigger] s.contains(v) <==> self.mem_from(i, v) by {
                lemma_concat_contains(cs + mid, rest, v);
                lemma_concat_contains(cs, mid, v);
                assert(mid.contains(v) <==> (i < self.keys.len() && self.keys[i] == v)) by {
                    if mid.contains(v) {
                        let j = choose|j: int| 0 <= j < mid.len() && mid[j] == v;
                    }
                    if i < self.keys.len() && self.keys[i] == v {
                        assert(mid[0] == v);
                    }
                }
                assert(s.contains(v) <==> (cs + mid).contains(v) || rest.contains(v));
                assert(cs.contains(v) <==> c.mem(v));
                assert(rest.contains(v) <==> self.mem_from(i + 1, v));
            }
            // Sortedness of the concatenation.
            if i == self.children.len() - 1 {
                // Last child: no separating key and an empty tail.
                assert(i == self.keys.len());
                assert(mid =~= Seq::<i32>::empty());
                assert(rest =~= Seq::<i32>::empty());
                assert(s =~= cs);
            } else {
                assert(i < self.keys.len());
                let m = self.keys[i];
                assert(seq_below(cs, m)) by {
                    assert forall|j: int| 0 <= j < cs.len() implies cs[j] < m by {
                        assert(cs.contains(cs[j]));
                        assert(c.mem(cs[j]));
                        assert(c.all_below(m));
                    }
                }
                assert(seq_above(rest, m));
                lemma_sorted_concat(cs, m, rest);
                assert(cs + seq![m] + rest == cs + mid + rest);
            }
            if 1 <= i {
                let b = self.keys[i - 1];
                assert forall|j: int| 0 <= j < s.len() implies s[j] > b by {
                    let v = s[j];
                    assert(s.contains(v));
                    lemma_concat_contains(cs + mid, rest, v);
                    lemma_concat_contains(cs, mid, v);
                    if cs.contains(v) {
                        assert(c.mem(v));
                        assert(c.all_above(b));
                    } else if mid.contains(v) {
                        let jj = choose|jj: int| 0 <= jj < mid.len() && mid[jj] == v;
                        assert(v == self.keys[i]);
                        assert(self.keys[i - 1] < self.keys[i]);
                    } else {
                        assert(rest.contains(v));
                        assert(i + 1 < self.children.len());
                        assert(seq_above(rest, self.keys[i]));
                        assert(v > self.keys[i]);
                        assert(self.keys[i - 1] < self.keys[i]);
                    }
                }
            }
        }
    }

    /// The subtree sequence of a well-formed node is strictly ascending and
    /// holds exactly the node's members.
    proof fn lemma_main(self, mink: int, maxk: int)
        requires
            self.wf(mink, maxk),
        ensures
            sorted_strict(self.subtree_seq()),
            forall|v: i32| #[trigger] self.subtree_seq().contains(v) <==> self.mem(v),
        decreases self, self.children.len() + 2int,
    {
        if self.children.len() == 0 {
            assert(self.subtree_seq() == self.keys@);
            assert forall|v: i32| #[trigger] self.subtree_seq().contains(v) <==> self.mem(v) by {
                assert(self.mem(v) == self.keys@.contains(v));
            }
        } else {
            self.lemma_from_props(mink, maxk, 0);
            assert forall|v: i32| #[trigger] self.subtree_seq().contains(v) <==> self.mem(v) by {
                assert(self.subtree_seq() == self.seq_from(0));
                assert(self.seq_from(0).contains(v) <==> self.mem_from(0, v));
                assert(self.mem(v) == self.mem_from(0, v));
            }
        }
    }

    /// A node assembled from keys `a` up to but excluding `b` of a
    /// well-formed node (with children `a` through `b` when internal) is
    /// well formed, keeps the height, and holds exactly the members
    /// witnessed in that range.
    proof fn lemma_sub_node(c: Node, part: Node, a: int, b: int, mink: int, maxk: int)
        requires
            c.wf(mink, maxk),
            0 <= a <= b <= c.keys.len(),
            part.keys@ == c.keys@.subrange(a, b),
            c.children.len() == 0 ==> part.children.len() == 0,
            c.children.len() > 0 ==> part.children@ == c.children@.subrange(a, b + 1),
        ensures
            part.wf(mink, maxk),
            part.height() == c.height(),
            forall|v: i32|
                #[trigger] part.mem(v) <==> ((exists|k: int|
                    a <= k <= b && k < c.children.len() && (#[trigger] c.children[k]).mem(v)) || (
                exists|k: int| a <= k < b && #[trigger] c.keys[k] == v)),
    {
        assert(sorted_strict(part.keys@)) by {
            assert forall|p: int, q: int| 0 <= p < q < part.keys@.len() implies part.keys@[p]
                < part.keys@[q] by {
                assert(part.keys@[p] == c.keys[a + p]);
                assert(part.keys@[q] == c.keys[a + q]);
            }
        }
        if c.children.len() == 0 {
            assert(part.wf(mink, maxk));
            assert(part.height() == 0 == c.height());
            assert forall|v: i32| #[trigger] part.mem(v) <==> ((exists|k: int|
                a <= k <= b && k < c.children.len() && (#[trigger] c.children[k]).mem(v)) || (
            exists|k: int| a <= k < b && #[trigger] c.keys[k] == v)) by {
                if part.mem(v) {
                    let i = choose|i: int| 0 <= i < part.keys@.len() && part.keys@[i] == v;
                    assert(c.keys[a + i] == v);
                    assert(a <= a + i < b);
                }
                if exists|k: int| a <= k < b && #[trigger] c.keys[k] == v {
                    let k = choose|k: int| a <= k < b && #[trigger] c.keys[k] == v;
                    assert(part.keys@[k - a] == v);
                    assert(part.keys@.contains(v));
                }
                if exists|k: int|
                    a <= k <= b && k < c.children.len() && (#[trigger] c.children[k]).mem(v) {
                    let k = choose|k: int|
                        a <= k <= b && k < c.children.len() && (#[trigger] c.children[k]).mem(v);
                }
            }
        } else {
            assert(c.children.len() == c.keys.len() + 1);
            assert(part.children@.len() == b + 1 - a);
            assert(part.children.len() == part.keys.len() + 1);
            assert forall|i: int| 0 <= i < part.children.len() implies part.children[i]
                == c.children[a + i] by {}
            assert(part.height() == c.height()) by {
                assert(part.children[0] == c.children[a]);
                assert(c.children[a].height() + 1 == c.height());
                assert(part.height() == 1 + part.children[0].height());
            }
            assert forall|i: int| 0 <= i < part.children.len() implies {
                &&& (#[trigger] part.children[i]).wf(mink, maxk)
                &&& part.children[i].keys.len() >= mink
                &&& part.children[i].height() + 1 == part.height()
            } by {
                assert(part.children[i] == c.children[a + i]);
                assert(c.children[a + i].wf(mink, maxk));
                assert(c.children[a + i].keys.len() >= mink);
                assert(c.children[a + i].height() + 1 == c.height());
            }
            assert forall|i: int| 0 <= i < part.keys.len() implies (
            #[trigger] part.children[i]).all_below(part.keys[i]) by {
                assert(part.children[i] == c.children[a + i]);
                assert(part.keys[i] == c.keys[a + i]);
                assert(c.children[a + i].all_below(c.keys[a + i]));
            }
            assert forall|i: int| 1 <= i < part.children.len() implies (
            #[trigger] part.children[i]).all_above(part.keys[i - 1]) by {
                assert(part.children[i] == c.children[a + i]);
                assert(part.keys[i - 1] == c.keys[a + i - 1]);
                assert(c.children[a + i].all_above(c.keys[a + i - 1]));
            }
            assert(part.wf(mink, maxk));
            part.lemma_mem_iff(0);
            assert forall|v: i32| #[trigger] part.mem(v) <==> ((exists|k: int|
                a <= k <= b && k < c.children.len() && (#[trigger] c.children[k]).mem(v)) || (
            exists|k: int| a <= k < b && #[trigger] c.keys[k] == v)) by {
                if part.mem(v) {
                    assert(part.mem_from(0, v));
                    let k = choose|k: int| k >= 0 && part.mem_at(k, v);
                    if part.children[k].mem(v) {
                        assert(c.children[a + k].mem(v));
                        assert(a <= a + k <= b && a + k < c.children.len());
                    } else {
                        assert(0 <= k < part.keys.len() && part.keys[k] == v);
                        assert(c.keys[a + k] == v);
                        assert(a <= a + k < b);
                    }
                }
                if exists|k: int|
                    a <= k <= b && k < c.children.len() && (#[trigger] c.children[k]).mem(v) {
                    let k = choose|k: int|
                        a <= k <= b && k < c.children.len() && (#[trigger] c.children[k]).mem(v);
                    assert(part.children[k - a] == c.children[k]);
                    assert(part.mem_at(k - a, v));
                    assert(k - a >= 0 && part.mem_at(k - a, v));
                    assert(part.mem_from(0, v));
                }
                if exists|k: int| a <= k < b && #[trigger] c.keys[k] == v {
                    let k = choose|k: int| a <= k < b && #[trigger] c.keys[k] == v;
                    assert(part.keys[k - a] == v);
                    assert(part.mem_at(k - a, v));
                    assert(k - a >= 0 && part.mem_at(k - a, v));
                    assert(part.mem_from(0, v));
                }
            }
        }
    }

    /// Splits the full child at `index` into two minimally filled nodes,
    /// promoting its median key into this node next to the new sibling.
    #[verifier::rlimit(100)]
    fn split_child(&mut self, minkeys: usize, maxkeys: usize, index: usize)
        requires
            old(self).wf(minkeys as int, maxkeys as int),
            1 <= minkeys,
            maxkeys as int == 2 * (minkeys as int) + 1,
            old(self).children.len() > 0,
            index <= old(self).keys.len(),
            old(self).keys.len() < maxkeys,
            old(self).children@[index as int].keys.len() == maxkeys,
        ensures
            final(self).wf(minkeys as int, maxkeys as int),
            final(self).height() == old(self).height(),
            forall|v: i32| #[trigger] final(self).mem(v) <==> old(self).mem(v),
            final(self).children.len() == old(self).children.len() + 1,
            final(self).keys.len() == old(self).keys.len() + 1,
            final(self).keys@ == old(self).keys@.insert(
                index as int,
                final(self).keys@[index as int],
            ),
            old(self).children@[index as int].mem(final(self).keys@[index as int]),
            final(self).children@[index as int].keys.len() == minkeys,
            final(self).children@[index as int + 1].keys.len() == minkeys,
            forall|v: i32|
                #[trigger] old(self).children@[index as int].mem(v) <==> (final(self).children@[
                    index as int
                ].mem(v) || v == final(self).keys@[index as int] || final(self).children@[
                    index as int + 1
                ].mem(v)),
    {
        let ghost c = old(self).children@[index as int];
        let ghost mk = minkeys as int;
        let ghost orig = *old(self);
        proof {
            assert(c.wf(mk, maxkeys as int));
            assert(c.children.len() > 0 ==> c.children.len() == c.keys.len() + 1);
        }
        let mut left = self.children.remove(index);
        let mut right_keys = left.keys.split_off(minkeys + 1);
        let middle_opt = left.keys.pop();
        let middle = middle_opt.unwrap();
        proof {
            assert(left.keys@ =~= c.keys@.subrange(0, mk));
            assert(middle == c.keys@[mk]);
            assert(right_keys@ =~= c.keys@.subrange(mk + 1, c.keys@.len() as int));
        }
        let mut right_children: Vec<Node> = Vec::new();
        if left.children.len() > 0 {
            proof {
                assert(c.children.len() == c.keys.len() + 1);
            }
            right_children = left.children.split_off(minkeys + 1);
        }
        let right = Node { keys: right_keys, children: right_children };
        proof {
            Node::lemma_sub_node(c, left, 0, mk, mk, maxkeys as int);
            Node::lemma_sub_node(c, right, mk + 1, c.keys@.len() as int, mk, maxkeys as int);
            // The three pieces carve up exactly the members of the old child.
            let cb = c.keys@.len() as int;
            assert forall|v: i32| #[trigger] c.mem(v) <==> (left.mem(v) || v == middle
                || right.mem(v)) by {
                if c.children.len() == 0 {
                    if c.mem(v) {
                        let k = choose|k: int| 0 <= k < c.keys@.len() && c.keys@[k] == v;
                        if k < mk {
                            assert(0 <= k < mk && c.keys[k] == v);
                            assert(left.mem(v));
                        } else if k > mk {
                            assert(mk + 1 <= k < cb && c.keys[k] == v);
                            assert(right.mem(v));
                        }
                    }
                    if left.mem(v) {
                        let k = choose|k: int| 0 <= k < mk && #[trigger] c.keys[k] == v;
                        assert(c.keys@[k] == v);
                        assert(c.keys@.contains(v));
                    }
                    if right.mem(v) {
                        let k = choose|k: int| mk + 1 <= k < cb && #[trigger] c.keys[k] == v;
                        assert(c.keys@[k] == v);
                        assert(c.keys@.contains(v));
                    }
                    if v == middle {
                        assert(c.keys@[mk] == v);
                        assert(c.keys@.contains(v));
                    }
                } else {
                    c.lemma_mem_iff(0);
                    if c.mem(v) {
                        assert(c.mem_from(0, v));
                        let k = choose|k: int| k >= 0 && c.mem_at(k, v);
                        if c.children[k].mem(v) {
                            if k <= mk {
                                assert(0 <= k <= mk && k < c.children.len()
                                    && c.children[k].mem(v));
                                assert(left.mem(v));
                            } else {
                                assert(mk + 1 <= k <= cb && k < c.children.len()
                                    && c.children[k].mem(v));
                                assert(right.mem(v));
                            }
                        } else {
                            assert(0 <= k < c.keys.len() && c.keys[k] == v);
                            if k < mk {
                                assert(left.mem(v));
                            } else if k > mk {
                                assert(mk + 1 <= k < cb && c.keys[k] == v);
                                assert(right.mem(v));
                            }
                        }
                    }
                    if left.mem(v) {
                        assert(c.mem_from(0, v)) by {
                            if exists|k: int|
                                0 <= k <= mk && k < c.children.len() && (
                                #[trigger] c.children[k]).mem(v) {
                                let k = choose|k: int|
                                    0 <= k <= mk && k < c.children.len() && (
                                    #[trigger] c.children[k]).mem(v);
                                assert(k >= 0 && c.mem_at(k, v));
                            } else {
                                let k = choose|k: int| 0 <= k < mk && #[trigger] c.keys[k] == v;
                                assert(k >= 0 && c.mem_at(k, v));
                            }
                        }
                    }
                    if right.mem(v) {
                        assert(c.mem_from(0, v)) by {
                            if exists|k: int|
                                mk + 1 <= k <= cb && k < c.children.len() && (
                                #[trigger] c.children[k]).mem(v) {
                                let k = choose|k: int|
                                    mk + 1 <= k <= cb && k < c.children.len() && (
                                    #[trigger] c.children[k]).mem(v);
                                assert(k >= 0 && c.mem_at(k, v));
                            } else {
                                let k = choose|k: int|
                                    mk + 1 <= k < cb && #[trigger] c.keys[k] == v;
                                assert(k >= 0 && c.mem_at(k, v));
                            }
                        }
                    }
                    if v == middle {
                        assert(mk >= 0 && c.mem_at(mk, v));
                        assert(c.mem_from(0, v));
                    }
                }
            }
            assert(c.mem(middle)) by {
                if c.children.len() == 0 {
                    assert(c.keys@.contains(middle)) by {
                        assert(c.keys@[mk] == middle);
                    }
                }
            }
            // Bounds of the pieces relative to the promoted median.
            assert(left.all_below(middle)) by {
                assert forall|v: i32| #[trigger] left.mem(v) implies v < middle by {
                    if exists|k: int|
                        0 <= k <= mk && k < c.children.len() && (#[trigger] c.children[k]).mem(
                            v,
                        ) {
                        let k = choose|k: int|
                            0 <= k <= mk && k < c.children.len() && (#[trigger] c.children[k]).mem(
                                v,
                            );
                        assert(c.children[k].all_below(c.keys[k]));
                        assert(v < c.keys[k]);
                        assert(c.keys[k] <= middle);
                    } else {
                        let k = choose|k: int| 0 <= k < mk && #[trigger] c.keys[k] == v;
                        assert(c.keys[k] < c.keys[mk]);
                    }
                }
            }
            assert(right.all_above(middle)) by {
                assert forall|v: i32| #[trigger] right.mem(v) implies v > middle by {
                    if exists|k: int|
                        mk + 1 <= k <= c.keys@.len() && k < c.children.len() && (
                        #[trigger] c.children[k]).mem(v) {
                        let k = choose|k: int|
                            mk + 1 <= k <= c.keys@.len() && k < c.children.len() && (
                            #[trigger] c.children[k]).mem(v);
                        assert(c.children[k].all_above(c.keys[k - 1]));
                        assert(v > c.keys[k - 1]);
                        assert(c.keys[mk] <= c.keys[k - 1]);
                    } else {
                        let k = choose|k: int|
                            mk + 1 <= k < c.keys@.len() && #[trigger] c.keys[k] == v;
                        assert(c.keys[mk] < c.keys[k]);
                    }
                }
            }
        }
        self.keys.insert(index, middle);
        self.children.insert(index, left);
        self.children.insert(index + 1, right);
        proof {
            let fin = *self;
            let idx = index as int;
            orig.keys@.insert_ensures(idx, middle);
            assert(fin.keys@ == orig.keys@.insert(idx, middle));
            assert(fin.keys@[idx] == middle);
            assert(fin.children@ =~= orig.children@.subrange(0, idx) + seq![left] + seq![right]
                + orig.children@.subrange(idx + 1, orig.children@.len() as int));
            assert(fin.children@.len() == orig.children@.len() + 1);
            assert(fin.children@[idx] == left);
            assert(fin.children@[idx + 1] == right);
            assert forall|j: int| 0 <= j < idx implies fin.children@[j] == orig.children@[j] by {}
            assert forall|j: int| idx + 1 < j < fin.children@.len() implies fin.children@[j]
                == orig.children@[j - 1] by {}
            // Sortedness of the enlarged key list.
            assert(idx > 0 ==> orig.keys@[idx - 1] < middle) by {
                if idx > 0 {
                    assert(c.all_above(orig.keys@[idx - 1]));
                }
            }
            assert(idx < orig.keys@.len() ==> middle < orig.keys@[idx]) by {
                if idx < orig.keys@.len() {
                    assert(c.all_below(orig.keys@[idx]));
                }
            }
            crate::seq_facts::lemma_sorted_insert_mid(orig.keys@, idx, middle);
            assert(sorted_strict(fin.keys@));
            // Well-formedness of the rebuilt parent.
            assert(fin.children@.len() == fin.keys@.len() + 1);
            assert forall|i: int| 0 <= i < fin.children.len() implies {
                &&& (#[trigger] fin.children[i]).wf(mk, maxkeys as int)
                &&& fin.children[i].keys.len() >= mk
                &&& fin.children[i].height() + 1 == fin.height()
            } by {
                assert(fin.height() == 1 + fin.children[0].height());
                assert(fin.children[0].height() == orig.children[0].height()) by {
                    if idx == 0 {
                    } else {
                        assert(fin.children@[0] == orig.children@[0]);
                    }
                }
                if i < idx {
                    assert(fin.children@[i] == orig.children@[i]);
                } else if i > idx + 1 {
                    assert(fin.children@[i] == orig.children@[i - 1]);
                }
            }
            assert(fin.height() == orig.height()) by {
                assert(fin.children[0].height() == orig.children[0].height()) by {
                    if idx > 0 {
                        assert(fin.children@[0] == orig.children@[0]);
                    }
                }
            }
            assert forall|i: int| 0 <= i < fin.keys.len() implies (
            #[trigger] fin.children[i]).all_below(fin.keys[i]) by {
                if i < idx {
                    assert(fin.children@[i] == orig.children@[i]);
                    assert(fin.keys@[i] == orig.keys@[i]);
                    assert(orig.children[i].all_below(orig.keys[i]));
                } else if i == idx {
                    assert(left.all_below(middle));
                } else if i == idx + 1 {
                    assert(fin.keys@[i] == orig.keys@[i - 1]);
                    assert(c.all_below(orig.keys@[idx]));
                    assert forall|v: i32| #[trigger] right.mem(v) implies v < fin.keys[i] by {
                        assert(c.mem(v));
                    }
                } else {
                    assert(fin.children@[i] == orig.children@[i - 1]);
                    assert(fin.keys@[i] == orig.keys@[i - 1]);
                    assert(orig.children[i - 1].all_below(orig.keys[i - 1]));
                }
            }
            assert forall|i: int| 1 <= i < fin.children.len() implies (
            #[trigger] fin.children[i]).all_above(fin.keys[i - 1]) by {
                if i < idx {
                    assert(fin.children@[i] == orig.children@[i]);
                    assert(fin.keys@[i - 1] == orig.keys@[i - 1]);
                    assert(orig.children[i].all_above(orig.keys[i - 1]));
                } else if i == idx {
                    assert(fin.keys@[i - 1] == orig.keys@[i - 1]);
                    assert(c.all_above(orig.keys@[idx - 1]));
                    assert forall|v: i32| #[trigger] left.mem(v) implies v > fin.keys[i - 1] by {
                        assert(c.mem(v));
                    }
                } else if i == idx + 1 {
                    assert(right.all_above(middle));
                } else {
                    assert(fin.children@[i] == orig.children@[i - 1]);
                    assert(fin.keys@[i - 1] == orig.keys@[i - 2]);
                    assert(orig.children[i - 1].all_above(orig.keys[i - 2]));
                }
            }
            assert(fin.wf(mk, maxkeys as int));
            // Membership is preserved.
            fin.lemma_mem_iff(0);
            orig.lemma_mem_iff(0);
            assert forall|v: i32| #[trigger] fin.mem(v) <==> orig.mem(v) by {
                if fin.mem(v) {
                    assert(fin.mem_from(0, v));
                    let k = choose|k: int| k >= 0 && fin.mem_at(k, v);
                    if fin.children[k].mem(v) {
                        if k < idx {
                            assert(orig.mem_at(k, v));
                            assert(k >= 0 && orig.mem_at(k, v));
                        } else if k == idx || k == idx + 1 {
                            assert(c.mem(v));
                            assert(orig.mem_at(idx, v));
                            assert(idx >= 0 && orig.mem_at(idx, v));
                        } else {
                            assert(fin.children@[k] == orig.children@[k - 1]);
                            assert(orig.mem_at(k - 1, v));
                            assert(k - 1 >= 0 && orig.mem_at(k - 1, v));
                        }
                    } else {
                        assert(0 <= k < fin.keys.len() && fin.keys[k] == v);
                        if k < idx {
                            assert(fin.keys@[k] == orig.keys@[k]);
                            assert(orig.mem_at(k, v));
                            assert(k >= 0 && orig.mem_at(k, v));
                        } else if k == idx {
                            assert(v == middle);
                            assert(c.mem(v));
                            assert(orig.mem_at(idx, v));
                            assert(idx >= 0 && orig.mem_at(idx, v));
                        } else {
                            assert(fin.keys@[k] == orig.keys@[k - 1]);
                            assert(orig.mem_at(k - 1, v));
                            assert(k - 1 >= 0 && orig.mem_at(k - 1, v));
                        }
                    }
                    assert(orig.mem_from(0, v));
                }
                if orig.mem(v) {
                    assert(orig.mem_from(0, v));
                    let k = choose|k: int| k >= 0 && orig.mem_at(k, v);
                    if orig.children[k].mem(v) {
                        if k < idx {
                            assert(fin.children@[k] == orig.children@[k]);
                            assert(k >= 0 && fin.mem_at(k, v));
                        } else if k == idx {
                            assert(c.mem(v));
                            assert(left.mem(v) || v == middle || right.mem(v));
                            if left.mem(v) {
                                assert(idx >= 0 && fin.mem_at(idx, v));
                            } else if right.mem(v) {
                                assert(idx + 1 >= 0 && fin.mem_at(idx + 1, v));
                            } else {
                                assert(fin.keys@[idx] == middle);
                                assert(idx >= 0 && fin.mem_at(idx, v));
                            }
                        } else {
                            assert(fin.children@[k + 1] == orig.children@[k]);
                            assert(k + 1 >= 0 && fin.mem_at(k + 1, v));
                        }
                    } else {
                        assert(0 <= k < orig.keys.len() && orig.keys[k] == v);
                        if k < idx {
                            assert(fin.keys@[k] == orig.keys@[k]);
                            assert(k >= 0 && fin.mem_at(k, v));
                        } else {
                            assert(fin.keys@[k + 1] == orig.keys@[k]);
                            assert(k + 1 >= 0 && fin.mem_at(k + 1, v));
                        }
                    }
                    assert(fin.mem_from(0, v));
                }
            }
        }
    }

    /// Inserts `val` into the subtree of a node that is known to have room,
    /// splitting any full child just before descending into it. Returns
    /// whether the value was new.
    #[verifier::rlimit(100)]
    fn insert_nonfull(&mut self, val: i32, minkeys: usize, maxkeys: usize) -> (r: bool)
        requires
            old(self).wf(minkeys as int, maxkeys as int),
            old(self).keys.len() < maxkeys,
            1 <= minkeys,
            maxkeys as int == 2 * (minkeys as int) + 1,
        ensures
            final(self).wf(minkeys as int, maxkeys as int),
            final(self).height() == old(self).height(),
            r == !old(self).mem(val),
            forall|v: i32| #[trigger] final(self).mem(v) <==> old(self).mem(v) || v == val,
            final(self).keys.len() >= old(self).keys.len(),
            old(self).children.len() == 0 ==> final(self).children.len() == 0,
        decreases old(self).height(),
    {
        let ghost orig = *old(self);
        let (found, index0) = self.search(val);
        if found {
            proof {
                if orig.children.len() == 0 {
                    assert(orig.keys@.contains(val)) by {
                        assert(orig.keys@[index0 as int] == val);
                    }
                } else {
                    orig.lemma_mem_iff(0);
                    assert(index0 as int >= 0 && orig.mem_at(index0 as int, val));
                    assert(orig.mem_from(0, val));
                }
            }
            return false;
        }
        if self.is_leaf() {
            self.keys.insert(index0, val);
            proof {
                let idx = index0 as int;
                crate::seq_facts::lemma_sorted_insert_mid(orig.keys@, idx, val);
                orig.keys@.insert_ensures(idx, val);
                assert(final(self).keys@ == orig.keys@.insert(idx, val));
                assert forall|v: i32| #[trigger] final(self).mem(v) <==> orig.mem(v) || v
                    == val by {
                    if final(self).keys@.contains(v) {
                        let j = choose|j: int|
                            0 <= j < final(self).keys@.len() && final(self).keys@[j] == v;
                        if j < idx {
                            assert(orig.keys@[j] == v);
                            assert(orig.keys@.contains(v));
                        } else if j > idx {
                            assert(orig.keys@[j - 1] == v);
                            assert(orig.keys@.contains(v));
                        }
                    }
                    if orig.keys@.contains(v) {
                        let j = choose|j: int| 0 <= j < orig.keys@.len() && orig.keys@[j] == v;
                        if j < idx {
                            assert(final(self).keys@[j] == v);
                        } else {
                            assert(final(self).keys@[j + 1] == v);
                        }
                        assert(final(self).keys@.contains(v));
                    }
                    if v == val {
                        assert(final(self).keys@[idx] == v);
                        assert(final(self).keys@.contains(v));
                    }
                }
            }
            return true;
        }
        let mut index = index0;
        if self.children[index].keys.len() == maxkeys {
            self.split_child(minkeys, maxkeys, index);
            let k = self.keys[index];
            if val == k {
                proof {
                    let s1 = *self;
                    s1.lemma_mem_iff(0);
                    assert(index as int >= 0 && s1.mem_at(index as int, val));
                    assert(s1.mem_from(0, val));
                    assert(s1.mem(val));
                    assert(orig.mem(val));
                }
                return false;
            } else if val > k {
                index += 1;
            }
            proof {
                // Routing bounds for the possibly shifted index in the
                // post-split state.
                let s1 = *self;
                let idx = index as int;
                let idx0 = index0 as int;
                assert(s1.keys@ == orig.keys@.insert(idx0, s1.keys@[idx0]));
                orig.keys@.insert_ensures(idx0, s1.keys@[idx0]);
                assert(s1.keys@[idx0] != val);
                assert forall|j: int| 0 <= j < idx implies s1.keys[j] < val by {
                    if j < idx0 {
                        assert(s1.keys[j] == orig.keys@[j]);
                    }
                }
                assert(idx < s1.keys.len() ==> val < s1.keys[idx]) by {
                    if idx < s1.keys.len() && idx != idx0 {
                        assert(s1.keys[idx] == orig.keys@[idx0]);
                    }
                }
                assert(s1.children@[idx].keys.len() < maxkeys);
            }
        } else {
            proof {
                let s1 = *self;
                let idx = index as int;
                assert(forall|j: int| 0 <= j < idx ==> s1.keys[j] < val);
                assert(idx < s1.keys.len() ==> val < s1.keys[idx]);
                assert(s1.wf(minkeys as int, maxkeys as int));
                assert(s1.children@[idx].wf(minkeys as int, maxkeys as int));
                assert(s1.children@[idx].keys.len() <= maxkeys);
                assert(s1.children@[idx].keys.len() < maxkeys);
            }
        }
        let ghost s1 = *self;
        proof {
            let idx = index as int;
            assert(s1.wf(minkeys as int, maxkeys as int));
            assert(s1.height() == orig.height());
            assert(forall|v: i32| #[trigger] s1.mem(v) <==> orig.mem(v));
            assert(forall|j: int| 0 <= j < idx ==> s1.keys[j] < val);
            assert(idx < s1.keys.len() ==> val < s1.keys[idx]);
            assert(s1.children@[idx].keys.len() < maxkeys);
            assert(s1.children@[idx].wf(minkeys as int, maxkeys as int));
            assert(s1.children@[idx].height() + 1 == s1.height());
            assert(s1.keys.len() >= orig.keys.len());
        }
        let mut child = self.children.remove(index);
        let r = child.insert_nonfull(val, minkeys, maxkeys);
        self.children.insert(index, child);
        proof {
            let fin = *self;
            let idx = index as int;
            let ca = s1.children@[idx];
            let cb = fin.children@[idx];
            assert(fin.children@ =~= s1.children@.update(idx, cb));
            assert(fin.keys@ == s1.keys@);
            assert(forall|j: int| 0 <= j < s1.children@.len() && j != idx
                ==> fin.children@[j] == s1.children@[j]);
            // Bounds of the grown child.
            assert(idx < s1.keys.len() ==> cb.all_below(s1.keys[idx])) by {
                if idx < s1.keys.len() {
                    assert forall|v: i32| #[trigger] cb.mem(v) implies v < s1.keys[idx] by {
                        assert(ca.all_below(s1.keys[idx]));
                        if v != val {
                            assert(ca.mem(v));
                        }
                    }
                }
            }
            assert(idx >= 1 ==> cb.all_above(s1.keys[idx - 1])) by {
                if idx >= 1 {
                    assert forall|v: i32| #[trigger] cb.mem(v) implies v > s1.keys[idx - 1] by {
                        assert(ca.all_above(s1.keys[idx - 1]));
                        if v != val {
                            assert(ca.mem(v));
                        }
                    }
                }
            }
            s1.lemma_parent_update_wf(fin, idx, minkeys as int, maxkeys as int);
            // Membership of the rebuilt parent.
            s1.lemma_mem_sans(idx);
            fin.lemma_mem_sans(idx);
            s1.lemma_mem_sans_congruent(fin, idx);
            s1.lemma_descend(minkeys as int, maxkeys as int, idx, val);
            assert(r == !s1.mem(val));
            assert forall|v: i32| #[trigger] fin.mem(v) <==> s1.mem(v) || v == val by {
                assert(fin.mem(v) <==> fin.mem_sans_child(idx, v) || cb.mem(v));
                assert(s1.mem(v) <==> s1.mem_sans_child(idx, v) || ca.mem(v));
                assert(cb.mem(v) <==> ca.mem(v) || v == val);
            }
        }
        r
    }

    /// A node assembled from two well-formed nodes of equal height and the
    /// key separating them is well formed and holds exactly their members
    /// plus the separator.
    proof fn lemma_join_node(l: Node, r: Node, m: i32, joined: Node, mink: int, maxk: int)
        requires
            l.wf(mink, maxk),
            r.wf(mink, maxk),
            l.height() == r.height(),
            l.all_below(m),
            r.all_above(m),
            l.keys.len() + r.keys.len() + 1 <= maxk,
            joined.keys@ == l.keys@ + seq![m] + r.keys@,
            l.children.len() == 0 ==> r.children.len() == 0 && joined.children.len() == 0,
            l.children.len() > 0 ==> r.children.len() > 0 && joined.children@ == l.children@
                + r.children@,
        ensures
            joined.wf(mink, maxk),
            joined.height() == l.height(),
            forall|v: i32| #[trigger] joined.mem(v) <==> (l.mem(v) || v == m || r.mem(v)),
    {
        let lk = l.keys@.len() as int;
        assert(sorted_strict(joined.keys@)) by {
            assert(seq_below(l.keys@, m)) by {
                assert forall|i: int| 0 <= i < l.keys@.len() implies l.keys@[i] < m by {
                    l.lemma_key_member(i);
                }
            }
            assert(seq_above(r.keys@, m)) by {
                assert forall|i: int| 0 <= i < r.keys@.len() implies r.keys@[i] > m by {
                    r.lemma_key_member(i);
                }
            }
            lemma_sorted_concat(l.keys@, m, r.keys@);
        }
        if l.children.len() == 0 {
            assert(joined.height() == 0 == l.height());
            assert(joined.wf(mink, maxk));
            assert forall|v: i32| #[trigger] joined.mem(v) <==> (l.mem(v) || v == m || r.mem(
                v,
            )) by {
                lemma_concat_contains(l.keys@ + seq![m], r.keys@, v);
                lemma_concat_contains(l.keys@, seq![m], v);
                assert(seq![m].contains(v) <==> v == m) by {
                    if seq![m].contains(v) {
                        let j = choose|j: int| 0 <= j < 1 && seq![m][j] == v;
                    }
                    if v == m {
                        assert(seq![m][0] == v);
                    }
                }
            }
        } else {
            assert(l.children.len() == l.keys.len() + 1);
            assert(r.children.len() == r.keys.len() + 1);
            assert(joined.children@.len() == joined.keys@.len() + 1);
            assert forall|i: int| 0 <= i < joined.children.len() implies #[trigger] joined.children[i]
                == (if i <= lk {
                l.children[i]
            } else {
                r.children[i - lk - 1]
            }) by {}
            assert forall|i: int| 0 <= i < joined.keys.len() implies #[trigger] joined.keys[i] == (
            if i < lk {
                l.keys[i]
            } else if i == lk {
                m
            } else {
                r.keys[i - lk - 1]
            }) by {}
            assert(joined.height() == l.height()) by {
                assert(joined.children[0] == l.children[0]);
                assert(joined.height() == 1 + joined.children[0].height());
            }
            assert forall|i: int| 0 <= i < joined.children.len() implies {
                &&& (#[trigger] joined.children[i]).wf(mink, maxk)
                &&& joined.children[i].keys.len() >= mink
                &&& joined.children[i].height() + 1 == joined.height()
            } by {
                if i <= lk {
                    assert(joined.children[i] == l.children[i]);
                } else {
                    assert(joined.children[i] == r.children[i - lk - 1]);
                    assert(r.children[i - lk - 1].height() + 1 == r.height());
                }
            }
            assert forall|i: int| 0 <= i < joined.keys.len() implies (
            #[trigger] joined.children[i]).all_below(joined.keys[i]) by {
                if i < lk {
                    assert(l.children[i].all_below(l.keys[i]));
                } else if i == lk {
                    l.lemma_child_member(lk);
                    assert forall|v: i32| #[trigger] l.children[lk].mem(v) implies v < m by {
                        assert(l.mem(v));
                    }
                } else {
                    assert(r.children[i - lk - 1].all_below(r.keys[i - lk - 1]));
                }
            }
            assert forall|i: int| 1 <= i < joined.children.len() implies (
            #[trigger] joined.children[i]).all_above(joined.keys[i - 1]) by {
                if i <= lk {
                    assert(l.children[i].all_above(l.keys[i - 1]));
                } else if i == lk + 1 {
                    r.lemma_child_member(0);
                    assert forall|v: i32| #[trigger] r.children[0].mem(v) implies v > m by {
                        assert(r.mem(v));
                    }
                } else {
                    assert(r.children[i - lk - 1].all_above(r.keys[i - lk - 2]));
                }
            }
            assert(joined.wf(mink, maxk));
            joined.lemma_mem_iff(0);
            l.lemma_mem_iff(0);
            r.lemma_mem_iff(0);
            assert forall|v: i32| #[trigger] joined.mem(v) <==> (l.mem(v) || v == m || r.mem(
                v,
            )) by {
                if joined.mem(v) {
                    assert(joined.mem_from(0, v));
                    let k = choose|k: int| k >= 0 && joined.mem_at(k, v);
                    if joined.children[k].mem(v) {
                        if k <= lk {
                            assert(k >= 0 && l.mem_at(k, v));
                            assert(l.mem_from(0, v));
                        } else {
                            assert(k - lk - 1 >= 0 && r.mem_at(k - lk - 1, v));
                            assert(r.mem_from(0, v));
                        }
                    } else {
                        assert(0 <= k < joined.keys.len() && joined.keys[k] == v);
                        if k < lk {
                            assert(k >= 0 && l.mem_at(k, v));
                            assert(l.mem_from(0, v));
                        } else if k == lk {
                            assert(v == m);
                        } else {
                            assert(k - lk - 1 >= 0 && r.mem_at(k - lk - 1, v));
                            assert(r.mem_from(0, v));
                        }
                    }
                }
                if l.mem(v) {
                    assert(l.mem_from(0, v));
                    let k = choose|k: int| k >= 0 && l.mem_at(k, v);
                    assert(k >= 0 && joined.mem_at(k, v));
                    assert(joined.mem_from(0, v));
                }
                if v == m {
                    assert(lk >= 0 && joined.mem_at(lk, v));
                    assert(joined.mem_from(0, v));
                }
                if r.mem(v) {
                    assert(r.mem_from(0, v));
                    let k = choose|k: int| k >= 0 && r.mem_at(k, v);
                    if r.children[k].mem(v) {
                        assert(k + lk + 1 >= 0 && joined.mem_at(k + lk + 1, v));
                    } else {
                        assert(k + lk + 1 >= 0 && joined.mem_at(k + lk + 1, v));
                    }
                    assert(joined.mem_from(0, v));
                }
            }
        }
    }

    /// A node extended at the front by a separator key (and, when internal,
    /// one subtree lying below that separator) stays well formed.
    proof fn lemma_grow_front(c: Node, c2: Node, sep: i32, mink: int, maxk: int)
        requires
            c.wf(mink, maxk),
            c.all_above(sep),
            c.keys.len() + 1 <= maxk,
            c2.keys@ == seq![sep] + c.keys@,
            c.children.len() == 0 ==> c2.children.len() == 0,
            c.children.len() > 0 ==> {
                &&& c2.children@.len() == c.children@.len() + 1
                &&& c2.children@.subrange(1, c2.children@.len() as int) == c.children@
                &&& c2.children@[0].wf(mink, maxk)
                &&& c2.children@[0].keys.len() >= mink
                &&& c2.children@[0].height() + 1 == c.height()
                &&& c2.children@[0].all_below(sep)
            },
        ensures
            c2.wf(mink, maxk),
            c2.height() == c.height(),
            forall|v: i32|
                #[trigger] c2.mem(v) <==> ((c.children.len() > 0 && c2.children@[0].mem(v)) || v
                    == sep || c.mem(v)),
    {
        assert(sorted_strict(c2.keys@)) by {
            assert forall|p: int, q: int| 0 <= p < q < c2.keys@.len() implies c2.keys@[p]
                < c2.keys@[q] by {
                if p == 0 {
                    assert(c2.keys@[q] == c.keys@[q - 1]);
                    c.lemma_key_member(q - 1);
                    assert(c.keys@[q - 1] > sep);
                } else {
                    assert(c2.keys@[p] == c.keys@[p - 1] && c2.keys@[q] == c.keys@[q - 1]);
                }
            }
        }
        if c.children.len() == 0 {
            assert(c2.wf(mink, maxk));
            assert(c2.height() == 0 == c.height());
            assert forall|v: i32| #[trigger] c2.mem(v) <==> ((c.children.len() > 0
                && c2.children@[0].mem(v)) || v == sep || c.mem(v)) by {
                lemma_concat_contains(seq![sep], c.keys@, v);
                assert(seq![sep].contains(v) <==> v == sep) by {
                    if seq![sep].contains(v) {
                        let j = choose|j: int| 0 <= j < 1 && seq![sep][j] == v;
                    }
                    if v == sep {
                        assert(seq![sep][0] == v);
                    }
                }
            }
        } else {
            let moved = c2.children@[0];
            assert forall|i: int| 1 <= i < c2.children.len() implies #[trigger] c2.children[i]
                == c.children[i - 1] by {
                assert(c2.children@.subrange(1, c2.children@.len() as int)[i - 1]
                    == c2.children@[i]);
            }
            assert(c2.children@.len() == c2.keys@.len() + 1);
            assert(c2.height() == c.height()) by {
                assert(c2.height() == 1 + moved.height());
            }
            assert forall|i: int| 0 <= i < c2.children.len() implies {
                &&& (#[trigger] c2.children[i]).wf(mink, maxk)
                &&& c2.children[i].keys.len() >= mink
                &&& c2.children[i].height() + 1 == c2.height()
            } by {
                if i >= 1 {
                    assert(c2.children[i] == c.children[i - 1]);
                    assert(c.children[i - 1].wf(mink, maxk));
                    assert(c.children[i - 1].height() + 1 == c.height());
                }
            }
            assert forall|i: int| 0 <= i < c2.keys.len() implies (
            #[trigger] c2.children[i]).all_below(c2.keys[i]) by {
                if i == 0 {
                    assert(c2.keys@[0] == sep);
                } else {
                    assert(c2.children[i] == c.children[i - 1]);
                    assert(c2.keys@[i] == c.keys@[i - 1]);
                    assert(c.children[i - 1].all_below(c.keys[i - 1]));
                }
            }
            assert forall|i: int| 1 <= i < c2.children.len() implies (
            #[trigger] c2.children[i]).all_above(c2.keys[i - 1]) by {
                assert(c2.children[i] == c.children[i - 1]);
                if i == 1 {
                    assert(c2.keys@[0] == sep);
                    c.lemma_child_member(0);
                    assert forall|v: i32| #[trigger] c.children[0].mem(v) implies v > sep by {
                        assert(c.mem(v));
                    }
                } else {
                    assert(c2.keys@[i - 1] == c.keys@[i - 2]);
                    assert(c.children[i - 1].all_above(c.keys[i - 2]));
                }
            }
            assert(c2.wf(mink, maxk));
            c2.lemma_mem_iff(0);
            c.lemma_mem_iff(0);
            assert forall|v: i32| #[trigger] c2.mem(v) <==> ((c.children.len() > 0
                && c2.children@[0].mem(v)) || v == sep || c.mem(v)) by {
                if c2.mem(v) {
                    assert(c2.mem_from(0, v));
                    let k = choose|k: int| k >= 0 && c2.mem_at(k, v);
                    if c2.children[k].mem(v) {
                        if k >= 1 {
                            assert(k - 1 >= 0 && c.mem_at(k - 1, v));
                            assert(c.mem_from(0, v));
                        }
                    } else {
                        assert(0 <= k < c2.keys.len() && c2.keys[k] == v);
                        if k >= 1 {
                            assert(k - 1 >= 0 && c.mem_at(k - 1, v));
                            assert(c.mem_from(0, v));
                        }
                    }
                }
                if moved.mem(v) {
                    assert(0 >= 0 && c2.mem_at(0, v));
                    assert(c2.mem_from(0, v));
                }
                if v == sep {
                    assert(c2.keys@[0] == v);
                    assert(0 >= 0 && c2.mem_at(0, v));
                    assert(c2.mem_from(0, v));
                }
                if c.mem(v) {
                    assert(c.mem_from(0, v));
                    let k = choose|k: int| k >= 0 && c.mem_at(k, v);
                    assert(k + 1 >= 0 && c2.mem_at(k + 1, v));
                    assert(c2.mem_from(0, v));
                }
            }
        }
    }

    /// A node extended at the back by a separator key (and, when internal,
    /// one subtree lying above that separator) stays well formed.
    proof fn lemma_grow_back(c: Node, c2: Node, sep: i32, mink: int, maxk: int)
        requires
            c.wf(mink, maxk),
            c.all_below(sep),
            c.keys.len() + 1 <= maxk,
            c2.keys@ == c.keys@ + seq![sep],
            c.children.len() == 0 ==> c2.children.len() == 0,
            c.children.len() > 0 ==> {
                &&& c2.children@.len() == c.children@.len() + 1
                &&& c2.children@.subrange(0, c.children@.len() as int) == c.children@
                &&& c2.children@.last().wf(mink, maxk)
                &&& c2.children@.last().keys.len() >= mink
                &&& c2.children@.last().height() + 1 == c.height()
                &&& c2.children@.last().all_above(sep)
            },
        ensures
            c2.wf(mink, maxk),
            c2.height() == c.height(),
            forall|v: i32|
                #[trigger] c2.mem(v) <==> ((c.children.len() > 0 && c2.children@.last().mem(v))
                    || v == sep || c.mem(v)),
    {
        let ck = c.keys@.len() as int;
        assert(sorted_strict(c2.keys@)) by {
            assert forall|p: int, q: int| 0 <= p < q < c2.keys@.len() implies c2.keys@[p]
                < c2.keys@[q] by {
                if q == ck {
                    assert(c2.keys@[p] == c.keys@[p]);
                    c.lemma_key_member(p);
                    assert(c.keys@[p] < sep);
                } else {
                    assert(c2.keys@[p] == c.keys@[p] && c2.keys@[q] == c.keys@[q]);
                }
            }
        }
        if c.children.len() == 0 {
            assert(c2.wf(mink, maxk));
            assert(c2.height() == 0 == c.height());
            assert forall|v: i32| #[trigger] c2.mem(v) <==> ((c.children.len() > 0
                && c2.children@.last().mem(v)) || v == sep || c.mem(v)) by {
                lemma_concat_contains(c.keys@, seq![sep], v);
                assert(seq![sep].contains(v) <==> v == sep) by {
                    if seq![sep].contains(v) {
                        let j = choose|j: int| 0 <= j < 1 && seq![sep][j] == v;
                    }
                    if v == sep {
                        assert(seq![sep][0] == v);
                    }
                }
            }
        } else {
            let cc = c.children@.len() as int;
            let moved = c2.children@.last();
            assert forall|i: int| 0 <= i < cc implies #[trigger] c2.children[i]
                == c.children[i] by {
                assert(c2.children@.subrange(0, cc)[i] == c2.children@[i]);
            }
            assert(c2.children@.len() == c2.keys@.len() + 1);
            assert(c2.height() == c.height()) by {
                assert(c2.children[0] == c.children[0]);
                assert(c2.height() == 1 + c2.children[0].height());
            }
            assert forall|i: int| 0 <= i < c2.children.len() implies {
                &&& (#[trigger] c2.children[i]).wf(mink, maxk)
                &&& c2.children[i].keys.len() >= mink
                &&& c2.children[i].height() + 1 == c2.height()
            } by {
                if i < cc {
                    assert(c2.children[i] == c.children[i]);
                    assert(c.children[i].wf(mink, maxk));
                    assert(c.children[i].height() + 1 == c.height());
                } else {
                    assert(c2.children[i] == moved);
                }
            }
            assert forall|i: int| 0 <= i < c2.keys.len() implies (
            #[trigger] c2.children[i]).all_below(c2.keys[i]) by {
                if i == ck {
                    assert(c2.keys@[i] == sep);
                    assert(c2.children[i] == c.children[i]);
                    c.lemma_child_member(i);
                    assert forall|v: i32| #[trigger] c.children[i].mem(v) implies v < sep by {
                        assert(c.mem(v));
                    }
                } else {
                    assert(c2.children[i] == c.children[i]);
                    assert(c2.keys@[i] == c.keys@[i]);
                    assert(c.children[i].all_below(c.keys[i]));
                }
            }
            assert forall|i: int| 1 <= i < c2.children.len() implies (
            #[trigger] c2.children[i]).all_above(c2.keys[i - 1]) by {
                if i == cc {
                    assert(c2.keys@[i - 1] == sep);
                } else {
                    assert(c2.children[i] == c.children[i]);
                    assert(c2.keys@[i - 1] == c.keys@[i - 1]);
                    assert(c.children[i].all_above(c.keys[i - 1]));
                }
            }
            assert(c2.wf(mink, maxk));
            c2.lemma_mem_iff(0);
            c.lemma_mem_iff(0);
            assert forall|v: i32| #[trigger] c2.mem(v) <==> ((c.children.len() > 0
                && c2.children@.last().mem(v)) || v == sep || c.mem(v)) by {
                if c2.mem(v) {
                    assert(c2.mem_from(0, v));
                    let k = choose|k: int| k >= 0 && c2.mem_at(k, v);
                    if c2.children[k].mem(v) {
                        if k < cc {
                            assert(k >= 0 && c.mem_at(k, v));
                            assert(c.mem_from(0, v));
                        } else {
                            assert(c2.children[k] == moved);
                        }
                    } else {
                        assert(0 <= k < c2.keys.len() && c2.keys[k] == v);
                        if k < ck {
                            assert(k >= 0 && c.mem_at(k, v));
                            assert(c.mem_from(0, v));
                        } else {
                            assert(v == sep);
                        }
                    }
                }
                if moved.mem(v) {
                    assert(cc >= 0 && c2.mem_at(cc, v));
                    assert(c2.mem_from(0, v));
                }
                if v == sep {
                    assert(c2.keys@[ck] == v);
                    assert(ck >= 0 && c2.mem_at(ck, v));
                    assert(c2.mem_from(0, v));
                }
                if c.mem(v) {
                    assert(c.mem_from(0, v));
                    let k = choose|k: int| k >= 0 && c.mem_at(k, v);
                    assert(k >= 0 && c2.mem_at(k, v));
                    assert(c2.mem_from(0, v));
                }
            }
        }
    }

    /// Merges the child at `index + 1` and the separating key into the child
    /// at `index`, assuming both children hold exactly the minimum number of
    /// keys.
    #[verifier::rlimit(100)]
    fn merge_children(&mut self, minkeys: usize, maxkeys: usize, index: usize)
        requires
            old(self).wf(minkeys as int, maxkeys as int),
            1 <= minkeys,
            maxkeys as int == 2 * (minkeys as int) + 1,
            old(self).children.len() > 0,
            index < old(self).keys.len(),
            old(self).children@[index as int].keys.len() == minkeys,
            old(self).children@[index as int + 1].keys.len() == minkeys,
        ensures
            final(self).wf(minkeys as int, maxkeys as int),
            final(self).height() == old(self).height(),
            forall|v: i32| #[trigger] final(self).mem(v) <==> old(self).mem(v),
            final(self).keys@ == old(self).keys@.remove(index as int),
            final(self).children.len() == old(self).children.len() - 1,
            final(self).children@[index as int].keys.len() == maxkeys,
            forall|v: i32|
                #[trigger] final(self).children@[index as int].mem(v) <==> (old(self).children@[
                    index as int
                ].mem(v) || v == old(self).keys@[index as int] || old(self).children@[
                    index as int + 1
                ].mem(v)),
    {
        let ghost orig = *old(self);
        let ghost idx = index as int;
        let ghost lnode = orig.children@[idx];
        let ghost rnode = orig.children@[idx + 1];
        proof {
            assert(orig.wf(minkeys as int, maxkeys as int));
            assert(lnode.wf(minkeys as int, maxkeys as int));
            assert(rnode.wf(minkeys as int, maxkeys as int));
            assert(lnode.height() + 1 == orig.height());
            assert(rnode.height() + 1 == orig.height());
        }
        let middlekey = self.keys.remove(index);
        let mut right = self.children.remove(index + 1);
        let mut left = self.children.remove(index);
        proof {
            assert(left == lnode);
            assert(right == rnode);
            // Equal heights force the two siblings to be of the same kind.
            if lnode.children.len() == 0 {
                assert(lnode.height() == 0);
                assert(rnode.height() == 0);
                assert(rnode.children.len() == 0) by {
                    if rnode.children.len() > 0 {
                        assert(rnode.height() == 1 + rnode.children[0].height());
                    }
                }
            } else {
                assert(lnode.height() > 0);
                assert(rnode.children.len() > 0) by {
                    if rnode.children.len() == 0 {
                        assert(rnode.height() == 0);
                    }
                }
            }
        }
        if left.children.len() > 0 {
            left.children.append(&mut right.children);
        }
        left.keys.push(middlekey);
        left.keys.append(&mut right.keys);
        proof {
            assert(left.keys@ =~= lnode.keys@ + seq![middlekey] + rnode.keys@);
            assert(lnode.children.len() > 0 ==> left.children@ =~= lnode.children@
                + rnode.children@);
            assert(lnode.all_below(middlekey));
            assert(rnode.all_above(middlekey));
            Node::lemma_join_node(
                lnode,
                rnode,
                middlekey,
                left,
                minkeys as int,
                maxkeys as int,
            );
        }
        self.children.insert(index, left);
        proof {
            let fin = *self;
            let joined = left;
            assert(fin.keys@ == orig.keys@.remove(idx));
            assert(fin.children@ =~= orig.children@.subrange(0, idx) + seq![joined]
                + orig.children@.subrange(idx + 2, orig.children@.len() as int));
            assert(fin.children@.len() == orig.children@.len() - 1);
            assert(fin.children@[idx] == joined);
            assert(forall|j: int| 0 <= j < idx ==> fin.children@[j] == orig.children@[j]);
            assert(forall|j: int|
                idx < j < fin.children@.len() ==> fin.children@[j] == orig.children@[j + 1]);
            assert(forall|t: int| 0 <= t < idx ==> fin.keys@[t] == orig.keys@[t]);
            assert(forall|t: int|
                idx <= t < fin.keys@.len() ==> fin.keys@[t] == orig.keys@[t + 1]);
            assert(sorted_strict(fin.keys@)) by {
                assert forall|p: int, q: int| 0 <= p < q < fin.keys@.len() implies fin.keys@[p]
                    < fin.keys@[q] by {
                    let po = if p < idx { p } else { p + 1 };
                    let qo = if q < idx { q } else { q + 1 };
                    assert(fin.keys@[p] == orig.keys@[po]);
                    assert(fin.keys@[q] == orig.keys@[qo]);
                }
            }
            assert(fin.children@.len() == fin.keys@.len() + 1);
            assert forall|i: int| 0 <= i < fin.children.len() implies {
                &&& (#[trigger] fin.children[i]).wf(minkeys as int, maxkeys as int)
                &&& fin.children[i].keys.len() >= minkeys
                &&& fin.children[i].height() + 1 == fin.height()
            } by {
                assert(fin.height() == 1 + fin.children[0].height());
                assert(fin.children[0].height() == orig.children[0].height()) by {
                    if idx > 0 {
                        assert(fin.children@[0] == orig.children@[0]);
                    }
                }
                if i < idx {
                    assert(fin.children@[i] == orig.children@[i]);
                } else if i > idx {
                    assert(fin.children@[i] == orig.children@[i + 1]);
                }
            }
            assert(fin.height() == orig.height()) by {
                assert(fin.children[0].height() == orig.children[0].height()) by {
                    if idx > 0 {
                        assert(fin.children@[0] == orig.children@[0]);
                    }
                }
            }
            assert forall|i: int| 0 <= i < fin.keys.len() implies (
            #[trigger] fin.children[i]).all_below(fin.keys[i]) by {
                if i < idx {
                    assert(fin.children@[i] == orig.children@[i]);
                    assert(fin.keys@[i] == orig.keys@[i]);
                    assert(orig.children[i].all_below(orig.keys[i]));
                } else if i == idx {
                    assert(fin.keys@[i] == orig.keys@[idx + 1]);
                    assert forall|v: i32| #[trigger] joined.mem(v) implies v < fin.keys[i] by {
                        assert(lnode.mem(v) || v == middlekey || rnode.mem(v));
                        assert(lnode.all_below(orig.keys@[idx]));
                        assert(rnode.all_below(orig.keys@[idx + 1]));
                        assert(orig.keys@[idx] < orig.keys@[idx + 1]);
                    }
                } else {
                    assert(fin.children@[i] == orig.children@[i + 1]);
                    assert(fin.keys@[i] == orig.keys@[i + 1]);
                    assert(orig.children[i + 1].all_below(orig.keys[i + 1]));
                }
            }
            assert forall|i: int| 1 <= i < fin.children.len() implies (
            #[trigger] fin.children[i]).all_above(fin.keys[i - 1]) by {
                if i < idx {
                    assert(fin.children@[i] == orig.children@[i]);
                    assert(fin.keys@[i - 1] == orig.keys@[i - 1]);
                    assert(orig.children[i].all_above(orig.keys[i - 1]));
                } else if i == idx {
                    assert(fin.keys@[i - 1] == orig.keys@[i - 1]);
                    assert forall|v: i32| #[trigger] joined.mem(v) implies v > fin.keys[i - 1] by {
                        assert(lnode.mem(v) || v == middlekey || rnode.mem(v));
                        assert(lnode.all_above(orig.keys@[idx - 1]));
                        assert(rnode.all_above(orig.keys@[idx]));
                        assert(orig.keys@[idx - 1] < orig.keys@[idx]);
                    }
                } else {
                    assert(fin.children@[i] == orig.children@[i + 1]);
                    assert(fin.keys@[i - 1] == orig.keys@[i]);
                    assert(orig.children[i + 1].all_above(orig.keys[i]));
                }
            }
            assert(fin.wf(minkeys as int, maxkeys as int));
            fin.lemma_mem_iff(0);
            orig.lemma_mem_iff(0);
            assert forall|v: i32| #[trigger] fin.mem(v) <==> orig.mem(v) by {
                if fin.mem(v) {
                    assert(fin.mem_from(0, v));
                    let k = choose|k: int| k >= 0 && fin.mem_at(k, v);
                    if fin.children[k].mem(v) {
                        if k < idx {
                            assert(k >= 0 && orig.mem_at(k, v));
                        } else if k == idx {
                            assert(lnode.mem(v) || v == middlekey || rnode.mem(v));
                            if lnode.mem(v) {
                                assert(idx >= 0 && orig.mem_at(idx, v));
                            } else if rnode.mem(v) {
                                assert(idx + 1 >= 0 && orig.mem_at(idx + 1, v));
                            } else {
                                assert(orig.keys@[idx] == v);
                                assert(idx >= 0 && orig.mem_at(idx, v));
                            }
                        } else {
                            assert(fin.children@[k] == orig.children@[k + 1]);
                            assert(k + 1 >= 0 && orig.mem_at(k + 1, v));
                        }
                    } else {
                        assert(0 <= k < fin.keys.len() && fin.keys[k] == v);
                        if k < idx {
                            assert(k >= 0 && orig.mem_at(k, v));
                        } else {
                            assert(fin.keys@[k] == orig.keys@[k + 1]);
                            assert(k + 1 >= 0 && orig.mem_at(k + 1, v));
                        }
                    }
                    assert(orig.mem_from(0, v));
                }
                if orig.mem(v) {
                    assert(orig.mem_from(0, v));
                    let k = choose|k: int| k >= 0 && orig.mem_at(k, v);
                    if orig.children[k].mem(v) {
                        if k < idx {
                            assert(k >= 0 && fin.mem_at(k, v));
                        } else if k == idx || k == idx + 1 {
                            assert(joined.mem(v));
                            assert(idx >= 0 && fin.mem_at(idx, v));
                        } else {
                            assert(fin.children@[k - 1] == orig.children@[k]);
                            assert(k - 1 >= 0 && fin.mem_at(k - 1, v));
                        }
                    } else {
                        assert(0 <= k < orig.keys.len() && orig.keys[k] == v);
                        if k < idx {
                            assert(k >= 0 && fin.mem_at(k, v));
                        } else if k == idx {
                            assert(v == middlekey);
                            assert(joined.mem(v));
                            assert(idx >= 0 && fin.mem_at(idx, v));
                        } else {
                            assert(fin.keys@[k - 1] == orig.keys@[k]);
                            assert(k - 1 >= 0 && fin.mem_at(k - 1, v));
                        }
                    }
                    assert(fin.mem_from(0, v));
                }
            }
        }
    }

    /// Moves the rightmost key of the left sibling up to this node and the
    /// old separator down into the child at `index`, together with the
    /// sibling's rightmost subtree when the children are internal.
    #[verifier::rlimit(100)]
    fn borrow_from_left(&mut self, minkeys: usize, maxkeys: usize, index: usize)
        requires
            old(self).wf(minkeys as int, maxkeys as int),
            1 <= minkeys,
            maxkeys as int == 2 * (minkeys as int) + 1,
            old(self).children.len() > 0,
            1 <= index < old(self).children.len(),
            old(self).children@[index as int].keys.len() < maxkeys,
            old(self).children@[index as int - 1].keys.len() > minkeys,
        ensures
            final(self).wf(minkeys as int, maxkeys as int),
            final(self).height() == old(self).height(),
            forall|v: i32| #[trigger] final(self).mem(v) <==> old(self).mem(v),
            final(self).children.len() == old(self).children.len(),
            final(self).keys.len() == old(self).keys.len(),
            final(self).keys@ == old(self).keys@.update(
                index as int - 1,
                final(self).keys@[index as int - 1],
            ),
            final(self).keys@[index as int - 1] < old(self).keys@[index as int - 1],
            forall|v: i32|
                old(self).children@[index as int].mem(v) ==> final(self).children@[
                    index as int
                ].mem(v),
            final(self).children@[index as int].keys.len() == old(self).children@[
                index as int
            ].keys.len() + 1,
    {
        let ghost orig = *old(self);
        let ghost idx = index as int;
        let ghost ls0 = orig.children@[idx - 1];
        let ghost ch0 = orig.children@[idx];
        let ghost lsk = ls0.keys@.len() as int;
        let ghost mk = minkeys as int;
        let ghost xk = maxkeys as int;
        proof {
            assert(orig.wf(mk, xk));
            assert(ls0.wf(mk, xk));
            assert(ch0.wf(mk, xk));
            assert(ls0.height() + 1 == orig.height());
            assert(ch0.height() + 1 == orig.height());
            // Equal heights force the siblings to be of the same kind.
            if ls0.children.len() == 0 {
                assert(ls0.height() == 0);
                if ch0.children.len() > 0 {
                    assert(ch0.height() == 1 + ch0.children[0].height());
                }
                assert(ch0.children.len() == 0);
            } else {
                if ch0.children.len() == 0 {
                    assert(ch0.height() == 0);
                    assert(ls0.height() == 1 + ls0.children[0].height());
                }
                assert(ch0.children.len() > 0);
            }
        }
        let mut child = self.children.remove(index);
        let mut ls = self.children.remove(index - 1);
        if ls.children.len() > 0 {
            let moved_opt = ls.children.pop();
            let moved = moved_opt.unwrap();
            child.children.insert(0, moved);
        }
        let skey_opt = ls.keys.pop();
        let skey = skey_opt.unwrap();
        let sep = self.keys[index - 1];
        self.keys[index - 1] = skey;
        child.keys.insert(0, sep);
        proof {
            assert(skey == ls0.keys@[lsk - 1]);
            assert(sep == orig.keys@[idx - 1]);
            assert(ls.keys@ =~= ls0.keys@.subrange(0, lsk - 1));
            assert(ls0.children.len() > 0 ==> ls.children@ =~= ls0.children@.subrange(0, lsk));
            Node::lemma_sub_node(ls0, ls, 0, lsk - 1, mk, xk);
            // The shrunk sibling sits below its own promoted key.
            assert(ls.all_below(skey)) by {
                assert forall|v: i32| #[trigger] ls.mem(v) implies v < skey by {
                    if exists|k: int|
                        0 <= k <= lsk - 1 && k < ls0.children.len() && (
                        #[trigger] ls0.children[k]).mem(v) {
                        let k = choose|k: int|
                            0 <= k <= lsk - 1 && k < ls0.children.len() && (
                            #[trigger] ls0.children[k]).mem(v);
                        assert(ls0.children[k].all_below(ls0.keys[k]));
                        assert(ls0.keys[k] <= skey);
                    } else {
                        let k = choose|k: int| 0 <= k < lsk - 1 && #[trigger] ls0.keys[k] == v;
                    }
                }
            }
            // The grown child is well formed.
            assert(ls0.all_below(sep));
            assert(ch0.all_above(sep));
            ls0.lemma_key_member(lsk - 1);
            assert(ls0.mem(skey));
            assert(skey < sep);
            assert(child.keys@ == seq![sep] + ch0.keys@);
            if ls0.children.len() > 0 {
                let moved = ls0.children@[lsk];
                assert(child.children@ =~= seq![moved] + ch0.children@);
                assert(child.children@[0] == moved);
                assert(child.children@.subrange(1, child.children@.len() as int) =~= ch0.children@);
                assert(moved.wf(mk, xk));
                assert(moved.height() + 1 == ls0.height());
                assert(moved.all_below(sep)) by {
                    ls0.lemma_child_member(lsk);
                    assert forall|v: i32| #[trigger] moved.mem(v) implies v < sep by {
                        assert(ls0.mem(v));
                    }
                }
            }
            Node::lemma_grow_front(ch0, child, sep, mk, xk);
            // The moved subtree lies above the promoted key.
            assert(ls0.children.len() > 0 ==> child.children@[0].all_above(skey)) by {
                if ls0.children.len() > 0 {
                    assert(ls0.children[lsk].all_above(ls0.keys[lsk - 1]));
                }
            }
            assert(child.all_above(skey)) by {
                assert forall|v: i32| #[trigger] child.mem(v) implies v > skey by {
                    if ch0.children.len() > 0 && child.children@[0].mem(v) {
                        assert(child.children@[0].all_above(skey));
                    } else if v == sep {
                    } else {
                        assert(ch0.mem(v));
                        assert(v > sep);
                    }
                }
            }
            // The sibling's members split into the shrunk part, the promoted
            // key, and the moved subtree.
            assert forall|v: i32| #[trigger] ls0.mem(v) <==> (ls.mem(v) || v == skey || (
            ls0.children.len() > 0 && child.children@[0].mem(v))) by {
                if ls0.children.len() == 0 {
                    if ls0.mem(v) {
                        let k = choose|k: int| 0 <= k < ls0.keys@.len() && ls0.keys@[k] == v;
                        if k < lsk - 1 {
                            assert(0 <= k < lsk - 1 && ls0.keys[k] == v);
                        }
                    }
                    if ls.mem(v) {
                        let k = choose|k: int| 0 <= k < lsk - 1 && #[trigger] ls0.keys[k] == v;
                        assert(ls0.keys@[k] == v);
                        assert(ls0.keys@.contains(v));
                    }
                    if v == skey {
                        assert(ls0.keys@[lsk - 1] == v);
                        assert(ls0.keys@.contains(v));
                    }
                } else {
                    ls0.lemma_mem_iff(0);
                    if ls0.mem(v) {
                        assert(ls0.mem_from(0, v));
                        let k = choose|k: int| k >= 0 && ls0.mem_at(k, v);
                        if ls0.children[k].mem(v) {
                            if k <= lsk - 1 {
                                assert(0 <= k <= lsk - 1 && k < ls0.children.len()
                                    && ls0.children[k].mem(v));
                                assert(ls.mem(v));
                            } else {
                                assert(child.children@[0].mem(v));
                            }
                        } else {
                            assert(0 <= k < ls0.keys.len() && ls0.keys[k] == v);
                            if k < lsk - 1 {
                                assert(ls.mem(v));
                            }
                        }
                    }
                    if ls.mem(v) {
                        assert(ls0.mem_from(0, v)) by {
                            if exists|k: int|
                                0 <= k <= lsk - 1 && k < ls0.children.len() && (
                                #[trigger] ls0.children[k]).mem(v) {
                                let k = choose|k: int|
                                    0 <= k <= lsk - 1 && k < ls0.children.len() && (
                                    #[trigger] ls0.children[k]).mem(v);
                                assert(k >= 0 && ls0.mem_at(k, v));
                            } else {
                                let k = choose|k: int|
                                    0 <= k < lsk - 1 && #[trigger] ls0.keys[k] == v;
                                assert(k >= 0 && ls0.mem_at(k, v));
                            }
                        }
                    }
                    if v == skey {
                        assert(lsk - 1 >= 0 && ls0.mem_at(lsk - 1, v));
                        assert(ls0.mem_from(0, v));
                    }
                    if child.children@[0].mem(v) {
                        assert(lsk >= 0 && ls0.mem_at(lsk, v));
                        assert(ls0.mem_from(0, v));
                    }
                }
            }
        }
        self.children.insert(index - 1, ls);
        self.children.insert(index, child);
        proof {
            let fin = *self;
            assert(fin.keys@ == orig.keys@.update(idx - 1, skey));
            assert(fin.children@ =~= orig.children@.update(idx - 1, ls).update(idx, child));
            assert(fin.children@.len() == orig.children@.len());
            assert(fin.children@[idx - 1] == ls);
            assert(fin.children@[idx] == child);
            assert(forall|j: int|
                0 <= j < fin.children@.len() && j != idx - 1 && j != idx ==> fin.children@[j]
                    == orig.children@[j]);
            assert(sorted_strict(fin.keys@)) by {
                assert forall|p: int, q: int| 0 <= p < q < fin.keys@.len() implies fin.keys@[p]
                    < fin.keys@[q] by {
                    if p == idx - 1 {
                        assert(skey < orig.keys@[idx - 1]);
                        assert(orig.keys@[idx - 1] <= orig.keys@[q]);
                    } else if q == idx - 1 {
                        assert(fin.keys@[p] == orig.keys@[p]);
                        assert(ls0.all_above(orig.keys@[idx - 2]));
                        assert(ls0.mem(skey));
                        assert(skey > orig.keys@[idx - 2]);
                        assert(orig.keys@[p] <= orig.keys@[idx - 2]);
                    } else {
                        assert(fin.keys@[p] == orig.keys@[p] && fin.keys@[q] == orig.keys@[q]);
                    }
                }
            }
            assert forall|i: int| 0 <= i < fin.children.len() implies {
                &&& (#[trigger] fin.children[i]).wf(mk, xk)
                &&& fin.children[i].keys.len() >= mk
                &&& fin.children[i].height() + 1 == fin.height()
            } by {
                assert(fin.height() == 1 + fin.children[0].height());
                assert(fin.children[0].height() == orig.children[0].height()) by {
                    if idx - 1 == 0 {
                        assert(fin.children@[0] == ls);
                    } else {
                        assert(fin.children@[0] == orig.children@[0]);
                    }
                }
                if i != idx - 1 && i != idx {
                    assert(fin.children@[i] == orig.children@[i]);
                }
            }
            assert(fin.height() == orig.height()) by {
                assert(fin.children[0].height() == orig.children[0].height()) by {
                    if idx - 1 > 0 {
                        assert(fin.children@[0] == orig.children@[0]);
                    }
                }
            }
            assert forall|i: int| 0 <= i < fin.keys.len() implies (
            #[trigger] fin.children[i]).all_below(fin.keys[i]) by {
                if i == idx - 1 {
                    assert(fin.keys@[i] == skey);
                    assert(ls.all_below(skey));
                } else if i == idx {
                    assert(fin.keys@[i] == orig.keys@[i]);
                    assert forall|v: i32| #[trigger] child.mem(v) implies v < fin.keys[i] by {
                        assert(ch0.all_below(orig.keys@[idx]));
                        if ch0.children.len() > 0 && child.children@[0].mem(v) {
                            assert(ls0.mem(v));
                            assert(ls0.all_below(orig.keys@[idx - 1]));
                            assert(orig.keys@[idx - 1] < orig.keys@[idx]);
                        } else if v == sep {
                            assert(orig.keys@[idx - 1] < orig.keys@[idx]);
                        } else {
                            assert(ch0.mem(v));
                        }
                    }
                } else {
                    assert(fin.children@[i] == orig.children@[i]);
                    assert(fin.keys@[i] == orig.keys@[i]);
                    assert(orig.children[i].all_below(orig.keys[i]));
                }
            }
            assert forall|i: int| 1 <= i < fin.children.len() implies (
            #[trigger] fin.children[i]).all_above(fin.keys[i - 1]) by {
                if i == idx - 1 {
                    assert(fin.keys@[i - 1] == orig.keys@[i - 1]);
                    assert(ls0.all_above(orig.keys@[idx - 2]));
                    assert forall|v: i32| #[trigger] ls.mem(v) implies v > fin.keys[i - 1] by {
                        assert(ls0.mem(v));
                    }
                } else if i == idx {
                    assert(fin.keys@[i - 1] == skey);
                    assert(child.all_above(skey));
                } else {
                    assert(fin.children@[i] == orig.children@[i]);
                    assert(fin.keys@[i - 1] == orig.keys@[i - 1]);
                    assert(orig.children[i].all_above(orig.keys[i - 1]));
                }
            }
            assert(fin.wf(mk, xk));
            fin.lemma_mem_iff(0);
            orig.lemma_mem_iff(0);
            assert forall|v: i32| #[trigger] fin.mem(v) <==> orig.mem(v) by {
                if fin.mem(v) {
                    assert(fin.mem_from(0, v));
                    let k = choose|k: int| k >= 0 && fin.mem_at(k, v);
                    if fin.children[k].mem(v) {
                        if k == idx - 1 {
                            assert(ls0.mem(v));
                            assert(idx - 1 >= 0 && orig.mem_at(idx - 1, v));
                        } else if k == idx {
                            // child's members come from the sibling, the old
                            // separator, or the old child.
                            if ch0.children.len() > 0 && child.children@[0].mem(v) {
                                assert(ls0.mem(v));
                                assert(idx - 1 >= 0 && orig.mem_at(idx - 1, v));
                            } else if v == sep {
                                assert(idx - 1 >= 0 && orig.mem_at(idx - 1, v));
                            } else {
                                assert(ch0.mem(v));
                                assert(idx >= 0 && orig.mem_at(idx, v));
                            }
                        } else {
                            assert(k >= 0 && orig.mem_at(k, v));
                        }
                    } else {
                        assert(0 <= k < fin.keys.len() && fin.keys[k] == v);
                        if k == idx - 1 {
                            assert(v == skey);
                            assert(ls0.mem(v));
                            assert(idx - 1 >= 0 && orig.mem_at(idx - 1, v));
                        } else {
                            assert(orig.keys@[k] == v);
                            assert(k >= 0 && orig.mem_at(k, v));
                        }
                    }
                    assert(orig.mem_from(0, v));
                }
                if orig.mem(v) {
                    assert(orig.mem_from(0, v));
                    let k = choose|k: int| k >= 0 && orig.mem_at(k, v);
                    if orig.children[k].mem(v) {
                        if k == idx - 1 {
                            assert(ls.mem(v) || v == skey || (ls0.children.len() > 0
                                && child.children@[0].mem(v)));
                            if ls.mem(v) {
                                assert(idx - 1 >= 0 && fin.mem_at(idx - 1, v));
                            } else if v == skey {
                                assert(fin.keys@[idx - 1] == v);
                                assert(idx - 1 >= 0 && fin.mem_at(idx - 1, v));
                            } else {
                                assert(child.mem(v));
                                assert(idx >= 0 && fin.mem_at(idx, v));
                            }
                        } else if k == idx {
                            assert(ch0.mem(v));
                            assert(child.mem(v));
                            assert(idx >= 0 && fin.mem_at(idx, v));
                        } else {
                            assert(k >= 0 && fin.mem_at(k, v));
                        }
                    } else {
                        assert(0 <= k < orig.keys.len() && orig.keys[k] == v);
                        if k == idx - 1 {
                            assert(v == sep);
                            assert(child.mem(v));
                            assert(idx >= 0 && fin.mem_at(idx, v));
                        } else {
                            assert(fin.keys@[k] == v);
                            assert(k >= 0 && fin.mem_at(k, v));
                        }
                    }
                    assert(fin.mem_from(0, v));
                }
            }
            assert forall|v: i32| ch0.mem(v) implies #[trigger] child.mem(v) by {}
        }
    }

    /// Moves the leftmost key of the right sibling up to this node and the
    /// old separator down into the child at `index`, together with the
    /// sibling's leftmost subtree when the children are internal.
    #[verifier::rlimit(100)]
    fn borrow_from_right(&mut self, minkeys: usize, maxkeys: usize, index: usize)
        requires
            old(self).wf(minkeys as int, maxkeys as int),
            1 <= minkeys,
            maxkeys as int == 2 * (minkeys as int) + 1,
            old(self).children.len() > 0,
            index as int + 1 < old(self).children.len(),
            old(self).children@[index as int].keys.len() < maxkeys,
            old(self).children@[index as int + 1].keys.len() > minkeys,
        ensures
            final(self).wf(minkeys as int, maxkeys as int),
            final(self).height() == old(self).height(),
            forall|v: i32| #[trigger] final(self).mem(v) <==> old(self).mem(v),
            final(self).children.len() == old(self).children.len(),
            final(self).keys.len() == old(self).keys.len(),
            final(self).keys@ == old(self).keys@.update(
                index as int,
                final(self).keys@[index as int],
            ),
            final(self).keys@[index as int] > old(self).keys@[index as int],
            forall|v: i32|
                old(self).children@[index as int].mem(v) ==> final(self).children@[
                    index as int
                ].mem(v),
            final(self).children@[index as int].keys.len() == old(self).children@[
                index as int
            ].keys.len() + 1,
    {
        let ghost orig = *old(self);
        let ghost idx = index as int;
        let ghost rs0 = orig.children@[idx + 1];
        let ghost ch0 = orig.children@[idx];
        let ghost rsk = rs0.keys@.len() as int;
        let ghost mk = minkeys as int;
        let ghost xk = maxkeys as int;
        proof {
            assert(orig.wf(mk, xk));
            assert(rs0.wf(mk, xk));
            assert(ch0.wf(mk, xk));
            assert(rs0.height() + 1 == orig.height());
            assert(ch0.height() + 1 == orig.height());
            if rs0.children.len() == 0 {
                assert(rs0.height() == 0);
                if ch0.children.len() > 0 {
                    assert(ch0.height() == 1 + ch0.children[0].height());
                }
                assert(ch0.children.len() == 0);
            } else {
                if ch0.children.len() == 0 {
                    assert(ch0.height() == 0);
                    assert(rs0.height() == 1 + rs0.children[0].height());
                }
                assert(ch0.children.len() > 0);
            }
        }
        let mut rs = self.children.remove(index + 1);
        let mut child = self.children.remove(index);
        if rs.children.len() > 0 {
            let moved = rs.children.remove(0);
            child.children.push(moved);
        }
        let skey = rs.keys.remove(0);
        let sep = self.keys[index];
        self.keys[index] = skey;
        child.keys.push(sep);
        proof {
            assert(skey == rs0.keys@[0]);
            assert(sep == orig.keys@[idx]);
            assert(rs.keys@ =~= rs0.keys@.subrange(1, rsk));
            assert(rs0.children.len() > 0 ==> rs.children@ =~= rs0.children@.subrange(
                1,
                rsk + 1,
            ));
            Node::lemma_sub_node(rs0, rs, 1, rsk, mk, xk);
            // The shrunk sibling sits above its own promoted key.
            assert(rs.all_above(skey)) by {
                assert forall|v: i32| #[trigger] rs.mem(v) implies v > skey by {
                    if exists|k: int|
                        1 <= k <= rsk && k < rs0.children.len() && (#[trigger] rs0.children[k]).mem(
                            v,
                        ) {
                        let k = choose|k: int|
                            1 <= k <= rsk && k < rs0.children.len() && (
                            #[trigger] rs0.children[k]).mem(v);
                        assert(rs0.children[k].all_above(rs0.keys[k - 1]));
                        assert(rs0.keys[k - 1] >= skey);
                    } else {
                        let k = choose|k: int| 1 <= k < rsk && #[trigger] rs0.keys[k] == v;
                    }
                }
            }
            // The grown child is well formed.
            assert(ch0.all_below(sep));
            assert(rs0.all_above(sep));
            rs0.lemma_key_member(0);
            assert(rs0.mem(skey));
            assert(skey > sep);
            assert(child.keys@ == ch0.keys@ + seq![sep]);
            if rs0.children.len() > 0 {
                let moved = rs0.children@[0];
                assert(child.children@ =~= ch0.children@ + seq![moved]);
                assert(child.children@.last() == moved);
                assert(child.children@.subrange(0, ch0.children@.len() as int) =~= ch0.children@);
                assert(moved.wf(mk, xk));
                assert(moved.height() + 1 == rs0.height());
                assert(moved.all_above(sep)) by {
                    rs0.lemma_child_member(0);
                    assert forall|v: i32| #[trigger] moved.mem(v) implies v > sep by {
                        assert(rs0.mem(v));
                    }
                }
            }
            Node::lemma_grow_back(ch0, child, sep, mk, xk);
            // The moved subtree lies below the promoted key.
            assert(rs0.children.len() > 0 ==> child.children@.last().all_below(skey)) by {
                if rs0.children.len() > 0 {
                    assert(rs0.children[0].all_below(rs0.keys[0]));
                }
            }
            assert(child.all_below(skey)) by {
                assert forall|v: i32| #[trigger] child.mem(v) implies v < skey by {
                    if ch0.children.len() > 0 && child.children@.last().mem(v) {
                        assert(child.children@.last().all_below(skey));
                    } else if v == sep {
                    } else {
                        assert(ch0.mem(v));
                        assert(v < sep);
                    }
                }
            }
            // The sibling's members split into the shrunk part, the promoted
            // key, and the moved subtree.
            assert forall|v: i32| #[trigger] rs0.mem(v) <==> (rs.mem(v) || v == skey || (
            rs0.children.len() > 0 && child.children@.last().mem(v))) by {
                if rs0.children.len() == 0 {
                    if rs0.mem(v) {
                        let k = choose|k: int| 0 <= k < rs0.keys@.len() && rs0.keys@[k] == v;
                        if k >= 1 {
                            assert(1 <= k < rsk && rs0.keys[k] == v);
                        }
                    }
                    if rs.mem(v) {
                        let k = choose|k: int| 1 <= k < rsk && #[trigger] rs0.keys[k] == v;
                        assert(rs0.keys@[k] == v);
                        assert(rs0.keys@.contains(v));
                    }
                    if v == skey {
                        assert(rs0.keys@[0] == v);
                        assert(rs0.keys@.contains(v));
                    }
                } else {
                    rs0.lemma_mem_iff(0);
                    if rs0.mem(v) {
                        assert(rs0.mem_from(0, v));
                        let k = choose|k: int| k >= 0 && rs0.mem_at(k, v);
                        if rs0.children[k].mem(v) {
                            if k >= 1 {
                                assert(1 <= k <= rsk && k < rs0.children.len()
                                    && rs0.children[k].mem(v));
                                assert(rs.mem(v));
                            } else {
                                assert(child.children@.last().mem(v));
                            }
                        } else {
                            assert(0 <= k < rs0.keys.len() && rs0.keys[k] == v);
                            if k >= 1 {
                                assert(rs.mem(v));
                            }
                        }
                    }
                    if rs.mem(v) {
                        assert(rs0.mem_from(0, v)) by {
                            if exists|k: int|
                                1 <= k <= rsk && k < rs0.children.len() && (
                                #[trigger] rs0.children[k]).mem(v) {
                                let k = choose|k: int|
                                    1 <= k <= rsk && k < rs0.children.len() && (
                                    #[trigger] rs0.children[k]).mem(v);
                                assert(k >= 0 && rs0.mem_at(k, v));
                            } else {
                                let k = choose|k: int| 1 <= k < rsk && #[trigger] rs0.keys[k] == v;
                                assert(k >= 0 && rs0.mem_at(k, v));
                            }
                        }
                    }
                    if v == skey {
                        assert(0 >= 0 && rs0.mem_at(0, v));
                        assert(rs0.mem_from(0, v));
                    }
                    if child.children@.last().mem(v) {
                        assert(0 >= 0 && rs0.mem_at(0, v));
                        assert(rs0.mem_from(0, v));
                    }
                }
            }
        }
        self.children.insert(index, child);
        self.children.insert(index + 1, rs);
        proof {
            let fin = *self;
            assert(fin.keys@ == orig.keys@.update(idx, skey));
            assert(fin.children@ =~= orig.children@.update(idx, child).update(idx + 1, rs));
            assert(fin.children@.len() == orig.children@.len());
            assert(fin.children@[idx] == child);
            assert(fin.children@[idx + 1] == rs);
            assert(forall|j: int|
                0 <= j < fin.children@.len() && j != idx && j != idx + 1 ==> fin.children@[j]
                    == orig.children@[j]);
            assert(sorted_strict(fin.keys@)) by {
                assert forall|p: int, q: int| 0 <= p < q < fin.keys@.len() implies fin.keys@[p]
                    < fin.keys@[q] by {
                    if p == idx {
                        assert(fin.keys@[q] == orig.keys@[q]);
                        assert(rs0.all_below(orig.keys@[idx + 1]));
                        assert(rs0.mem(skey));
                        assert(skey < orig.keys@[idx + 1]);
                        assert(orig.keys@[idx + 1] <= orig.keys@[q]);
                    } else if q == idx {
                        assert(fin.keys@[p] == orig.keys@[p]);
                        assert(orig.keys@[p] <= orig.keys@[idx - 1] || p == idx - 1);
                        assert(orig.keys@[p] < orig.keys@[idx]);
                    } else {
                        assert(fin.keys@[p] == orig.keys@[p] && fin.keys@[q] == orig.keys@[q]);
                    }
                }
            }
            assert forall|i: int| 0 <= i < fin.children.len() implies {
                &&& (#[trigger] fin.children[i]).wf(mk, xk)
                &&& fin.children[i].keys.len() >= mk
                &&& fin.children[i].height() + 1 == fin.height()
            } by {
                assert(fin.height() == 1 + fin.children[0].height());
                assert(fin.children[0].height() == orig.children[0].height()) by {
                    if idx == 0 {
                        assert(fin.children@[0] == child);
                    } else {
                        assert(fin.children@[0] == orig.children@[0]);
                    }
                }
                if i != idx && i != idx + 1 {
                    assert(fin.children@[i] == orig.children@[i]);
                }
            }
            assert(fin.height() == orig.height()) by {
                assert(fin.children[0].height() == orig.children[0].height()) by {
                    if idx > 0 {
                        assert(fin.children@[0] == orig.children@[0]);
                    }
                }
            }
            assert forall|i: int| 0 <= i < fin.keys.len() implies (
            #[trigger] fin.children[i]).all_below(fin.keys[i]) by {
                if i == idx {
                    assert(fin.keys@[i] == skey);
                    assert(child.all_below(skey));
                } else if i == idx + 1 {
                    assert(fin.keys@[i] == orig.keys@[i]);
                    assert forall|v: i32| #[trigger] rs.mem(v) implies v < fin.keys[i] by {
                        assert(rs0.mem(v));
                        assert(rs0.all_below(orig.keys@[idx + 1]));
                    }
                } else {
                    assert(fin.children@[i] == orig.children@[i]);
                    assert(fin.keys@[i] == orig.keys@[i]);
                    assert(orig.children[i].all_below(orig.keys[i]));
                }
            }
            assert forall|i: int| 1 <= i < fin.children.len() implies (
            #[trigger] fin.children[i]).all_above(fin.keys[i - 1]) by {
                if i == idx {
                    assert(fin.keys@[i - 1] == orig.keys@[i - 1]);
                    assert forall|v: i32| #[trigger] child.mem(v) implies v > fin.keys[i - 1] by {
                        assert(ch0.all_above(orig.keys@[idx - 1]));
                        if ch0.children.len() > 0 && child.children@.last().mem(v) {
                            assert(rs0.mem(v));
                            assert(rs0.all_above(orig.keys@[idx]));
                            assert(orig.keys@[idx - 1] < orig.keys@[idx]);
                        } else if v == sep {
                            assert(orig.keys@[idx - 1] < orig.keys@[idx]);
                        } else {
                            assert(ch0.mem(v));
                        }
                    }
                } else if i == idx + 1 {
                    assert(fin.keys@[i - 1] == skey);
                    assert(rs.all_above(skey));
                } else {
                    assert(fin.children@[i] == orig.children@[i]);
                    assert(fin.keys@[i - 1] == orig.keys@[i - 1]);
                    assert(orig.children[i].all_above(orig.keys[i - 1]));
                }
            }
            assert(fin.wf(mk, xk));
            fin.lemma_mem_iff(0);
            orig.lemma_mem_iff(0);
            assert forall|v: i32| #[trigger] fin.mem(v) <==> orig.mem(v) by {
                if fin.mem(v) {
                    assert(fin.mem_from(0, v));
                    let k = choose|k: int| k >= 0 && fin.mem_at(k, v);
                    if fin.children[k].mem(v) {
                        if k == idx + 1 {
                            assert(rs0.mem(v));
                            assert(idx + 1 >= 0 && orig.mem_at(idx + 1, v));
                        } else if k == idx {
                            if ch0.children.len() > 0 && child.children@.last().mem(v) {
                                assert(rs0.mem(v));
                                assert(idx + 1 >= 0 && orig.mem_at(idx + 1, v));
                            } else if v == sep {
                                assert(idx >= 0 && orig.mem_at(idx, v));
                            } else {
                                assert(ch0.mem(v));
                                assert(idx >= 0 && orig.mem_at(idx, v));
                            }
                        } else {
                            assert(k >= 0 && orig.mem_at(k, v));
                        }
                    } else {
                        assert(0 <= k < fin.keys.len() && fin.keys[k] == v);
                        if k == idx {
                            assert(v == skey);
                            assert(rs0.mem(v));
                            assert(idx + 1 >= 0 && orig.mem_at(idx + 1, v));
                        } else {
                            assert(orig.keys@[k] == v);
                            assert(k >= 0 && orig.mem_at(k, v));
                        }
                    }
                    assert(orig.mem_from(0, v));
                }
                if orig.mem(v) {
                    assert(orig.mem_from(0, v));
                    let k = choose|k: int| k >= 0 && orig.mem_at(k, v);
                    if orig.children[k].mem(v) {
                        if k == idx + 1 {
                            assert(rs.mem(v) || v == skey || (rs0.children.len() > 0
                                && child.children@.last().mem(v)));
                            if rs.mem(v) {
                                assert(idx + 1 >= 0 && fin.mem_at(idx + 1, v));
                            } else if v == skey {
                                assert(fin.keys@[idx] == v);
                                assert(idx >= 0 && fin.mem_at(idx, v));
                            } else {
                                assert(child.mem(v));
                                assert(idx >= 0 && fin.mem_at(idx, v));
                            }
                        } else if k == idx {
                            assert(ch0.mem(v));
                            assert(child.mem(v));
                            assert(idx >= 0 && fin.mem_at(idx, v));
                        } else {
                            assert(k >= 0 && fin.mem_at(k, v));
                        }
                    } else {
                        assert(0 <= k < orig.keys.len() && orig.keys[k] == v);
                        if k == idx {
                            assert(v == sep);
                            assert(child.mem(v));
                            assert(idx >= 0 && fin.mem_at(idx, v));
                        } else {
                            assert(fin.keys@[k] == v);
                            assert(k >= 0 && fin.mem_at(k, v));
                        }
                    }
                    assert(fin.mem_from(0, v));
                }
            }
            assert forall|v: i32| ch0.mem(v) implies #[trigger] child.mem(v) by {}
        }
    }

    /// Whether `v` is routed by the keys of `n` into the gap at `index`.
    spec fn routes_to(n: Node, index: int, v: i32) -> bool {
        &&& (index > 0 ==> v > n.keys@[index - 1])
        &&& (index < n.keys@.len() ==> v < n.keys@[index])
    }

    /// Guarantees that the child on the descent path can afford to lose a
    /// key, by borrowing from a sibling or merging with one, and returns the
    /// index of the child to descend into.
    #[verifier::rlimit(100)]
    fn ensure_child_remove(&mut self, minkeys: usize, maxkeys: usize, index: usize) -> (ci: usize)
        requires
            old(self).wf(minkeys as int, maxkeys as int),
            1 <= minkeys,
            maxkeys as int == 2 * (minkeys as int) + 1,
            old(self).children.len() > 0,
            index < old(self).children.len(),
            old(self).keys.len() >= 1,
        ensures
            final(self).wf(minkeys as int, maxkeys as int),
            final(self).height() == old(self).height(),
            final(self).children.len() > 0,
            forall|v: i32| #[trigger] final(self).mem(v) <==> old(self).mem(v),
            ci < final(self).children.len(),
            final(self).children@[ci as int].keys.len() > minkeys,
            final(self).keys.len() >= old(self).keys.len() - 1,
            forall|v: i32|
                old(self).children@[index as int].mem(v) ==> #[trigger] final(self).children@[
                    ci as int
                ].mem(v),
            forall|v: i32|
                Node::routes_to(*old(self), index as int, v) ==> (#[trigger] final(self).mem(v)
                    <==> final(self).children@[ci as int].mem(v)),
            forall|v: i32|
                Node::routes_to(*old(self), index as int, v) ==> !(#[trigger] final(
                    self).mem_sans_child(ci as int, v)),
            index as int == old(self).children.len() - 1 ==> ci as int == final(
                self).children.len() - 1,
            index == 0 ==> ci == 0,
    {
        let ghost orig = *old(self);
        let ghost idx = index as int;
        let ghost mk = minkeys as int;
        let ghost xk = maxkeys as int;
        proof {
            assert(orig.wf(mk, xk));
            assert(orig.children@[idx].wf(mk, xk));
            assert(orig.children@[idx].keys.len() >= mk);
        }
        let childsize = self.children[index].keys.len();
        if childsize > minkeys {
            proof {
                assert forall|v: i32| Node::routes_to(orig, idx, v) implies ((
                #[trigger] final(self).mem(v) <==> final(self).children@[idx].mem(v)) && !final(
                    self).mem_sans_child(idx, v)) by {
                    assert forall|j: int| 0 <= j < idx implies orig.keys[j] < v by {
                        assert(orig.keys@[j] <= orig.keys@[idx - 1]);
                    }
                    orig.lemma_descend(mk, xk, idx, v);
                }
            }
            return index;
        }
        let mut leftsize: usize = 0;
        if index >= 1 {
            leftsize = self.children[index - 1].keys.len();
            proof {
                assert(orig.children@[idx - 1].wf(mk, xk));
            }
        }
        if index >= 1 && leftsize > minkeys {
            self.borrow_from_left(minkeys, maxkeys, index);
            proof {
                let fin = *self;
                assert forall|v: i32| Node::routes_to(orig, idx, v) implies ((#[trigger] fin.mem(v)
                    <==> fin.children@[idx].mem(v)) && !fin.mem_sans_child(idx, v)) by {
                    assert forall|j: int| 0 <= j < idx implies fin.keys[j] < v by {
                        if j == idx - 1 {
                            assert(fin.keys@[j] < orig.keys@[idx - 1]);
                        } else {
                            assert(fin.keys@[j] == orig.keys@[j]);
                            assert(orig.keys@[j] <= orig.keys@[idx - 1]);
                        }
                    }
                    assert(idx < fin.keys@.len() ==> v < fin.keys@[idx]) by {
                        if idx < fin.keys@.len() {
                            assert(fin.keys@[idx] == orig.keys@[idx]);
                        }
                    }
                    fin.lemma_descend(mk, xk, idx, v);
                }
            }
            return index;
        }
        let mut rightsize: usize = 0;
        if index < self.keys.len() {
            rightsize = self.children[index + 1].keys.len();
            proof {
                assert(orig.children@[idx + 1].wf(mk, xk));
            }
        }
        if index < self.keys.len() && rightsize > minkeys {
            self.borrow_from_right(minkeys, maxkeys, index);
            proof {
                let fin = *self;
                assert forall|v: i32| Node::routes_to(orig, idx, v) implies ((#[trigger] fin.mem(v)
                    <==> fin.children@[idx].mem(v)) && !fin.mem_sans_child(idx, v)) by {
                    assert forall|j: int| 0 <= j < idx implies fin.keys[j] < v by {
                        assert(fin.keys@[j] == orig.keys@[j]);
                        assert(orig.keys@[j] <= orig.keys@[idx - 1]);
                    }
                    assert(idx < fin.keys@.len() ==> v < fin.keys@[idx]) by {
                        if idx < fin.keys@.len() {
                            assert(fin.keys@[idx] > orig.keys@[idx]);
                        }
                    }
                    fin.lemma_descend(mk, xk, idx, v);
                }
            }
            return index;
        }
        if index >= 1 {
            // The left sibling exists and holds exactly the minimum.
            self.merge_children(minkeys, maxkeys, index - 1);
            proof {
                let fin = *self;
                assert(fin.children@[idx - 1].keys.len() == maxkeys);
                assert forall|v: i32|
                    orig.children@[idx].mem(v) implies #[trigger] fin.children@[
                    idx - 1
                ].mem(v) by {}
                assert forall|v: i32| Node::routes_to(orig, idx, v) implies ((#[trigger] fin.mem(v)
                    <==> fin.children@[idx - 1].mem(v)) && !fin.mem_sans_child(idx - 1, v)) by {
                    assert forall|j: int| 0 <= j < idx - 1 implies fin.keys[j] < v by {
                        assert(fin.keys@[j] == orig.keys@[j]);
                        assert(orig.keys@[j] <= orig.keys@[idx - 1]);
                    }
                    assert(idx - 1 < fin.keys@.len() ==> v < fin.keys@[idx - 1]) by {
                        if idx - 1 < fin.keys@.len() {
                            assert(fin.keys@[idx - 1] == orig.keys@[idx]);
                        }
                    }
                    fin.lemma_descend(mk, xk, idx - 1, v);
                }
            }
            return index - 1;
        }
        // Otherwise the right sibling exists and holds exactly the minimum.
        self.merge_children(minkeys, maxkeys, index);
        proof {
            let fin = *self;
            assert(fin.children@[idx].keys.len() == maxkeys);
            assert forall|v: i32| Node::routes_to(orig, idx, v) implies ((#[trigger] fin.mem(v)
                <==> fin.children@[idx].mem(v)) && !fin.mem_sans_child(idx, v)) by {
                assert forall|j: int| 0 <= j < idx implies fin.keys[j] < v by {
                    assert(fin.keys@[j] == orig.keys@[j]);
                    assert(orig.keys@[j] <= orig.keys@[idx - 1]);
                }
                assert(idx < fin.keys@.len() ==> v < fin.keys@[idx]) by {
                    if idx < fin.keys@.len() {
                        assert(fin.keys@[idx] == orig.keys@[idx + 1]);
                        assert(orig.keys@[idx] < orig.keys@[idx + 1]);
                    }
                }
                fin.lemma_descend(mk, xk, idx, v);
            }
        }
        index
    }

    /// Removes and returns the maximum key of this subtree. The node must
    /// have a surplus key so that the removal cannot underflow it.
    #[verifier::rlimit(100)]
    fn remove_max(&mut self, minkeys: usize, maxkeys: usize) -> (r: i32)
        requires
            old(self).wf(minkeys as int, maxkeys as int),
            1 <= minkeys,
            maxkeys as int == 2 * (minkeys as int) + 1,
            old(self).keys.len() > minkeys,
        ensures
            final(self).wf(minkeys as int, maxkeys as int),
            final(self).height() == old(self).height(),
            old(self).mem(r),
            forall|v: i32| #[trigger] final(self).mem(v) <==> (old(self).mem(v) && v != r),
            forall|v: i32| #[trigger] old(self).mem(v) ==> v <= r,
            final(self).keys.len() >= old(self).keys.len() - 1,
        decreases old(self).height(),
    {
        let ghost orig = *old(self);
        let ghost mk = minkeys as int;
        let ghost xk = maxkeys as int;
        if self.is_leaf() {
            let r_opt = self.keys.pop();
            let r = r_opt.unwrap();
            proof {
                let lk = orig.keys@.len() as int;
                assert(r == orig.keys@[lk - 1]);
                assert(orig.keys@.contains(r)) by {
                    assert(orig.keys@[lk - 1] == r);
                }
                assert(final(self).keys@ == orig.keys@.subrange(0, lk - 1));
                assert(sorted_strict(final(self).keys@)) by {
                    assert forall|p: int, q: int|
                        0 <= p < q < final(self).keys@.len() implies final(self).keys@[p] < final(
                        self).keys@[q] by {
                        assert(final(self).keys@[p] == orig.keys@[p]);
                        assert(final(self).keys@[q] == orig.keys@[q]);
                    }
                }
                assert forall|v: i32| #[trigger] final(self).mem(v) <==> (orig.mem(v) && v
                    != r) by {
                    if final(self).keys@.contains(v) {
                        let j = choose|j: int|
                            0 <= j < final(self).keys@.len() && final(self).keys@[j] == v;
                        assert(orig.keys@[j] == v);
                        assert(orig.keys@.contains(v));
                        assert(orig.keys@[j] < orig.keys@[lk - 1]);
                    }
                    if orig.keys@.contains(v) && v != r {
                        let j = choose|j: int| 0 <= j < orig.keys@.len() && orig.keys@[j] == v;
                        assert(j != lk - 1);
                        assert(final(self).keys@[j] == v);
                        assert(final(self).keys@.contains(v));
                    }
                }
                assert forall|v: i32| #[trigger] orig.mem(v) implies v <= r by {
                    let j = choose|j: int| 0 <= j < orig.keys@.len() && orig.keys@[j] == v;
                    assert(orig.keys@[j] <= orig.keys@[lk - 1]);
                }
            }
            return r;
        }
        let end = self.children.len() - 1;
        let ci = self.ensure_child_remove(minkeys, maxkeys, end);
        let ghost s1 = *self;
        proof {
            assert(ci as int == s1.children.len() - 1);
            assert(s1.wf(mk, xk));
            assert(s1.children@[ci as int].wf(mk, xk));
            assert(s1.children@[ci as int].height() + 1 == s1.height());
        }
        let mut child = self.children.remove(ci);
        let r = child.remove_max(minkeys, maxkeys);
        self.children.insert(ci, child);
        proof {
            let fin = *self;
            let cidx = ci as int;
            let ca = s1.children@[cidx];
            let cb = fin.children@[cidx];
            assert(fin.children@ =~= s1.children@.update(cidx, cb));
            assert(fin.keys@ == s1.keys@);
            assert(forall|j: int|
                0 <= j < s1.children@.len() && j != cidx ==> fin.children@[j] == s1.children@[j]);
            s1.lemma_child_member(cidx);
            assert(ca.mem(r));
            assert(s1.mem(r));
            assert(orig.mem(r));
            let lastk = s1.keys@.len() as int - 1;
            assert(lastk == cidx - 1);
            assert(s1.keys@[lastk] < r) by {
                assert(ca.all_above(s1.keys@[cidx - 1]));
            }
            s1.lemma_mem_iff(0);
            assert forall|v: i32| #[trigger] orig.mem(v) implies v <= r by {
                assert(s1.mem(v));
                assert(s1.mem_from(0, v));
                let k = choose|k: int| k >= 0 && s1.mem_at(k, v);
                if s1.children[k].mem(v) {
                    if k < cidx {
                        assert(s1.children[k].all_below(s1.keys[k]));
                        assert(v < s1.keys[k]);
                        assert(s1.keys@[k] <= s1.keys@[lastk]);
                    }
                } else {
                    assert(0 <= k < s1.keys.len() && s1.keys[k] == v);
                    assert(s1.keys@[k] <= s1.keys@[lastk]);
                }
            }
            s1.lemma_mem_sans(cidx);
            fin.lemma_mem_sans(cidx);
            s1.lemma_mem_sans_congruent(fin, cidx);
            assert(!s1.mem_sans_child(cidx, r)) by {
                if exists|k: int|
                    0 <= k < s1.children.len() && k != cidx && (#[trigger] s1.children[k]).mem(
                        r,
                    ) {
                    let k = choose|k: int|
                        0 <= k < s1.children.len() && k != cidx && (#[trigger] s1.children[k]).mem(
                            r,
                        );
                    assert(s1.children[k].all_below(s1.keys[k]));
                    assert(r < s1.keys[k]);
                    assert(s1.keys@[k] <= s1.keys@[lastk]);
                } else if exists|k: int|
                    0 <= k < s1.keys.len() && k < s1.children.len() && s1.keys[k] == r {
                    let k = choose|k: int|
                        0 <= k < s1.keys.len() && k < s1.children.len() && s1.keys[k] == r;
                    assert(s1.keys@[k] <= s1.keys@[lastk]);
                }
            }
            assert forall|v: i32| #[trigger] fin.mem(v) <==> (orig.mem(v) && v != r) by {
                assert(fin.mem(v) <==> fin.mem_sans_child(cidx, v) || cb.mem(v));
                assert(s1.mem(v) <==> s1.mem_sans_child(cidx, v) || ca.mem(v));
                assert(cb.mem(v) <==> ca.mem(v) && v != r);
            }
            assert(cidx >= 1 ==> cb.all_above(s1.keys@[cidx - 1])) by {
                if cidx >= 1 {
                    assert forall|v: i32| #[trigger] cb.mem(v) implies v > s1.keys@[cidx - 1] by {
                        assert(ca.mem(v));
                        assert(ca.all_above(s1.keys@[cidx - 1]));
                    }
                }
            }
            s1.lemma_parent_update_wf(fin, cidx, mk, xk);
        }
        r
    }

    /// Removes and returns the minimum key of this subtree. The node must
    /// have a surplus key so that the removal cannot underflow it.
    #[verifier::rlimit(100)]
    fn remove_min(&mut self, minkeys: usize, maxkeys: usize) -> (r: i32)
        requires
            old(self).wf(minkeys as int, maxkeys as int),
            1 <= minkeys,
            maxkeys as int == 2 * (minkeys as int) + 1,
            old(self).keys.len() > minkeys,
        ensures
            final(self).wf(minkeys as int, maxkeys as int),
            final(self).height() == old(self).height(),
            old(self).mem(r),
            forall|v: i32| #[trigger] final(self).mem(v) <==> (old(self).mem(v) && v != r),
            forall|v: i32| #[trigger] old(self).mem(v) ==> v >= r,
            final(self).keys.len() >= old(self).keys.len() - 1,
        decreases old(self).height(),
    {
        let ghost orig = *old(self);
        let ghost mk = minkeys as int;
        let ghost xk = maxkeys as int;
        if self.is_leaf() {
            let r = self.keys.remove(0);
            proof {
                let lk = orig.keys@.len() as int;
                assert(r == orig.keys@[0]);
                assert(orig.keys@.contains(r)) by {
                    assert(orig.keys@[0] == r);
                }
                assert(final(self).keys@ == orig.keys@.remove(0));
                assert(sorted_strict(final(self).keys@)) by {
                    assert forall|p: int, q: int|
                        0 <= p < q < final(self).keys@.len() implies final(self).keys@[p] < final(
                        self).keys@[q] by {
                        assert(final(self).keys@[p] == orig.keys@[p + 1]);
                        assert(final(self).keys@[q] == orig.keys@[q + 1]);
                    }
                }
                assert forall|v: i32| #[trigger] final(self).mem(v) <==> (orig.mem(v) && v
                    != r) by {
                    if final(self).keys@.contains(v) {
                        let j = choose|j: int|
                            0 <= j < final(self).keys@.len() && final(self).keys@[j] == v;
                        assert(orig.keys@[j + 1] == v);
                        assert(orig.keys@.contains(v));
                        assert(orig.keys@[0] < orig.keys@[j + 1]);
                    }
                    if orig.keys@.contains(v) && v != r {
                        let j = choose|j: int| 0 <= j < orig.keys@.len() && orig.keys@[j] == v;
                        assert(j != 0);
                        assert(final(self).keys@[j - 1] == v);
                        assert(final(self).keys@.contains(v));
                    }
                }
                assert forall|v: i32| #[trigger] orig.mem(v) implies v >= r by {
                    let j = choose|j: int| 0 <= j < orig.keys@.len() && orig.keys@[j] == v;
                    assert(orig.keys@[0] <= orig.keys@[j]);
                }
            }
            return r;
        }
        let ci = self.ensure_child_remove(minkeys, maxkeys, 0);
        let ghost s1 = *self;
        proof {
            assert(ci == 0);
            assert(s1.wf(mk, xk));
            assert(s1.children@[0].wf(mk, xk));
            assert(s1.children@[0].height() + 1 == s1.height());
        }
        let mut child = self.children.remove(ci);
        let r = child.remove_min(minkeys, maxkeys);
        self.children.insert(ci, child);
        proof {
            let fin = *self;
            let ca = s1.children@[0];
            let cb = fin.children@[0];
            assert(fin.children@ =~= s1.children@.update(0, cb));
            assert(fin.keys@ == s1.keys@);
            assert(forall|j: int|
                0 <= j < s1.children@.len() && j != 0 ==> fin.children@[j] == s1.children@[j]);
            s1.lemma_child_member(0);
            assert(ca.mem(r));
            assert(s1.mem(r));
            assert(orig.mem(r));
            assert(s1.keys@.len() >= 1);
            assert(r < s1.keys@[0]) by {
                assert(ca.all_below(s1.keys@[0]));
            }
            s1.lemma_mem_iff(0);
            assert forall|v: i32| #[trigger] orig.mem(v) implies v >= r by {
                assert(s1.mem(v));
                assert(s1.mem_from(0, v));
                let k = choose|k: int| k >= 0 && s1.mem_at(k, v);
                if s1.children[k].mem(v) {
                    if k > 0 {
                        assert(s1.children[k].all_above(s1.keys[k - 1]));
                        assert(v > s1.keys[k - 1]);
                        assert(s1.keys@[0] <= s1.keys@[k - 1]);
                    }
                } else {
                    assert(0 <= k < s1.keys.len() && s1.keys[k] == v);
                    assert(s1.keys@[0] <= s1.keys@[k]);
                }
            }
            s1.lemma_mem_sans(0);
            fin.lemma_mem_sans(0);
            s1.lemma_mem_sans_congruent(fin, 0);
            assert(!s1.mem_sans_child(0, r)) by {
                if exists|k: int|
                    0 <= k < s1.children.len() && k != 0 && (#[trigger] s1.children[k]).mem(r) {
                    let k = choose|k: int|
                        0 <= k < s1.children.len() && k != 0 && (#[trigger] s1.children[k]).mem(r);
                    assert(s1.children[k].all_above(s1.keys[k - 1]));
                    assert(r > s1.keys[k - 1]);
                    assert(s1.keys@[0] <= s1.keys@[k - 1]);
                } else if exists|k: int|
                    0 <= k < s1.keys.len() && k < s1.children.len() && s1.keys[k] == r {
                    let k = choose|k: int|
                        0 <= k < s1.keys.len() && k < s1.children.len() && s1.keys[k] == r;
                    assert(s1.keys@[0] <= s1.keys@[k]);
                }
            }
            assert forall|v: i32| #[trigger] fin.mem(v) <==> (orig.mem(v) && v != r) by {
                assert(fin.mem(v) <==> fin.mem_sans_child(0, v) || cb.mem(v));
                assert(s1.mem(v) <==> s1.mem_sans_child(0, v) || ca.mem(v));
                assert(cb.mem(v) <==> ca.mem(v) && v != r);
            }
            assert(0 < s1.keys.len() ==> cb.all_below(s1.keys@[0])) by {
                assert forall|v: i32| #[trigger] cb.mem(v) implies v < s1.keys@[0] by {
                    assert(ca.mem(v));
                    assert(ca.all_below(s1.keys@[0]));
                }
            }
            s1.lemma_parent_update_wf(fin, 0, mk, xk);
        }
        r
    }

    /// Removes `val` from this subtree, strengthening each node on the
    /// descent path before stepping into it. Returns whether the value was
    /// present. An internal node must hold at least one key.
    #[verifier::rlimit(100)]
    fn remove_from(&mut self, val: i32, minkeys: usize, maxkeys: usize) -> (r: bool)
        requires
            old(self).wf(minkeys as int, maxkeys as int),
            1 <= minkeys,
            maxkeys as int == 2 * (minkeys as int) + 1,
            old(self).children.len() > 0 ==> old(self).keys.len() >= 1,
        ensures
            final(self).wf(minkeys as int, maxkeys as int),
            final(self).height() == old(self).height(),
            r == old(self).mem(val),
            forall|v: i32| #[trigger] final(self).mem(v) <==> (old(self).mem(v) && v != val),
            final(self).keys.len() >= old(self).keys.len() - 1,
            old(self).children.len() == 0 ==> final(self).children.len() == 0,
        decreases old(self).height(),
    {
        let ghost orig = *old(self);
        let ghost mk = minkeys as int;
        let ghost xk = maxkeys as int;
        let (found, index) = self.search(val);
        let ghost idx = index as int;
        if self.is_leaf() {
            if found {
                self.keys.remove(index);
                proof {
                    assert(orig.keys@[idx] == val);
                    assert(orig.keys@.contains(val)) by {
                        assert(orig.keys@[idx] == val);
                    }
                    assert(final(self).keys@ == orig.keys@.remove(idx));
                    assert(forall|t: int|
                        0 <= t < idx ==> final(self).keys@[t] == orig.keys@[t]);
                    assert(forall|t: int|
                        idx <= t < final(self).keys@.len() ==> final(self).keys@[t] == orig.keys@[
                            t + 1
                        ]);
                    assert(sorted_strict(final(self).keys@)) by {
                        assert forall|p: int, q: int|
                            0 <= p < q < final(self).keys@.len() implies final(self).keys@[p]
                            < final(self).keys@[q] by {
                            let po = if p < idx { p } else { p + 1 };
                            let qo = if q < idx { q } else { q + 1 };
                            assert(final(self).keys@[p] == orig.keys@[po]);
                            assert(final(self).keys@[q] == orig.keys@[qo]);
                        }
                    }
                    assert forall|v: i32| #[trigger] final(self).mem(v) <==> (orig.mem(v) && v
                        != val) by {
                        if final(self).keys@.contains(v) {
                            let j = choose|j: int|
                                0 <= j < final(self).keys@.len() && final(self).keys@[j] == v;
                            let jo = if j < idx { j } else { j + 1 };
                            assert(orig.keys@[jo] == v);
                            assert(orig.keys@.contains(v));
                            assert(jo != idx);
                            assert(v != val);
                        }
                        if orig.keys@.contains(v) && v != val {
                            let j = choose|j: int| 0 <= j < orig.keys@.len() && orig.keys@[j] == v;
                            assert(j != idx);
                            if j < idx {
                                assert(final(self).keys@[j] == v);
                            } else {
                                assert(final(self).keys@[j - 1] == v);
                            }
                            assert(final(self).keys@.contains(v));
                        }
                    }
                }
                return true;
            }
            return false;
        }
        if found {
            // The value sits at this node, between children idx and idx + 1.
            proof {
                orig.lemma_mem_iff(0);
                assert(idx >= 0 && orig.mem_at(idx, val));
                assert(orig.mem_from(0, val));
                assert(orig.children@[idx].wf(mk, xk));
                assert(orig.children@[idx + 1].wf(mk, xk));
            }
            if self.children[index].keys.len() > minkeys {
                // Replace the key with its predecessor from the left subtree.
                let mut child = self.children.remove(index);
                let newkey = child.remove_max(minkeys, maxkeys);
                self.children.insert(index, child);
                self.keys[index] = newkey;
                proof {
                    let fin = *self;
                    let ca = orig.children@[idx];
                    let cb = fin.children@[idx];
                    assert(fin.children@ =~= orig.children@.update(idx, cb));
                    assert(fin.keys@ == orig.keys@.update(idx, newkey));
                    assert(forall|j: int|
                        0 <= j < orig.children@.len() && j != idx ==> fin.children@[j]
                            == orig.children@[j]);
                    assert(ca.mem(newkey));
                    assert(ca.all_below(val));
                    assert(newkey < val);
                    assert(idx >= 1 ==> newkey > orig.keys@[idx - 1]) by {
                        if idx >= 1 {
                            assert(ca.all_above(orig.keys@[idx - 1]));
                        }
                    }
                    assert(sorted_strict(fin.keys@)) by {
                        assert forall|p: int, q: int|
                            0 <= p < q < fin.keys@.len() implies fin.keys@[p] < fin.keys@[q] by {
                            if p == idx {
                                assert(fin.keys@[q] == orig.keys@[q]);
                                assert(newkey < val);
                                assert(orig.keys@[idx] <= orig.keys@[q]);
                            } else if q == idx {
                                assert(fin.keys@[p] == orig.keys@[p]);
                                assert(orig.keys@[p] <= orig.keys@[idx - 1]);
                            } else {
                                assert(fin.keys@[p] == orig.keys@[p]);
                                assert(fin.keys@[q] == orig.keys@[q]);
                            }
                        }
                    }
                    assert forall|i: int| 0 <= i < fin.children.len() implies {
                        &&& (#[trigger] fin.children[i]).wf(mk, xk)
                        &&& fin.children[i].keys.len() >= mk
                        &&& fin.children[i].height() + 1 == fin.height()
                    } by {
                        assert(fin.height() == 1 + fin.children[0].height());
                        assert(fin.children[0].height() == orig.children[0].height()) by {
                            if idx != 0 {
                                assert(fin.children@[0] == orig.children@[0]);
                            }
                        }
                        if i != idx {
                            assert(fin.children@[i] == orig.children@[i]);
                        }
                    }
                    assert(fin.height() == orig.height()) by {
                        assert(fin.children[0].height() == orig.children[0].height()) by {
                            if idx != 0 {
                                assert(fin.children@[0] == orig.children@[0]);
                            }
                        }
                    }
                    assert forall|i: int| 0 <= i < fin.keys.len() implies (
                    #[trigger] fin.children[i]).all_below(fin.keys[i]) by {
                        if i == idx {
                            assert forall|v: i32| #[trigger] cb.mem(v) implies v < newkey by {
                                assert(ca.mem(v) && v != newkey);
                                assert(v <= newkey);
                            }
                        } else {
                            assert(fin.children@[i] == orig.children@[i]);
                            if i == idx + 1 {
                                assert(fin.keys@[i] == orig.keys@[i]);
                                assert(orig.children[i].all_below(orig.keys[i]));
                            } else {
                                assert(fin.keys@[i] == orig.keys@[i]);
                                assert(orig.children[i].all_below(orig.keys[i]));
                            }
                        }
                    }
                    assert forall|i: int| 1 <= i < fin.children.len() implies (
                    #[trigger] fin.children[i]).all_above(fin.keys[i - 1]) by {
                        if i == idx {
                            assert(fin.keys@[i - 1] == orig.keys@[i - 1]);
                            assert forall|v: i32|
                                #[trigger] cb.mem(v) implies v > fin.keys[i - 1] by {
                                assert(ca.mem(v));
                                assert(ca.all_above(orig.keys@[idx - 1]));
                            }
                        } else if i == idx + 1 {
                            assert(fin.keys@[i - 1] == newkey);
                            assert(fin.children@[i] == orig.children@[i]);
                            assert forall|v: i32|
                                #[trigger] fin.children[i].mem(v) implies v > newkey by {
                                assert(orig.children[idx + 1].all_above(orig.keys@[idx]));
                                assert(v > val);
                            }
                        } else {
                            assert(fin.children@[i] == orig.children@[i]);
                            assert(fin.keys@[i - 1] == orig.keys@[i - 1]);
                            assert(orig.children[i].all_above(orig.keys[i - 1]));
                        }
                    }
                    assert(fin.wf(mk, xk));
                    fin.lemma_mem_iff(0);
                    assert forall|v: i32| #[trigger] fin.mem(v) <==> (orig.mem(v) && v != val) by {
                        if fin.mem(v) {
                            assert(fin.mem_from(0, v));
                            let k = choose|k: int| k >= 0 && fin.mem_at(k, v);
                            if fin.children[k].mem(v) {
                                if k == idx {
                                    assert(ca.mem(v) && v != newkey);
                                    assert(v < val);
                                    assert(idx >= 0 && orig.mem_at(idx, v));
                                } else {
                                    assert(k >= 0 && orig.mem_at(k, v));
                                    // Values outside child idx differ from val.
                                    if v == val {
                                        assert(fin.children@[k] == orig.children@[k]);
                                        assert(orig.keys@[idx] == val);
                                        if k < idx {
                                            assert(orig.children[k].all_below(orig.keys[k]));
                                            assert(v < orig.keys@[k]);
                                            assert(orig.keys@[k] < orig.keys@[idx]);
                                        } else {
                                            assert(orig.children[k].all_above(orig.keys[k - 1]));
                                            assert(v > orig.keys@[k - 1]);
                                            assert(orig.keys@[idx] <= orig.keys@[k - 1]);
                                        }
                                        assert(false);
                                    }
                                }
                            } else {
                                assert(0 <= k < fin.keys.len() && fin.keys[k] == v);
                                if k == idx {
                                    assert(v == newkey);
                                    assert(ca.mem(v));
                                    assert(idx >= 0 && orig.mem_at(idx, v));
                                    assert(v != val);
                                } else {
                                    assert(orig.keys@[k] == v);
                                    assert(k >= 0 && orig.mem_at(k, v));
                                    assert(v != val) by {
                                        if k < idx {
                                            assert(orig.keys@[k] < orig.keys@[idx]);
                                        } else {
                                            assert(orig.keys@[idx] < orig.keys@[k]);
                                        }
                                    }
                                }
                            }
                            assert(orig.mem_from(0, v));
                        }
                        if orig.mem(v) && v != val {
                            assert(orig.mem_from(0, v));
                            let k = choose|k: int| k >= 0 && orig.mem_at(k, v);
                            if orig.children[k].mem(v) {
                                if k == idx {
                                    if v == newkey {
                                        assert(fin.keys@[idx] == v);
                                        assert(idx >= 0 && fin.mem_at(idx, v));
                                    } else {
                                        assert(cb.mem(v));
                                        assert(idx >= 0 && fin.mem_at(idx, v));
                                    }
                                } else {
                                    assert(k >= 0 && fin.mem_at(k, v));
                                }
                            } else {
                                assert(0 <= k < orig.keys.len() && orig.keys[k] == v);
                                assert(k != idx);
                                assert(fin.keys@[k] == v);
                                assert(k >= 0 && fin.mem_at(k, v));
                            }
                            assert(fin.mem_from(0, v));
                        }
                    }
                }
                return true;
            }
            let rsize = self.children[index + 1].keys.len();
            if rsize > minkeys {
                // Replace the key with its successor from the right subtree.
                let mut child = self.children.remove(index + 1);
                let newkey = child.remove_min(minkeys, maxkeys);
                self.children.insert(index + 1, child);
                self.keys[index] = newkey;
                proof {
                    let fin = *self;
                    let ca = orig.children@[idx + 1];
                    let cb = fin.children@[idx + 1];
                    assert(fin.children@ =~= orig.children@.update(idx + 1, cb));
                    assert(fin.keys@ == orig.keys@.update(idx, newkey));
                    assert(forall|j: int|
                        0 <= j < orig.children@.len() && j != idx + 1 ==> fin.children@[j]
                            == orig.children@[j]);
                    assert(ca.mem(newkey));
                    assert(ca.all_above(val));
                    assert(newkey > val);
                    assert(idx + 1 < orig.keys@.len() ==> newkey < orig.keys@[idx + 1]) by {
                        if idx + 1 < orig.keys@.len() {
                            assert(ca.all_below(orig.keys@[idx + 1]));
                        }
                    }
                    assert(sorted_strict(fin.keys@)) by {
                        assert forall|p: int, q: int|
                            0 <= p < q < fin.keys@.len() implies fin.keys@[p] < fin.keys@[q] by {
                            if p == idx {
                                assert(fin.keys@[q] == orig.keys@[q]);
                                assert(orig.keys@[idx + 1] <= orig.keys@[q]);
                            } else if q == idx {
                                assert(fin.keys@[p] == orig.keys@[p]);
                                assert(orig.keys@[p] <= orig.keys@[idx - 1] || p == idx - 1);
                                assert(orig.keys@[p] < orig.keys@[idx]);
                                assert(orig.keys@[idx] == val);
                            } else {
                                assert(fin.keys@[p] == orig.keys@[p]);
                                assert(fin.keys@[q] == orig.keys@[q]);
                            }
                        }
                    }
                    assert forall|i: int| 0 <= i < fin.children.len() implies {
                        &&& (#[trigger] fin.children[i]).wf(mk, xk)
                        &&& fin.children[i].keys.len() >= mk
                        &&& fin.children[i].height() + 1 == fin.height()
                    } by {
                        assert(fin.height() == 1 + fin.children[0].height());
                        assert(fin.children[0].height() == orig.children[0].height()) by {
                            if idx + 1 != 0 {
                                assert(fin.children@[0] == orig.children@[0]);
                            }
                        }
                        if i != idx + 1 {
                            assert(fin.children@[i] == orig.children@[i]);
                        }
                    }
                    assert(fin.height() == orig.height()) by {
                        assert(fin.children@[0] == orig.children@[0]);
                    }
                    assert forall|i: int| 0 <= i < fin.keys.len() implies (
                    #[trigger] fin.children[i]).all_below(fin.keys[i]) by {
                        if i == idx {
                            assert(fin.children@[i] == orig.children@[i]);
                            assert forall|v: i32|
                                #[trigger] fin.children[i].mem(v) implies v < newkey by {
                                assert(orig.children[idx].all_below(orig.keys@[idx]));
                                assert(v < val);
                            }
                        } else if i == idx + 1 {
                            assert(fin.keys@[i] == orig.keys@[i]);
                            assert forall|v: i32| #[trigger] cb.mem(v) implies v < fin.keys[i] by {
                                assert(ca.mem(v));
                                assert(ca.all_below(orig.keys@[idx + 1]));
                            }
                        } else {
                            assert(fin.children@[i] == orig.children@[i]);
                            assert(fin.keys@[i] == orig.keys@[i]);
                            assert(orig.children[i].all_below(orig.keys[i]));
                        }
                    }
                    assert forall|i: int| 1 <= i < fin.children.len() implies (
                    #[trigger] fin.children[i]).all_above(fin.keys[i - 1]) by {
                        if i == idx + 1 {
                            assert(fin.keys@[i - 1] == newkey);
                            assert forall|v: i32| #[trigger] cb.mem(v) implies v > newkey by {
                                assert(ca.mem(v) && v != newkey);
                                assert(v >= newkey);
                            }
                        } else {
                            assert(fin.children@[i] == orig.children@[i]);
                            if i - 1 == idx {
                                assert(false);
                            } else {
                                assert(fin.keys@[i - 1] == orig.keys@[i - 1]);
                                assert(orig.children[i].all_above(orig.keys[i - 1]));
                            }
                        }
                    }
                    assert(fin.wf(mk, xk));
                    fin.lemma_mem_iff(0);
                    assert forall|v: i32| #[trigger] fin.mem(v) <==> (orig.mem(v) && v != val) by {
                        if fin.mem(v) {
                            assert(fin.mem_from(0, v));
                            let k = choose|k: int| k >= 0 && fin.mem_at(k, v);
                            if fin.children[k].mem(v) {
                                if k == idx + 1 {
                                    assert(ca.mem(v) && v != newkey);
                                    assert(v > val);
                                    assert(idx + 1 >= 0 && orig.mem_at(idx + 1, v));
                                } else {
                                    assert(k >= 0 && orig.mem_at(k, v));
                                    if v == val {
                                        assert(orig.keys@[idx] == val);
                                        if k <= idx {
                                            assert(fin.children[k].all_below(fin.keys[k]));
                                            assert(v < fin.keys@[k]);
                                            if k < idx {
                                                assert(fin.keys@[k] == orig.keys@[k]);
                                                assert(orig.keys@[k] < orig.keys@[idx]);
                                            } else {
                                                assert(fin.keys@[k] == newkey);
                                            }
                                        } else {
                                            assert(fin.children[k].all_above(fin.keys[k - 1]));
                                            assert(v > fin.keys@[k - 1]);
                                            assert(fin.keys@[k - 1] == orig.keys@[k - 1]);
                                            assert(orig.keys@[idx] <= orig.keys@[k - 1]);
                                        }
                                        assert(false);
                                    }
                                }
                            } else {
                                assert(0 <= k < fin.keys.len() && fin.keys[k] == v);
                                if k == idx {
                                    assert(v == newkey);
                                    assert(ca.mem(v));
                                    assert(idx + 1 >= 0 && orig.mem_at(idx + 1, v));
                                    assert(v != val);
                                } else {
                                    assert(orig.keys@[k] == v);
                                    assert(k >= 0 && orig.mem_at(k, v));
                                    assert(v != val) by {
                                        if k < idx {
                                            assert(orig.keys@[k] < orig.keys@[idx]);
                                        } else {
                                            assert(orig.keys@[idx] < orig.keys@[k]);
                                        }
                                    }
                                }
                            }
                            assert(orig.mem_from(0, v));
                        }
                        if orig.mem(v) && v != val {
                            assert(orig.mem_from(0, v));
                            let k = choose|k: int| k >= 0 && orig.mem_at(k, v);
                            if orig.children[k].mem(v) {
                                if k == idx + 1 {
                                    if v == newkey {
                                        assert(fin.keys@[idx] == v);
                                        assert(idx >= 0 && fin.mem_at(idx, v));
                                    } else {
                                        assert(cb.mem(v));
                                        assert(idx + 1 >= 0 && fin.mem_at(idx + 1, v));
                                    }
                                } else {
                                    assert(k >= 0 && fin.mem_at(k, v));
                                }
                            } else {
                                assert(0 <= k < orig.keys.len() && orig.keys[k] == v);
                                assert(k != idx);
                                assert(fin.keys@[k] == v);
                                assert(k >= 0 && fin.mem_at(k, v));
                            }
                            assert(fin.mem_from(0, v));
                        }
                    }
                }
                return true;
            }
            // Both neighbours are minimal: absorb the key into a merged
            // child and continue the removal there.
            self.merge_children(minkeys, maxkeys, index);
            let ghost s1 = *self;
            proof {
                assert(s1.children@[idx].keys.len() == maxkeys);
                assert(s1.children@[idx].wf(mk, xk));
                assert(s1.children@[idx].height() + 1 == s1.height());
                assert(s1.children@[idx].mem(val));
                assert(s1.children@[idx].children.len() > 0 ==> s1.children@[idx].keys.len()
                    >= 1);
            }
            let mut child = self.children.remove(index);
            let r = child.remove_from(val, minkeys, maxkeys);
            self.children.insert(index, child);
            proof {
                let fin = *self;
                let ca = s1.children@[idx];
                let cb = fin.children@[idx];
                assert(fin.children@ =~= s1.children@.update(idx, cb));
                assert(fin.keys@ == s1.keys@);
                assert(forall|j: int|
                    0 <= j < s1.children@.len() && j != idx ==> fin.children@[j]
                        == s1.children@[j]);
                assert(r);
                s1.lemma_mem_sans(idx);
                fin.lemma_mem_sans(idx);
                s1.lemma_mem_sans_congruent(fin, idx);
                // val cannot sit outside the merged child.
                assert(!s1.mem_sans_child(idx, val)) by {
                    if exists|k: int|
                        0 <= k < s1.children.len() && k != idx && (#[trigger] s1.children[k]).mem(
                            val,
                        ) {
                        let k = choose|k: int|
                            0 <= k < s1.children.len() && k != idx && (
                            #[trigger] s1.children[k]).mem(val);
                        if k < idx {
                            assert(s1.children[k].all_below(s1.keys[k]));
                            assert(val < s1.keys@[k]);
                            assert(s1.keys@[k] == orig.keys@[k]);
                            assert(orig.keys@[k] < orig.keys@[idx]);
                        } else {
                            assert(s1.children[k].all_above(s1.keys[k - 1]));
                            assert(val > s1.keys@[k - 1]);
                            assert(s1.keys@[k - 1] == orig.keys@[k]);
                            assert(orig.keys@[idx] < orig.keys@[k]);
                        }
                    } else if exists|k: int|
                        0 <= k < s1.keys.len() && k < s1.children.len() && s1.keys[k] == val {
                        let k = choose|k: int|
                            0 <= k < s1.keys.len() && k < s1.children.len() && s1.keys[k] == val;
                        let ko = if k < idx { k } else { k + 1 };
                        assert(s1.keys@[k] == orig.keys@[ko]);
                        assert(ko != idx);
                        if ko < idx {
                            assert(orig.keys@[ko] < orig.keys@[idx]);
                        } else {
                            assert(orig.keys@[idx] < orig.keys@[ko]);
                        }
                    }
                }
                assert forall|v: i32| #[trigger] fin.mem(v) <==> (orig.mem(v) && v != val) by {
                    assert(fin.mem(v) <==> fin.mem_sans_child(idx, v) || cb.mem(v));
                    assert(s1.mem(v) <==> s1.mem_sans_child(idx, v) || ca.mem(v));
                    assert(cb.mem(v) <==> ca.mem(v) && v != val);
                    assert(s1.mem(v) <==> orig.mem(v));
                }
                assert(cb.keys.len() >= mk);
                assert(idx < s1.keys.len() ==> cb.all_below(s1.keys@[idx])) by {
                    if idx < s1.keys.len() {
                        assert forall|v: i32| #[trigger] cb.mem(v) implies v < s1.keys@[idx] by {
                            assert(ca.mem(v));
                            assert(ca.all_below(s1.keys@[idx]));
                        }
                    }
                }
                assert(idx >= 1 ==> cb.all_above(s1.keys@[idx - 1])) by {
                    if idx >= 1 {
                        assert forall|v: i32| #[trigger] cb.mem(v) implies v > s1.keys@[idx
                            - 1] by {
                            assert(ca.mem(v));
                            assert(ca.all_above(s1.keys@[idx - 1]));
                        }
                    }
                }
                s1.lemma_parent_update_wf(fin, idx, mk, xk);
            }
            return r;
        }
        // The value is not at this node: strengthen and descend.
        proof {
            assert(idx >= 1 ==> orig.keys@[idx - 1] < val);
            assert(Node::routes_to(orig, idx, val));
        }
        let ci = self.ensure_child_remove(minkeys, maxkeys, index);
        let ghost s1 = *self;
        proof {
            assert(s1.wf(mk, xk));
            assert(s1.children@[ci as int].wf(mk, xk));
            assert(s1.children@[ci as int].height() + 1 == s1.height());
            assert(s1.children@[ci as int].keys.len() > minkeys);
        }
        let mut child = self.children.remove(ci);
        let r = child.remove_from(val, minkeys, maxkeys);
        self.children.insert(ci, child);
        proof {
            let fin = *self;
            let cidx = ci as int;
            let ca = s1.children@[cidx];
            let cb = fin.children@[cidx];
            assert(fin.children@ =~= s1.children@.update(cidx, cb));
            assert(fin.keys@ == s1.keys@);
            assert(forall|j: int|
                0 <= j < s1.children@.len() && j != cidx ==> fin.children@[j] == s1.children@[j]);
            assert(r == ca.mem(val));
            assert(ca.mem(val) <==> s1.mem(val));
            assert(s1.mem(val) <==> orig.mem(val));
            s1.lemma_mem_sans(cidx);
            fin.lemma_mem_sans(cidx);
            s1.lemma_mem_sans_congruent(fin, cidx);
            assert(!s1.mem_sans_child(cidx, val));
            assert forall|v: i32| #[trigger] fin.mem(v) <==> (orig.mem(v) && v != val) by {
                assert(fin.mem(v) <==> fin.mem_sans_child(cidx, v) || cb.mem(v));
                assert(s1.mem(v) <==> s1.mem_sans_child(cidx, v) || ca.mem(v));
                assert(cb.mem(v) <==> ca.mem(v) && v != val);
                assert(s1.mem(v) <==> orig.mem(v));
            }
            assert(cb.keys.len() >= mk);
            assert(cidx < s1.keys.len() ==> cb.all_below(s1.keys@[cidx])) by {
                if cidx < s1.keys.len() {
                    assert forall|v: i32| #[trigger] cb.mem(v) implies v < s1.keys@[cidx] by {
                        assert(ca.mem(v));
                        assert(ca.all_below(s1.keys@[cidx]));
                    }
                }
            }
            assert(cidx >= 1 ==> cb.all_above(s1.keys@[cidx - 1])) by {
                if cidx >= 1 {
                    assert forall|v: i32| #[trigger] cb.mem(v) implies v > s1.keys@[cidx - 1] by {
                        assert(ca.mem(v));
                        assert(ca.all_above(s1.keys@[cidx - 1]));
                    }
                }
            }
            s1.lemma_parent_update_wf(fin, cidx, mk, xk);
        }
        r
    }

    /// Recursive membership test, descending along the search index.
    fn contains_node(&self, val: i32, minkeys: usize, maxkeys: usize) -> (r: bool)
        requires
            self.wf(minkeys as int, maxkeys as int),
        ensures
            r == self.mem(val),
        decreases self.height(),
    {
        let (found, index) = self.search(val);
        if found {
            proof {
                if self.children.len() == 0 {
                    assert(self.keys@.contains(val)) by {
                        assert(self.keys@[index as int] == val);
                    }
                } else {
                    self.lemma_mem_iff(0);
                    assert(self.mem_at(index as int, val));
                    assert(index as int >= 0 && self.mem_at(index as int, val));
                    assert(self.mem_from(0, val));
                }
            }
            true
        } else if self.is_leaf() {
            false
        } else {
            proof {
                self.lemma_descend(minkeys as int, maxkeys as int, index as int, val);
                assert(self.children[index as int].height() + 1 == self.height());
            }
            self.children[index].contains_node(val, minkeys, maxkeys)
        }
    }

    /// The in-order sequence of a subtree is at least as long as its key
    /// range from `i` on.
    proof fn lemma_seq_from_len_lb(self, i: int)
        requires
            self.children.len() == self.keys.len() + 1,
            0 <= i,
        ensures
            self.seq_from(i).len() >= (if i <= self.keys.len() {
                self.keys.len() - i
            } else {
                0
            }),
        decreases self.children.len() - i,
    {
        if i < self.children.len() {
            self.lemma_seq_from_len_lb(i + 1);
        }
    }

    /// A well-formed subtree holds at least as many members as its root
    /// node holds keys.
    proof fn lemma_len_ge_keys(self, mink: int, maxk: int)
        requires
            self.wf(mink, maxk),
        ensures
            self.subtree_seq().len() >= self.keys.len(),
    {
        if self.children.len() > 0 {
            self.lemma_seq_from_len_lb(0);
        }
    }

    /// In a well-formed subtree whose nodes hold at least one key each, the
    /// height is bounded by the number of members.
    proof fn lemma_height_le_len(self, mink: int, maxk: int)
        requires
            self.wf(mink, maxk),
            1 <= mink,
            self.children.len() > 0 ==> self.keys.len() >= 1,
        ensures
            self.height() <= self.subtree_seq().len(),
        decreases self,
    {
        if self.children.len() > 0 {
            let c0 = self.children[0];
            assert(c0.wf(mink, maxk));
            assert(c0.keys.len() >= mink >= 1);
            c0.lemma_height_le_len(mink, maxk);
            assert(self.subtree_seq() == self.seq_from(0));
            assert(self.seq_from(0).len() >= c0.subtree_seq().len() + 1) by {
                assert(self.seq_from(0) == c0.subtree_seq() + seq![self.keys[0]] + self.seq_from(
                    1,
                ));
            }
        }
    }

    /// Appends the whole in-order sequence of this subtree to `out`.
    fn push_all(&self, minkeys: usize, maxkeys: usize, out: &mut Vec<i32>)
        requires
            self.wf(minkeys as int, maxkeys as int),
        ensures
            final(out)@ == old(out)@ + self.subtree_seq(),
        decreases self.height(), self.children.len() + 1int,
    {
        if self.is_leaf() {
            out.extend_from_slice(self.keys.as_slice());
        } else {
            self.push_from(minkeys, maxkeys, 0, out);
        }
    }

    /// Appends the in-order sequence of children and keys `i..` to `out`.
    fn push_from(&self, minkeys: usize, maxkeys: usize, i: usize, out: &mut Vec<i32>)
        requires
            self.wf(minkeys as int, maxkeys as int),
            self.children.len() > 0,
            i <= self.children.len(),
        ensures
            final(out)@ == old(out)@ + self.seq_from(i as int),
        decreases self.height(), self.children.len() - i,
    {
        if i == self.children.len() {
            proof {
                assert(old(out)@ + self.seq_from(i as int) =~= old(out)@);
            }
            return ;
        }
        proof {
            assert(self.children@[i as int].wf(minkeys as int, maxkeys as int));
            assert(self.children@[i as int].height() + 1 == self.height());
        }
        self.children[i].push_all(minkeys, maxkeys, out);
        if i < self.keys.len() {
            let k = self.keys[i];
            out.push(k);
        }
        self.push_from(minkeys, maxkeys, i + 1, out);
        proof {
            let idx = i as int;
            let c = self.children@[idx].subtree_seq();
            let mid: Seq<i32> = if idx < self.keys.len() {
                seq![self.keys[idx]]
            } else {
                Seq::empty()
            };
            assert(self.seq_from(idx) == c + mid + self.seq_from(idx + 1));
            assert(final(out)@ =~= old(out)@ + self.seq_from(idx));
        }
    }

    /// Checks this subtree against the expected depth, occupancy bounds and
    /// key ordering, returning its total key count, or `None` on any
    /// violation. On a well-formed subtree it always returns the count.
    #[verifier::rlimit(100)]
    fn check_node(
        &self,
        minkeys: usize,
        maxkeys: usize,
        isroot: bool,
        leafdepth: usize,
        lo: Option<i32>,
        hi: Option<i32>,
    ) -> (r: Option<usize>)
        requires
            self.wf(minkeys as int, maxkeys as int),
            1 <= minkeys,
            maxkeys as int == 2 * (minkeys as int) + 1,
            leafdepth == self.height(),
            !isroot ==> self.keys.len() >= minkeys,
            isroot ==> (self.children.len() > 0 ==> self.keys.len() >= 1),
            match lo {
                Some(b) => self.all_above(b),
                None => true,
            },
            match hi {
                Some(b) => self.all_below(b),
                None => true,
            },
            self.subtree_seq().len() <= usize::MAX,
        ensures
            r is Some,
            r->Some_0 == self.subtree_seq().len(),
        decreases self.height(),
    {
        let numkeys = self.keys.len();
        if self.is_leaf() != (leafdepth == 0) {
            return None;
        }
        if numkeys > maxkeys {
            proof {
                assert(false);
            }
            return None;
        }
        if isroot {
            if !(self.is_leaf() || numkeys > 0) {
                return None;
            }
        } else if numkeys < minkeys {
            proof {
                assert(false);
            }
            return None;
        }
        // Keys must be strictly ascending and lie inside the inherited range.
        let mut i: usize = 0;
        while i < numkeys
            invariant
                numkeys == self.keys.len(),
                self.wf(minkeys as int, maxkeys as int),
                match lo {
                    Some(b) => self.all_above(b),
                    None => true,
                },
                match hi {
                    Some(b) => self.all_below(b),
                    None => true,
                },
            decreases numkeys - i,
        {
            proof {
                self.lemma_key_member(i as int);
            }
            let k = self.keys[i];
            if i >= 1 {
                if self.keys[i - 1] >= k {
                    proof {
                        assert(false);
                    }
                    return None;
                }
            }
            match lo {
                Some(b) => {
                    if k <= b {
                        proof {
                            assert(false);
                        }
                        return None;
                    }
                },
                None => {},
            }
            match hi {
                Some(b) => {
                    if k >= b {
                        proof {
                            assert(false);
                        }
                        return None;
                    }
                },
                None => {},
            }
            i += 1;
        }
        if self.is_leaf() {
            return Some(numkeys);
        }
        if self.children.len() != numkeys + 1 {
            proof {
                assert(false);
            }
            return None;
        }
        let mut count = numkeys;
        let mut j: usize = 0;
        let nchildren = self.children.len();
        while j < nchildren
            invariant
                self.wf(minkeys as int, maxkeys as int),
                1 <= minkeys,
                maxkeys as int == 2 * (minkeys as int) + 1,
                leafdepth == self.height(),
                leafdepth >= 1,
                numkeys == self.keys.len(),
                nchildren == self.children.len(),
                nchildren == numkeys + 1,
                j <= nchildren,
                self.subtree_seq().len() <= usize::MAX,
                match lo {
                    Some(b) => self.all_above(b),
                    None => true,
                },
                match hi {
                    Some(b) => self.all_below(b),
                    None => true,
                },
                count as int == self.subtree_seq().len() - self.seq_from(j as int).len() + (
                if j <= numkeys {
                    numkeys - j as int
                } else {
                    0
                }),
            decreases nchildren - j,
        {
            let ghost jj = j as int;
            proof {
                assert(self.children@[jj].wf(minkeys as int, maxkeys as int));
                assert(self.children@[jj].height() + 1 == self.height());
                assert(self.children@[jj].keys.len() >= minkeys);
                // The child respects the bounds handed down to it.
                if jj > 0 {
                    assert(self.children@[jj].all_above(self.keys@[jj - 1]));
                } else {
                    match lo {
                        Some(b) => {
                            self.lemma_child_member(0);
                            assert forall|v: i32|
                                #[trigger] self.children@[0].mem(v) implies v > b by {
                                assert(self.mem(v));
                            }
                        },
                        None => {},
                    }
                }
                if jj < numkeys {
                    assert(self.children@[jj].all_below(self.keys@[jj]));
                } else {
                    match hi {
                        Some(b) => {
                            self.lemma_child_member(jj);
                            assert forall|v: i32|
                                #[trigger] self.children@[jj].mem(v) implies v < b by {
                                assert(self.mem(v));
                            }
                        },
                        None => {},
                    }
                }
                // The child's member count fits below the whole subtree's.
                assert(self.seq_from(jj) == self.children@[jj].subtree_seq() + (if jj
                    < self.keys.len() {
                    seq![self.keys@[jj]]
                } else {
                    Seq::empty()
                }) + self.seq_from(jj + 1));
                self.lemma_seq_from_len_lb(jj + 1);
            }
            let childlo: Option<i32> = if j > 0 {
                Some(self.keys[j - 1])
            } else {
                lo
            };
            let childhi: Option<i32> = if j < numkeys {
                Some(self.keys[j])
            } else {
                hi
            };
            let sub_opt = self.children[j].check_node(
                minkeys,
                maxkeys,
                false,
                leafdepth - 1,
                childlo,
                childhi,
            );
            let sub = match sub_opt {
                Some(s) => s,
                None => {
                    proof {
                        assert(false);
                    }
                    return None;
                },
            };
            count = count + sub;
            j += 1;
        }
        proof {
            assert(self.seq_from(nchildren as int).len() == 0);
        }
        Some(count)
    }
}

impl View for BTreeSet {
    type V = Seq<i32>;

    /// The ascending sequence of all members of the set.
    closed spec fn view(&self) -> Seq<i32> {
        self.root.subtree_seq()
    }
}

impl BTreeSet {
    /// Validity of the whole tree: derived key bounds are consistent, the
    /// root subtree is well formed, an internal root is never empty, and the
    /// stored size matches the member count.
    pub closed spec fn wf(self) -> bool {
        &&& 1 <= self.min_keys
        &&& self.max_keys as int == 2 * (self.min_keys as int) + 1
        &&& self.root.wf(self.min_keys as int, self.max_keys as int)
        &&& (self.root.children.len() > 0 ==> self.root.keys.len() >= 1)
        &&& self.size == self.view().len()
    }

    /// The configured minimum branching degree.
    pub closed spec fn spec_degree(self) -> int {
        self.min_keys as int + 1
    }

    /// The view of a well-formed set is strictly ascending; with members
    /// pairwise distinct, its length is the cardinality of the member set.
    pub proof fn lemma_view_sorted(self)
        requires
            self.wf(),
        ensures
            sorted_strict(self@),
    {
        self.root.lemma_main(self.min_keys as int, self.max_keys as int);
    }

    /// Creates an empty set. The degree is the minimum number of children
    /// of each non-root internal node; it must be at least 2 and small
    /// enough that `2 * degree - 1` keys can be counted.
    pub fn new(degree: usize) -> (r: Result<BTreeSet, SetError>)
        ensures
            match r {
                Ok(t) => {
                    &&& 2 <= degree
                    &&& 2 * (degree as int) - 1 <= usize::MAX
                    &&& t.wf()
                    &&& t@ == Seq::<i32>::empty()
                    &&& t.spec_degree() == degree
                },
                Err(e) => {
                    &&& e == SetError::InvalidConfiguration
                    &&& (degree < 2 || 2 * (degree as int) - 1 > usize::MAX)
                },
            },
    {
        if degree < 2 {
            return Err(SetError::InvalidConfiguration);
        }
        if degree - 1 > (usize::MAX - 1) / 2 {
            return Err(SetError::InvalidConfiguration);
        }
        let maxkeys = (degree - 1) * 2 + 1;
        let t = BTreeSet {
            root: Node::new(),
            size: 0,
            min_keys: degree - 1,
            max_keys: maxkeys,
        };
        Ok(t)
    }

    /// Whether the set holds no elements.
    pub fn is_empty(&self) -> (r: bool)
        requires
            self.wf(),
        ensures
            r == (self@.len() == 0),
    {
        self.size == 0
    }

    /// The number of elements stored.
    pub fn len(&self) -> (r: usize)
        requires
            self.wf(),
        ensures
            r == self@.len(),
    {
        self.size
    }

    /// Discards all elements, keeping the configured degree.
    pub fn clear(&mut self)
        requires
            old(self).wf(),
        ensures
            final(self).wf(),
            final(self)@ == Seq::<i32>::empty(),
            final(self).spec_degree() == old(self).spec_degree(),
    {
        self.root = Node::new();
        self.size = 0;
    }

    /// Adds `val` to the set. Returns `Ok(true)` if it was newly added,
    /// `Ok(false)` if it was already present, and fails with
    /// `CapacityExceeded` only when the element count cannot be represented.
    #[verifier::rlimit(100)]
    pub fn insert(&mut self, val: i32) -> (r: Result<bool, SetError>)
        requires
            old(self).wf(),
        ensures
            final(self).wf(),
            final(self).spec_degree() == old(self).spec_degree(),
            match r {
                Ok(true) => {
                    &&& !old(self)@.contains(val)
                    &&& old(self)@.len() < usize::MAX
                    &&& final(self)@ == seq_insert_sorted(old(self)@, val)
                    &&& final(self)@.len() == old(self)@.len() + 1
                },
                Ok(false) => {
                    &&& old(self)@.contains(val)
                    &&& final(self)@ == old(self)@
                },
                Err(e) => {
                    &&& e == SetError::CapacityExceeded
                    &&& !old(self)@.contains(val)
                    &&& old(self)@.len() == usize::MAX
                    &&& final(self)@ == old(self)@
                },
            },
    {
        let ghost orig = *old(self);
        let ghost mk = self.min_keys as int;
        let ghost xk = self.max_keys as int;
        proof {
            orig.root.lemma_main(mk, xk);
            lemma_insert_sorted_props(orig@, val);
        }
        if self.size == usize::MAX {
            if self.contains(val) {
                return Ok(false);
            }
            return Err(SetError::CapacityExceeded);
        }
        if self.root.keys.len() == self.max_keys {
            // Grow the tree by one level, then split the old root.
            let mut newroot = Node::new();
            std::mem::swap(&mut self.root, &mut newroot);
            self.root.children.push(newroot);
            proof {
                let r1 = self.root;
                assert(r1.keys@ =~= Seq::<i32>::empty());
                assert(r1.children@ =~= seq![orig.root]);
                assert(r1.children@[0] == orig.root);
                assert(sorted_strict(r1.keys@));
                assert(r1.wf(mk, xk));
                r1.lemma_mem_iff(0);
                assert forall|v: i32| #[trigger] r1.mem(v) <==> orig.root.mem(v) by {
                    if r1.mem(v) {
                        assert(r1.mem_from(0, v));
                        let k = choose|k: int| k >= 0 && r1.mem_at(k, v);
                        assert(k == 0);
                    }
                    if orig.root.mem(v) {
                        assert(0 >= 0 && r1.mem_at(0, v));
                        assert(r1.mem_from(0, v));
                    }
                }
                assert(r1.height() == orig.root.height() + 1);
            }
            self.root.split_child(self.min_keys, self.max_keys, 0);
            proof {
                assert(self.root.keys.len() == 1);
                assert(forall|v: i32| #[trigger] self.root.mem(v) <==> orig.root.mem(v));
            }
        }
        proof {
            assert(self.root.keys.len() < self.max_keys);
            assert(forall|v: i32| #[trigger] self.root.mem(v) <==> orig.root.mem(v));
        }
        let added = self.root.insert_nonfull(val, self.min_keys, self.max_keys);
        if added {
            self.size = self.size + 1;
        }
        proof {
            let fin = *self;
            fin.root.lemma_main(mk, xk);
            assert(forall|v: i32| #[trigger] fin.root.mem(v) <==> orig.root.mem(v) || v == val);
            assert(added == !orig.root.mem(val));
            assert(orig@.contains(val) == orig.root.mem(val));
            if added {
                assert forall|v: i32| #[trigger] fin@.contains(v) <==> seq_insert_sorted(
                    orig@,
                    val,
                ).contains(v) by {
                    assert(fin@.contains(v) <==> fin.root.mem(v));
                    assert(orig@.contains(v) <==> orig.root.mem(v));
                    assert(seq_insert_sorted(orig@, val).contains(v) <==> orig@.contains(v) || v
                        == val);
                    assert(fin.root.mem(v) <==> orig.root.mem(v) || v == val);
                }
                lemma_sorted_unique(fin@, seq_insert_sorted(orig@, val));
                assert(fin@.len() == orig@.len() + 1);
            } else {
                assert forall|v: i32| #[trigger] fin@.contains(v) <==> orig@.contains(v) by {
                    assert(fin@.contains(v) <==> fin.root.mem(v));
                    assert(fin.root.mem(v) <==> orig.root.mem(v) || v == val);
                    assert(orig.root.mem(val));
                }
                lemma_sorted_unique(fin@, orig@);
            }
            // The root-nonempty invariant: the root's key list never shrinks
            // during an insert, and a fresh internal root gains one key.
            assert(fin.root.children.len() > 0 ==> fin.root.keys.len() >= 1);
        }
        Ok(added)
    }

    /// Removes `val` from the set. Returns whether it was present.
    #[verifier::rlimit(100)]
    pub fn remove(&mut self, val: i32) -> (r: bool)
        requires
            old(self).wf(),
        ensures
            final(self).wf(),
            final(self).spec_degree() == old(self).spec_degree(),
            r == old(self)@.contains(val),
            final(self)@ == seq_remove_sorted(old(self)@, val),
            final(self)@.len() == old(self)@.len() - (if old(self)@.contains(val) {
                1int
            } else {
                0
            }),
    {
        let ghost orig = *old(self);
        let ghost mk = self.min_keys as int;
        let ghost xk = self.max_keys as int;
        proof {
            orig.root.lemma_main(mk, xk);
            lemma_remove_sorted_props(orig@, val);
        }
        let result = self.root.remove_from(val, self.min_keys, self.max_keys);
        if result {
            proof {
                assert(orig.root.mem(val));
                assert(orig@.contains(val));
                assert(orig@.len() >= 1);
            }
            self.size = self.size - 1;
        }
        if self.root.keys.len() == 0 && !self.root.is_leaf() {
            // The root ran empty: its single child becomes the new root.
            let ghost r0 = self.root;
            proof {
                assert(r0.wf(mk, xk));
                assert(r0.children.len() == 1);
                r0.lemma_mem_iff(0);
                assert forall|v: i32| #[trigger] r0.mem(v) <==> r0.children@[0].mem(v) by {
                    if r0.mem(v) {
                        assert(r0.mem_from(0, v));
                        let k = choose|k: int| k >= 0 && r0.mem_at(k, v);
                        assert(k == 0);
                        assert(r0.children@[0].mem(v));
                    }
                    if r0.children@[0].mem(v) {
                        assert(0 >= 0 && r0.mem_at(0, v));
                        assert(r0.mem_from(0, v));
                    }
                }
                assert(r0.children@[0].wf(mk, xk));
                assert(r0.children@[0].keys.len() >= mk);
            }
            let newroot_opt = self.root.children.pop();
            let newroot = newroot_opt.unwrap();
            self.root = newroot;
            proof {
                assert forall|v: i32| #[trigger] self.root.mem(v) <==> (orig.root.mem(v) && v
                    != val) by {
                    assert(self.root == r0.children@[0]);
                    assert(r0.mem(v) <==> r0.children@[0].mem(v));
                }
            }
        } else {
            proof {
                assert(forall|v: i32|
                    #[trigger] self.root.mem(v) <==> (orig.root.mem(v) && v != val));
            }
        }
        proof {
            let fin = *self;
            fin.root.lemma_main(mk, xk);
            assert(forall|v: i32| #[trigger] fin.root.mem(v) <==> (orig.root.mem(v) && v != val));
            assert forall|v: i32| #[trigger] fin@.contains(v) <==> seq_remove_sorted(
                orig@,
                val,
            ).contains(v) by {
                assert(fin@.contains(v) <==> fin.root.mem(v));
                assert(orig@.contains(v) <==> orig.root.mem(v));
                assert(seq_remove_sorted(orig@, val).contains(v) <==> orig@.contains(v) && v
                    != val);
            }
            lemma_sorted_unique(fin@, seq_remove_sorted(orig@, val));
            assert(result == orig@.contains(val)) by {
                assert(result == orig.root.mem(val));
            }
            assert(fin@.len() == orig@.len() - (if orig@.contains(val) {
                1int
            } else {
                0
            }));
            // An internal root keeps at least one key: the collapse above
            // removed the only case where it could run empty.
            assert(fin.root.children.len() > 0 ==> fin.root.keys.len() >= 1);
        }
        result
    }

    /// Whether `val` is a member of the set.
    pub fn contains(&self, val: i32) -> (r: bool)
        requires
            self.wf(),
        ensures
            r == self@.contains(val),
    {
        proof {
            self.root.lemma_main(self.min_keys as int, self.max_keys as int);
        }
        self.root.contains_node(val, self.min_keys, self.max_keys)
    }

    /// An iterator over the members in ascending order, reflecting the
    /// tree's state at the time of its creation.
    pub fn iter(&self) -> (it: Iter)
        requires
            self.wf(),
        ensures
            it.wf(),
            it.remaining() == self@,
    {
        let mut items: Vec<i32> = Vec::new();
        self.root.push_all(self.min_keys, self.max_keys, &mut items);
        proof {
            assert(items@ =~= self@);
        }
        let it = Iter { items, pos: 0 };
        proof {
            assert(it.remaining() =~= self@);
        }
        it
    }

    /// Verifies the structural invariants of the whole tree: uniform leaf
    /// depth, occupancy bounds, strict key ordering within the inherited
    /// ranges, and agreement between the stored size and the key count.
    /// Returns whether every check passed; on a valid tree it always does.
    pub fn check_structure(&self) -> (ok: bool)
        requires
            self.wf(),
        ensures
            ok,
    {
        let ghost mk = self.min_keys as int;
        let ghost xk = self.max_keys as int;
        proof {
            assert(self.root.wf(mk, xk));
            self.root.lemma_len_ge_keys(mk, xk);
        }
        // Size and root-node shape.
        if self.size <= self.min_keys * 2 {
            if !self.root.is_leaf() {
                proof {
                    // An internal root has one key and two half-full
                    // children, so the size bound cannot hold.
                    let c0 = self.root.children@[0];
                    let c1 = self.root.children@[1];
                    assert(c0.wf(mk, xk) && c1.wf(mk, xk));
                    c0.lemma_len_ge_keys(mk, xk);
                    c1.lemma_len_ge_keys(mk, xk);
                    assert(self.root.subtree_seq() == self.root.seq_from(0));
                    assert(self.root.seq_from(0) == c0.subtree_seq() + seq![self.root.keys@[0]]
                        + self.root.seq_from(1));
                    assert(self.root.seq_from(1).len() >= c1.subtree_seq().len()) by {
                        if self.root.children.len() == 2 {
                            assert(self.root.seq_from(1) == c1.subtree_seq() + Seq::<
                                i32,
                            >::empty() + self.root.seq_from(2));
                        } else {
                            assert(self.root.seq_from(1) == c1.subtree_seq() + seq![
                                self.root.keys@[1]
                            ] + self.root.seq_from(2));
                        }
                    }
                    assert(false);
                }
                return false;
            }
            if self.root.keys.len() != self.size {
                proof {
                    assert(false);
                }
                return false;
            }
        } else if self.size > self.max_keys {
            if self.root.is_leaf() {
                proof {
                    assert(false);
                }
                return false;
            }
        }
        // Measure the leaf depth along the leftmost path.
        proof {
            self.root.lemma_height_le_len(mk, xk);
        }
        let mut height: usize = 0;
        let mut node: &Node = &self.root;
        while !node.is_leaf()
            invariant
                node.wf(mk, xk),
                1 <= mk,
                node.height() + height == self.root.height(),
                self.root.height() <= usize::MAX,
            decreases node.height(),
        {
            proof {
                assert(node.children@[0].wf(mk, xk));
                assert(node.children@[0].height() + 1 == node.height());
            }
            height = height + 1;
            node = &node.children[0];
        }
        proof {
            assert(height == self.root.height());
        }
        // Check every node recursively and compare the total count.
        let total_opt = self.root.check_node(
            self.min_keys,
            self.max_keys,
            true,
            height,
            None,
            None,
        );
        match total_opt {
            Some(total) => total == self.size,
            None => {
                proof {
                    assert(false);
                }
                false
            },
        }
    }
}

/// A value just inserted is a member of the resulting view. Together with
/// `insert`'s contract this pins the repeated-insert behaviour: the second
/// of two consecutive inserts of the same value must return `Ok(false)`
/// and leave the set unchanged.
pub proof fn lemma_insert_then_present(s: Seq<i32>, val: i32)
    requires
        sorted_strict(s),
    ensures
        seq_insert_sorted(s, val).contains(val),
{
    lemma_insert_sorted_props(s, val);
}

/// A value just removed is no longer a member. Together with `remove`'s
/// contract this pins the repeated-remove behaviour: the second of two
/// consecutive removals of the same value must return `false`.
pub proof fn lemma_remove_then_absent(s: Seq<i32>, val: i32)
    requires
        sorted_strict(s),
    ensures
        !seq_remove_sorted(s, val).contains(val),
{
    lemma_remove_sorted_props(s, val);
}

/// Removing an absent value leaves the view unchanged, which is the other
/// half of the repeated-remove law.
pub proof fn lemma_remove_absent_identity(s: Seq<i32>, val: i32)
    requires
        sorted_strict(s),
        !s.contains(val),
    ensures
        seq_remove_sorted(s, val) == s,
{
    lemma_remove_sorted_props(s, val);
    lemma_sorted_unique(seq_remove_sorted(s, val), s);
}

/// An iterator over the members of a `BTreeSet`, yielding them in strictly
/// ascending order. It captures the membership at creation time; the set
/// itself is not borrowed while the iterator is consumed.
pub struct Iter {
    items: Vec<i32>,
    pos: usize,
}

impl Iter {
    /// The sequence of elements not yet yielded.
    pub closed spec fn remaining(self) -> Seq<i32> {
        self.items@.skip(self.pos as int)
    }

    /// The cursor never runs past the snapshot.
    pub closed spec fn wf(self) -> bool {
        self.pos <= self.items@.len()
    }

    /// Yields the next element, or `None` once all members are exhausted.
    pub fn next(&mut self) -> (r: Option<i32>)
        requires
            old(self).wf(),
        ensures
            final(self).wf(),
            match r {
                Some(v) => {
                    &&& old(self).remaining().len() > 0
                    &&& v == old(self).remaining()[0]
                    &&& final(self).remaining() == old(self).remaining().drop_first()
                },
                None => {
                    &&& old(self).remaining().len() == 0
                    &&& final(self).remaining() == old(self).remaining()
                },
            },
    {
        if self.pos < self.items.len() {
            let v = self.items[self.pos];
            self.pos = self.pos + 1;
            proof {
                assert(final(self).remaining() =~= old(self).remaining().drop_first());
            }
            Some(v)
        } else {
            None
        }
    }

    /// How many elements are left to yield.
    pub fn remaining_len(&self) -> (n: usize)
        requires
            self.wf(),
        ensures
            n == self.remaining().len(),
    {
        self.items.len() - self.pos
    }
}

} // verus!
