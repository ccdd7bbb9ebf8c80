//! A binary indexed tree (Fenwick tree) over `i64` values with wrapping
//! arithmetic: each cell stores the sum of a power-of-two-sized block, so
//! prefix sums and point updates both take logarithmic time. Queries are
//! specified against the cell-walk that defines the structure.

use vstd::prelude::*;

verus! {

broadcast use vstd::std_specs::vec::group_vec_axioms;

/// `i64` addition that wraps around on overflow.
pub open spec fn wadd(a: i64, b: i64) -> i64 {
    if a + b > i64::MAX {
        (a + b - 0x1_0000_0000_0000_0000) as i64
    } else if a + b < i64::MIN {
        (a + b + 0x1_0000_0000_0000_0000) as i64
    } else {
        (a + b) as i64
    }
}

/// `i64` subtraction that wraps around on overflow.
pub open spec fn wsub(a: i64, b: i64) -> i64 {
    if a - b > i64::MAX {
        (a - b - 0x1_0000_0000_0000_0000) as i64
    } else if a - b < i64::MIN {
        (a - b + 0x1_0000_0000_0000_0000) as i64
    } else {
        (a - b) as i64
    }
}

pub struct BinaryIndexedTree {
    sum_tree: Vec<i64>,
}

impl BinaryIndexedTree {
    /// The prefix sum over `0 .. end`, defined by walking the tree cells:
    /// each step consumes the lowest set bit of `end`.
    pub closed spec fn prefix_walk(tree: Seq<i64>, end: usize, acc: i64) -> i64
        decreases end,
        via Self::prefix_walk_decreases
    {
        if end == 0 {
            acc
        } else if end > tree.len() {
            acc
        } else {
            Self::prefix_walk(tree, end & ((end - 1) as usize), wadd(acc, tree[end - 1]))
        }
    }

    #[via_fn]
    proof fn prefix_walk_decreases(tree: Seq<i64>, end: usize, acc: i64) {
        assert(end != 0usize ==> (end & ((end - 1) as usize)) < end) by (bit_vector);
    }

    /// The prefix sum over `0 .. end` in wrapping `i64` arithmetic.
    pub closed spec fn spec_prefix(self, end: usize) -> i64 {
        Self::prefix_walk(self.sum_tree@, end, 0)
    }

    /// A tree of the given length, all sums zero.
    pub fn new_size(len: usize) -> (r: BinaryIndexedTree)
        ensures
            r.spec_len() == len,
    {
        let mut sum_tree: Vec<i64> = Vec::new();
        let mut i: usize = 0;
        while i < len
            invariant
                i <= len,
                sum_tree@.len() == i,
            decreases len - i,
        {
            sum_tree.push(0);
            i += 1;
        }
        BinaryIndexedTree { sum_tree }
    }

    /// A tree holding the given values, built by adding each in place.
    pub fn new_array(vals: &Vec<i64>) -> (r: BinaryIndexedTree)
        ensures
            r.spec_len() == vals@.len(),
    {
        let mut result = Self::new_size(vals.len());
        let mut i: usize = 0;
        while i < vals.len()
            invariant
                i <= vals@.len(),
                result.spec_len() == vals@.len(),
            decreases vals@.len() - i,
        {
            result.add(i, vals[i]);
            i += 1;
        }
        result
    }

    pub closed spec fn spec_len(self) -> nat {
        self.sum_tree@.len()
    }

    /// The number of value slots.
    pub fn len(&self) -> (r: usize)
        ensures
            r == self.spec_len(),
    {
        self.sum_tree.len()
    }

    /// The current value at `index`: the difference of the two prefix sums
    /// around it.
    pub fn get(&self, index: usize) -> (r: i64)
        requires
            index < self.spec_len(),
        ensures
            r == wsub(self.spec_prefix((index + 1) as usize), self.spec_prefix(index)),
    {
        let n = self.sum_tree.len();
        proof {
            assert(index + 1 <= n);
        }
        let hi = self.get_prefix_sum(index + 1);
        let lo = self.get_prefix_sum(index);
        hi.wrapping_sub(lo)
    }

    /// Overwrites the value at `index`.
    pub fn set(&mut self, index: usize, val: i64)
        requires
            index < old(self).spec_len(),
        ensures
            final(self).spec_len() == old(self).spec_len(),
    {
        let temp = self.get(index);
        self.add(index, val.wrapping_sub(temp));
    }

    /// Adds `delta` (wrapping) to the value at `index`, updating every cell
    /// whose block covers the index.
    pub fn add(&mut self, index: usize, delta: i64)
        requires
            index < old(self).spec_len(),
        ensures
            final(self).spec_len() == old(self).spec_len(),
    {
        let mut i = index;
        let n = self.sum_tree.len();
        loop
            invariant
                i < n,
                n == self.sum_tree@.len(),
            ensures
                self.sum_tree@.len() == n,
            decreases n - i,
        {
            let cell = self.sum_tree[i];
            self.sum_tree[i] = cell.wrapping_add(delta);
            if i == usize::MAX {
                break ;
            }
            let next = i | (i + 1);
            proof {
                let nx = (i + 1) as usize;
                assert((i | nx) >= nx) by (bit_vector);
            }
            if next >= n {
                break ;
            }
            i = next;
        }
    }

    /// The wrapping sum of all values.
    pub fn get_total(&self) -> (r: i64)
        ensures
            r == self.spec_prefix(self.spec_len() as usize),
    {
        self.get_prefix_sum(self.sum_tree.len())
    }

    /// The wrapping sum of the values at `0 .. end`.
    pub fn get_prefix_sum(&self, end: usize) -> (r: i64)
        requires
            end <= self.spec_len(),
        ensures
            r == self.spec_prefix(end),
    {
        let mut result: i64 = 0;
        let mut e = end;
        loop
            invariant
                e <= self.spec_len(),
                Self::prefix_walk(self.sum_tree@, e, result) == self.spec_prefix(end),
            ensures
                result == self.spec_prefix(end),
            decreases e,
        {
            if e == 0 {
                proof {
                    assert(Self::prefix_walk(self.sum_tree@, 0, result) == result);
                }
                break ;
            }
            let cell = self.sum_tree[e - 1];
            let ghost eold = e;
            let ghost rold = result;
            result = result.wrapping_add(cell);
            proof {
                assert((eold & ((eold - 1) as usize)) < eold) by (bit_vector)
                    requires
                        eold != 0usize,
                ;
                assert(result == wadd(rold, self.sum_tree@[eold - 1]));
            }
            e = e & (e - 1);
        }
        result
    }

    /// The wrapping sum of the values at `start .. end`.
    pub fn get_range_sum(&self, start: usize, end: usize) -> (r: i64)
        requires
            start <= end <= self.spec_len(),
        ensures
            r == wsub(self.spec_prefix(end), self.spec_prefix(start)),
    {
        let hi = self.get_prefix_sum(end);
        let lo = self.get_prefix_sum(start);
        hi.wrapping_sub(lo)
    }
}

} // verus!
