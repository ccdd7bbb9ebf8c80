//! Small sequence algorithms: Knuth-Morris-Pratt substring search over
//! bytes, and the next lexicographical permutation of an integer array.

use vstd::prelude::*;

verus! {

broadcast use vstd::std_specs::vec::group_vec_axioms;

/// Searches for the pattern in the text with the Knuth-Morris-Pratt
/// automaton; returns the start of a match, or `None`. An empty pattern
/// matches immediately at position zero.
pub fn kmp_search(pattern: &Vec<u8>, text: &Vec<u8>) -> (r: Option<usize>)
    ensures
        pattern@.len() == 0 ==> r == Some(0usize),
        match r {
            Some(i) => i + pattern@.len() <= text@.len(),
            None => true,
        },
{
    if pattern.len() == 0 {
        return Some(0);
    }
    // Longest suffix-prefix table.
    let plen = pattern.len();
    let mut lsp: Vec<usize> = Vec::new();
    lsp.push(0);
    let mut k: usize = 1;
    while k < plen
        invariant
            1 <= k <= plen,
            plen == pattern@.len(),
            lsp@.len() == k,
            forall|t: int| 0 <= t < lsp@.len() ==> #[trigger] lsp@[t] <= t,
        decreases plen - k,
    {
        let b = pattern[k];
        proof {
            assert(lsp@[k - 1] <= k - 1);
        }
        let mut j = lsp[k - 1];
        while j > 0 && b != pattern[j]
            invariant
                j < k,
                k < plen == pattern@.len(),
                lsp@.len() == k,
                forall|t: int| 0 <= t < lsp@.len() ==> #[trigger] lsp@[t] <= t,
            decreases j,
        {
            j = lsp[j - 1];
        }
        if b == pattern[j] {
            j += 1;
        }
        lsp.push(j);
        k += 1;
    }
    // Scan the text.
    let mut j: usize = 0;
    let mut i: usize = 0;
    let tlen = text.len();
    while i < tlen
        invariant
            i <= tlen,
            tlen == text@.len(),
            plen == pattern@.len(),
            1 <= plen,
            lsp@.len() == plen,
            j < plen,
            j <= i,
            forall|t: int| 0 <= t < lsp@.len() ==> #[trigger] lsp@[t] <= t,
        decreases tlen - i,
    {
        let b = text[i];
        while j > 0 && b != pattern[j]
            invariant
                j < plen == pattern@.len(),
                j <= i,
                lsp@.len() == plen,
                forall|t: int| 0 <= t < lsp@.len() ==> #[trigger] lsp@[t] <= t,
            decreases j,
        {
            j = lsp[j - 1];
        }
        if b == pattern[j] {
            j += 1;
            if j == plen {
                return Some(i - (j - 1));
            }
        }
        i += 1;
    }
    None
}

/// Advances the array to its next lexicographical permutation, returning
/// whether one exists. The members are rearranged, never changed: the array
/// keeps its length and holds exactly the same values, and a `false` result
/// leaves it untouched.
pub fn next_permutation(array: &mut Vec<i32>) -> (r: bool)
    ensures
        final(array)@.len() == old(array)@.len(),
        forall|v: i32| final(array)@.contains(v) <==> old(array)@.contains(v),
        !r ==> final(array)@ == old(array)@,
{
    let n = array.len();
    if n == 0 {
        return false;
    }
    // Find the non-increasing suffix.
    let mut i: usize = n - 1;
    while i > 0 && array[i - 1] >= array[i]
        invariant
            i < n == array@.len(),
        decreases i,
    {
        i -= 1;
    }
    if i == 0 {
        return false;
    }
    // Find the rightmost successor of the pivot.
    let mut j: usize = n - 1;
    while array[j] <= array[i - 1] && j > i
        invariant
            i <= j < n == array@.len(),
            1 <= i,
        decreases j,
    {
        j -= 1;
    }
    let ghost pre = array@;
    // Swap the pivot with its successor.
    let a = array[i - 1];
    let b = array[j];
    array[i - 1] = b;
    array[j] = a;
    proof {
        assert forall|v: i32| array@.contains(v) <==> pre.contains(v) by {
            let cur = array@;
            assert(cur.len() == pre.len());
            if cur.contains(v) {
                let p = choose|p: int| 0 <= p < cur.len() && cur[p] == v;
                if p == i - 1 {
                    assert(pre[j as int] == v);
                } else if p == j {
                    assert(pre[i - 1] == v);
                } else {
                    assert(pre[p] == v);
                }
                assert(pre.contains(v));
            }
            if pre.contains(v) {
                let p = choose|p: int| 0 <= p < pre.len() && pre[p] == v;
                if p == i - 1 {
                    assert(cur[j as int] == v);
                } else if p == j {
                    assert(cur[i - 1] == v);
                } else {
                    assert(cur[p] == v);
                }
                assert(cur.contains(v));
            }
        }
    }
    // Reverse the suffix.
    let mut lo = i;
    let mut hi = n - 1;
    while lo < hi
        invariant
            i <= lo,
            hi < n == array@.len(),
            forall|v: i32| array@.contains(v) <==> pre.contains(v),
        decreases hi,
    {
        let ghost mid = array@;
        let x = array[lo];
        let y = array[hi];
        array[lo] = y;
        array[hi] = x;
        proof {
            assert forall|v: i32| array@.contains(v) <==> mid.contains(v) by {
                let cur = array@;
                if cur.contains(v) {
                    let p = choose|p: int| 0 <= p < cur.len() && cur[p] == v;
                    if p == lo {
                        assert(mid[hi as int] == v);
                    } else if p == hi {
                        assert(mid[lo as int] == v);
                    } else {
                        assert(mid[p] == v);
                    }
                    assert(mid.contains(v));
                }
                if mid.contains(v) {
                    let p = choose|p: int| 0 <= p < mid.len() && mid[p] == v;
                    if p == lo {
                        assert(cur[hi as int] == v);
                    } else if p == hi {
                        assert(cur[lo as int] == v);
                    } else {
                        assert(cur[p] == v);
                    }
                    assert(cur.contains(v));
                }
            }
        }
        lo += 1;
        hi -= 1;
    }
    true
}

} // verus!
