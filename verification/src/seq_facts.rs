//! Shared facts about sequences of integers: strict sortedness, membership
//! under concatenation, and the sorted-insert / sorted-remove model used by
//! the ordered-set containers.

use vstd::prelude::*;

verus! {

/// A sequence is strictly ascending: every element is smaller than the next.
pub open spec fn sorted_strict(s: Seq<i32>) -> bool {
    forall|i: int, j: int| 0 <= i < j < s.len() ==> s[i] < s[j]
}

/// Every element of `s` lies strictly below `b`.
pub open spec fn seq_below(s: Seq<i32>, b: i32) -> bool {
    forall|i: int| 0 <= i < s.len() ==> s[i] < b
}

/// Every element of `s` lies strictly above `b`.
pub open spec fn seq_above(s: Seq<i32>, b: i32) -> bool {
    forall|i: int| 0 <= i < s.len() ==> s[i] > b
}

/// The model of inserting into a strictly ascending sequence: the value is
/// placed before the first larger element, and a duplicate leaves the
/// sequence unchanged.
pub open spec fn seq_insert_sorted(s: Seq<i32>, v: i32) -> Seq<i32>
    decreases s.len(),
{
    if s.len() == 0 {
        seq![v]
    } else if v < s[0] {
        seq![v] + s
    } else if v == s[0] {
        s
    } else {
        seq![s[0]] + seq_insert_sorted(s.drop_first(), v)
    }
}

/// The model of removing from a strictly ascending sequence: the single
/// occurrence of the value disappears, and an absent value changes nothing.
pub open spec fn seq_remove_sorted(s: Seq<i32>, v: i32) -> Seq<i32>
    decreases s.len(),
{
    if s.len() == 0 {
        Seq::empty()
    } else if v == s[0] {
        s.drop_first()
    } else {
        seq![s[0]] + seq_remove_sorted(s.drop_first(), v)
    }
}

/// Membership in a concatenation splits into membership in either part.
pub proof fn lemma_concat_contains(a: Seq<i32>, b: Seq<i32>, x: i32)
    ensures
        (a + b).contains(x) <==> a.contains(x) || b.contains(x),
{
    if a.contains(x) {
        let i = choose|i: int| 0 <= i < a.len() && a[i] == x;
        assert((a + b)[i] == x);
    }
    if b.contains(x) {
        let i = choose|i: int| 0 <= i < b.len() && b[i] == x;
        assert((a + b)[i + a.len()] == x);
    }
    if (a + b).contains(x) {
        let i = choose|i: int| 0 <= i < (a + b).len() && (a + b)[i] == x;
        if i < a.len() {
            assert(a[i] == x);
        } else {
            assert(b[i - a.len()] == x);
        }
    }
}

/// Concatenating sorted parts separated by a middle key stays sorted.
pub proof fn lemma_sorted_concat(a: Seq<i32>, m: i32, b: Seq<i32>)
    requires
        sorted_strict(a),
        sorted_strict(b),
        seq_below(a, m),
        seq_above(b, m),
    ensures
        sorted_strict(a + seq![m] + b),
{
    let c = a + seq![m] + b;
    assert forall|i: int, j: int| 0 <= i < j < c.len() implies c[i] < c[j] by {
        if j < a.len() {
        } else if j == a.len() {
            assert(c[i] == a[i]);
        } else {
            assert(c[j] == b[j - a.len() - 1]);
            if i < a.len() {
                assert(c[i] == a[i]);
                assert(c[i] < m);
            } else if i == a.len() {
                assert(c[i] == m);
            } else {
                assert(c[i] == b[i - a.len() - 1]);
            }
        }
    }
}

/// Inserting a value between its neighbours keeps a sequence strictly
/// ascending.
pub proof fn lemma_sorted_insert_mid(s: Seq<i32>, i: int, x: i32)
    requires
        sorted_strict(s),
        0 <= i <= s.len(),
        i > 0 ==> s[i - 1] < x,
        i < s.len() ==> x < s[i],
    ensures
        sorted_strict(s.insert(i, x)),
{
    let r = s.insert(i, x);
    assert forall|p: int, q: int| 0 <= p < q < r.len() implies r[p] < r[q] by {
        if p < i && q < i {
            assert(r[p] == s[p] && r[q] == s[q]);
        } else if p < i && q == i {
            assert(r[p] == s[p]);
            assert(s[p] <= s[i - 1]);
        } else if p < i && q > i {
            assert(r[p] == s[p] && r[q] == s[q - 1]);
            assert(s[p] <= s[i - 1]);
            assert(x < s[i] || q - 1 == i);
            assert(s[i] <= s[q - 1] || q - 1 == i);
            assert(s[q - 1] >= s[i]);
        } else if p == i {
            assert(r[q] == s[q - 1]);
            assert(s[i] <= s[q - 1]);
        } else {
            assert(r[p] == s[p - 1] && r[q] == s[q - 1]);
        }
    }
}

/// Two strictly ascending sequences with the same members are equal.
pub proof fn lemma_sorted_unique(a: Seq<i32>, b: Seq<i32>)
    requires
        sorted_strict(a),
        sorted_strict(b),
        forall|v: i32| a.contains(v) <==> b.contains(v),
    ensures
        a == b,
    decreases a.len(),
{
    if a.len() == 0 {
        if b.len() > 0 {
            assert(b.contains(b[0]));
            assert(false);
        }
        assert(a =~= b);
    } else {
        assert(a.contains(a[0]));
        assert(b.len() > 0) by {
            assert(b.contains(a[0]));
        }
        // Both head elements are the minimum of the common member set.
        assert(b.contains(a[0]));
        assert(a.contains(b[0]));
        let ia = choose|i: int| 0 <= i < a.len() && a[i] == b[0];
        let ib = choose|i: int| 0 <= i < b.len() && b[i] == a[0];
        assert(a[0] <= a[ia]);
        assert(b[0] <= b[ib]);
        assert(a[0] == b[0]);
        let at = a.drop_first();
        let bt = b.drop_first();
        assert forall|v: i32| at.contains(v) implies bt.contains(v) by {
            let i = choose|i: int| 0 <= i < at.len() && at[i] == v;
            assert(a[i + 1] == v);
            assert(a[0] < v);
            assert(b.contains(v));
            let j = choose|j: int| 0 <= j < b.len() && b[j] == v;
            assert(j != 0);
            assert(bt[j - 1] == v);
        }
        assert forall|v: i32| bt.contains(v) implies at.contains(v) by {
            let i = choose|i: int| 0 <= i < bt.len() && bt[i] == v;
            assert(b[i + 1] == v);
            assert(b[0] < v);
            assert(a.contains(v));
            let j = choose|j: int| 0 <= j < a.len() && a[j] == v;
            assert(j != 0);
            assert(at[j - 1] == v);
        }
        lemma_sorted_unique(at, bt);
        assert(a.len() == b.len());
        assert forall|i: int| 0 <= i < a.len() implies a[i] == b[i] by {
            if i > 0 {
                assert(a[i] == at[i - 1]);
                assert(b[i] == bt[i - 1]);
            }
        }
        assert(a =~= b);
    }
}

/// What `seq_insert_sorted` yields: sortedness, membership, and length.
pub proof fn lemma_insert_sorted_props(s: Seq<i32>, v: i32)
    requires
        sorted_strict(s),
    ensures
        sorted_strict(seq_insert_sorted(s, v)),
        forall|x: i32| seq_insert_sorted(s, v).contains(x) <==> s.contains(x) || x == v,
        seq_insert_sorted(s, v).len() == s.len() + (if s.contains(v) { 0int } else { 1 }),
    decreases s.len(),
{
    let r = seq_insert_sorted(s, v);
    if s.len() == 0 {
        assert(r =~= seq![v]);
        assert(r.contains(v)) by {
            assert(r[0] == v);
        }
        assert forall|x: i32| r.contains(x) implies s.contains(x) || x == v by {
            let i = choose|i: int| 0 <= i < r.len() && r[i] == x;
        }
    } else if v < s[0] {
        assert(r =~= seq![v] + s);
        assert forall|x: i32| #[trigger] r.contains(x) implies s.contains(x) || x == v by {
            let i = choose|i: int| 0 <= i < r.len() && r[i] == x;
            if i > 0 {
                assert(s[i - 1] == x);
            }
        }
        assert forall|x: i32| s.contains(x) || x == v implies #[trigger] r.contains(x) by {
            if x == v {
                assert(r[0] == v);
            } else {
                let i = choose|i: int| 0 <= i < s.len() && s[i] == x;
                assert(r[i + 1] == x);
            }
        }
        assert(!s.contains(v)) by {
            if s.contains(v) {
                let i = choose|i: int| 0 <= i < s.len() && s[i] == v;
                assert(s[0] <= s[i]);
            }
        }
        assert forall|i: int, j: int| 0 <= i < j < r.len() implies r[i] < r[j] by {
            if i == 0 {
                assert(r[j] == s[j - 1]);
                assert(s[0] <= s[j - 1]);
            } else {
                assert(r[i] == s[i - 1] && r[j] == s[j - 1]);
            }
        }
    } else if v == s[0] {
        assert(s.contains(v)) by {
            assert(s[0] == v);
        }
    } else {
        let t = s.drop_first();
        assert(sorted_strict(t)) by {
            assert forall|i: int, j: int| 0 <= i < j < t.len() implies t[i] < t[j] by {
                assert(t[i] == s[i + 1] && t[j] == s[j + 1]);
            }
        }
        lemma_insert_sorted_props(t, v);
        let rt = seq_insert_sorted(t, v);
        assert(r == seq![s[0]] + rt);
        assert forall|x: i32| #[trigger] r.contains(x) implies s.contains(x) || x == v by {
            let i = choose|i: int| 0 <= i < r.len() && r[i] == x;
            if i == 0 {
                assert(s[0] == x);
            } else {
                assert(rt[i - 1] == x);
                assert(rt.contains(x));
                if t.contains(x) {
                    let j = choose|j: int| 0 <= j < t.len() && t[j] == x;
                    assert(s[j + 1] == x);
                }
            }
        }
        assert forall|x: i32| s.contains(x) || x == v implies #[trigger] r.contains(x) by {
            if x == v {
                assert(rt.contains(v));
                let j = choose|j: int| 0 <= j < rt.len() && rt[j] == v;
                assert(r[j + 1] == v);
            } else {
                let i = choose|i: int| 0 <= i < s.len() && s[i] == x;
                if i == 0 {
                    assert(r[0] == x);
                } else {
                    assert(t.contains(x)) by {
                        assert(t[i - 1] == x);
                    }
                    assert(rt.contains(x));
                    let j = choose|j: int| 0 <= j < rt.len() && rt[j] == x;
                    assert(r[j + 1] == x);
                }
            }
        }
        assert(s.contains(v) <==> t.contains(v)) by {
            if s.contains(v) {
                let i = choose|i: int| 0 <= i < s.len() && s[i] == v;
                assert(i != 0);
                assert(t[i - 1] == v);
            }
            if t.contains(v) {
                let i = choose|i: int| 0 <= i < t.len() && t[i] == v;
                assert(s[i + 1] == v);
            }
        }
        assert(r.len() == s.len() + (if s.contains(v) { 0int } else { 1 }));
        assert forall|i: int, j: int| 0 <= i < j < r.len() implies r[i] < r[j] by {
            if i == 0 {
                assert(r[j] == rt[j - 1]);
                assert(rt.contains(rt[j - 1]));
                if t.contains(rt[j - 1]) {
                    let k = choose|k: int| 0 <= k < t.len() && t[k] == rt[j - 1];
                    assert(s[k + 1] == rt[j - 1]);
                    assert(s[0] < s[k + 1]);
                } else {
                    assert(rt[j - 1] == v);
                }
            } else {
                assert(r[i] == rt[i - 1] && r[j] == rt[j - 1]);
            }
        }
    }
}

/// What `seq_remove_sorted` yields: sortedness, membership, and length.
pub proof fn lemma_remove_sorted_props(s: Seq<i32>, v: i32)
    requires
        sorted_strict(s),
    ensures
        sorted_strict(seq_remove_sorted(s, v)),
        forall|x: i32| seq_remove_sorted(s, v).contains(x) <==> s.contains(x) && x != v,
        seq_remove_sorted(s, v).len() == s.len() - (if s.contains(v) { 1int } else { 0 }),
    decreases s.len(),
{
    let r = seq_remove_sorted(s, v);
    if s.len() == 0 {
        assert forall|x: i32| !r.contains(x) by {
            if r.contains(x) {
                let i = choose|i: int| 0 <= i < r.len() && r[i] == x;
            }
        }
    } else if v == s[0] {
        assert(s.contains(v)) by {
            assert(s[0] == v);
        }
        assert(r == s.drop_first());
        assert forall|i: int, j: int| 0 <= i < j < r.len() implies r[i] < r[j] by {
            assert(r[i] == s[i + 1] && r[j] == s[j + 1]);
        }
        assert forall|x: i32| #[trigger] r.contains(x) implies s.contains(x) && x != v by {
            let i = choose|i: int| 0 <= i < r.len() && r[i] == x;
            assert(s[i + 1] == x);
            assert(s[0] < s[i + 1]);
        }
        assert forall|x: i32| s.contains(x) && x != v implies #[trigger] r.contains(x) by {
            let i = choose|i: int| 0 <= i < s.len() && s[i] == x;
            assert(i != 0);
            assert(r[i - 1] == x);
        }
    } else {
        let t = s.drop_first();
        assert(sorted_strict(t)) by {
            assert forall|i: int, j: int| 0 <= i < j < t.len() implies t[i] < t[j] by {
                assert(t[i] == s[i + 1] && t[j] == s[j + 1]);
            }
        }
        lemma_remove_sorted_props(t, v);
        let rt = seq_remove_sorted(t, v);
        assert(r == seq![s[0]] + rt);
        assert(s.contains(v) <==> t.contains(v)) by {
            if s.contains(v) {
                let i = choose|i: int| 0 <= i < s.len() && s[i] == v;
                assert(i != 0);
                assert(t[i - 1] == v);
            }
            if t.contains(v) {
                let i = choose|i: int| 0 <= i < t.len() && t[i] == v;
                assert(s[i + 1] == v);
            }
        }
        assert forall|x: i32| #[trigger] r.contains(x) implies s.contains(x) && x != v by {
            let i = choose|i: int| 0 <= i < r.len() && r[i] == x;
            if i == 0 {
                assert(s[0] == x);
            } else {
                assert(rt[i - 1] == x);
                assert(rt.contains(x));
                assert(t.contains(x));
                let j = choose|j: int| 0 <= j < t.len() && t[j] == x;
                assert(s[j + 1] == x);
            }
        }
        assert forall|x: i32| s.contains(x) && x != v implies #[trigger] r.contains(x) by {
            let i = choose|i: int| 0 <= i < s.len() && s[i] == x;
            if i == 0 {
                assert(r[0] == x);
            } else {
                assert(t.contains(x)) by {
                    assert(t[i - 1] == x);
                }
                assert(rt.contains(x));
                let j = choose|j: int| 0 <= j < rt.len() && rt[j] == x;
                assert(r[j + 1] == x);
            }
        }
        assert forall|i: int, j: int| 0 <= i < j < r.len() implies r[i] < r[j] by {
            if i == 0 {
                assert(r[j] == rt[j - 1]);
                assert(rt.contains(rt[j - 1]));
                assert(t.contains(rt[j - 1]));
                let k = choose|k: int| 0 <= k < t.len() && t[k] == rt[j - 1];
                assert(s[k + 1] == rt[j - 1]);
                assert(s[0] < s[k + 1]);
            } else {
                assert(r[i] == rt[i - 1] && r[j] == rt[j - 1]);
            }
        }
    }
}

} // verus!
