//! Sieve-of-Eratosthenes tables over `0 ..= limit`: primality, smallest
//! prime factor, Euler's totient, the number of distinct prime factors,
//! and the radical. Primality is specified exactly: a number at least 2 is
//! prime when it has no divisor whose square stays within it.

use vstd::arithmetic::div_mod::lemma_fundamental_div_mod;
use vstd::arithmetic::div_mod::lemma_mod_self_0;
use vstd::arithmetic::div_mod::lemma_small_mod;
use vstd::arithmetic::div_mod::lemma_sub_mod_noop;
use vstd::prelude::*;

verus! {

broadcast use vstd::std_specs::vec::group_vec_axioms;

/// `n` has a divisor `d >= 2` with `d * d <= n`. For `n >= 2` this is
/// exactly the negation of primality, since a composite number always has
/// such a small divisor.
pub open spec fn has_small_factor(n: int) -> bool {
    exists|d: int| 2 <= d && d * d <= n && #[trigger] (n % d) == 0
}

/// `n` has a divisor `d` with `2 <= d < bound` and `d * d <= n`.
pub open spec fn has_factor_below(n: int, bound: int) -> bool {
    exists|d: int| 2 <= d < bound && d * d <= n && #[trigger] (n % d) == 0
}

/// Divisibility is transitive: a divisor of `i` divides every multiple of
/// `i`.
proof fn lemma_div_trans(d: int, i: int, m: int)
    requires
        1 <= d,
        1 <= i,
        i % d == 0,
        m % i == 0,
        m >= 0,
    ensures
        m % d == 0,
{
    lemma_fundamental_div_mod(i, d);
    lemma_fundamental_div_mod(m, i);
    let k1 = i / d;
    let k2 = m / i;
    assert(m == d * (k1 * k2)) by (nonlinear_arith)
        requires
            i == d * k1,
            m == i * k2,
    ;
    assert((d * (k1 * k2)) % d == 0) by {
        vstd::arithmetic::div_mod::lemma_mod_multiples_basic(k1 * k2, d);
    }
}

/// Two distinct multiples of `i` differ by at least `i`.
proof fn lemma_multiple_gap(i: int, m: int, j: int)
    requires
        1 <= i,
        0 <= m < j,
        m % i == 0,
        j % i == 0,
    ensures
        m + i <= j,
{
    lemma_sub_mod_noop(j, m, i);
    assert(0int % i == 0) by {
        lemma_small_mod(0nat, i as nat);
    }
    assert((j - m) % i == 0);
    if j - m < i {
        lemma_small_mod((j - m) as nat, i as nat);
    }
}

/// The floor of the square root.
fn floor_sqrt(x: u32) -> (y: u32)
    ensures
        (y as int) * (y as int) <= x as int,
        (x as int) < (y as int + 1) * (y as int + 1),
{
    let mut lo: u32 = 0;
    let mut hi: u32 = 65536;
    proof {
        assert((x as int) < 65536int * 65536int) by (nonlinear_arith)
            requires
                x <= 0xffff_ffffu32,
        ;
    }
    while lo + 1 < hi
        invariant
            lo < hi <= 65536,
            (lo as int) * (lo as int) <= x as int,
            (x as int) < (hi as int) * (hi as int),
        decreases hi - lo,
    {
        let mid = lo + (hi - lo) / 2;
        proof {
            assert((mid as int) * (mid as int) <= 65536int * 65536int) by (nonlinear_arith)
                requires
                    0 <= (mid as int) <= 65536,
            ;
        }
        if (mid as u64) * (mid as u64) <= (x as u64) {
            lo = mid;
        } else {
            hi = mid;
        }
    }
    lo
}

/// The primality table: entry `j` says whether `j` is at least 2 and has
/// no divisor whose square stays within it.
#[verifier::rlimit(100)]
pub fn sieve_primeness(limit: u32) -> (r: Vec<bool>)
    requires
        limit < u32::MAX,
        limit as int + 1 <= usize::MAX,
    ensures
        r@.len() == limit as int + 1,
        forall|j: int| 0 <= j <= limit ==> (r@[j] <==> (j >= 2 && !has_small_factor(j))),
{
    let n = (limit as usize) + 1;
    let mut result: Vec<bool> = Vec::new();
    let mut k: usize = 0;
    while k < n
        invariant
            k <= n,
            result@.len() == k,
            forall|j: int| 0 <= j < k ==> result@[j] == (j >= 2),
        decreases n - k,
    {
        result.push(k >= 2);
        k += 1;
    }
    let end = floor_sqrt(limit);
    let mut i: usize = 2;
    while i <= end as usize
        invariant
            2 <= i,
            n == limit as int + 1,
            result@.len() == n,
            (end as int) * (end as int) <= limit as int,
            (limit as int) < (end as int + 1) * (end as int + 1),
            forall|j: int|
                0 <= j < n ==> (#[trigger] result@[j] <==> (j >= 2 && !has_factor_below(
                    j,
                    i as int,
                ))),
        decreases end as int + 1 - i,
    {
        let ghost pre = result@;
        proof {
            assert(i * i <= limit as int && i <= i * i) by (nonlinear_arith)
                requires
                    2 <= i <= end as int,
                    (end as int) * (end as int) <= limit as int,
            ;
            assert(i < n);
        }
        if result[i] {
            // i itself has no factor below i, so mark its multiples.
            let mut j: usize = i * i;
            proof {
                vstd::arithmetic::div_mod::lemma_mod_multiples_basic(i as int, i as int);
            }
            loop
                invariant_except_break
                    j <= limit as int + i,
                    forall|j2: int|
                        0 <= j2 < n ==> (#[trigger] result@[j2] <==> (j2 >= 2
                            && !has_factor_below(j2, i as int) && !(j2 % (i as int) == 0 && i * i
                            <= j2 && j2 < j))),
                invariant
                    2 <= i,
                    i <= limit as int,
                    n == limit as int + 1,
                    result@.len() == n,
                    i * i <= j,
                    j % i == 0,
                ensures
                    result@.len() == n,
                    forall|j2: int|
                        0 <= j2 < n ==> (#[trigger] result@[j2] <==> (j2 >= 2
                            && !has_factor_below(j2, i as int) && !(j2 % (i as int) == 0 && i * i
                            <= j2))),
                decreases limit as int + i - j,
            {
                if j > limit as usize {
                    proof {
                        assert forall|j2: int|
                            0 <= j2 < n implies (#[trigger] result@[j2] <==> (j2 >= 2
                            && !has_factor_below(j2, i as int) && !(j2 % (i as int) == 0 && i * i
                            <= j2))) by {
                            assert(j2 < j);
                        }
                    }
                    break ;
                }
                let ghost before = result@;
                result[j] = false;
                proof {
                    assert forall|j2: int|
                        0 <= j2 < n implies (#[trigger] result@[j2] <==> (j2 >= 2
                        && !has_factor_below(j2, i as int) && !(j2 % (i as int) == 0 && i * i
                        <= j2 && j2 < j + i))) by {
                        if j2 == j {
                            assert(!result@[j2]);
                            lemma_mod_self_0(i as int);
                        } else {
                            assert(result@[j2] == before[j2]);
                            if j2 % (i as int) == 0 && i * i <= j2 && j2 < j + i && !(j2 < j) {
                                // A multiple of i in the gap would contradict
                                // the spacing of multiples.
                                assert(j2 >= j);
                                if j2 > j {
                                    lemma_multiple_gap(i as int, j as int, j2);
                                }
                                assert(j2 == j);
                            }
                        }
                    }
                }
                if j > (limit as usize) - i {
                    proof {
                        assert forall|j2: int|
                            0 <= j2 < n implies (#[trigger] result@[j2] <==> (j2 >= 2
                            && !has_factor_below(j2, i as int) && !(j2 % (i as int) == 0 && i * i
                            <= j2))) by {
                            assert(j2 <= limit);
                            assert(j2 < j + i);
                        }
                    }
                    break ;
                }
                proof {
                    vstd::arithmetic::div_mod::lemma_mod_add_multiples_vanish(j as int, i as int);
                }
                j = j + i;
            }
            proof {
                // Everything newly marked is exactly what factor i covers.
                assert forall|j2: int|
                    0 <= j2 < n implies (#[trigger] result@[j2] <==> (j2 >= 2
                    && !has_factor_below(j2, i as int + 1))) by {
                    if has_factor_below(j2, i as int + 1) && !has_factor_below(j2, i as int) {
                        let d = choose|d: int|
                            2 <= d < i as int + 1 && d * d <= j2 && #[trigger] (j2 % d) == 0;
                        assert(d == i as int);
                    }
                    if j2 % (i as int) == 0 && i * i <= j2 && j2 >= 0 {
                        assert(has_factor_below(j2, i as int + 1)) by {
                            assert(2 <= (i as int) < (i as int) + 1 && (i as int) * (i as int)
                                <= j2 && j2 % (i as int) == 0);
                        }
                    }
                }
            }
        } else {
            proof {
                // i is composite: its multiples already carry a smaller
                // factor, so nothing changes.
                assert(has_factor_below(i as int, i as int));
                let d = choose|d: int|
                    2 <= d < i as int && d * d <= i as int && #[trigger] ((i as int) % d) == 0;
                assert forall|j2: int|
                    0 <= j2 < n implies (#[trigger] result@[j2] <==> (j2 >= 2
                    && !has_factor_below(j2, i as int + 1))) by {
                    if has_factor_below(j2, i as int + 1) && !has_factor_below(j2, i as int) {
                        let d2 = choose|d2: int|
                            2 <= d2 < i as int + 1 && d2 * d2 <= j2 && #[trigger] (j2 % d2) == 0;
                        assert(d2 == i as int);
                        // d divides i and i divides j2, so d divides j2.
                        lemma_div_trans(d, i as int, j2);
                        assert(d * d <= i as int <= d2 * d2 <= j2) by (nonlinear_arith)
                            requires
                                2 <= d < i as int,
                                d * d <= i as int,
                                d2 == i as int,
                                d2 * d2 <= j2,
                                2 <= d2,
                        ;
                        assert(has_factor_below(j2, i as int));
                    }
                }
            }
        }
        i += 1;
    }
    proof {
        // Beyond the square root of the limit no new factors can appear.
        assert forall|j: int| 0 <= j <= limit implies (#[trigger] result@[j] <==> (j >= 2
            && !has_small_factor(j))) by {
            if has_small_factor(j) {
                let d = choose|d: int| 2 <= d && d * d <= j && #[trigger] (j % d) == 0;
                assert(d <= end as int) by (nonlinear_arith)
                    requires
                        2 <= d,
                        d * d <= j <= limit as int,
                        (limit as int) < (end as int + 1) * (end as int + 1),
                        end as int >= 0,
                ;
                assert(has_factor_below(j, i as int));
            }
            if has_factor_below(j, i as int) {
                let d = choose|d: int|
                    2 <= d < i as int && d * d <= j && #[trigger] (j % d) == 0;
                assert(has_small_factor(j));
            }
        }
    }
    result
}

/// For each `j >= 2`, some prime factor of `j` (the smallest, by
/// construction); entries 0 and 1 hold the conventional markers.
pub fn sieve_smallest_prime_factor(limit: u32) -> (r: Vec<u32>)
    requires
        limit < u32::MAX,
        limit as int + 1 <= usize::MAX,
    ensures
        r@.len() == limit as int + 1,
        r@[0] == 0,
        limit >= 1 ==> r@[1] == 1,
{
    let n = (limit as usize) + 1;
    let mut result: Vec<u32> = Vec::new();
    let mut k: usize = 0;
    while k < n
        invariant
            k <= n,
            result@.len() == k,
            forall|j: int| 0 <= j < k ==> result@[j] == (if j == 1 {
                1u32
            } else {
                0u32
            }),
        decreases n - k,
    {
        result.push(if k == 1 {
            1
        } else {
            0
        });
        k += 1;
    }
    let sqrt = floor_sqrt(limit);
    let mut i: usize = 2;
    while i < n
        invariant
            2 <= i,
            n == limit as int + 1,
            result@.len() == n,
            result@[0] == 0,
            n > 1 ==> result@[1] == 1,
            (sqrt as int) * (sqrt as int) <= limit as int,
        decreases n - i,
    {
        if result[i] == 0 {
            result[i] = i as u32;
            if i <= sqrt as usize {
                proof {
                    assert(i * i <= limit as int) by (nonlinear_arith)
                        requires
                            2 <= i <= sqrt as int,
                            (sqrt as int) * (sqrt as int) <= limit as int,
                    ;
                }
                let mut j: usize = i * i;
                loop
                    invariant
                        2 <= i < n,
                        n == limit as int + 1,
                        result@.len() == n,
                        result@[0] == 0,
                        n > 1 ==> result@[1] == 1,
                        i * i <= j,
                    ensures
                        result@.len() == n,
                        result@[0] == 0,
                        n > 1 ==> result@[1] == 1,
                    decreases limit as int + i - j,
                {
                    if j > limit as usize {
                        break ;
                    }
                    proof {
                        assert(j >= 4) by (nonlinear_arith)
                            requires
                                2 <= i,
                                i * i <= j,
                        ;
                    }
                    if result[j] == 0 {
                        result[j] = i as u32;
                    }
                    if j > (limit as usize) - i {
                        break ;
                    }
                    j = j + i;
                }
            }
        }
        i += 1;
    }
    result
}

/// Euler's totient table, computed by the product formula applied through
/// the primes in ascending order.
pub fn sieve_totient(limit: u32) -> (r: Vec<u32>)
    requires
        limit < u32::MAX,
        limit as int + 1 <= usize::MAX,
    ensures
        r@.len() == limit as int + 1,
{
    let n = (limit as usize) + 1;
    let mut result: Vec<u32> = Vec::new();
    let mut k: usize = 0;
    while k < n
        invariant
            k <= n,
            n == limit as int + 1,
            result@.len() == k,
            forall|j: int| 0 <= j < k ==> result@[j] == j as u32,
        decreases n - k,
    {
        result.push(k as u32);
        k += 1;
    }
    let mut i: usize = 2;
    while i < n
        invariant
            2 <= i,
            n == limit as int + 1,
            result@.len() == n,
        decreases n - i,
    {
        if result[i] == i as u32 {
            let mut j: usize = i;
            loop
                invariant
                    2 <= i < n,
                    n == limit as int + 1,
                    result@.len() == n,
                    i <= j,
                ensures
                    result@.len() == n,
                decreases limit as int + i - j,
            {
                if j > limit as usize {
                    break ;
                }
                let cur = result[j];
                result[j] = cur - cur / (i as u32);
                if j > (limit as usize) - i {
                    break ;
                }
                j = j + i;
            }
        }
        i += 1;
    }
    result
}

/// The table of distinct-prime-factor counts.
pub fn sieve_omega(limit: u32) -> (r: Vec<u32>)
    requires
        limit < u32::MAX,
        limit as int + 1 <= usize::MAX,
    ensures
        r@.len() == limit as int + 1,
{
    let n = (limit as usize) + 1;
    let mut result: Vec<u32> = Vec::new();
    let mut k: usize = 0;
    while k < n
        invariant
            k <= n,
            result@.len() == k,
            forall|j: int| 0 <= j < k ==> result@[j] == 0u32,
        decreases n - k,
    {
        result.push(0);
        k += 1;
    }
    let mut i: usize = 2;
    while i < n
        invariant
            2 <= i,
            n == limit as int + 1,
            result@.len() == n,
            forall|j: int| 0 <= j < n ==> result@[j] < i,
        decreases n - i,
    {
        if result[i] == 0 {
            let mut j: usize = i;
            loop
                invariant_except_break
                    forall|j2: int|
                        0 <= j2 < n ==> #[trigger] result@[j2] < (if j2 % (i as int) == 0 && j2
                            < j {
                            i as int + 1
                        } else {
                            i as int
                        }),
                invariant
                    2 <= i < n,
                    n == limit as int + 1,
                    result@.len() == n,
                    i <= j,
                    j % i == 0,
                ensures
                    result@.len() == n,
                    forall|j2: int| 0 <= j2 < n ==> #[trigger] result@[j2] < i + 1,
                decreases limit as int + i - j,
            {
                if j > limit as usize {
                    proof {
                        assert forall|j2: int|
                            0 <= j2 < n implies #[trigger] result@[j2] < i + 1 by {}
                    }
                    break ;
                }
                let cur = result[j];
                let ghost before = result@;
                result[j] = cur + 1;
                proof {
                    lemma_mod_self_0(i as int);
                    assert forall|j2: int|
                        0 <= j2 < n implies #[trigger] result@[j2] < (if j2 % (i as int) == 0
                        && j2 < j + i {
                        i as int + 1
                    } else {
                        i as int
                    }) by {
                        if j2 != j {
                            assert(result@[j2] == before[j2]);
                            if j2 % (i as int) == 0 && j2 < j + i && !(j2 < j) && j2 > j {
                                lemma_multiple_gap(i as int, j as int, j2);
                            }
                        }
                    }
                }
                if j > (limit as usize) - i {
                    proof {
                        assert forall|j2: int|
                            0 <= j2 < n implies #[trigger] result@[j2] < i + 1 by {}
                    }
                    break ;
                }
                proof {
                    vstd::arithmetic::div_mod::lemma_mod_add_multiples_vanish(j as int, i as int);
                }
                j = j + i;
            }
        } else {
            proof {
                assert forall|j2: int| 0 <= j2 < n implies #[trigger] result@[j2] < i + 1 by {}
            }
        }
        i += 1;
    }
    result
}

/// The radical table: the product of the distinct primes dividing each
/// entry, accumulated with wrapping multiplication.
pub fn sieve_radical(limit: u32) -> (r: Vec<u32>)
    requires
        limit < u32::MAX,
        limit as int + 1 <= usize::MAX,
    ensures
        r@.len() == limit as int + 1,
        r@[0] == 0,
{
    let n = (limit as usize) + 1;
    let mut result: Vec<u32> = Vec::new();
    let mut k: usize = 0;
    while k < n
        invariant
            k <= n,
            result@.len() == k,
            forall|j: int| 0 <= j < k ==> result@[j] == (if j == 0 {
                0u32
            } else {
                1u32
            }),
        decreases n - k,
    {
        result.push(if k == 0 {
            0
        } else {
            1
        });
        k += 1;
    }
    let mut i: usize = 2;
    while i < n
        invariant
            2 <= i,
            n == limit as int + 1,
            result@.len() == n,
            result@[0] == 0,
        decreases n - i,
    {
        if result[i] == 1 {
            let mut j: usize = i;
            loop
                invariant
                    2 <= i < n,
                    n == limit as int + 1,
                    result@.len() == n,
                    result@[0] == 0,
                    i <= j,
                ensures
                    result@.len() == n,
                    result@[0] == 0,
                decreases limit as int + i - j,
            {
                if j > limit as usize {
                    break ;
                }
                let cur = result[j];
                result[j] = cur.wrapping_mul(i as u32);
                if j > (limit as usize) - i {
                    break ;
                }
                j = j + i;
            }
        }
        i += 1;
    }
    result
}

} // verus!
