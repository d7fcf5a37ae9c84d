use vstd::prelude::*;
use vstd::arithmetic::div_mod::{lemma_fundamental_div_mod, lemma_fundamental_div_mod_converse_mod};

verus! {

/// `n` is a prime number.
pub open spec fn is_prime(n: int) -> bool {
    &&& n >= 2
    &&& forall|d: int| 2 <= d < n ==> #[trigger] (n % d) != 0
}

/// `i` has no divisor `d` with `2 <= d < p` and `d * d <= i`.
pub open spec fn no_small_factor(i: int, p: int) -> bool {
    forall|d: int| 2 <= d < p && d * d <= i ==> #[trigger] (i % d) != 0
}

/// How many `q` in `[2, hi)` the table marks, together with `n - q`.
pub open spec fn marked_pairs(table: Seq<bool>, n: int, hi: int) -> nat
    decreases hi,
{
    if hi <= 2 {
        0
    } else {
        marked_pairs(table, n, hi - 1) + if table[hi - 1] && table[n - (hi - 1)] {
            1nat
        } else {
            0nat
        }
    }
}

proof fn lemma_divides_trans(i: int, p: int, d: int)
    requires
        0 < d,
        0 < p,
        0 <= i,
        i % p == 0,
        p % d == 0,
    ensures
        i % d == 0,
{
    lemma_fundamental_div_mod(i, p);
    lemma_fundamental_div_mod(p, d);
    let a = i / p;
    let b = p / d;
    assert(i == (b * a) * d) by (nonlinear_arith)
        requires
            i == p * a,
            p == d * b,
    ;
    lemma_fundamental_div_mod_converse_mod(i, d, b * a, 0);
}

/// Below `p * p`, having no small factor below `p` is being prime.
proof fn lemma_small_factor_prime(i: int, p: int)
    requires
        2 <= i < p * p,
        2 <= p,
    ensures
        no_small_factor(i, p) <==> is_prime(i),
{
    if is_prime(i) {
        assert forall|d: int| 2 <= d < p && d * d <= i implies #[trigger] (i % d) != 0 by {
            assert(d < i) by (nonlinear_arith)
                requires
                    2 <= d,
                    d * d <= i,
            ;
        }
    }
    if no_small_factor(i, p) {
        assert forall|d: int| 2 <= d < i implies #[trigger] (i % d) != 0 by {
            if i % d == 0 {
                if d * d <= i {
                    assert(d < p) by (nonlinear_arith)
                        requires
                            d * d <= i,
                            i < p * p,
                            2 <= p,
                            2 <= d,
                    ;
                } else {
                    lemma_fundamental_div_mod(i, d);
                    let e = i / d;
                    assert(2 <= e && e * e <= i && e < p) by (nonlinear_arith)
                        requires
                            i == d * e,
                            2 <= d < i,
                            d * d > i,
                            i < p * p,
                            2 <= p,
                    ;
                    lemma_fundamental_div_mod_converse_mod(i, e, d, 0);
                    assert(i % e != 0);
                }
            }
        }
    }
}

/// The sieve of Eratosthenes: entry `i` of the result, for `i` in
/// `0..=limit`, tells whether `i` is prime.
pub fn sieve(limit: u32) -> (r: Vec<bool>)
    requires
        limit < usize::MAX,
    ensures
        r@.len() == limit + 1,
        forall|i: int| 0 <= i <= limit ==> #[trigger] r@[i] == is_prime(i),
{
    let n = limit as usize;
    let mut is_prime_table = vec![true; n + 1];
    is_prime_table.set(0, false);
    if n >= 1 {
        is_prime_table.set(1, false);
    }
    let mut p: u64 = 2;
    while p * p <= n as u64
        invariant
            is_prime_table@.len() == n + 1,
            n == limit,
            n < usize::MAX,
            2 <= p <= n + 2,
            p <= 65537,
            p * p <= 65537 * 65537,
            forall|i: int|
                0 <= i <= n ==> #[trigger] is_prime_table@[i] == (i >= 2 && no_small_factor(
                    i,
                    p as int,
                )),
        decreases n + 2 - p,
    {
        assert(p <= n && p < 65536) by (nonlinear_arith)
            requires
                2 <= p,
                p * p <= n,
                n < 0x1_0000_0000,
        ;
        let pu = p as usize;
        if is_prime_table[pu] {
            let mut k: u64 = p * p;
            proof {
                lemma_fundamental_div_mod_converse_mod(k as int, p as int, p as int, 0);
            }
            while k <= n as u64
                invariant
                    is_prime_table@.len() == n + 1,
                    n == limit,
                    n < usize::MAX,
                    2 <= p <= n,
                    p * p <= k <= n + p,
                    k % p == 0,
                    forall|i: int|
                        0 <= i <= n ==> #[trigger] is_prime_table@[i] == (i >= 2 && no_small_factor(
                            i,
                            p as int,
                        ) && !(p * p <= i < k && i % (p as int) == 0)),
                decreases n + p - k,
            {
                is_prime_table.set(k as usize, false);
                proof {
                    assert forall|i: int| 0 <= i <= n implies #[trigger] is_prime_table@[i] == (i
                        >= 2 && no_small_factor(i, p as int) && !(p * p <= i < k + p && i % (p as int)
                        == 0)) by {
                        lemma_fundamental_div_mod(k as int, p as int);
                        let m = k as int / p as int;
                        assert(k == m * p) by (nonlinear_arith)
                            requires
                                k == p * m + 0,
                        ;
                        if k < i < k + p {
                            assert(i == m * p + (i - k));
                            lemma_fundamental_div_mod_converse_mod(
                                i,
                                p as int,
                                k as int / p as int,
                                i - k,
                            );
                        }
                        if i == k {
                            assert(k >= 2) by (nonlinear_arith)
                                requires
                                    2 <= p,
                                    p * p <= k,
                            ;
                        }
                    }
                }
                proof {
                    lemma_fundamental_div_mod(k as int, p as int);
                    let m = k as int / p as int;
                    assert(k + p == (m + 1) * p + 0) by (nonlinear_arith)
                        requires
                            k == p * m + 0,
                    ;
                    lemma_fundamental_div_mod_converse_mod((k + p) as int, p as int, m + 1, 0);
                }
                k = k + p;
            }
        } else {
            proof {
                let pi = p as int;
                assert(!no_small_factor(pi, pi));
                let d = choose|d: int| 2 <= d < pi && d * d <= pi && #[trigger] (pi % d) == 0;
                assert forall|i: int|
                    0 <= i <= n && i >= 2 && no_small_factor(i, pi) && pi * pi <= i implies (i
                    % pi) != 0 by {
                    if i % pi == 0 {
                        lemma_divides_trans(i, pi, d);
                        assert(d * d <= i) by (nonlinear_arith)
                            requires
                                d * d <= pi,
                                pi * pi <= i,
                                2 <= pi,
                        ;
                    }
                }
            }
        }
        proof {
            let pi = p as int;
            assert forall|i: int| 0 <= i <= n implies #[trigger] is_prime_table@[i] == (i >= 2
                && no_small_factor(i, pi + 1)) by {
                assert(no_small_factor(i, pi + 1) <==> (no_small_factor(i, pi) && !(pi * pi
                    <= i && i % pi == 0)));
            }
        }
        assert((p + 1) * (p + 1) <= 65537 * 65537) by (nonlinear_arith)
            requires
                p < 65536,
        ;
        p = p + 1;
    }
    proof {
        assert forall|i: int| 0 <= i <= n implies #[trigger] is_prime_table@[i] == is_prime(i) by {
            if i >= 2 {
                lemma_small_factor_prime(i, p as int);
            }
        }
    }
    is_prime_table
}

/// The number of ways to write `n` as `p + q` with `p <= q`, both marked in
/// the table (with the table of `sieve`, both prime).
pub fn goldbach_pairs_count(n: u32, is_prime: &[bool]) -> (r: u32)
    requires
        n < 4 || n <= is_prime@.len() + 1,
    ensures
        r == marked_pairs(is_prime@, n as int, n / 2 + 1),
{
    let half = n / 2;
    let mut count: u32 = 0;
    let mut p: u32 = 2;
    while p <= half
        invariant
            n < 4 || n <= is_prime@.len() + 1,
            half == n / 2,
            2 <= p <= half + 1 || (p == 2 && half < 2),
            count == marked_pairs(is_prime@, n as int, p as int),
            count <= p,
        decreases half + 1 - p,
    {
        if is_prime[p as usize] {
            let q = n - p;
            if is_prime[q as usize] {
                count += 1;
            }
        }
        p += 1;
    }
    if half < 2 {
        assert(marked_pairs(is_prime@, n as int, n / 2 + 1) == 0);
    }
    count
}

/// How many primes `q` in `[2, hi)` have `n - q` prime too.
pub open spec fn prime_pairs(n: int, hi: int) -> nat
    decreases hi,
{
    if hi <= 2 {
        0
    } else {
        prime_pairs(n, hi - 1) + if is_prime(hi - 1) && is_prime(n - (hi - 1)) {
            1nat
        } else {
            0nat
        }
    }
}

/// Counting over a table that agrees with primality counts prime pairs.
pub proof fn lemma_marked_pairs_are_prime_pairs(table: Seq<bool>, n: int, hi: int)
    requires
        0 <= n < table.len(),
        hi <= n / 2 + 1,
        forall|i: int| 0 <= i < table.len() ==> #[trigger] table[i] == is_prime(i),
    ensures
        marked_pairs(table, n, hi) == prime_pairs(n, hi),
    decreases hi,
{
    if hi > 2 {
        lemma_marked_pairs_are_prime_pairs(table, n, hi - 1);
        assert(table[hi - 1] == is_prime(hi - 1));
        assert(table[n - (hi - 1)] == is_prime(n - (hi - 1)));
    }
}

/// The points of the Goldbach comet for the even numbers `4, 6, ...` up to
/// `limit`: each even `n` with its number of prime pairs `p + q == n`,
/// `p <= q`, and the largest of those numbers (zero when there is none).
pub fn comet_points(limit: u32) -> (r: (Vec<(u32, u32)>, u32))
    requires
        limit < usize::MAX,
    ensures
        r.0@.len() == if limit < 4 {
            0
        } else {
            (limit - 2) / 2
        },
        forall|k: int|
            0 <= k < r.0@.len() ==> #[trigger] r.0@[k] == (
            (4 + 2 * k) as u32,
            prime_pairs(4 + 2 * k, (4 + 2 * k) / 2 + 1) as u32,
        ),
        forall|k: int| 0 <= k < r.0@.len() ==> #[trigger] r.0@[k].1 <= r.1,
        r.0@.len() == 0 ==> r.1 == 0,
        r.0@.len() > 0 ==> exists|k: int| 0 <= k < r.0@.len() && #[trigger] r.0@[k].1 == r.1,
{
    let table = sieve(limit);
    let mut points: Vec<(u32, u32)> = Vec::new();
    let mut max_count: u32 = 0;
    let mut n: u64 = 4;
    while n <= limit as u64
        invariant
            table@.len() == limit + 1,
            forall|i: int| 0 <= i <= limit ==> #[trigger] table@[i] == is_prime(i),
            4 <= n <= limit + 2 || (n == 4 && limit < 4),
            n % 2 == 0,
            points@.len() == (n - 4) / 2,
            forall|k: int|
                0 <= k < points@.len() ==> #[trigger] points@[k] == (
                (4 + 2 * k) as u32,
                prime_pairs(4 + 2 * k, (4 + 2 * k) / 2 + 1) as u32,
            ),
            forall|k: int| 0 <= k < points@.len() ==> #[trigger] points@[k].1 <= max_count,
            points@.len() == 0 ==> max_count == 0,
            points@.len() > 0 ==> exists|k: int|
                0 <= k < points@.len() && #[trigger] points@[k].1 == max_count,
        decreases limit + 2 - n,
    {
        let c = goldbach_pairs_count(n as u32, table.as_slice());
        proof {
            lemma_marked_pairs_are_prime_pairs(table@, n as int, n / 2 + 1);
        }
        let ghost old_points = points@;
        let ghost old_max = max_count;
        if c > max_count {
            max_count = c;
        }
        points.push((n as u32, c));
        proof {
            let last = old_points.len() as int;
            assert(points@[last].1 == c);
            if old_points.len() > 0 && c <= old_max {
                let k0 = choose|k: int| 0 <= k < old_points.len() && #[trigger] old_points[k].1 == old_max;
                assert(points@[k0] == old_points[k0]);
            }
            assert forall|k: int| 0 <= k < points@.len() implies #[trigger] points@[k].1 <= max_count by {
                if k < last {
                    assert(points@[k] == old_points[k]);
                }
            }
        }
        n = n + 2;
    }
    (points, max_count)
}

} // verus!
