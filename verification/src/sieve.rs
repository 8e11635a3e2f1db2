//! Prime sieves: the classic sieve of Eratosthenes and a segmented variant
//! that works in windows of square-root size.

use vstd::prelude::*;
use vstd::arithmetic::div_mod::{
    lemma_div_by_self, lemma_div_is_ordered, lemma_div_is_ordered_by_denominator,
    lemma_fundamental_div_mod, lemma_fundamental_div_mod_converse, lemma_mod_bound,
    lemma_mod_multiples_basic,
};
use crate::bitset::{BitSet, count_set};

verus! {

/// `m` is prime: at least 2 and with no divisor strictly between 1 and `m`.
pub open spec fn is_prime(m: int) -> bool {
    m >= 2 && forall|d: int| 2 <= d < m ==> #[trigger] (m % d) != 0
}

/// The prime-counting function: how many primes are at most `n`.
pub open spec fn prime_count(n: int) -> nat
    decreases n,
{
    if n < 2 {
        0
    } else {
        prime_count(n - 1) + if is_prime(n) {
            1nat
        } else {
            0nat
        }
    }
}

/// Counting primes never decreases as the bound grows.
pub proof fn lemma_prime_count_monotonic(a: int, b: int)
    requires
        a <= b,
    ensures
        prime_count(a) <= prime_count(b),
    decreases b - a,
{
    if a < b {
        lemma_prime_count_monotonic(a, b - 1);
    }
}

/// There are at most `n` primes up to `n`.
pub proof fn lemma_prime_count_le(n: int)
    requires
        n >= 0,
    ensures
        prime_count(n) <= n,
    decreases n,
{
    if n >= 1 {
        lemma_prime_count_le(n - 1);
    }
}

/// A window of primality flags starting at `low` counts exactly the primes
/// in that window.
pub proof fn lemma_count_prime_window(s: Seq<bool>, low: int)
    requires
        low >= 0,
        forall|i: int| 0 <= i < s.len() ==> (s[i] <==> is_prime(low + i)),
    ensures
        count_set(s) + prime_count(low - 1) == prime_count(low + s.len() - 1),
    decreases s.len(),
{
    if s.len() > 0 {
        lemma_count_prime_window(s.drop_last(), low);
    }
}

/// Divisibility is transitive.
proof fn lemma_divides_transitive(a: int, b: int, c: int)
    requires
        1 <= a,
        1 <= b,
        b % a == 0,
        c % b == 0,
    ensures
        c % a == 0,
{
    lemma_fundamental_div_mod(b, a);
    lemma_fundamental_div_mod(c, b);
    let kb = b / a;
    let kc = c / b;
    assert(c == a * (kb * kc)) by (nonlinear_arith)
        requires
            b == a * kb,
            c == b * kc,
    ;
    lemma_mod_multiples_basic(kb * kc, a);
    assert((kb * kc) * a == a * (kb * kc)) by (nonlinear_arith);
}

/// A proper divisor can always be replaced by one at most the square root.
proof fn lemma_small_factor(m: int, d: int)
    requires
        2 <= d < m,
        m % d == 0,
    ensures
        exists|q: int| 2 <= q < m && #[trigger] (m % q) == 0 && q * q <= m,
{
    if d * d <= m {
        assert(2 <= d < m && m % d == 0 && d * d <= m);
    } else {
        lemma_fundamental_div_mod(m, d);
        let e = m / d;
        lemma_div_is_ordered(d, m, d);
        lemma_div_by_self(d);
        assert(e >= 1);
        assert(m == d * e);
        assert(e != 1) by (nonlinear_arith)
            requires
                m == d * e,
                d < m,
        ;
        assert(e < d) by (nonlinear_arith)
            requires
                d >= 1,
                d * e == m,
                d * d > m,
        ;
        assert(e * e < m) by (nonlinear_arith)
            requires
                2 <= e,
                e < d,
                m == d * e,
        ;
        assert(e < m);
        lemma_mod_multiples_basic(d, e);
        assert(d * e == m);
        assert(m % e == 0);
        assert(2 <= e < m && m % e == 0 && e * e <= m);
    }
}

/// Every number at least 2 has a prime divisor.
proof fn lemma_exists_prime_factor(x: int)
    requires
        x >= 2,
    ensures
        exists|p: int| is_prime(p) && #[trigger] (x % p) == 0 && 2 <= p <= x,
    decreases x,
{
    if is_prime(x) {
        lemma_mod_multiples_basic(1, x);
        assert(1 * x == x);
        assert(x % x == 0);
        assert(is_prime(x) && x % x == 0 && 2 <= x <= x);
    } else {
        let d = choose|d: int| 2 <= d < x && #[trigger] (x % d) == 0;
        lemma_exists_prime_factor(d);
        let p = choose|p: int| is_prime(p) && #[trigger] (d % p) == 0 && 2 <= p <= d;
        lemma_divides_transitive(p, d, x);
        assert(is_prime(p) && x % p == 0 && 2 <= p <= x);
    }
}

/// Every composite has a prime divisor at most its square root.
proof fn lemma_composite_has_prime_factor(m: int)
    requires
        m >= 2,
        !is_prime(m),
    ensures
        exists|p: int| is_prime(p) && #[trigger] (m % p) == 0 && p * p <= m && 2 <= p < m,
{
    let d = choose|d: int| 2 <= d < m && #[trigger] (m % d) == 0;
    lemma_small_factor(m, d);
    let q = choose|q: int| 2 <= q < m && #[trigger] (m % q) == 0 && q * q <= m;
    lemma_exists_prime_factor(q);
    let p = choose|p: int| is_prime(p) && #[trigger] (q % p) == 0 && 2 <= p <= q;
    lemma_divides_transitive(p, q, m);
    assert(p * p <= q * q) by (nonlinear_arith)
        requires
            0 <= p <= q,
    ;
    assert(is_prime(p) && m % p == 0 && p * p <= m && 2 <= p < m);
}

/// Any rounded Newton iterate from a positive point lands above the true
/// square root.
proof fn lemma_newton_bound(x: int, n: int, y: int)
    requires
        x >= 1,
        n >= 0,
        y == (x + n / x) / 2,
    ensures
        n < (y + 1) * (y + 1),
{
    let q = n / x;
    lemma_fundamental_div_mod(n, x);
    lemma_mod_bound(n, x);
    lemma_fundamental_div_mod(x + q, 2);
    lemma_mod_bound(x + q, 2);
    assert(q >= 0);
    assert((x + q + 1) * (x + q + 1) >= 4 * (x * (q + 1))) by (nonlinear_arith)
        requires
            x >= 1,
            q >= 0,
    ;
    assert(x * (q + 1) == x * q + x) by (nonlinear_arith);
    assert(x * q + x > n);
    assert(2 * y + 2 >= x + q + 1);
    assert((2 * y + 2) * (2 * y + 2) >= (x + q + 1) * (x + q + 1)) by (nonlinear_arith)
        requires
            2 * y + 2 >= x + q + 1,
            x + q + 1 >= 0,
    ;
    assert((2 * y + 2) * (2 * y + 2) == 4 * ((y + 1) * (y + 1))) by (nonlinear_arith);
}

/// One Newton step for the integer square root of `n`.
fn newton_step(n: usize, x: usize) -> (y: usize)
    requires
        1 <= x,
        x <= n / 2,
        (n as int) < (x as int + 1) * (x as int + 1),
    ensures
        y as int == (x as int + (n as int) / (x as int)) / 2,
        (n as int) < (y as int + 1) * (y as int + 1),
{
    proof {
        if x >= 2 {
            lemma_div_is_ordered_by_denominator(n as int, 2, x as int);
        } else {
            assert((n as int) < 4) by (nonlinear_arith)
                requires
                    x as int == 1,
                    (n as int) < (x as int + 1) * (x as int + 1),
            ;
        }
    }
    let q = n / x;
    let y = (x + q) / 2;
    proof {
        lemma_newton_bound(x as int, n as int, y as int);
    }
    y
}

/// The integer square root of `n`, by Newton's method.
pub fn int_sqrt(n: usize) -> (r: usize)
    ensures
        (r as int) * (r as int) <= n < (r as int + 1) * (r as int + 1),
{
    let x_init = n / 2;
    if x_init == 0 {
        proof {
            lemma_fundamental_div_mod(n as int, 2);
            lemma_mod_bound(n as int, 2);
            assert(n < 2);
            if n == 0 {
                assert(0 * 0 <= 0 < 1 * 1) by (nonlinear_arith);
            } else {
                assert(1 * 1 <= 1 < 2 * 2) by (nonlinear_arith);
            }
        }
        return n;
    }
    proof {
        lemma_fundamental_div_mod(n as int, 2);
        lemma_mod_bound(n as int, 2);
        assert((n as int) < (x_init as int + 1) * (x_init as int + 1)) by (nonlinear_arith)
            requires
                x_init as int >= 1,
                n as int <= 2 * (x_init as int) + 1,
        ;
    }
    let mut x0 = x_init;
    let mut x1 = newton_step(n, x0);
    while x1 < x0
        invariant
            n >= 2,
            1 <= x0,
            x0 <= n / 2,
            x1 as int == (x0 as int + (n as int) / (x0 as int)) / 2,
            (n as int) < (x0 as int + 1) * (x0 as int + 1),
            (n as int) < (x1 as int + 1) * (x1 as int + 1),
        decreases x0,
    {
        proof {
            assert(x1 >= 1) by (nonlinear_arith)
                requires
                    n >= 2,
                    (n as int) < (x1 as int + 1) * (x1 as int + 1),
                    x1 as int >= 0,
            ;
        }
        x0 = x1;
        x1 = newton_step(n, x0);
    }
    proof {
        let xi = x0 as int;
        let q = (n as int) / xi;
        lemma_fundamental_div_mod(n as int, xi);
        lemma_mod_bound(n as int, xi);
        lemma_fundamental_div_mod(xi + q, 2);
        lemma_mod_bound(xi + q, 2);
        assert(q >= xi);
        assert(xi * q >= xi * xi) by (nonlinear_arith)
            requires
                xi >= 1,
                q >= xi,
        ;
    }
    x0
}

/// `m` has no divisor `d < i` with `2 <= d`, `d < m` and `d * d <= m`.
spec fn no_small_factor_below(m: int, i: int) -> bool {
    forall|d: int| 2 <= d < i && d < m && d * d <= m ==> #[trigger] (m % d) != 0
}

/// The table state after the outer sieve loop has processed every candidate
/// below `i`.
spec fn sieve_inv(t: Seq<bool>, i: int) -> bool {
    forall|m: int|
        #![trigger t[m]]
        0 <= m < t.len() ==> (t[m] <==> (m >= 2 && no_small_factor_below(m, i)))
}

/// After striking every multiple of a prime `i` from `i * i` on, the table
/// accounts for divisors up to and including `i`.
proof fn lemma_sieve_mark_step(t0: Seq<bool>, t1: Seq<bool>, n: int, i: int, j: int)
    requires
        t0.len() == n + 1,
        t1.len() == n + 1,
        2 <= i,
        i * i <= n,
        n < j,
        sieve_inv(t0, i),
        forall|m: int|
            #![trigger t1[m]]
            0 <= m <= n ==> (t1[m] <==> (t0[m] && !((m % i == 0) && i * i <= m < j))),
    ensures
        sieve_inv(t1, i + 1),
{
    assert forall|m: int|
        0 <= m < t1.len() implies (t1[m] <==> (m >= 2 && no_small_factor_below(m, i + 1))) by {
        assert(t1[m] <==> (t0[m] && !((m % i == 0) && i * i <= m < j)));
        assert(t0[m] <==> (m >= 2 && no_small_factor_below(m, i)));
        if t1[m] {
            assert(t0[m] && !((m % i == 0) && i * i <= m));
            assert forall|d: int|
                2 <= d < i + 1 && d < m && d * d <= m implies #[trigger] (m % d) != 0 by {
                if d == i {
                    assert(!(m % i == 0 && i * i <= m));
                }
            }
        } else {
            if m >= 2 && no_small_factor_below(m, i + 1) {
                assert forall|d: int|
                    2 <= d < i && d < m && d * d <= m implies #[trigger] (m % d) != 0 by {
                    assert(2 <= d < i + 1 && d < m && d * d <= m);
                }
                assert(no_small_factor_below(m, i));
                assert(t0[m]);
                assert((m % i == 0) && i * i <= m);
                assert(i < i * i) by (nonlinear_arith)
                    requires
                        i >= 2,
                ;
                assert(2 <= i < i + 1 && i < m && i * i <= m);
                assert(m % i != 0);
            }
        }
    }
}

/// A composite candidate `i` adds nothing: its multiples were already
/// struck by a smaller factor.
proof fn lemma_sieve_skip_step(t: Seq<bool>, n: int, i: int)
    requires
        t.len() == n + 1,
        2 <= i <= n,
        sieve_inv(t, i),
        !t[i],
    ensures
        sieve_inv(t, i + 1),
{
    assert(!(no_small_factor_below(i, i)));
    let d = choose|d: int| 2 <= d < i && d < i && d * d <= i && #[trigger] (i % d) == 0;
    assert forall|m: int|
        0 <= m < t.len() implies (t[m] <==> (m >= 2 && no_small_factor_below(m, i + 1))) by {
        assert(t[m] <==> (m >= 2 && no_small_factor_below(m, i)));
        if t[m] {
            assert forall|d2: int|
                2 <= d2 < i + 1 && d2 < m && d2 * d2 <= m implies #[trigger] (m % d2) != 0 by {
                if d2 == i {
                    if m % i == 0 {
                        lemma_divides_transitive(d, i, m);
                        assert(i <= i * i) by (nonlinear_arith)
                            requires
                                i >= 2,
                        ;
                        assert(d * d <= i <= m);
                        assert(d < i < m);
                        assert(m % d != 0);
                        assert(false);
                    }
                }
            }
        } else {
            if m >= 2 && no_small_factor_below(m, i + 1) {
                assert forall|d2: int|
                    2 <= d2 < i && d2 < m && d2 * d2 <= m implies #[trigger] (m % d2) != 0 by {
                    assert(2 <= d2 < i + 1 && d2 < m && d2 * d2 <= m);
                }
                assert(no_small_factor_below(m, i));
            }
        }
    }
}

/// A trait for prime sieves.
pub trait Sieve {
    /// Returns the number of primes at most `n`.
    fn prime_pi(n: usize) -> (r: usize)
        requires
            n <= u32::MAX as usize,
            n < usize::MAX,
        ensures
            r == prime_count(n as int),
    ;
}

/// The sieve of Eratosthenes.
pub struct Eratosthenes;

impl Eratosthenes {
    /// Builds the primality table of `0..=n`: bit `m` is set exactly when
    /// `m` is prime.
    pub fn gen_table(n: usize) -> (r: BitSet)
        requires
            1 <= n,
            n <= u32::MAX as usize,
            n < usize::MAX,
        ensures
            r.well_formed(),
            r@.len() == n + 1,
            forall|m: int| 0 <= m <= n ==> (r@[m] <==> is_prime(m)),
    {
        let mut table = BitSet::new(n + 1, true);
        table.clear(0);
        table.clear(1);
        let mut i: usize = 2;
        while i <= n / i
            invariant
                table.well_formed(),
                table@.len() == n + 1,
                1 <= n <= u32::MAX as usize,
                2 <= i,
                sieve_inv(table@, i as int),
            decreases n - i,
        {
            let ghost ii = i as int;
            proof {
                lemma_fundamental_div_mod(n as int, ii);
                lemma_mod_bound(n as int, ii);
                assert(ii * ii <= ii * ((n as int) / ii)) by (nonlinear_arith)
                    requires
                        ii >= 1,
                        ii <= (n as int) / ii,
                ;
                assert(ii * ii <= n as int);
                assert(2 * ii <= ii * ii) by (nonlinear_arith)
                    requires
                        ii >= 2,
                ;
                assert(2 * ii <= n as int);
            }
            let is_p = table.get(i);
            if is_p {
                proof {
                    if !is_prime(ii) {
                        let d = choose|d: int| 2 <= d < ii && #[trigger] (ii % d) == 0;
                        lemma_small_factor(ii, d);
                    }
                }
                let ghost t0 = table@;
                let mut j: u64 = (i as u64) * (i as u64);
                proof {
                    lemma_mod_multiples_basic(ii, ii);
                    assert(ii <= ii * ii) by (nonlinear_arith)
                        requires
                            ii >= 2,
                    ;
                }
                while j <= n as u64
                    invariant
                        table.well_formed(),
                        table@.len() == n + 1,
                        1 <= n <= u32::MAX as usize,
                        2 <= i,
                        ii == i as int,
                        ii * ii <= n as int,
                        ii <= n as int,
                        (j as int) % ii == 0,
                        ii * ii <= j as int,
                        j as int <= n as int + ii,
                        forall|m: int|
                            #![trigger table@[m]]
                            0 <= m <= n ==> (table@[m] <==> (t0[m] && !((m % ii == 0) && ii * ii
                                <= m < j as int))),
                    decreases n as int + ii - j as int,
                {
                    table.clear(j as usize);
                    let ghost jo = j as int;
                    proof {
                        lemma_fundamental_div_mod(jo, ii);
                        lemma_mod_multiples_basic(jo / ii + 1, ii);
                        assert((jo / ii + 1) * ii == ii * (jo / ii) + ii) by (nonlinear_arith);
                        assert((jo + ii) % ii == 0);
                    }
                    j = j + (i as u64);
                    proof {
                        assert forall|m: int|
                            0 <= m <= n implies (table@[m] <==> (t0[m] && !((m % ii == 0) && ii
                            * ii <= m < j as int))) by {
                            if m == jo {
                                lemma_mod_bound(jo, ii);
                            } else if jo < m < jo + ii {
                                lemma_fundamental_div_mod(jo, ii);
                                lemma_fundamental_div_mod_converse(m, ii, jo / ii, m - jo);
                                assert(m % ii == m - jo);
                            }
                        }
                    }
                }
                proof {
                    lemma_sieve_mark_step(t0, table@, n as int, ii, j as int);
                }
            } else {
                proof {
                    lemma_sieve_skip_step(table@, n as int, ii);
                }
            }
            i += 1;
        }
        proof {
            let ii = i as int;
            lemma_fundamental_div_mod(n as int, ii);
            lemma_mod_bound(n as int, ii);
            assert((n as int) < ii * ii) by (nonlinear_arith)
                requires
                    ii >= 2,
                    (n as int) / ii <= ii - 1,
                    n as int == ii * ((n as int) / ii) + (n as int) % ii,
                    0 <= (n as int) % ii < ii,
            ;
            assert forall|m: int| 0 <= m <= n implies (table@[m] <==> is_prime(m)) by {
                if m >= 2 {
                    if is_prime(m) {
                        assert(no_small_factor_below(m, ii));
                        assert(table@[m]);
                    } else {
                        lemma_composite_has_prime_factor(m);
                        let p = choose|p: int|
                            is_prime(p) && #[trigger] (m % p) == 0 && p * p <= m && 2 <= p < m;
                        assert(p < ii) by (nonlinear_arith)
                            requires
                                p >= 2,
                                ii >= 2,
                                p * p <= m,
                                (m as int) < ii * ii,
                        ;
                        assert(!no_small_factor_below(m, ii));
                        assert(!table@[m]);
                    }
                }
            }
        }
        table
    }
}

impl Sieve for Eratosthenes {
    fn prime_pi(n: usize) -> (r: usize) {
        if n < 2 {
            return 0;
        }
        let table = Eratosthenes::gen_table(n);
        let c = table.count_ones();
        proof {
            lemma_count_prime_window(table@, 0);
        }
        c
    }
}

/// `v` is not a multiple of any of the first `cnt` listed primes.
spec fn coprime_upto(primes: Seq<u32>, cnt: int, v: int) -> bool {
    forall|a: int| 0 <= a < cnt ==> #[trigger] (v % (primes[a] as int)) != 0
}

/// `v` is not a multiple of any listed prime at most `max`.
spec fn coprime_to_small_primes(primes: Seq<u32>, max: u32, v: int) -> bool {
    forall|a: int|
        0 <= a < primes.len() && primes[a] <= max ==> #[trigger] (v % (primes[a] as int)) != 0
}

/// Collects the indices of the set bits of the base table -- its primes --
/// in ascending order, and appends one sentinel value `seg_len + 1`,
/// strictly greater than every bound later compared against the list, so
/// that scans can stop at it without a length check per step.
fn collect_primes(seg: &BitSet, seg_len: usize) -> (r: Vec<u32>)
    requires
        seg.well_formed(),
        seg@.len() == seg_len + 1,
        seg_len + 1 <= u32::MAX,
    ensures
        r@.len() == count_set(seg@) + 1,
        forall|a: int, b: int| 0 <= a < b < r@.len() ==> r@[a] < r@[b],
        forall|a: int|
            0 <= a < r@.len() - 1 ==> (r@[a] as int) < seg@.len() && seg@[r@[a] as int],
        forall|i: int|
            0 <= i < seg@.len() && seg@[i] ==> exists|a: int|
                0 <= a < r@.len() - 1 && (r@[a] as int) == i,
        (r@[r@.len() - 1] as int) == seg_len + 1,
{
    let ones = seg.ones();
    let mut r: Vec<u32> = Vec::new();
    let mut k: usize = 0;
    while k < ones.len()
        invariant
            k <= ones@.len(),
            r@.len() == k,
            seg_len + 1 <= u32::MAX,
            forall|a: int| 0 <= a < ones@.len() ==> (ones@[a] as int) < seg_len + 1,
            forall|a: int| 0 <= a < k ==> (r@[a] as int) == (ones@[a] as int),
        decreases ones@.len() - k,
    {
        r.push(ones[k] as u32);
        k += 1;
    }
    r.push((seg_len + 1) as u32);
    proof {
        assert forall|i: int| 0 <= i < seg@.len() && seg@[i] implies exists|a: int|
            0 <= a < r@.len() - 1 && (r@[a] as int) == i by {
            assert(ones@.contains(i as usize));
            let a = choose|a: int| 0 <= a < ones@.len() && ones@[a] == i as usize;
            assert((r@[a] as int) == i);
        }
    }
    r
}

/// Clears every window bit `k` whose number `low + k` is a multiple of `p`.
fn mark_non_primes(seg: &mut BitSet, p: u32, low: usize, seg_len: usize)
    requires
        old(seg).well_formed(),
        old(seg)@.len() == seg_len,
        2 <= p,
        seg_len as int + p as int <= usize::MAX as int,
    ensures
        final(seg).well_formed(),
        final(seg)@.len() == seg_len,
        forall|k: int|
            #![trigger final(seg)@[k]]
            0 <= k < seg_len ==> (final(seg)@[k] <==> (old(seg)@[k] && (low as int + k) % (
            p as int) != 0)),
{
    let pu = p as usize;
    let ghost li = low as int;
    let ghost pi = p as int;
    let rem = low % pu;
    let mut i: usize = if rem == 0 {
        0
    } else {
        pu - rem
    };
    proof {
        lemma_fundamental_div_mod(li, pi);
        lemma_mod_bound(li, pi);
        if rem != 0 {
            lemma_mod_multiples_basic(li / pi + 1, pi);
            assert((li / pi + 1) * pi == pi * (li / pi) + pi) by (nonlinear_arith);
            assert((li + i as int) % pi == 0);
        }
        assert(pi * (li / pi) == (li / pi) * pi) by (nonlinear_arith);
        assert forall|k: int| 0 <= k < i as int implies #[trigger] ((li + k) % pi) != 0 by {
            assert(li + k == (li / pi) * pi + (rem as int + k));
            lemma_fundamental_div_mod_converse(li + k, pi, li / pi, rem as int + k);
        }
    }
    while i < seg_len
        invariant
            seg.well_formed(),
            seg@.len() == seg_len,
            pu == p as usize,
            pi == p as int,
            li == low as int,
            2 <= p,
            seg_len as int + pi <= usize::MAX as int,
            (li + i as int) % pi == 0,
            forall|k: int|
                #![trigger seg@[k]]
                0 <= k < seg_len ==> (seg@[k] <==> (old(seg)@[k] && !((li + k) % pi == 0 && k
                    < i as int))),
        decreases seg_len as int + pi - i as int,
    {
        seg.clear(i);
        let ghost jo = i as int;
        proof {
            lemma_fundamental_div_mod(li + jo, pi);
            let q = (li + jo) / pi;
            assert(pi * q == q * pi) by (nonlinear_arith);
            assert(li + jo == q * pi);
            lemma_mod_multiples_basic(q + 1, pi);
            assert((q + 1) * pi == pi * q + pi) by (nonlinear_arith);
            assert((li + jo + pi) % pi == 0);
            assert forall|k: int| jo < k < jo + pi implies #[trigger] ((li + k) % pi) != 0 by {
                assert(li + k == q * pi + (k - jo));
                lemma_fundamental_div_mod_converse(li + k, pi, q, k - jo);
            }
        }
        i += pu;
        proof {
            assert forall|k: int|
                0 <= k < seg_len implies (seg@[k] <==> (old(seg)@[k] && !((li + k) % pi == 0
                && k < i as int))) by {
                if k != jo && jo < k < jo + pi {
                    assert((li + k) % pi != 0);
                }
            }
        }
    }
    proof {
        assert forall|k: int|
            0 <= k < seg_len implies (seg@[k] <==> (old(seg)@[k] && (li + k) % pi != 0)) by {
            assert(seg@[k] <==> (old(seg)@[k] && !((li + k) % pi == 0 && k < i as int)));
        }
    }
}

/// Strikes, from the window that starts at number `low`, the multiples of
/// every listed prime at most `max`; the ascending scan is terminated by
/// the sentinel, which exceeds `max`.
fn mark_multiples_of_primes(seg: &mut BitSet, primes: &Vec<u32>, max: u32, low: usize)
    requires
        old(seg).well_formed(),
        1 <= primes@.len(),
        forall|a: int, b: int| 0 <= a < b < primes@.len() ==> primes@[a] < primes@[b],
        forall|a: int| 0 <= a < primes@.len() - 1 ==> 2 <= primes@[a],
        (primes@[primes@.len() - 1] as int) > max as int,
        old(seg)@.len() as int + max as int <= usize::MAX as int,
    ensures
        final(seg).well_formed(),
        final(seg)@.len() == old(seg)@.len(),
        forall|k: int|
            #![trigger final(seg)@[k]]
            0 <= k < final(seg)@.len() ==> (final(seg)@[k] <==> (old(seg)@[k]
                && coprime_to_small_primes(primes@, max, low as int + k))),
{
    let seg_len = seg.len();
    let mut idx: usize = 0;
    while primes[idx] <= max
        invariant
            seg.well_formed(),
            seg@.len() == seg_len,
            seg_len == old(seg)@.len(),
            1 <= primes@.len(),
            forall|a: int, b: int| 0 <= a < b < primes@.len() ==> primes@[a] < primes@[b],
            forall|a: int| 0 <= a < primes@.len() - 1 ==> 2 <= primes@[a],
            (primes@[primes@.len() - 1] as int) > max as int,
            seg_len as int + max as int <= usize::MAX as int,
            0 <= idx < primes@.len(),
            forall|a: int| 0 <= a < idx ==> primes@[a] <= max,
            forall|k: int|
                #![trigger seg@[k]]
                0 <= k < seg_len ==> (seg@[k] <==> (old(seg)@[k] && coprime_upto(
                    primes@,
                    idx as int,
                    low as int + k,
                ))),
        decreases primes@.len() - idx,
    {
        let ghost prev = seg@;
        let p = primes[idx];
        proof {
            assert(idx as int != primes@.len() - 1);
            assert(2 <= p);
            assert(p as int <= max as int);
        }
        mark_non_primes(seg, p, low, seg_len);
        let plen = primes.len();
        proof {
            assert((idx as int) < primes@.len() - 1);
            assert(idx < plen);
        }
        idx += 1;
        proof {
            assert forall|k: int|
                0 <= k < seg_len implies (seg@[k] <==> (old(seg)@[k] && coprime_upto(
                    primes@,
                    idx as int,
                    low as int + k,
                ))) by {
                assert(seg@[k] <==> (prev[k] && (low as int + k) % (p as int) != 0));
                assert(prev[k] <==> (old(seg)@[k] && coprime_upto(
                    primes@,
                    idx as int - 1,
                    low as int + k,
                )));
                if seg@[k] {
                    assert forall|a: int|
                        0 <= a < idx as int implies #[trigger] ((low as int + k) % (
                        primes@[a] as int)) != 0 by {
                        if a == idx as int - 1 {
                            assert((low as int + k) % (p as int) != 0);
                        }
                    }
                } else {
                    if old(seg)@[k] && coprime_upto(primes@, idx as int, low as int + k) {
                        assert forall|a: int|
                            0 <= a < idx as int - 1 implies #[trigger] ((low as int + k) % (
                            primes@[a] as int)) != 0 by {
                            assert(0 <= a < idx as int);
                        }
                        assert((low as int + k) % (primes@[idx as int - 1] as int) != 0);
                        assert(prev[k]);
                        assert(false);
                    }
                }
            }
        }
    }
    proof {
        assert forall|k: int|
            0 <= k < seg_len implies (seg@[k] <==> (old(seg)@[k] && coprime_to_small_primes(
                primes@,
                max,
                low as int + k,
            ))) by {
            assert(seg@[k] <==> (old(seg)@[k] && coprime_upto(primes@, idx as int, low as int
                + k)));
            if seg@[k] {
                assert forall|a: int|
                    0 <= a < primes@.len() && primes@[a] <= max implies #[trigger] ((low as int
                    + k) % (primes@[a] as int)) != 0 by {
                    assert(a < idx as int) by {
                        if a >= idx as int {
                            if a > idx as int {
                                assert(primes@[idx as int] < primes@[a]);
                            }
                            assert(primes@[a] > max);
                        }
                    }
                }
            } else {
                if old(seg)@[k] && coprime_to_small_primes(primes@, max, low as int + k) {
                    assert forall|a: int|
                        0 <= a < idx as int implies #[trigger] ((low as int + k) % (
                        primes@[a] as int)) != 0 by {
                        assert(primes@[a] <= max);
                    }
                    assert(false);
                }
            }
        }
    }
}

/// The segmented sieve of Eratosthenes: counts primes using one window
/// buffer of square-root size instead of a full-range table.
///
/// Every input goes through the same windowed pass: no crossover point is
/// applied below which the plain sieve would be used directly, since the
/// windowed pass is proved correct for the whole domain and small inputs
/// never leave the base table anyway.
pub struct SegmentedEratosthenes;

impl Sieve for SegmentedEratosthenes {
    fn prime_pi(n: usize) -> (r: usize) {
        if n < 2 {
            return 0;
        }
        let seg_len0 = int_sqrt(n);
        let ghost s0 = seg_len0 as int;
        proof {
            assert(s0 >= 1) by (nonlinear_arith)
                requires
                    s0 >= 0,
                    n >= 2,
                    (n as int) < (s0 + 1) * (s0 + 1),
            ;
            assert(s0 <= 0xffff) by (nonlinear_arith)
                requires
                    s0 >= 0,
                    s0 * s0 <= n as int,
                    n as int <= 0xffff_ffff,
            ;
        }
        let mut seg = Eratosthenes::gen_table(seg_len0);
        let primes = collect_primes(&seg, seg_len0);
        proof {
            lemma_count_prime_window(seg@, 0);
            assert(count_set(seg@) == prime_count(s0));
            assert forall|a: int|
                0 <= a < primes@.len() - 1 implies 2 <= primes@[a] && (primes@[a] as int) <= s0
                && is_prime(primes@[a] as int) by {
                let pv = primes@[a] as int;
                assert(pv < seg@.len() && seg@[pv]);
                assert(0 <= pv <= seg_len0);
                assert(seg@[pv] <==> is_prime(pv));
                assert(is_prime(pv));
            }
            lemma_prime_count_le(s0);
        }
        let mut res: usize = primes.len() - 1;
        seg.truncate(seg_len0);
        seg.set_all();
        let mut seg_len = seg_len0;
        let mut low = seg_len0 + 1;
        let mut high = seg_len0 * 2;
        proof {
            assert(2 * s0 <= n as int) by (nonlinear_arith)
                requires
                    s0 >= 1,
                    s0 * s0 <= n as int,
                    n as int >= 2,
            ;
        }
        // The windows [low, high] tile [seg_len0 + 1, n] without gap or
        // overlap: `win_sum` accumulates their lengths, and together with the
        // base range [0, seg_len0] they cover [0, n] exactly.
        let ghost mut win_sum: int = 0;
        loop
            invariant_except_break
                n >= 2,
                n <= u32::MAX as usize,
                1 <= s0 <= 0xffff,
                s0 * s0 <= n as int,
                (n as int) < (s0 + 1) * (s0 + 1),
                1 <= primes@.len(),
                forall|a: int, b: int| 0 <= a < b < primes@.len() ==> primes@[a] < primes@[b],
                forall|a: int|
                    0 <= a < primes@.len() - 1 ==> 2 <= primes@[a] && (primes@[a] as int) <= s0
                        && is_prime(primes@[a] as int),
                forall|q: int|
                    2 <= q <= s0 && is_prime(q) ==> exists|a: int|
                        0 <= a < primes@.len() - 1 && (primes@[a] as int) == q,
                (primes@[primes@.len() - 1] as int) == s0 + 1,
                seg.well_formed(),
                seg@.len() == seg_len,
                1 <= seg_len as int <= s0,
                s0 + 1 <= low as int,
                low as int + seg_len as int - 1 == high as int,
                high <= n,
                forall|k: int| 0 <= k < seg@.len() ==> seg@[k],
                res == prime_count(low as int - 1),
                s0 + 1 + win_sum == low as int,
            ensures
                res == prime_count(n as int),
                s0 + 1 + win_sum == n as int + 1,
            decreases n - low,
        {
            let bound = int_sqrt(high);
            proof {
                assert(bound as int <= s0) by (nonlinear_arith)
                    requires
                        (bound as int) * (bound as int) <= high as int,
                        high as int <= n as int,
                        (n as int) < (s0 + 1) * (s0 + 1),
                        bound as int >= 0,
                        s0 >= 0,
                ;
            }
            let maxp = bound as u32;
            let ghost before = seg@;
            mark_multiples_of_primes(&mut seg, &primes, maxp, low);
            proof {
                assert forall|k: int|
                    0 <= k < seg@.len() implies (seg@[k] <==> is_prime(low as int + k)) by {
                    let m = low as int + k;
                    assert(m <= high as int);
                    assert(m >= 2);
                    assert(seg@[k] <==> (before[k] && coprime_to_small_primes(
                        primes@,
                        maxp,
                        m,
                    )));
                    if is_prime(m) {
                        assert forall|a: int|
                            0 <= a < primes@.len() && primes@[a] <= maxp implies #[trigger] (m
                            % (primes@[a] as int)) != 0 by {
                            assert(a != primes@.len() - 1);
                            let p = primes@[a] as int;
                            assert(2 <= p <= s0);
                            assert(p < m);
                            assert(m % p != 0);
                        }
                        assert(seg@[k]);
                    } else {
                        lemma_composite_has_prime_factor(m);
                        let p = choose|p: int|
                            is_prime(p) && #[trigger] (m % p) == 0 && p * p <= m && 2 <= p < m;
                        assert(p <= bound as int) by (nonlinear_arith)
                            requires
                                p >= 0,
                                bound as int >= 0,
                                p * p <= high as int,
                                (high as int) < (bound as int + 1) * (bound as int + 1),
                        ;
                        assert(p <= s0);
                        let a = choose|a: int|
                            0 <= a < primes@.len() - 1 && (primes@[a] as int) == p;
                        assert(primes@[a] <= maxp);
                        assert(!coprime_to_small_primes(primes@, maxp, m));
                        assert(!seg@[k]);
                    }
                }
                lemma_count_prime_window(seg@, low as int);
                lemma_prime_count_le(high as int);
                assert(count_set(seg@) + prime_count(low as int - 1) == prime_count(
                    high as int,
                ));
            }
            let c = seg.count_ones();
            res = res + c;
            proof {
                win_sum = win_sum + seg_len as int;
            }
            if high == n {
                break;
            }
            low = high + 1;
            if seg_len > n - high {
                seg_len = n - high;
                seg.truncate(seg_len);
                high = n;
            } else {
                high = high + seg_len;
            }
            seg.set_all();
        }
        res
    }
}

} // verus!
