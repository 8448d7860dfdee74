use vstd::prelude::*;

verus! {

/// `d` divides `n`.
pub open spec fn divides(d: nat, n: nat) -> bool {
    d > 0 && n % d == 0
}

/// `n` is a prime: at least 2, and no divisor between 1 and itself.
pub open spec fn is_prime(n: nat) -> bool {
    n >= 2 && forall|d: nat| 1 < d < n ==> !#[trigger] divides(d, n)
}

/// The number of primes below `m`.
pub open spec fn prime_count(m: nat) -> nat
    decreases m,
{
    if m == 0 {
        0
    } else {
        prime_count((m - 1) as nat) + if is_prime((m - 1) as nat) {
            1nat
        } else {
            0nat
        }
    }
}

/// `p` is the prime of index `n` (zero-based): a prime with exactly `n`
/// primes below it.
pub open spec fn is_nth_prime(n: nat, p: nat) -> bool {
    is_prime(p) && prime_count(p) == n
}

/// Counting primes below a larger bound never gives fewer.
pub proof fn lemma_prime_count_monotonic(a: nat, b: nat)
    requires
        a <= b,
    ensures
        prime_count(a) <= prime_count(b),
    decreases b - a,
{
    if a < b {
        lemma_prime_count_monotonic(a, (b - 1) as nat);
    }
}

/// Every integer from 2 on has a prime divisor.
pub proof fn lemma_prime_divisor(n: nat)
    requires
        n >= 2,
    ensures
        exists|p: nat| is_prime(p) && p <= n && #[trigger] divides(p, n),
    decreases n,
{
    if is_prime(n) {
        assert(divides(n, n));
    } else {
        let d = choose|d: nat| 1 < d < n && #[trigger] divides(d, n);
        lemma_prime_divisor(d);
        let p = choose|p: nat| is_prime(p) && p <= d && #[trigger] divides(p, d);
        assert(divides(p, n)) by {
            lemma_divides_transitive(p, d, n);
        }
    }
}

/// A divisor of a divisor of `n` divides `n`.
pub proof fn lemma_divides_transitive(a: nat, b: nat, c: nat)
    requires
        divides(a, b),
        divides(b, c),
    ensures
        divides(a, c),
{
    let x = b / a;
    let y = c / b;
    assert(b == a * x) by (nonlinear_arith)
        requires a > 0, b % a == 0, x == b / a;
    assert(c == b * y) by (nonlinear_arith)
        requires b > 0, c % b == 0, y == c / b;
    assert(c == a * (x * y)) by (nonlinear_arith)
        requires b == a * x, c == b * y;
    assert(c % a == 0) by (nonlinear_arith)
        requires c == a * (x * y), a > 0;
}

/// Two primes of the same index are equal.
pub proof fn lemma_nth_prime_unique(n: nat, p: nat, q: nat)
    requires
        is_nth_prime(n, p),
        is_nth_prime(n, q),
    ensures
        p == q,
{
    if p < q {
        lemma_nth_prime_increasing(n, n, p, q);
    } else if q < p {
        lemma_nth_prime_increasing(n, n, q, p);
    }
}

/// A prime of smaller index is a smaller prime, and conversely: the primes,
/// listed by index, increase strictly.
pub proof fn lemma_nth_prime_increasing(i: nat, j: nat, p: nat, q: nat)
    requires
        is_nth_prime(i, p),
        is_nth_prime(j, q),
    ensures
        i < j <==> p < q,
{
    if p < q {
        lemma_prime_count_monotonic(p + 1, q);
    }
    if q < p {
        lemma_prime_count_monotonic(q + 1, p);
    }
}

/// The least prime is 2.
pub proof fn lemma_first_prime()
    ensures
        is_nth_prime(0, 2),
        prime_count(3) == 1,
{
    assert(prime_count(0) == 0);
    assert(prime_count(1) == 0);
    assert(prime_count(2) == 0);
    assert(prime_count(3) == 1);
}

/// A run of a sieve: the values it handed out, where the value of index `i`
/// is the prime of index `i`.
pub open spec fn is_prime_run(xs: Seq<u64>) -> bool {
    forall|i: int| 0 <= i < xs.len() ==> #[trigger] is_nth_prime(i as nat, xs[i] as nat)
}

/// Two runs of the same length from fresh sieves agree value for value,
/// whether the values were asked for one by one or read as a sequence.
pub proof fn lemma_runs_agree(xs: Seq<u64>, ys: Seq<u64>)
    requires
        is_prime_run(xs),
        is_prime_run(ys),
        xs.len() == ys.len(),
    ensures
        xs == ys,
{
    assert forall|i: int| 0 <= i < xs.len() implies xs[i] == ys[i] by {
        assert(is_nth_prime(i as nat, xs[i] as nat));
        assert(is_nth_prime(i as nat, ys[i] as nat));
        lemma_nth_prime_unique(i as nat, xs[i] as nat, ys[i] as nat);
    }
    assert(xs =~= ys);
}

/// Every value of a run is a prime, and the run increases strictly: no value
/// comes twice.
pub proof fn lemma_run_increasing(xs: Seq<u64>)
    requires
        is_prime_run(xs),
    ensures
        forall|i: int| 0 <= i < xs.len() ==> is_prime(#[trigger] xs[i] as nat),
        forall|i: int, j: int| 0 <= i < j < xs.len() ==> #[trigger] xs[i] < #[trigger] xs[j],
{
    assert forall|i: int| 0 <= i < xs.len() implies is_prime(#[trigger] xs[i] as nat) by {
        assert(is_nth_prime(i as nat, xs[i] as nat));
    }
    assert forall|i: int, j: int| 0 <= i < j < xs.len() implies #[trigger] xs[i] < #[trigger] xs[j] by {
        assert(is_nth_prime(i as nat, xs[i] as nat));
        assert(is_nth_prime(j as nat, xs[j] as nat));
        lemma_nth_prime_increasing(i as nat, j as nat, xs[i] as nat, xs[j] as nat);
    }
}

} // verus!
