use vstd::prelude::*;

verus! {

/// `n` is a prime: at least two, with no divisor strictly between one and itself.
pub open spec fn is_prime_spec(n: nat) -> bool {
    n >= 2 && forall|d: nat| 2 <= d < n ==> #[trigger] (n % d) != 0
}

/// The number of primes no larger than `x`.
pub open spec fn prime_count(x: nat) -> nat
    decreases x,
{
    if x < 2 {
        0
    } else {
        prime_count((x - 1) as nat) + if is_prime_spec(x) { 1nat } else { 0nat }
    }
}

/// An odd number has no even divisor.
proof fn lemma_odd_no_even_divisor(n: nat, d: nat)
    requires
        n % 2 == 1,
        d >= 2,
        d % 2 == 0,
    ensures
        n % d != 0,
{
    if n % d == 0 {
        let q = n / d;
        let t = d / 2;
        assert(n == d * q) by (nonlinear_arith) requires n % d == 0, d > 0, q == n / d;
        assert(n == 2 * (t * q)) by (nonlinear_arith) requires n == d * q, d == 2 * t;
        assert((2 * (t * q)) % 2 == 0) by (nonlinear_arith);
    }
}

/// A number with no divisor in `[2, i)`, where `i * i > n`, has no divisor in `[2, n)`.
proof fn lemma_no_divisor_above_root(n: nat, i: nat)
    requires
        i >= 2,
        i * i > n,
        forall|d: nat| 2 <= d < i ==> #[trigger] (n % d) != 0,
    ensures
        forall|d: nat| 2 <= d < n ==> #[trigger] (n % d) != 0,
{
    assert forall|d: nat| 2 <= d < n implies #[trigger] (n % d) != 0 by {
        if d >= i && n % d == 0 {
            let q = n / d;
            assert(n == d * q) by (nonlinear_arith) requires n % d == 0, d > 0, q == n / d;
            assert(q >= 2) by (nonlinear_arith) requires n == d * q, d < n, d > 0;
            assert(q < i) by (nonlinear_arith) requires n == d * q, d >= i, i * i > n, q >= 0;
            assert(n % q == 0) by (nonlinear_arith) requires n == d * q, q > 0;
            assert(n % q != 0);
        }
    }
}

/// Whether `n` is a prime, by trial division with odd divisors up to its square root.
pub fn is_prime(n: u64) -> (r: bool)
    ensures
        r == is_prime_spec(n as nat),
{
    if n < 2 {
        return false;
    }
    if n == 2 {
        return true;
    }
    if n % 2 == 0 {
        assert(!is_prime_spec(n as nat)) by {
            assert((n as nat) % 2nat == 0);
        }
        return false;
    }
    let mut i: u64 = 3;
    // `i <= n / i` is `i * i <= n` without the product, which could overflow.
    while i <= n / i
        invariant
            n >= 3,
            n % 2 == 1,
            3 <= i <= n,
            i % 2 == 1,
            forall|d: nat| 2 <= d < i ==> #[trigger] ((n as nat) % d) != 0,
        decreases n - i,
    {
        assert(i * i <= n) by (nonlinear_arith) requires i <= n / i, i > 0;
        assert(i + 2 <= n) by (nonlinear_arith) requires i * i <= n, i >= 3;
        if n % i == 0 {
            assert(!is_prime_spec(n as nat)) by {
                assert((n as nat) % (i as nat) == 0);
            }
            return false;
        }
        proof {
            lemma_odd_no_even_divisor(n as nat, (i + 1) as nat);
            assert forall|d: nat| 2 <= d < i + 2 implies #[trigger] ((n as nat) % d) != 0 by {
                if d == i + 1 {
                    lemma_odd_no_even_divisor(n as nat, d);
                }
            }
        }
        i = i + 2;
    }
    proof {
        assert(i * i > n) by (nonlinear_arith) requires i > n / i, i > 0;
        lemma_no_divisor_above_root(n as nat, i as nat);
    }
    true
}

/// The primes no larger than `limit`, in increasing order.
pub fn generate_primes(limit: u64) -> (r: Vec<u64>)
    ensures
        forall|i: int, j: int| 0 <= i < j < r@.len() ==> r@[i] < r@[j],
        forall|i: int| 0 <= i < r@.len() ==> #[trigger] r@[i] <= limit && is_prime_spec(r@[i] as nat),
        forall|p: u64| p <= limit && is_prime_spec(p as nat) ==> r@.contains(p),
{
    let mut r: Vec<u64> = Vec::new();
    if limit < 2 {
        return r;
    }
    let mut k: u64 = 2;
    loop
        invariant
            2 <= k <= limit,
            forall|i: int, j: int| 0 <= i < j < r@.len() ==> r@[i] < r@[j],
            forall|i: int| 0 <= i < r@.len() ==> #[trigger] r@[i] < k && is_prime_spec(r@[i] as nat),
            forall|p: u64| p < k && is_prime_spec(p as nat) ==> r@.contains(p),
        ensures
            forall|i: int, j: int| 0 <= i < j < r@.len() ==> r@[i] < r@[j],
            forall|i: int| 0 <= i < r@.len() ==> #[trigger] r@[i] <= limit && is_prime_spec(r@[i] as nat),
            forall|p: u64| p <= limit && is_prime_spec(p as nat) ==> r@.contains(p),
        decreases limit - k,
    {
        let ghost before = r@;
        if is_prime(k) {
            r.push(k);
            proof {
                assert forall|p: u64| p < k + 1 && is_prime_spec(p as nat) implies r@.contains(p) by {
                    if p < k {
                        let j = choose|j: int| 0 <= j < before.len() && before[j] == p;
                        assert(r@[j] == p);
                    } else {
                        assert(r@[r@.len() - 1] == p);
                    }
                }
            }
        } else {
            proof {
                assert forall|p: u64| p < k + 1 && is_prime_spec(p as nat) implies r@.contains(p) by {
                    if p < k {
                    }
                }
            }
        }
        if k == limit {
            return r;
        }
        k = k + 1;
    }
}

/// The `n`-th prime, counting from one (`nth_prime(1)` is two); for zero, one. `None` when fewer
/// than `n` primes fit in a `u64`.
pub fn nth_prime(n: usize) -> (r: Option<u64>)
    ensures
        n == 0 ==> r == Some(1u64),
        n > 0 ==> match r {
            Some(p) => is_prime_spec(p as nat) && prime_count(p as nat) == n,
            None => prime_count(u64::MAX as nat) < n,
        },
{
    let mut count: usize = 0;
    let mut candidate: u64 = 1;
    while count < n
        invariant
            count <= n,
            1 <= candidate,
            n == 0 ==> candidate == 1,
            count == prime_count(candidate as nat),
            count == n && n > 0 ==> is_prime_spec(candidate as nat),
        decreases u64::MAX - candidate,
    {
        if candidate == u64::MAX {
            return None;
        }
        candidate = candidate + 1;
        if is_prime(candidate) {
            count = count + 1;
        }
    }
    Some(candidate)
}

} // verus!
