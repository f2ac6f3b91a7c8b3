//! Arithmetic modulo a prime: Euclid's lemma and Fermat's little theorem,
//! which is what makes `a^(p-2)` the inverse of `a` in the cocycle solver.

use crate::ext::is_prime_spec;
use crate::mat_tables::{fsum, lemma_fsum_add, lemma_fsum_cong, lemma_fsum_ext, lemma_fsum_single};
use vstd::arithmetic::div_mod::*;
use vstd::arithmetic::power::*;
use vstd::prelude::*;

verus! {

/// A prime has no divisor strictly between 1 and itself.
pub proof fn lemma_prime_no_divisor(p: nat, d: nat)
    requires
        is_prime_spec(p),
        2 <= d < p,
    ensures
        p % d != 0,
{
    if p % d == 0 {
        if d * d <= p {
            assert(p % d != 0);
        } else {
            let e = p / d;
            lemma_fundamental_div_mod(p as int, d as int);
            assert(p == d * e);
            assert(e >= 2) by (nonlinear_arith)
                requires
                    p == d * e,
                    d < p,
                    e >= 0,
            ;
            assert(e < d) by (nonlinear_arith)
                requires
                    p == d * e,
                    d * d > p,
                    d >= 2,
            ;
            assert(e * e <= p) by (nonlinear_arith)
                requires
                    p == d * e,
                    e < d,
                    e >= 0,
            ;
            assert(p == e * d) by (nonlinear_arith)
                requires
                    p == d * e,
            ;
            lemma_mod_multiples_basic(d as int, e as int);
            assert(p % e == 0);
        }
    }
}

/// Euclid's lemma: a prime dividing `k · x`, and not `k`, divides `x`.
pub proof fn lemma_euclid(p: nat, k: int, x: int)
    requires
        is_prime_spec(p),
        k % (p as int) != 0,
        (k * x) % (p as int) == 0,
    ensures
        x % (p as int) == 0,
    decreases k % (p as int),
{
    let pi = p as int;
    let k1 = k % pi;
    lemma_mod_bound(k, pi);
    lemma_mul_mod_noop_left(k, x, pi);
    assert((k1 * x) % pi == 0);
    if k1 == 1 {
        assert(k1 * x == x);
    } else {
        lemma_prime_no_divisor(p, k1 as nat);
        let s = pi % k1;
        let q = pi / k1;
        lemma_fundamental_div_mod(pi, k1);
        lemma_mod_bound(pi, k1);
        // s·x = p·x - q·(k1·x) is a multiple of p too.
        assert(s * x == pi * x - q * (k1 * x)) by (nonlinear_arith)
            requires
                pi == k1 * q + s,
        ;
        lemma_fundamental_div_mod(k1 * x, pi);
        let t = (k1 * x) / pi;
        assert(k1 * x == pi * t);
        assert(s * x == pi * (x - q * t)) by (nonlinear_arith)
            requires
                s * x == pi * x - q * (k1 * x),
                k1 * x == pi * t,
        ;
        lemma_mod_multiples_basic(x - q * t, pi);
        assert((s * x) % pi == 0) by {
            assert(pi * (x - q * t) == (x - q * t) * pi) by (nonlinear_arith);
        }
        lemma_small_mod(s as nat, p);
        lemma_euclid(p, s, x);
    }
}

} // verus!

verus! {

/// The binomial coefficient `C(n, k)`, by Pascal's rule.
pub open spec fn binom(n: nat, k: nat) -> nat
    decreases n,
{
    if k == 0 {
        1
    } else if n == 0 {
        0
    } else {
        binom((n - 1) as nat, (k - 1) as nat) + binom((n - 1) as nat, k)
    }
}

proof fn lemma_binom_above(n: nat, k: nat)
    requires
        k > n,
    ensures
        binom(n, k) == 0,
    decreases n,
{
    if n > 0 {
        lemma_binom_above((n - 1) as nat, (k - 1) as nat);
        lemma_binom_above((n - 1) as nat, k);
    }
}

proof fn lemma_binom_top(n: nat)
    ensures
        binom(n, n) == 1,
    decreases n,
{
    if n > 0 {
        lemma_binom_top((n - 1) as nat);
        lemma_binom_above((n - 1) as nat, n);
    }
}

/// `k · C(n, k) = n · C(n - 1, k - 1)`.
proof fn lemma_binom_absorb(n: nat, k: nat)
    requires
        n >= 1,
        k >= 1,
    ensures
        k * binom(n, k) == n * binom((n - 1) as nat, (k - 1) as nat),
    decreases n,
{
    let n1 = (n - 1) as nat;
    let k1 = (k - 1) as nat;
    if n == 1 {
        if k > 1 {
            lemma_binom_above(0, k1);
            lemma_binom_above(0, k);
            assert(binom(n, k) == 0);
            assert(k * binom(n, k) == 0) by (nonlinear_arith)
                requires
                    binom(n, k) == 0,
            ;
        } else {
            assert(binom(1, 1) == 1);
        }
    } else {
        // k·C(n-1, k) = (n-1)·C(n-2, k-1)
        lemma_binom_absorb(n1, k);
        // k·C(n-1, k-1) = C(n-1, k-1) + (k-1)·C(n-1, k-1)
        if k > 1 {
            lemma_binom_absorb(n1, k1);
            assert(k1 * binom(n1, k1) == n1 * binom((n1 - 1) as nat, (k1 - 1) as nat));
            assert(binom(n1, k1) == binom((n1 - 1) as nat, (k1 - 1) as nat) + binom((n1 - 1) as nat, k1));
        } else {
            assert(binom((n1 - 1) as nat, (k1 - 1) as nat) == 1 || k1 == 0);
        }
        let a = binom(n1, k1);
        let b = binom(n1, k);
        let c = binom((n1 - 1) as nat, (k1 - 1) as nat);
        let d = binom((n1 - 1) as nat, k1);
        assert(binom(n, k) == a + b);
        assert(k * b == n1 * d);
        if k > 1 {
            assert(k1 * a == n1 * c);
            assert(a == c + d);
            assert(k * (a + b) == n * a) by (nonlinear_arith)
                requires
                    k * b == n1 * d,
                    k1 * a == n1 * c,
                    a == c + d,
                    k == k1 + 1,
                    n == n1 + 1,
            ;
        } else {
            assert(a == 1);
            assert(k1 == 0);
            assert(d == binom((n1 - 1) as nat, 0));
            assert(d == 1);
            assert(k * (a + b) == n * a) by (nonlinear_arith)
                requires
                    k * b == n1 * d,
                    a == 1,
                    d == 1,
                    k == 1,
                    n == n1 + 1,
            ;
        }
    }
}

/// A prime divides every binomial coefficient strictly inside its row.
proof fn lemma_prime_divides_binom(p: nat, k: nat)
    requires
        is_prime_spec(p),
        0 < k < p,
    ensures
        (binom(p, k) as int) % (p as int) == 0,
{
    lemma_binom_absorb(p, k);
    let c = binom((p - 1) as nat, (k - 1) as nat) as int;
    assert((k * binom(p, k)) as int == (p as int) * c);
    lemma_mod_multiples_basic(c, p as int);
    assert((p as int) * c == c * (p as int)) by (nonlinear_arith);
    lemma_small_mod(k, p);
    lemma_euclid(p, k as int, binom(p, k) as int);
}

/// `Σ_{k < j} C(n, k) · x^k`.
pub open spec fn binom_terms(n: nat, x: int) -> spec_fn(int) -> int {
    |k: int| binom(n, k as nat) * pow(x, k as nat)
}

proof fn lemma_fsum_shift(g: spec_fn(int) -> int, m: nat)
    ensures
        fsum(g, m + 1) == g(0) + fsum(|k: int| g(k + 1), m),
    decreases m,
{
    let sh = |k: int| g(k + 1);
    if m > 0 {
        lemma_fsum_shift(g, (m - 1) as nat);
        assert(fsum(sh, m) == fsum(sh, (m - 1) as nat) + sh(m - 1));
        assert(fsum(g, m + 1) == fsum(g, m) + g(m as int));
    } else {
        assert(fsum(g, 1) == fsum(g, 0) + g(0));
    }
    assert(sh =~= (|k: int| g(k + 1)));
}

/// The binomial theorem at `y = 1`: `(x + 1)^n = Σ_{k ≤ n} C(n, k) · x^k`.
proof fn lemma_binomial(n: nat, x: int)
    ensures
        pow(x + 1, n) == fsum(binom_terms(n, x), n + 1),
    decreases n,
{
    reveal(pow);
    if n == 0 {
        lemma_pow0(x);
        assert(binom(0, 0) == 1);
        assert(binom_terms(0, x)(0) == binom(0, 0) * pow(x, 0));
        assert(fsum(binom_terms(0, x), 1) == fsum(binom_terms(0, x), 0) + binom_terms(0, x)(0));
    } else {
        let n1 = (n - 1) as nat;
        lemma_binomial(n1, x);
        let prev = binom_terms(n1, x);
        let cur = binom_terms(n, x);
        // C(n, k) x^k = [k ≥ 1] C(n-1, k-1) x^k + C(n-1, k) x^k
        let up = |k: int| if k >= 1 { binom(n1, (k - 1) as nat) * pow(x, k as nat) } else { 0 };
        let same = |k: int| binom(n1, k as nat) * pow(x, k as nat);
        let both = |k: int| up(k) + same(k);
        assert forall|k: int| 0 <= k < n + 1 implies #[trigger] cur(k) == both(k) by {
            if k >= 1 {
                assert(binom(n, k as nat) == binom(n1, (k - 1) as nat) + binom(n1, k as nat));
                let (b1, b2, z) = (binom(n1, (k - 1) as nat) as int, binom(n1, k as nat) as int, pow(x, k as nat));
                assert((b1 + b2) * z == b1 * z + b2 * z) by (nonlinear_arith);
            }
        }
        lemma_fsum_ext(cur, both, n + 1);
        lemma_fsum_add(up, same, n + 1);
        // The `same` part: its last term vanishes.
        lemma_binom_above(n1, n);
        assert(same(n as int) == 0);
        assert(fsum(same, n + 1) == fsum(same, n));
        assert(same =~= prev);
        // The `up` part: shifted, it is x times the previous row.
        lemma_fsum_shift(up, n);
        let shifted = |k: int| up(k + 1);
        let xprev = |k: int| x * prev(k);
        assert forall|k: int| 0 <= k < n implies #[trigger] shifted(k) == xprev(k) by {
            assert(pow(x, (k + 1) as nat) == x * pow(x, k as nat));
            let (b, z) = (binom(n1, k as nat) as int, pow(x, k as nat));
            assert(b * (x * z) == x * (b * z)) by (nonlinear_arith);
        }
        lemma_fsum_ext(shifted, xprev, n);
        crate::mat_tables::lemma_fsum_mul_left(x, prev, n);
        assert(pow(x + 1, n) == (x + 1) * pow(x + 1, n1));
        let s = fsum(prev, n);
        assert((x + 1) * s == x * s + s) by (nonlinear_arith);
    }
}

} // verus!

verus! {

/// `(x + 1)^p ≡ x^p + 1 (mod p)`.
proof fn lemma_freshman(p: nat, x: int)
    requires
        is_prime_spec(p),
    ensures
        pow(x + 1, p) % (p as int) == (pow(x, p) + 1) % (p as int),
{
    let pi = p as int;
    lemma_binomial(p, x);
    let terms = binom_terms(p, x);
    let g = |k: int| if k == 0 { 1 } else if k == p { pow(x, p) } else { 0 };
    assert forall|k: int| 0 <= k < p + 1 implies #[trigger] terms(k) % pi == g(k) % pi by {
        if k == 0 {
            lemma_pow0(x);
        } else if k == p {
            lemma_binom_top(p);
        } else {
            lemma_prime_divides_binom(p, k as nat);
            lemma_mul_mod_noop_left(binom(p, k as nat) as int, pow(x, k as nat), pi);
        }
    }
    lemma_fsum_cong(terms, g, p + 1, pi);
    assert forall|k: int| 0 <= k < p && k != 0 implies #[trigger] g(k) == 0 by {
    }
    lemma_fsum_single(g, 0, p);
    assert(fsum(g, p + 1) == fsum(g, p) + g(p as int));
}

/// `x^p ≡ x (mod p)` for every natural `x`.
proof fn lemma_fermat_nat(p: nat, x: nat)
    requires
        is_prime_spec(p),
    ensures
        pow(x as int, p) % (p as int) == (x as int) % (p as int),
    decreases x,
{
    let pi = p as int;
    if x == 0 {
        lemma0_pow(p);
    } else {
        let x1 = (x - 1) as nat;
        lemma_fermat_nat(p, x1);
        lemma_freshman(p, x1 as int);
        lemma_add_mod_noop(pow(x1 as int, p), 1, pi);
        lemma_add_mod_noop(x1 as int, 1, pi);
    }
}

/// Fermat's little theorem: `a^(p-1) ≡ 1 (mod p)` for `a` not a multiple of
/// the prime `p`.
pub proof fn lemma_fermat(p: nat, a: int)
    requires
        is_prime_spec(p),
        a % (p as int) != 0,
    ensures
        pow(a, (p - 1) as nat) % (p as int) == 1,
{
    let pi = p as int;
    let a1 = a % pi;
    lemma_mod_bound(a, pi);
    lemma_pow_mod_noop(a, (p - 1) as nat, pi);
    lemma_fermat_nat(p, a1 as nat);
    let e = pow(a1, (p - 1) as nat);
    lemma_pow_adds(a1, 1, (p - 1) as nat);
    lemma_pow1(a1);
    assert(pow(a1, p) == a1 * e);
    // a1 · (e - 1) ≡ 0, and p does not divide a1.
    assert(a1 * (e - 1) == a1 * e - a1) by (nonlinear_arith);
    lemma_sub_mod_noop(a1 * e, a1, pi);
    lemma_mod_twice(a, pi);
    assert((a1 * e) % pi == a1 % pi);
    assert((a1 * e - a1) % pi == 0) by {
        lemma_sub_mod_noop(a1 * e, a1, pi);
        lemma_small_mod(0, p);
    }
    lemma_euclid(p, a1, e - 1);
    lemma_sub_mod_noop(e, 1, pi);
    lemma_mod_bound(e, pi);
    lemma_small_mod(1, p);
    let d = e % pi - 1;
    if d != 0 {
        if d > 0 {
            lemma_small_mod(d as nat, p);
        } else {
            lemma_mod_add_multiples_vanish(d, pi);
            lemma_small_mod((d + pi) as nat, p);
            assert(d % pi == (pi + d) % pi);
        }
    }
}

} // verus!
