//! A little number theory: gcd with Bezout coefficients, and the fact that
//! stepping through `0..t` by a stride coprime to `t` reaches every residue.

use vstd::arithmetic::div_mod::*;
use vstd::arithmetic::power::pow;
use vstd::prelude::*;

verus! {

/// Euclid's algorithm, as a definition.
pub open spec fn spec_gcd(a: nat, b: nat) -> nat
    decreases b,
{
    if b == 0 {
        a
    } else {
        spec_gcd(b, a % b)
    }
}

/// `a` and `b` admit the Bezout identity `a x + b y = 1`.
pub open spec fn coprime(a: int, b: int) -> bool {
    exists|x: int, y: int| #[trigger] (a * x + b * y) == 1
}

/// Greatest common divisor, with Bezout coefficients witnessed in ghost code.
pub fn gcd(a0: u64, b0: u64) -> (g: u64)
    ensures
        g == spec_gcd(a0 as nat, b0 as nat),
        exists|x: int, y: int| #[trigger] (a0 * x + b0 * y) == g,
{
    let mut a = a0;
    let mut b = b0;
    let ghost mut xa: int = 1;
    let ghost mut ya: int = 0;
    let ghost mut xb: int = 0;
    let ghost mut yb: int = 1;
    while b != 0
        invariant
            spec_gcd(a as nat, b as nat) == spec_gcd(a0 as nat, b0 as nat),
            a == a0 * xa + b0 * ya,
            b == a0 * xb + b0 * yb,
        decreases b,
    {
        let t = a % b;
        proof {
            let q = (a / b) as int;
            lemma_fundamental_div_mod(a as int, b as int);
            assert(t == a - b * q);
            let nx = xa - q * xb;
            let ny = ya - q * yb;
            assert(t == a0 * nx + b0 * ny) by (nonlinear_arith)
                requires
                    t == a - b * q,
                    a == a0 * xa + b0 * ya,
                    b == a0 * xb + b0 * yb,
                    nx == xa - q * xb,
                    ny == ya - q * yb,
            ;
            xa = xb;
            ya = yb;
            xb = nx;
            yb = ny;
        }
        a = b;
        b = t;
    }
    proof {
        assert(a0 * xa + b0 * ya == a);
    }
    a
}

/// A number coprime to `n` is coprime to every power of `n`.
pub proof fn lemma_coprime_pow(s: int, n: int, k: nat)
    requires
        coprime(s, n),
    ensures
        coprime(s, pow(n, k)),
    decreases k,
{
    if k == 0 {
        assert(s * 0 + pow(n, 0) * 1 == 1) by {
            reveal(pow);
        }
    } else {
        lemma_coprime_pow(s, n, (k - 1) as nat);
        let (x1, y1) = choose|x: int, y: int| #[trigger] (s * x + pow(n, (k - 1) as nat) * y) == 1;
        let (x2, y2) = choose|x: int, y: int| #[trigger] (s * x + n * y) == 1;
        let p = pow(n, (k - 1) as nat);
        assert(pow(n, k) == n * p) by {
            reveal(pow);
        }
        let x = x1 * s * x2 + x1 * n * y2 + p * y1 * x2;
        let y = y1 * y2;
        let u = s * x1 + p * y1;
        let v = s * x2 + n * y2;
        assert(u == 1);
        assert(v == 1);
        assert(u * v == u * (s * x2) + u * (n * y2)) by (nonlinear_arith)
            requires
                v == s * x2 + n * y2,
        ;
        assert(u * (s * x2) == (s * x1) * (s * x2) + (p * y1) * (s * x2)) by (nonlinear_arith)
            requires
                u == s * x1 + p * y1,
        ;
        assert(u * (n * y2) == (s * x1) * (n * y2) + (p * y1) * (n * y2)) by (nonlinear_arith)
            requires
                u == s * x1 + p * y1,
        ;
        assert((s * x1) * (s * x2) == s * (x1 * s * x2)) by (nonlinear_arith);
        assert((s * x1) * (n * y2) == s * (x1 * n * y2)) by (nonlinear_arith);
        assert((p * y1) * (s * x2) == s * (p * y1 * x2)) by (nonlinear_arith);
        assert((p * y1) * (n * y2) == (n * p) * (y1 * y2)) by (nonlinear_arith);
        assert(s * x == s * (x1 * s * x2) + s * (x1 * n * y2) + s * (p * y1 * x2)) by (nonlinear_arith)
            requires
                x == x1 * s * x2 + x1 * n * y2 + p * y1 * x2,
        ;
        assert(u * v == 1) by (nonlinear_arith)
            requires
                u == 1,
                v == 1,
        ;
        assert(s * x + (n * p) * y == 1);
        assert(s * x + pow(n, k) * y == 1);
    }
}

/// Stepping by a stride coprime to `t` reaches every residue within `t`
/// steps: for every target there is a step count below `t` landing on it.
pub proof fn lemma_stride_reaches(s: int, t: int, target: int)
    requires
        t > 0,
        coprime(s, t),
        0 <= target < t,
    ensures
        exists|j: int| 0 <= j < t && #[trigger] ((j * s) % t) == target,
{
    let (x, y) = choose|x: int, y: int| #[trigger] (s * x + t * y) == 1;
    let j = (target * x) % t;
    lemma_mod_bound(target * x, t);
    lemma_mul_mod_noop_left(target * x, s, t);
    assert((target * x) * s == t * (-(target * y)) + target) by (nonlinear_arith)
        requires
            s * x + t * y == 1,
    ;
    lemma_mod_multiples_vanish(-(target * y), target, t);
    lemma_small_mod(target as nat, t as nat);
    assert((j * s) % t == target);
}

} // verus!
