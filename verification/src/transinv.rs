//! Translation-invariant magmas.
//!
//! On an abelian group `M`, a magma whose left translations are automorphisms
//! takes the form
//!
//! ```text
//!     x ◇ y = x + f(y - x)
//! ```
//!
//! for some `f: M -> M`, so the whole family over `Z/n` is parametrised by the
//! `n^n` functions `f`. That is small enough to sweep exhaustively for `n` up
//! to 8 and, with early exit, up to 9.

use crate::finite::{pairs_hit, pow_u64, table_sig, Engine, FiniteMagma, Scratch};
use crate::graph::discharged_spec;
use vstd::arithmetic::power::pow;
use vstd::prelude::*;

verus! {

/// `x ◇ y = x + f(y - x)` over `Z/n`, with `f` given as a table.
#[derive(Clone, Debug)]
pub struct TranslationInvariant {
    pub n: usize,
    pub f: Vec<u8>,
}

/// `x + f((y - x) mod n)`, reduced mod `n`.
pub open spec fn ti_op(f: Seq<u8>, n: nat, x: nat, y: nat) -> nat {
    ((x + f[(y - x) % (n as int)]) % (n as int)) as nat
}

/// `n!`.
pub open spec fn factorial_spec(n: nat) -> nat
    decreases n,
{
    if n == 0 {
        1
    } else {
        n * factorial_spec((n - 1) as nat)
    }
}

/// The permutation that Lehmer code `index` names over `pool`: the first
/// entry is `pool[index / (|pool| - 1)!]`, and the rest is the code of the
/// remainder over what is left of the pool.
pub open spec fn lehmer(pool: Seq<u8>, index: nat) -> Seq<u8>
    decreases pool.len(),
{
    if pool.len() == 0 {
        Seq::empty()
    } else {
        let f = factorial_spec((pool.len() - 1) as nat);
        let i = (index / f) as int;
        if 0 <= i < pool.len() {
            seq![pool[i]] + lehmer(pool.remove(i), index % f)
        } else {
            Seq::empty()
        }
    }
}

/// `0, 1, ..., n - 1` as bytes.
pub open spec fn iota(n: nat) -> Seq<u8> {
    Seq::new(n, |i: int| i as u8)
}

proof fn lemma_factorial_positive(n: nat)
    ensures
        factorial_spec(n) >= 1,
    decreases n,
{
    if n > 0 {
        lemma_factorial_positive((n - 1) as nat);
        assert(n * factorial_spec((n - 1) as nat) >= 1) by (nonlinear_arith)
            requires
                n >= 1,
                factorial_spec((n - 1) as nat) >= 1,
        ;
    }
}

proof fn lemma_factorial_mono(a: nat, b: nat)
    requires
        a <= b,
    ensures
        factorial_spec(a) <= factorial_spec(b),
    decreases b,
{
    if a < b {
        lemma_factorial_mono(a, (b - 1) as nat);
        lemma_factorial_positive((b - 1) as nat);
        assert(b * factorial_spec((b - 1) as nat) >= factorial_spec((b - 1) as nat))
            by (nonlinear_arith)
            requires
                b >= 1,
                factorial_spec((b - 1) as nat) >= 1,
        ;
    }
}

/// Lehmer decoding over a pool of distinct entries gives a sequence of the
/// same length, of distinct entries, each drawn from the pool.
pub proof fn lemma_lehmer_permutes(pool: Seq<u8>, index: nat)
    requires
        index < factorial_spec(pool.len()),
        forall|a: int, b: int| 0 <= a < b < pool.len() ==> pool[a] != pool[b],
    ensures
        lehmer(pool, index).len() == pool.len(),
        forall|j: int| 0 <= j < pool.len() ==> pool.contains(#[trigger] lehmer(pool, index)[j]),
        forall|a: int, b: int|
            0 <= a < b < pool.len() ==> lehmer(pool, index)[a] != lehmer(pool, index)[b],
    decreases pool.len(),
{
    if pool.len() > 0 {
        let k = (pool.len() - 1) as nat;
        let f = factorial_spec(k);
        lemma_factorial_positive(k);
        let i = (index / f) as int;
        assert(i < pool.len()) by {
            assert(index < pool.len() * f);
            assert(pool.len() * f == f * pool.len()) by (nonlinear_arith);
            vstd::arithmetic::div_mod::lemma_multiply_divide_lt(index as int, f as int, pool.len() as int);
        }
        let rest = pool.remove(i);
        vstd::arithmetic::div_mod::lemma_mod_bound(index as int, f as int);
        lemma_lehmer_permutes(rest, index % f);
        let r = lehmer(pool, index);
        let rr = lehmer(rest, index % f);
        assert(r == seq![pool[i]] + rr);
        assert forall|j: int| 0 <= j < pool.len() implies pool.contains(#[trigger] r[j]) by {
            if j == 0 {
                assert(pool[i] == r[0]);
            } else {
                assert(r[j] == rr[j - 1]);
                let t = choose|t: int| 0 <= t < rest.len() && rest[t] == rr[j - 1];
                if t < i {
                    assert(pool[t] == rest[t]);
                } else {
                    assert(pool[t + 1] == rest[t]);
                }
            }
        }
        assert forall|a: int, b: int| 0 <= a < b < pool.len() implies r[a] != r[b] by {
            if a == 0 {
                assert(r[b] == rr[b - 1]);
                let t = choose|t: int| 0 <= t < rest.len() && rest[t] == rr[b - 1];
                if t < i {
                    assert(rest[t] == pool[t]);
                } else {
                    assert(rest[t] == pool[t + 1]);
                }
            } else {
                assert(r[a] == rr[a - 1]);
                assert(r[b] == rr[b - 1]);
            }
        }
    }
}

impl TranslationInvariant {
    /// The magma for `f`.
    pub fn new(n: usize, f: Vec<u8>) -> (t: TranslationInvariant)
        ensures
            t.n == n,
            t.f@ == f@,
    {
        TranslationInvariant { n, f }
    }

    /// Row-major multiplication table.
    pub fn table(&self) -> (t: Vec<u8>)
        requires
            self.n <= self.f@.len(),
            self.n * self.n <= usize::MAX,
        ensures
            t@.len() == self.n * self.n,
            forall|x: int, y: int|
                0 <= x < self.n && 0 <= y < self.n ==> #[trigger] t@[x * self.n + y] == ti_op(
                    self.f@,
                    self.n as nat,
                    x as nat,
                    y as nat,
                ) as u8,
    {
        let mut t = vec![0u8; self.n * self.n];
        self.fill(t.as_mut_slice());
        t
    }

    /// Fill `table` in place, so a sweep over `n^n` functions allocates once.
    pub fn fill(&self, table: &mut [u8])
        requires
            self.n <= self.f@.len(),
            self.n * self.n <= old(table)@.len(),
        ensures
            final(table)@.len() == old(table)@.len(),
            forall|x: int, y: int|
                0 <= x < self.n && 0 <= y < self.n ==> #[trigger] final(table)@[x * self.n + y]
                    == ti_op(self.f@, self.n as nat, x as nat, y as nat) as u8,
            forall|k: int|
                self.n * self.n <= k < old(table)@.len() ==> #[trigger] final(table)@[k] == old(
                    table,
                )@[k],
    {
        let n = self.n;
        let ghost t0 = table@;
        let tlen = table.len();
        let mut x: usize = 0;
        while x < n
            invariant
                n == self.n,
                n <= self.f@.len(),
                n * n <= tlen,
                tlen == table@.len(),
                t0.len() == tlen,
                x <= n,
                forall|x2: int, y2: int|
                    0 <= x2 < x && 0 <= y2 < n ==> #[trigger] table@[x2 * n + y2] == ti_op(
                        self.f@,
                        n as nat,
                        x2 as nat,
                        y2 as nat,
                    ) as u8,
                forall|k: int| x * n <= k < tlen ==> #[trigger] table@[k] == t0[k],
            decreases n - x,
        {
            let mut y: usize = 0;
            while y < n
                invariant
                    n == self.n,
                    n <= self.f@.len(),
                    n * n <= tlen,
                    tlen == table@.len(),
                    t0.len() == tlen,
                    x < n,
                    y <= n,
                    forall|x2: int, y2: int|
                        0 <= x2 < x && 0 <= y2 < n ==> #[trigger] table@[x2 * n + y2] == ti_op(
                            self.f@,
                            n as nat,
                            x2 as nat,
                            y2 as nat,
                        ) as u8,
                    forall|y2: int|
                        0 <= y2 < y ==> #[trigger] table@[x * n + y2] == ti_op(
                            self.f@,
                            n as nat,
                            x as nat,
                            y2 as nat,
                        ) as u8,
                    forall|k: int| x * n + y <= k < tlen ==> #[trigger] table@[k] == t0[k],
                decreases n - y,
            {
                proof {
                    assert(x * n + y < n * n) by (nonlinear_arith)
                        requires
                            x < n,
                            y < n,
                    ;
                    assert(n + n <= usize::MAX) by (nonlinear_arith)
                        requires
                            n * n <= usize::MAX,
                            n >= 1,
                    ;
                }
                // (y - x) mod n, then x + f(that), mod n.
                let d = (y + n - x) % n;
                proof {
                    vstd::arithmetic::div_mod::lemma_mod_add_multiples_vanish(
                        y - x,
                        n as int,
                    );
                }
                let v = ((x + self.f[d] as usize) % n) as u8;
                table[x * n + y] = v;
                proof {
                    assert forall|x2: int, y2: int|
                        0 <= x2 < x && 0 <= y2 < n implies #[trigger] table@[x2 * n + y2] == ti_op(
                            self.f@,
                            n as nat,
                            x2 as nat,
                            y2 as nat,
                        ) as u8 by {
                        assert(x2 * n + y2 < x * n) by (nonlinear_arith)
                            requires
                                x2 < x,
                                y2 < n,
                        ;
                    }
                }
                y = y + 1;
            }
            proof {
                assert forall|k: int| (x + 1) * n <= k < tlen implies #[trigger] table@[k] == t0[k] by {
                    assert((x + 1) * n == x * n + n) by (nonlinear_arith);
                }
            }
            x = x + 1;
        }
    }

    /// The magma itself.
    pub fn magma(&self) -> (m: FiniteMagma)
        requires
            1 <= self.n <= 255,
            self.n <= self.f@.len(),
        ensures
            m.wf(),
            m.n == self.n,
            forall|x: int, y: int|
                0 <= x < self.n && 0 <= y < self.n ==> #[trigger] m.table@[x * self.n + y]
                    == ti_op(self.f@, self.n as nat, x as nat, y as nat),
    {
        let n = self.n;
        proof {
            assert(n * n <= 65025) by (nonlinear_arith)
                requires
                    n <= 255,
            ;
        }
        let t = self.table();
        proof {
            assert forall|i: int| 0 <= i < t@.len() implies t@[i] < n by {
                let x = i / (n as int);
                let y = i % (n as int);
                vstd::arithmetic::div_mod::lemma_fundamental_div_mod(i, n as int);
                assert(x < n) by {
                    vstd::arithmetic::div_mod::lemma_div_is_ordered(i, (n * n) as int, n as int);
                    vstd::arithmetic::div_mod::lemma_div_by_multiple(n as int, n as int);
                }
                assert(i == x * n + y) by (nonlinear_arith)
                    requires
                        i == n * x + y,
                ;
            }
        }
        FiniteMagma { n, table: t }
    }

    /// Number of functions `f` over a carrier of size `n`.
    pub fn grid_size(n: usize) -> (r: u64)
        requires
            n <= u32::MAX,
            pow(n as int, n as nat) <= u64::MAX,
        ensures
            r == pow(n as int, n as nat),
    {
        pow_u64(n as u64, n as u32)
    }
}

/// Decode `index` into the permutation of `0..n` it names, by Lehmer code,
/// into `out`.
///
/// Sweeping permutations rather than all `n^n` functions is what lets the
/// family reach the carrier range that matters: a law of the form
/// `x = w(x, y, ...)` with `x` occurring once on the right forces the relevant
/// translations to be surjective, and the left translation `y ↦ x + f(y - x)`
/// is bijective exactly when `f` is.
pub fn permutation(n: usize, index: u64, out: &mut Vec<u8>)
    requires
        n <= 255,
        factorial_spec(n as nat) <= u64::MAX,
        index < factorial_spec(n as nat),
    ensures
        final(out)@ == lehmer(iota(n as nat), index as nat),
        final(out)@.len() == n,
        forall|j: int| 0 <= j < n ==> #[trigger] final(out)@[j] < n,
        forall|a: int, b: int| 0 <= a < b < n ==> final(out)@[a] != final(out)@[b],
{
    out.clear();
    let mut pool: Vec<u8> = Vec::new();
    let mut q: usize = 0;
    while q < n
        invariant
            q <= n,
            n <= 255,
            pool@ == iota(q as nat),
        decreases n - q,
    {
        pool.push(q as u8);
        proof {
            assert(pool@ =~= iota((q + 1) as nat));
        }
        q = q + 1;
    }
    let fact0 = factorial(n);
    let mut fact = fact0;
    let ghost index0 = index as nat;
    let mut index = index;
    let ghost target = lehmer(iota(n as nat), index as nat);
    let mut k: usize = 0;
    proof {
        lemma_factorial_positive(n as nat);
        assert(out@ + lehmer(pool@, index as nat) =~= target);
    }
    while k < n
        invariant
            k <= n,
            n <= 255,
            pool@.len() == n - k,
            fact == factorial_spec((n - k) as nat),
            index < fact,
            out@.len() == k,
            out@ + lehmer(pool@, index as nat) == target,
        decreases n - k,
    {
        let m = n - k;
        proof {
            assert(fact == m * factorial_spec((m - 1) as nat));
            lemma_factorial_positive((m - 1) as nat);
        }
        fact = fact / (m as u64);
        proof {
            assert(fact == factorial_spec((m - 1) as nat)) by (nonlinear_arith)
                requires
                    fact == (m * factorial_spec((m - 1) as nat)) / (m as int),
                    m >= 1,
            ;
        }
        let i = (index / fact) as usize;
        proof {
            assert(index < m * fact);
            assert(m * fact == fact * m) by (nonlinear_arith);
            vstd::arithmetic::div_mod::lemma_multiply_divide_lt(index as int, fact as int, m as int);
            vstd::arithmetic::div_mod::lemma_mod_bound(index as int, fact as int);
        }
        let ghost old_pool = pool@;
        let ghost old_index = index as nat;
        index = index % fact;
        let v = pool.remove(i);
        out.push(v);
        proof {
            assert(lehmer(old_pool, old_index) == seq![old_pool[i as int]] + lehmer(
                old_pool.remove(i as int),
                index as nat,
            ));
            assert(out@ + lehmer(pool@, index as nat) =~= target);
        }
        k = k + 1;
    }
    proof {
        assert(pool@.len() == 0);
        assert(lehmer(pool@, index as nat) =~= Seq::<u8>::empty());
        assert(out@ =~= target);
        assert forall|a: int, b: int| 0 <= a < b < n implies iota(n as nat)[a] != iota(
            n as nat,
        )[b] by {}
        lemma_lehmer_permutes(iota(n as nat), index0);
        assert forall|j: int| 0 <= j < n implies #[trigger] out@[j] < n by {
            assert(iota(n as nat).contains(out@[j]));
        }
    }
}

/// `n!`.
pub fn factorial(n: usize) -> (r: u64)
    requires
        factorial_spec(n as nat) <= u64::MAX,
    ensures
        r == factorial_spec(n as nat),
{
    let mut r: u64 = 1;
    let mut i: usize = 0;
    proof {
        lemma_factorial_positive(0);
    }
    while i < n
        invariant
            i <= n,
            r == factorial_spec(i as nat),
            factorial_spec(n as nat) <= u64::MAX,
        decreases n - i,
    {
        proof {
            lemma_factorial_mono((i + 1) as nat, n as nat);
            assert(factorial_spec((i + 1) as nat) == (i + 1) * factorial_spec(i as nat));
            assert(r * (i + 1) == (i + 1) * r) by (nonlinear_arith);
        }
        r = r * ((i + 1) as u64);
        i = i + 1;
    }
    r
}

} // verus!

verus! {

/// `f(d) = b·d mod n` with `b = f(1 mod n)`: the translation-invariant
/// magma of `f` is then the linear one `x ◇ y = (1 - b)x + by`.
pub open spec fn linear_function(f: Seq<u8>, n: nat) -> bool {
    forall|d: int| 0 <= d < n ==> (#[trigger] f[d]) as int == (f[1int % (n as int)] * d) % (n as int)
}

/// Is `f` linear, `f(d) = f(1)·d mod n`?
pub fn is_linear_function(f: &[u8], n: usize) -> (b: bool)
    requires
        1 <= n <= 256,
        f@.len() >= n,
    ensures
        b == linear_function(f@, n as nat),
{
    let b = f[1 % n] as usize;
    let mut d: usize = 0;
    while d < n
        invariant
            1 <= n <= 256,
            f@.len() >= n,
            b == f@[1int % (n as int)],
            d <= n,
            forall|e: int| 0 <= e < d ==> (#[trigger] f@[e]) as int == (f@[1int % (n as int)] * e) % (n as int),
        decreases n - d,
    {
        proof {
            assert(b * d <= 255 * 256) by (nonlinear_arith)
                requires
                    b <= 255,
                    d <= 256,
            ;
        }
        if f[d] as usize != (b * d) % n {
            return false;
        }
        d = d + 1;
    }
    true
}

} // verus!

verus! {

/// Left translation by `t` is an automorphism of every translation-invariant
/// magma over `Z/n`: `(x + t) ◇ (y + t) = (x ◇ y) + t`. This is the
/// defining property of the family.
pub proof fn lemma_translation_is_automorphism(f: Seq<u8>, n: nat, x: nat, y: nat, t: nat)
    requires
        n >= 1,
        f.len() >= n,
    ensures
        ti_op(f, n, (x + t) % n, (y + t) % n) == (ti_op(f, n, x, y) + t) % n,
{
    let ni = n as int;
    vstd::arithmetic::div_mod::lemma_sub_mod_noop((y + t) as int, (x + t) as int, ni);
    assert((y + t) as int - (x + t) as int == y - x);
    let d = (y - x) % ni;
    vstd::arithmetic::div_mod::lemma_mod_bound(y - x, ni);
    let v = f[d] as int;
    vstd::arithmetic::div_mod::lemma_add_mod_noop_right(v, (x + t) as int, ni);
    vstd::arithmetic::div_mod::lemma_add_mod_noop_right(t as int, x + v, ni);
    vstd::arithmetic::div_mod::lemma_mod_bound((x + t) as int, ni);
    vstd::arithmetic::div_mod::lemma_mod_bound(x + v, ni);
    assert(ti_op(f, n, (x + t) % n, (y + t) % n) == ((((x + t) % n) as int + v) % ni) as nat);
    assert(ti_op(f, n, x, y) == ((x + v) % ni) as nat);
    assert(v + (x + t) == t + (x + v));
}

/// A linear magma `x ◇ y = ax + by` over `Z/n` with `a + b ≡ 1` is the
/// translation-invariant magma of `f(d) = b·d`.
pub proof fn lemma_linear_is_translation_invariant(n: nat, a: nat, b: nat, f: Seq<u8>, x: nat, y: nat)
    requires
        n >= 1,
        (a + b) % n == 1nat % n,
        f.len() >= n,
        forall|d: int| 0 <= d < n ==> (#[trigger] f[d]) as int == (b * d) % (n as int),
    ensures
        (a * x + b * y) % n == ti_op(f, n, x, y),
{
    let ni = n as int;
    let (ai, bi, xi, yi) = (a as int, b as int, x as int, y as int);
    let d = (yi - xi) % ni;
    vstd::arithmetic::div_mod::lemma_mod_bound(yi - xi, ni);
    assert(f[d] as int == (bi * d) % ni);
    // x + f(d) ≡ x + b·d ≡ x + b·(y - x).
    vstd::arithmetic::div_mod::lemma_add_mod_noop_right(xi, bi * d, ni);
    vstd::arithmetic::div_mod::lemma_mul_mod_noop_right(bi, yi - xi, ni);
    vstd::arithmetic::div_mod::lemma_add_mod_noop_right(xi, bi * (yi - xi), ni);
    assert((xi + f[d] as int) % ni == (xi + bi * (yi - xi)) % ni);
    // a·x + b·y = (a + b)·x + b·(y - x), and (a + b)·x ≡ x.
    assert(ai * xi + bi * yi == (ai + bi) * xi + bi * (yi - xi)) by (nonlinear_arith);
    vstd::arithmetic::div_mod::lemma_mul_mod_noop_left(ai + bi, xi, ni);
    vstd::arithmetic::div_mod::lemma_mul_mod_noop_left(1, xi, ni);
    assert(((ai + bi) * xi) % ni == xi % ni);
    vstd::arithmetic::div_mod::lemma_add_mod_noop((ai + bi) * xi, bi * (yi - xi), ni);
    vstd::arithmetic::div_mod::lemma_add_mod_noop(xi, bi * (yi - xi), ni);
}

/// Lehmer decoding over a pool of distinct entries is injective on
/// `0..|pool|!`: distinct indices give distinct permutations.
pub proof fn lemma_lehmer_injective(pool: Seq<u8>, i: nat, j: nat)
    requires
        forall|a: int, b: int| 0 <= a < b < pool.len() ==> pool[a] != pool[b],
        i < factorial_spec(pool.len()),
        j < factorial_spec(pool.len()),
        lehmer(pool, i) == lehmer(pool, j),
    ensures
        i == j,
    decreases pool.len(),
{
    if pool.len() == 0 {
        assert(factorial_spec(0) == 1);
    } else {
        let k = (pool.len() - 1) as nat;
        let f = factorial_spec(k);
        lemma_factorial_positive(k);
        assert(pool.len() * f == f * pool.len()) by (nonlinear_arith);
        let qi = (i / f) as int;
        let qj = (j / f) as int;
        assert(qi < pool.len()) by {
            vstd::arithmetic::div_mod::lemma_multiply_divide_lt(i as int, f as int, pool.len() as int);
        }
        assert(qj < pool.len()) by {
            vstd::arithmetic::div_mod::lemma_multiply_divide_lt(j as int, f as int, pool.len() as int);
        }
        let li = lehmer(pool, i);
        let lj = lehmer(pool, j);
        assert(li[0] == pool[qi]);
        assert(lj[0] == pool[qj]);
        if qi != qj {
            if qi < qj {
                assert(pool[qi] != pool[qj]);
            } else {
                assert(pool[qj] != pool[qi]);
            }
        }
        assert(qi == qj);
        let rest = pool.remove(qi);
        assert forall|a: int, b: int| 0 <= a < b < rest.len() implies rest[a] != rest[b] by {
            let pa = if a < qi { a } else { a + 1 };
            let pb = if b < qi { b } else { b + 1 };
            assert(rest[a] == pool[pa]);
            assert(rest[b] == pool[pb]);
        }
        vstd::arithmetic::div_mod::lemma_mod_bound(i as int, f as int);
        vstd::arithmetic::div_mod::lemma_mod_bound(j as int, f as int);
        let ri = lehmer(rest, i % f);
        let rj = lehmer(rest, j % f);
        assert(li == seq![pool[qi]] + ri);
        assert(lj == seq![pool[qj]] + rj);
        assert(ri =~= li.drop_first());
        assert(rj =~= lj.drop_first());
        lemma_lehmer_injective(rest, i % f, j % f);
        vstd::arithmetic::div_mod::lemma_fundamental_div_mod(i as int, f as int);
        vstd::arithmetic::div_mod::lemma_fundamental_div_mod(j as int, f as int);
    }
}

} // verus!

verus! {

/// The function `f` that `code` names: the `code`-th permutation of
/// `0..n` in Lehmer order when sweeping permutations only, otherwise the
/// base-`n` digits of `code`.
pub open spec fn ti_function(code: nat, n: nat, perms_only: bool) -> Seq<u8> {
    if perms_only {
        lehmer(iota(n), code)
    } else {
        crate::finite::digits_of(code, n, n)
    }
}

/// The row-major table of `x ◇ y = x + f(y - x)` over `Z/n`.
pub open spec fn ti_table(f: Seq<u8>, n: nat) -> Seq<u8> {
    Seq::new(n * n, |k: int| ti_op(f, n, (k / (n as int)) as nat, (k % (n as int)) as nat) as u8)
}

/// The pairs that the magma of `code` discharges.
pub open spec fn ti_discharged(e: &Engine, code: nat, n: nat, perms_only: bool, pairs: Seq<(usize, usize)>) -> Seq<usize> {
    discharged_spec(table_sig(e, ti_table(ti_function(code, n, perms_only), n), n), pairs)
}

/// For each code in `lo..hi`, in order, whose magma discharges some pair:
/// the carrier size, the function, and the pairs.
pub open spec fn ti_hits(e: &Engine, n: nat, perms_only: bool, pairs: Seq<(usize, usize)>, lo: nat, hi: nat) -> Seq<(usize, Seq<u8>, Seq<usize>)>
    decreases hi,
{
    if hi <= lo {
        Seq::empty()
    } else {
        let p = ti_hits(e, n, perms_only, pairs, lo, (hi - 1) as nat);
        let got = ti_discharged(e, (hi - 1) as nat, n, perms_only, pairs);
        if got.len() > 0 {
            p.push((n as usize, ti_function((hi - 1) as nat, n, perms_only), got))
        } else {
            p
        }
    }
}

/// A list of hits, by value.
pub open spec fn hits_view(v: Seq<(usize, Vec<u8>, Vec<usize>)>) -> Seq<(usize, Seq<u8>, Seq<usize>)> {
    Seq::new(v.len(), |k: int| (v[k].0, v[k].1@, v[k].2@))
}

/// Cell `k` of an `n × n` table is row `k / n`, column `k % n`.
pub proof fn lemma_row_major(k: int, n: int)
    requires
        n > 0,
        0 <= k < n * n,
    ensures
        0 <= k / n < n,
        0 <= k % n < n,
        k == (k / n) * n + k % n,
{
    vstd::arithmetic::div_mod::lemma_fundamental_div_mod(k, n);
    vstd::arithmetic::div_mod::lemma_div_is_ordered(k, n * n, n);
    vstd::arithmetic::div_mod::lemma_div_by_multiple(n, n);
    vstd::arithmetic::div_mod::lemma_div_pos_is_pos(k, n);
    assert(k == (k / n) * n + k % n) by (nonlinear_arith)
        requires
            k == n * (k / n) + k % n,
    ;
    if k / n == n {
        assert(k >= n * n) by (nonlinear_arith)
            requires
                k == n * (k / n) + k % n,
                k / n == n,
                k % n >= 0,
        ;
    }
}

/// Sweep the translation-invariant magmas whose functions have codes
/// `lo..hi` over `Z/n` against the target pairs (as law positions), keeping
/// those that discharge something.
pub fn transinv_chunk(
    e: &Engine,
    pairs: &Vec<(usize, usize)>,
    n: usize,
    perms_only: bool,
    lo: u64,
    hi: u64,
    s: &mut Scratch,
) -> (found: Vec<(usize, Vec<u8>, Vec<usize>)>)
    requires
        e.wf(),
        old(s).fits(&e.dag),
        1 <= n <= 20,
        lo <= hi,
        perms_only ==> hi <= factorial_spec(n as nat),
        forall|k: int| 0 <= k < pairs@.len() ==> (#[trigger] pairs@[k]).0 < e.dag.laws@.len() && pairs@[k].1 < e.dag.laws@.len(),
    ensures
        final(s).fits(&e.dag),
        hits_view(found@) == ti_hits(e, n as nat, perms_only, pairs@, lo as nat, hi as nat),
{
    proof {
        lemma_factorial_bound_20(n as nat);
    }
    let mut found: Vec<(usize, Vec<u8>, Vec<usize>)> = Vec::new();
    let mut f: Vec<u8> = vec![0u8; n];
    let mut code: u64 = lo;
    while code < hi
        invariant
            e.wf(),
            s.fits(&e.dag),
            1 <= n <= 20,
            lo <= code <= hi,
            perms_only ==> hi <= factorial_spec(n as nat),
            factorial_spec(n as nat) <= u64::MAX,
            f@.len() == n,
            forall|k: int| 0 <= k < pairs@.len() ==> (#[trigger] pairs@[k]).0 < e.dag.laws@.len() && pairs@[k].1 < e.dag.laws@.len(),
            hits_view(found@) == ti_hits(e, n as nat, perms_only, pairs@, lo as nat, code as nat),
        decreases hi - code,
    {
        if perms_only {
            permutation(n, code, &mut f);
        } else {
            crate::finite::fill_digits(code, n, f.as_mut_slice());
        }
        let ghost fv = f@;
        proof {
            assert(fv == ti_function(code as nat, n as nat, perms_only));
        }
        let ti = TranslationInvariant::new(n, f.clone());
        let m = ti.magma();
        proof {
            assert(m.table@ =~= ti_table(fv, n as nat)) by {
                assert forall|k: int| 0 <= k < m.table@.len() implies m.table@[k] == ti_table(fv, n as nat)[k] by {
                    lemma_row_major(k, n as int);
                    let x = k / (n as int);
                    let y = k % (n as int);
                    assert(m.table@[x * n + y] == ti_op(fv, n as nat, x as nat, y as nat));
                }
            }
        }
        let got = pairs_hit(e, &m, s, pairs);
        let ghost before = found@;
        if got.len() > 0 {
            found.push((n, f.clone(), got));
            proof {
                assert(hits_view(found@) =~= hits_view(before).push((n, fv, ti_discharged(e, code as nat, n as nat, perms_only, pairs@))));
            }
        }
        code = code + 1;
    }
    found
}

/// `20!` fits in a `u64`, and so does `n!` for every `n <= 20`.
proof fn lemma_factorial_bound_20(n: nat)
    requires
        n <= 20,
    ensures
        factorial_spec(n) <= u64::MAX,
    decreases 20 - n,
{
    if n < 20 {
        lemma_factorial_bound_20(n + 1);
        lemma_factorial_positive(n);
        assert(factorial_spec(n + 1) == (n + 1) * factorial_spec(n));
        assert(factorial_spec(n) <= factorial_spec(n + 1)) by (nonlinear_arith)
            requires
                factorial_spec(n + 1) == (n + 1) * factorial_spec(n),
                factorial_spec(n) >= 1,
        ;
    } else {
        reveal_with_fuel(factorial_spec, 21);
        assert(factorial_spec(20) == 2432902008176640000);
    }
}

} // verus!
