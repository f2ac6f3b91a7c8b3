//! Quadratic magmas over `Z/N`:
//!
//! ```text
//!     x ◇ y = a x² + b x y + c y² + d x + e y + f   (mod N)
//! ```
//!
//! These give some additional finite refutations for small `N`, and become
//! rare as `N` grows because the polynomial attached to a word has degree
//! exponential in the word's order. Unlike the linear family this does not
//! reduce to coefficient identities, so instances are decided by building the
//! table and sweeping.

use crate::finite::{pairs_hit, pow_u64, table_sig, Engine, FiniteMagma, Scratch};
use crate::graph::discharged_spec;
use vstd::arithmetic::power::pow;
use vstd::prelude::*;

verus! {

#[derive(Clone, Copy, Debug)]
pub struct Quadratic {
    pub n: u32,
    pub a: u32,
    pub b: u32,
    pub c: u32,
    pub d: u32,
    pub e: u32,
    pub f: u32,
}

/// Digit `k` of `code` in base `m`, least significant first.
pub open spec fn code_digit(code: nat, m: nat, k: nat) -> nat
    decreases k,
{
    if k == 0 {
        code % m
    } else {
        code_digit(code / m, m, (k - 1) as nat)
    }
}

/// A digit is below its base.
pub proof fn lemma_code_digit_bound(code: nat, m: nat, k: nat)
    requires
        m > 0,
    ensures
        code_digit(code, m, k) < m,
    decreases k,
{
    if k > 0 {
        lemma_code_digit_bound(code / m, m, (k - 1) as nat);
    }
}

impl Quadratic {
    /// `x ◇ y`, computed in the integers and reduced mod `N`, with the
    /// quadratic terms reduced after their first product as the table does.
    pub open spec fn spec_op(&self, x: nat, y: nat) -> nat {
        let n = self.n as int;
        let (x, y) = (x as int, y as int);
        ((((self.a * x) % n) * x + ((self.b * x) % n) * y + ((self.c * y) % n) * y + self.d * x
            + self.e * y + self.f) % n) as nat
    }

    /// Every intermediate of `op(x, y)` fits in a `u32`.
    pub open spec fn op_fits(&self, x: nat, y: nat) -> bool {
        let n = self.n as int;
        let (x, y) = (x as int, y as int);
        &&& self.a * x <= u32::MAX
        &&& self.b * x <= u32::MAX
        &&& self.c * y <= u32::MAX
        &&& ((self.a * x) % n) * x <= u32::MAX
        &&& ((self.b * x) % n) * y <= u32::MAX
        &&& ((self.c * y) % n) * y <= u32::MAX
        &&& self.d * x <= u32::MAX
        &&& self.e * y <= u32::MAX
        &&& ((self.a * x) % n) * x + ((self.b * x) % n) * y + ((self.c * y) % n) * y + self.d * x
            + self.e * y + self.f <= u32::MAX
    }

    /// `op` fits for every pair of carrier elements.
    pub open spec fn table_fits(&self) -> bool {
        forall|x: nat, y: nat| x < self.n && y < self.n ==> #[trigger] self.op_fits(x, y)
    }

    /// Decode the six coefficients from a single index in `0..N^6`, least
    /// significant digit first: `a, b, c, d, e, f`.
    pub fn from_code(n: u32, code: u64) -> (q: Quadratic)
        requires
            n > 0,
        ensures
            q.n == n,
            q.a == code_digit(code as nat, n as nat, 0),
            q.b == code_digit(code as nat, n as nat, 1),
            q.c == code_digit(code as nat, n as nat, 2),
            q.d == code_digit(code as nat, n as nat, 3),
            q.e == code_digit(code as nat, n as nat, 4),
            q.f == code_digit(code as nat, n as nat, 5),
    {
        let m = n as u64;
        let mut code = code;
        let ghost c0 = code as nat;
        let mut digits: Vec<u32> = Vec::new();
        let mut k: usize = 0;
        while k < 6
            invariant
                m == n as u64,
                m > 0,
                k <= 6,
                digits@.len() == k,
                forall|j: int| 0 <= j < k ==> #[trigger] digits@[j] == code_digit(c0, m as nat, j as nat),
                forall|j: nat| #[trigger] code_digit(code as nat, m as nat, j) == code_digit(c0, m as nat, (j + k) as nat),
            decreases 6 - k,
        {
            proof {
                assert forall|j: nat| #[trigger] code_digit((code / m) as nat, m as nat, j) == code_digit(c0, m as nat, (j + k + 1) as nat) by {
                    assert(code_digit(code as nat, m as nat, j + 1) == code_digit((code as nat) / (m as nat), m as nat, j));
                    assert(code_digit(code as nat, m as nat, j + 1) == code_digit(c0, m as nat, (j + 1 + k) as nat));
                }
                assert(code_digit(code as nat, m as nat, 0) == code_digit(c0, m as nat, k as nat));
            }
            digits.push((code % m) as u32);
            code = code / m;
            k = k + 1;
        }
        Quadratic {
            n,
            a: digits[0],
            b: digits[1],
            c: digits[2],
            d: digits[3],
            e: digits[4],
            f: digits[5],
        }
    }

    /// Size of the coefficient grid, `N^6`.
    pub fn grid_size(n: u32) -> (r: u64)
        requires
            pow(n as int, 6) <= u64::MAX,
        ensures
            r == pow(n as int, 6),
    {
        pow_u64(n as u64, 6)
    }

    /// `x ◇ y`.
    pub fn op(&self, x: u32, y: u32) -> (r: u32)
        requires
            self.n > 0,
            self.op_fits(x as nat, y as nat),
        ensures
            r == self.spec_op(x as nat, y as nat),
    {
        let n = self.n;
        (self.a * x % n * x + self.b * x % n * y + self.c * y % n * y + self.d * x + self.e * y
            + self.f) % n
    }

    /// Write the row-major table into the first `N * N` cells of `table`,
    /// each entry truncated to a byte.
    pub fn fill(&self, table: &mut [u8])
        requires
            self.n > 0,
            self.table_fits(),
            self.n * self.n <= old(table)@.len(),
        ensures
            final(table)@.len() == old(table)@.len(),
            forall|x: int, y: int|
                0 <= x < self.n && 0 <= y < self.n ==> #[trigger] final(table)@[x * self.n + y]
                    == self.spec_op(x as nat, y as nat) as u8,
            forall|k: int|
                self.n * self.n <= k < old(table)@.len() ==> #[trigger] final(table)@[k] == old(
                    table,
                )@[k],
    {
        let n = self.n as usize;
        let ghost t0 = table@;
        let tlen = table.len();
        let mut x: usize = 0;
        while x < n
            invariant
                n == self.n,
                n > 0,
                self.table_fits(),
                n * n <= tlen,
                tlen == table@.len(),
                t0.len() == tlen,
                x <= n,
                forall|x2: int, y2: int|
                    0 <= x2 < x && 0 <= y2 < n ==> #[trigger] table@[x2 * n + y2]
                        == self.spec_op(x2 as nat, y2 as nat) as u8,
                forall|k: int| x * n <= k < tlen ==> #[trigger] table@[k] == t0[k],
            decreases n - x,
        {
            let mut y: usize = 0;
            while y < n
                invariant
                    n == self.n,
                    n > 0,
                    self.table_fits(),
                    n * n <= tlen,
                    tlen == table@.len(),
                    t0.len() == tlen,
                    x < n,
                    y <= n,
                    forall|x2: int, y2: int|
                        0 <= x2 < x && 0 <= y2 < n ==> #[trigger] table@[x2 * n + y2]
                            == self.spec_op(x2 as nat, y2 as nat) as u8,
                    forall|y2: int|
                        0 <= y2 < y ==> #[trigger] table@[x * n + y2] == self.spec_op(
                            x as nat,
                            y2 as nat,
                        ) as u8,
                    forall|k: int| x * n + y <= k < tlen ==> #[trigger] table@[k] == t0[k],
                decreases n - y,
            {
                proof {
                    assert(x * n + y < n * n) by (nonlinear_arith)
                        requires
                            x < n,
                            y < n,
                    ;
                    assert(self.op_fits(x as nat, y as nat));
                }
                let v = self.op(x as u32, y as u32);
                let ghost before = table@;
                table[x * n + y] = v as u8;
                proof {
                    assert forall|x2: int, y2: int|
                        0 <= x2 < x && 0 <= y2 < n implies #[trigger] table@[x2 * n + y2]
                            == self.spec_op(x2 as nat, y2 as nat) as u8 by {
                        assert(x2 * n + y2 < x * n) by (nonlinear_arith)
                            requires
                                x2 < x,
                                y2 < n,
                        ;
                    }
                }
                y = y + 1;
            }
            proof {
                assert forall|k: int| (x + 1) * n <= k < tlen implies #[trigger] table@[k] == t0[k] by {
                    assert((x + 1) * n == x * n + n) by (nonlinear_arith);
                }
            }
            x = x + 1;
        }
    }

    /// The magma itself.
    pub fn magma(&self) -> (m: FiniteMagma)
        requires
            1 <= self.n <= 255,
            self.table_fits(),
        ensures
            m.wf(),
            m.n == self.n,
            forall|x: int, y: int|
                0 <= x < self.n && 0 <= y < self.n ==> #[trigger] m.table@[x * self.n + y]
                    == self.spec_op(x as nat, y as nat),
    {
        let n = self.n as usize;
        proof {
            assert(n * n <= 65025) by (nonlinear_arith)
                requires
                    n <= 255,
            ;
        }
        let mut t = vec![0u8; n * n];
        self.fill(t.as_mut_slice());
        proof {
            assert forall|i: int| 0 <= i < t@.len() implies t@[i] < n by {
                let x = i / (n as int);
                let y = i % (n as int);
                vstd::arithmetic::div_mod::lemma_fundamental_div_mod(i, n as int);
                assert(x < n) by {
                    vstd::arithmetic::div_mod::lemma_div_is_ordered(i, (n * n) as int, n as int);
                    vstd::arithmetic::div_mod::lemma_div_by_multiple(n as int, n as int);
                }
                assert(i == x * n + y) by (nonlinear_arith)
                    requires
                        i == n * x + y,
                ;
                assert(self.spec_op(x as nat, y as nat) < n);
            }
            assert forall|x: int, y: int|
                0 <= x < self.n && 0 <= y < self.n implies #[trigger] t@[x * self.n + y]
                    == self.spec_op(x as nat, y as nat) by {
                assert(self.spec_op(x as nat, y as nat) < n);
            }
        }
        FiniteMagma { n, table: t }
    }

    /// Is this instance linear, i.e. does it lie in the already-swept family?
    pub fn is_linear(&self) -> (b: bool)
        ensures
            b == (self.a == 0 && self.b == 0 && self.c == 0 && self.f == 0),
    {
        self.a == 0 && self.b == 0 && self.c == 0 && self.f == 0
    }
}

} // verus!

verus! {

/// With the quadratic and constant terms zero the family degenerates to
/// the linear one, `x ◇ y = dx + ey`.
pub proof fn lemma_linear_instance(q: Quadratic, x: nat, y: nat)
    requires
        q.n > 0,
        q.a == 0,
        q.b == 0,
        q.c == 0,
        q.f == 0,
    ensures
        q.spec_op(x, y) == (q.d * x + q.e * y) % (q.n as int),
{
    let n = q.n as int;
    assert(q.a * (x as int) == 0 && q.b * (x as int) == 0 && q.c * (y as int) == 0);
    assert(0int % n == 0);
    assert(0int * (x as int) == 0 && 0int * (y as int) == 0);
}

} // verus!

verus! {

/// The instance that `code` names over `Z/n`: its six base-`n` digits, least
/// significant first, are `a, b, c, d, e, f`.
pub open spec fn quad_of(n: u32, code: nat) -> Quadratic {
    Quadratic {
        n,
        a: code_digit(code, n as nat, 0) as u32,
        b: code_digit(code, n as nat, 1) as u32,
        c: code_digit(code, n as nat, 2) as u32,
        d: code_digit(code, n as nat, 3) as u32,
        e: code_digit(code, n as nat, 4) as u32,
        f: code_digit(code, n as nat, 5) as u32,
    }
}

/// The instance lies in the linear family.
pub open spec fn quad_linear(q: Quadratic) -> bool {
    q.a == 0 && q.b == 0 && q.c == 0 && q.f == 0
}

/// The row-major table of an instance.
pub open spec fn quad_table(q: Quadratic) -> Seq<u8> {
    let n = q.n as int;
    Seq::new((n * n) as nat, |k: int| q.spec_op((k / n) as nat, (k % n) as nat) as u8)
}

/// The pairs that instance `code` discharges.
pub open spec fn quad_discharged(e: &Engine, n: u32, code: nat, pairs: Seq<(usize, usize)>) -> Seq<usize> {
    discharged_spec(table_sig(e, quad_table(quad_of(n, code)), n as nat), pairs)
}

/// For each code in `lo..hi`, in order, whose instance is not linear and
/// discharges some pair: the instance and the pairs.
pub open spec fn quad_hits(e: &Engine, n: u32, pairs: Seq<(usize, usize)>, lo: nat, hi: nat) -> Seq<(Quadratic, Seq<usize>)>
    decreases hi,
{
    if hi <= lo {
        Seq::empty()
    } else {
        let p = quad_hits(e, n, pairs, lo, (hi - 1) as nat);
        let q = quad_of(n, (hi - 1) as nat);
        let got = quad_discharged(e, n, (hi - 1) as nat, pairs);
        if !quad_linear(q) && got.len() > 0 {
            p.push((q, got))
        } else {
            p
        }
    }
}

/// A list of quadratic hits, by value.
pub open spec fn quad_hits_view(v: Seq<(Quadratic, Vec<usize>)>) -> Seq<(Quadratic, Seq<usize>)> {
    Seq::new(v.len(), |k: int| (v[k].0, v[k].1@))
}

/// With coefficients below `n <= 20`, every intermediate of `op` is small.
proof fn lemma_small_table_fits(q: Quadratic)
    requires
        1 <= q.n <= 20,
        q.a < q.n && q.b < q.n && q.c < q.n && q.d < q.n && q.e < q.n && q.f < q.n,
    ensures
        q.table_fits(),
{
    let n = q.n as int;
    assert forall|x: nat, y: nat| x < q.n && y < q.n implies #[trigger] q.op_fits(x, y) by {
        let (xi, yi) = (x as int, y as int);
        vstd::arithmetic::div_mod::lemma_mod_bound(q.a * xi, n);
        vstd::arithmetic::div_mod::lemma_mod_bound(q.b * xi, n);
        vstd::arithmetic::div_mod::lemma_mod_bound(q.c * yi, n);
        let ra = (q.a * xi) % n;
        let rb = (q.b * xi) % n;
        let rc = (q.c * yi) % n;
        assert(q.a * xi <= 400 && q.b * xi <= 400 && q.c * yi <= 400 && q.d * xi <= 400 && q.e * yi <= 400)
            by (nonlinear_arith)
            requires
                q.a < n && q.b < n && q.c < n && q.d < n && q.e < n,
                0 <= xi < n && 0 <= yi < n,
                n <= 20,
        ;
        assert(ra * xi <= 400 && rb * yi <= 400 && rc * yi <= 400) by (nonlinear_arith)
            requires
                0 <= ra < n && 0 <= rb < n && 0 <= rc < n,
                0 <= xi < n && 0 <= yi < n,
                n <= 20,
        ;
    }
}

/// Sweep the quadratic instances with codes `lo..hi` over `Z/n` against the
/// target pairs (as law positions), skipping the linear ones and keeping
/// those that discharge something.
pub fn quad_chunk(e: &Engine, pairs: &Vec<(usize, usize)>, n: u32, lo: u64, hi: u64, s: &mut Scratch) -> (found: Vec<(Quadratic, Vec<usize>)>)
    requires
        e.wf(),
        old(s).fits(&e.dag),
        1 <= n <= 20,
        lo <= hi,
        forall|k: int| 0 <= k < pairs@.len() ==> (#[trigger] pairs@[k]).0 < e.dag.laws@.len() && pairs@[k].1 < e.dag.laws@.len(),
    ensures
        final(s).fits(&e.dag),
        quad_hits_view(found@) == quad_hits(e, n, pairs@, lo as nat, hi as nat),
{
    let mut found: Vec<(Quadratic, Vec<usize>)> = Vec::new();
    let mut code: u64 = lo;
    while code < hi
        invariant
            e.wf(),
            s.fits(&e.dag),
            1 <= n <= 20,
            lo <= code <= hi,
            forall|k: int| 0 <= k < pairs@.len() ==> (#[trigger] pairs@[k]).0 < e.dag.laws@.len() && pairs@[k].1 < e.dag.laws@.len(),
            quad_hits_view(found@) == quad_hits(e, n, pairs@, lo as nat, code as nat),
        decreases hi - code,
    {
        let q = Quadratic::from_code(n, code);
        proof {
            assert(q == quad_of(n, code as nat));
        }
        if q.is_linear() {
            code = code + 1;
            continue;
        }
        proof {
            lemma_code_digit_bound(code as nat, n as nat, 0);
            lemma_code_digit_bound(code as nat, n as nat, 1);
            lemma_code_digit_bound(code as nat, n as nat, 2);
            lemma_code_digit_bound(code as nat, n as nat, 3);
            lemma_code_digit_bound(code as nat, n as nat, 4);
            lemma_code_digit_bound(code as nat, n as nat, 5);
            lemma_small_table_fits(q);
        }
        let m = q.magma();
        proof {
            assert(m.table@ =~= quad_table(q)) by {
                assert forall|k: int| 0 <= k < m.table@.len() implies m.table@[k] == quad_table(q)[k] by {
                    crate::transinv::lemma_row_major(k, n as int);
                    let x = k / (n as int);
                    let y = k % (n as int);
                    assert(m.table@[x * n + y] == q.spec_op(x as nat, y as nat));
                }
            }
        }
        let got = pairs_hit(e, &m, s, pairs);
        let ghost before = found@;
        if got.len() > 0 {
            found.push((q, got));
            proof {
                assert(quad_hits_view(found@) =~= quad_hits_view(before).push((q, quad_discharged(e, n, code as nat, pairs@))));
            }
        }
        code = code + 1;
    }
    found
}

} // verus!

verus! {

/// Two codes below `n^k` whose first `k` base-`n` digits agree are equal.
proof fn lemma_digits_determine_code(n: nat, k: nat, c1: nat, c2: nat)
    requires
        n > 0,
        c1 < pow(n as int, k),
        c2 < pow(n as int, k),
        forall|j: nat| j < k ==> #[trigger] code_digit(c1, n, j) == code_digit(c2, n, j),
    ensures
        c1 == c2,
    decreases k,
{
    if k == 0 {
        reveal_with_fuel(pow, 1);
    } else {
        let p = pow(n as int, (k - 1) as nat);
        reveal_with_fuel(pow, 1);
        assert(pow(n as int, k) == n * p);
        vstd::arithmetic::power::lemma_pow_positive(n as int, (k - 1) as nat);
        assert(c1 / n < p && c2 / n < p) by (nonlinear_arith)
            requires
                n > 0,
                p > 0,
                c1 < n * p,
                c2 < n * p,
        ;
        assert forall|j: nat| j < k - 1 implies #[trigger] code_digit(c1 / n, n, j) == code_digit(c2 / n, n, j) by {
            assert(code_digit(c1, n, j + 1) == code_digit(c2, n, j + 1));
        }
        lemma_digits_determine_code(n, (k - 1) as nat, c1 / n, c2 / n);
        assert(code_digit(c1, n, 0) == code_digit(c2, n, 0));
        vstd::arithmetic::div_mod::lemma_fundamental_div_mod(c1 as int, n as int);
        vstd::arithmetic::div_mod::lemma_fundamental_div_mod(c2 as int, n as int);
    }
}

/// Decoding is one to one on `0..n^6`: two different codes give two
/// different quadratic operations.
pub proof fn lemma_from_code_injective(n: u32, c1: u64, c2: u64)
    requires
        n > 0,
        c1 < pow(n as int, 6),
        c2 < pow(n as int, 6),
        c1 != c2,
    ensures
        exists|j: nat| j < 6 && #[trigger] code_digit(c1 as nat, n as nat, j) != code_digit(c2 as nat, n as nat, j),
{
    if forall|j: nat| j < 6 ==> #[trigger] code_digit(c1 as nat, n as nat, j) == code_digit(c2 as nat, n as nat, j) {
        lemma_digits_determine_code(n as nat, 6, c1 as nat, c2 as nat);
    }
}

} // verus!
