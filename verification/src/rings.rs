//! Concrete rings for linear models.
//!
//! Two of these have finite carriers (`Zmod`, `MatFp`), which is what makes
//! the symbolic decision testable: the same instance decided symbolically
//! must agree bit for bit with an exhaustive table sweep. The rest are
//! infinite, where no table exists and the symbolic route is the only one.

use crate::linear::RingOps;
use crate::problems::decimal;
use crate::nc::{
    monomial_index, ones, spec_monomial_index, spec_word_bits, spec_word_degrees, spec_word_index,
    spec_word_len, word_degrees, word_index, word_of, MAX_DEG, N_MONOMIALS, N_WORDS,
};
use vstd::arithmetic::div_mod::*;
use vstd::arithmetic::power::pow;
use vstd::arithmetic::power2::pow2;
use vstd::prelude::*;

verus! {

/// `k mod m`, Euclidean, for a signed `k`.
pub open spec fn emod(k: int, m: int) -> int {
    k % m
}

/// The name of `Z/m`.
pub open spec fn zmod_name_spec(m: nat) -> Seq<char> {
    seq!['Z', '/'] + decimal(m)
}

/// The name of `M_k(F_p)`.
pub open spec fn matfp_name_spec(k: nat, p: nat) -> Seq<char> {
    seq!['M', '_'] + decimal(k) + seq!['(', 'F', '_'] + decimal(p) + seq![')']
}

/// The name of `Z/m`.
fn zmod_name(m: u64) -> (r: String)
    ensures
        r@ == zmod_name_spec(m as nat),
{
    let mut out: Vec<char> = Vec::new();
    out.push('Z');
    out.push('/');
    crate::problems::push_decimal(m, &mut out);
    proof {
        assert(out@ =~= zmod_name_spec(m as nat));
    }
    crate::problems::string_of(out)
}

/// The name of `M_k(F_p)`.
fn matfp_name(k: usize, p: u64) -> (r: String)
    ensures
        r@ == matfp_name_spec(k as nat, p as nat),
{
    let mut out: Vec<char> = Vec::new();
    out.push('M');
    out.push('_');
    crate::problems::push_decimal(k as u64, &mut out);
    out.push('(');
    out.push('F');
    out.push('_');
    crate::problems::push_decimal(p, &mut out);
    out.push(')');
    proof {
        assert(out@ =~= matfp_name_spec(k as nat, p as nat));
    }
    crate::problems::string_of(out)
}

/// `k` reduced into `0..m`, Euclidean.
fn rem_euclid(k: i32, m: u64) -> (r: u64)
    requires
        1 <= m <= i32::MAX,
    ensures
        r == (k as int) % (m as int),
        r < m,
{
    if k >= 0 {
        proof {
            lemma_mod_bound(k as int, m as int);
        }
        (k as u64) % m
    } else {
        let t = (0i64 - (k as i64)) as u64;
        let a = t % m;
        proof {
            lemma_fundamental_div_mod(t as int, m as int);
            lemma_mod_bound(t as int, m as int);
        }
        if a == 0 {
            proof {
                let q = (t as int) / (m as int);
                assert(k as int == (m as int) * (-q) + 0) by (nonlinear_arith)
                    requires
                        t == -(k as int),
                        t == (m as int) * q + a,
                        a == 0,
                ;
                lemma_fundamental_div_mod_converse(k as int, m as int, -q, 0);
            }
            0
        } else {
            proof {
                let q = (t as int) / (m as int);
                assert(k as int == (m as int) * (-q - 1) + (m - a)) by (nonlinear_arith)
                    requires
                        t == -(k as int),
                        t == (m as int) * q + a,
                ;
                lemma_fundamental_div_mod_converse(k as int, m as int, -q - 1, (m - a) as int);
            }
            m - a
        }
    }
}

/// `Z/mZ`. Carrier size `m`, so instances are finite and cross-checkable.
#[derive(Clone, Debug)]
pub struct Zmod {
    pub m: u64,
}

impl RingOps for Zmod {
    type Elem = u64;

    open spec fn view_of(&self, x: u64) -> Seq<int> {
        seq![x as int]
    }

    open spec fn ring_ok(&self) -> bool {
        1 <= self.m <= i32::MAX
    }

    open spec fn spec_zero(&self) -> Seq<int> {
        seq![0int]
    }

    open spec fn spec_one(&self) -> Seq<int> {
        seq![1int % (self.m as int)]
    }

    open spec fn spec_add(&self, x: Seq<int>, y: Seq<int>) -> Seq<int> {
        seq![(x[0] + y[0]) % (self.m as int)]
    }

    open spec fn spec_mul(&self, x: Seq<int>, y: Seq<int>) -> Seq<int> {
        seq![(x[0] * y[0]) % (self.m as int)]
    }

    open spec fn spec_scale_add(&self, acc: Seq<int>, k: int, x: Seq<int>) -> Seq<int> {
        seq![(acc[0] + emod(k, self.m as int) * x[0]) % (self.m as int)]
    }

    open spec fn finite_card(&self) -> Option<nat> {
        Some(self.m as nat)
    }

    open spec fn spec_is_zero(&self, x: Seq<int>) -> bool {
        x[0] % (self.m as int) == 0
    }

    open spec fn add_fits(&self, x: Seq<int>, y: Seq<int>) -> bool {
        x[0] + y[0] <= u64::MAX
    }

    open spec fn mul_fits(&self, x: Seq<int>, y: Seq<int>) -> bool {
        x[0] * y[0] <= u64::MAX
    }

    open spec fn scale_fits(&self, acc: Seq<int>, k: int, x: Seq<int>) -> bool {
        acc[0] + emod(k, self.m as int) * x[0] <= u64::MAX
    }

    fn zero(&self) -> (r: u64) {
        0
    }

    fn one(&self) -> (r: u64) {
        1 % self.m
    }

    fn add_assign(&self, x: &mut u64, y: &u64) {
        *x = (*x + *y) % self.m;
    }

    fn mul(&self, x: &u64, y: &u64) -> (r: u64) {
        (*x * *y) % self.m
    }

    fn scale_add_assign(&self, acc: &mut u64, k: i32, x: &u64) {
        let km = rem_euclid(k, self.m);
        let a0 = *acc;
        let xv = *x;
        proof {
            assert(km * xv <= u64::MAX) by (nonlinear_arith)
                requires
                    a0 + km * xv <= u64::MAX,
                    a0 >= 0,
            ;
        }
        *acc = (a0 + km * xv) % self.m;
    }

    fn same(&self, x: &u64, y: &u64) -> (b: bool) {
        proof {
            if *x != *y {
                assert(self.view_of(*x)[0] != self.view_of(*y)[0]);
            } else {
                assert(self.view_of(*x) =~= self.view_of(*y));
            }
        }
        *x == *y
    }

    fn is_zero(&self, x: &u64) -> (b: bool) {
        *x % self.m == 0
    }

    fn carrier_size(&self) -> (r: Option<usize>)
        ensures
            r == Some(self.m as usize),
    {
        Some(self.m as usize)
    }

    fn name(&self) -> (r: String)
        ensures
            r@ == zmod_name_spec(self.m as nat),
    {
        zmod_name(self.m)
    }
}

/// The integers. Infinite carrier; coefficients stay tiny because a law of
/// order 4 contributes a handful of path words of degree at most four.
#[derive(Clone, Debug)]
pub struct Integers;

/// Fits in an `i128`.
pub open spec fn in_i128(x: int) -> bool {
    i128::MIN <= x <= i128::MAX
}

impl RingOps for Integers {
    type Elem = i128;

    open spec fn view_of(&self, x: i128) -> Seq<int> {
        seq![x as int]
    }

    open spec fn ring_ok(&self) -> bool {
        true
    }

    open spec fn spec_zero(&self) -> Seq<int> {
        seq![0int]
    }

    open spec fn spec_one(&self) -> Seq<int> {
        seq![1int]
    }

    open spec fn spec_add(&self, x: Seq<int>, y: Seq<int>) -> Seq<int> {
        seq![x[0] + y[0]]
    }

    open spec fn spec_mul(&self, x: Seq<int>, y: Seq<int>) -> Seq<int> {
        seq![x[0] * y[0]]
    }

    open spec fn spec_scale_add(&self, acc: Seq<int>, k: int, x: Seq<int>) -> Seq<int> {
        seq![acc[0] + k * x[0]]
    }

    open spec fn finite_card(&self) -> Option<nat> {
        None
    }

    open spec fn spec_is_zero(&self, x: Seq<int>) -> bool {
        x[0] == 0
    }

    open spec fn add_fits(&self, x: Seq<int>, y: Seq<int>) -> bool {
        in_i128(x[0] + y[0])
    }

    open spec fn mul_fits(&self, x: Seq<int>, y: Seq<int>) -> bool {
        in_i128(x[0] * y[0])
    }

    open spec fn scale_fits(&self, acc: Seq<int>, k: int, x: Seq<int>) -> bool {
        in_i128(k * x[0]) && in_i128(acc[0] + k * x[0])
    }

    fn zero(&self) -> (r: i128) {
        0
    }

    fn one(&self) -> (r: i128) {
        1
    }

    fn add_assign(&self, x: &mut i128, y: &i128) {
        *x = *x + *y;
    }

    fn mul(&self, x: &i128, y: &i128) -> (r: i128) {
        *x * *y
    }

    fn scale_add_assign(&self, acc: &mut i128, k: i32, x: &i128) {
        *acc = *acc + k as i128 * *x;
    }

    fn same(&self, x: &i128, y: &i128) -> (b: bool) {
        proof {
            if *x != *y {
                assert(self.view_of(*x)[0] != self.view_of(*y)[0]);
            } else {
                assert(self.view_of(*x) =~= self.view_of(*y));
            }
        }
        *x == *y
    }

    fn is_zero(&self, x: &i128) -> (b: bool) {
        *x == 0
    }

    fn name(&self) -> (r: String)
        ensures
            r@ == "Z"@,
    {
        String::from_str("Z")
    }
}

/// `k x k` matrices over `F_p`, the smallest genuinely noncommutative rings.
/// The carrier has `p^(k^2)` elements, which is far past what a six-variable
/// table sweep can reach, so these instances are only decidable symbolically.
#[derive(Clone, Debug)]
pub struct MatFp {
    pub p: u64,
    pub k: usize,
}

/// `Σ_{l < n} x[i, l] * y[l, j]` for `k x k` row-major matrices.
pub open spec fn mat_sum(x: Seq<int>, y: Seq<int>, k: int, i: int, j: int, n: nat) -> int
    decreases n,
{
    if n == 0 {
        0
    } else {
        mat_sum(x, y, k, i, j, (n - 1) as nat) + x[i * k + (n - 1)] * y[(n - 1) * k + j]
    }
}

/// The entries as integers.
pub open spec fn ints_u64(v: Seq<u64>) -> Seq<int> {
    v.map_values(|e: u64| e as int)
}

impl MatFp {
    /// Row-major entries from `k` rows of `k` entries, each reduced mod `p`.
    pub fn from_rows(&self, rows: &[&[u64]]) -> (v: Vec<u64>)
        requires
            self.p > 0,
            rows@.len() * self.k <= usize::MAX,
            forall|r: int| 0 <= r < rows@.len() ==> (#[trigger] rows@[r])@.len() == self.k,
        ensures
            v@.len() == rows@.len() * self.k,
            forall|r: int, c: int|
                0 <= r < rows@.len() && 0 <= c < self.k ==> #[trigger] v@[r * self.k + c] == rows@[r]@[c]
                    % self.p,
    {
        let mut v: Vec<u64> = Vec::new();
        let mut r: usize = 0;
        while r < rows.len()
            invariant
                self.p > 0,
                rows@.len() * self.k <= usize::MAX,
                forall|r2: int| 0 <= r2 < rows@.len() ==> (#[trigger] rows@[r2])@.len() == self.k,
                r <= rows@.len(),
                v@.len() == r * self.k,
                forall|r2: int, c: int|
                    0 <= r2 < r && 0 <= c < self.k ==> #[trigger] v@[r2 * self.k + c] == rows@[r2]@[c]
                        % self.p,
            decreases rows@.len() - r,
        {
            let row = rows[r];
            let mut c: usize = 0;
            while c < row.len()
                invariant
                    self.p > 0,
                    row@.len() == self.k,
                    row@ == rows@[r as int]@,
                    r < rows@.len(),
                    c <= row@.len(),
                    v@.len() == r * self.k + c,
                    forall|r2: int, c2: int|
                        0 <= r2 < r && 0 <= c2 < self.k ==> #[trigger] v@[r2 * self.k + c2] == rows@[r2]@[c2]
                            % self.p,
                    forall|c2: int| 0 <= c2 < c ==> #[trigger] v@[r * self.k + c2] == row@[c2] % self.p,
                decreases row@.len() - c,
            {
                v.push(row[c] % self.p);
                proof {
                    assert forall|r2: int, c2: int|
                        0 <= r2 < r && 0 <= c2 < self.k implies #[trigger] v@[r2 * self.k + c2]
                            == rows@[r2]@[c2] % self.p by {
                        assert(r2 * self.k + c2 < r * self.k) by (nonlinear_arith)
                            requires
                                r2 < r,
                                c2 < self.k,
                        ;
                    }
                }
                c = c + 1;
            }
            proof {
                assert(v@.len() == (r + 1) * self.k) by (nonlinear_arith)
                    requires
                        v@.len() == r * self.k + c,
                        c == self.k,
                ;
            }
            r = r + 1;
        }
        v
    }
}

impl RingOps for MatFp {
    type Elem = Vec<u64>;

    open spec fn view_of(&self, x: Vec<u64>) -> Seq<int> {
        ints_u64(x@)
    }

    open spec fn ring_ok(&self) -> bool {
        &&& 1 <= self.p <= i32::MAX
        &&& self.k * self.k <= u32::MAX
        &&& pow(self.p as int, (self.k * self.k) as nat) <= usize::MAX
    }

    open spec fn spec_zero(&self) -> Seq<int> {
        Seq::new((self.k * self.k) as nat, |q: int| 0int)
    }

    open spec fn spec_one(&self) -> Seq<int> {
        Seq::new(
            (self.k * self.k) as nat,
            |q: int|
                if q / (self.k as int) == q % (self.k as int) {
                    1int % (self.p as int)
                } else {
                    0int
                },
        )
    }

    open spec fn spec_add(&self, x: Seq<int>, y: Seq<int>) -> Seq<int> {
        Seq::new(x.len(), |q: int| (x[q] + y[q]) % (self.p as int))
    }

    open spec fn spec_mul(&self, x: Seq<int>, y: Seq<int>) -> Seq<int> {
        let k = self.k as int;
        Seq::new((self.k * self.k) as nat, |q: int| mat_sum(x, y, k, q / k, q % k, self.k as nat) % (self.p as int))
    }

    open spec fn spec_scale_add(&self, acc: Seq<int>, kk: int, x: Seq<int>) -> Seq<int> {
        Seq::new(acc.len(), |q: int| (acc[q] + emod(kk, self.p as int) * x[q]) % (self.p as int))
    }

    open spec fn finite_card(&self) -> Option<nat> {
        Some(pow(self.p as int, (self.k * self.k) as nat) as nat)
    }

    open spec fn spec_is_zero(&self, x: Seq<int>) -> bool {
        forall|q: int| 0 <= q < x.len() ==> #[trigger] x[q] % (self.p as int) == 0
    }

    open spec fn add_fits(&self, x: Seq<int>, y: Seq<int>) -> bool {
        &&& y.len() >= x.len()
        &&& forall|q: int| 0 <= q < x.len() ==> #[trigger] x[q] + y[q] <= u64::MAX
    }

    open spec fn mul_fits(&self, x: Seq<int>, y: Seq<int>) -> bool {
        &&& x.len() >= self.k * self.k
        &&& y.len() >= self.k * self.k
        &&& forall|q: int, r: int|
            0 <= q < self.k * self.k && 0 <= r < self.k * self.k ==> #[trigger] x[q] * #[trigger] y[r] + self.p
                - 1 <= u64::MAX
    }

    open spec fn scale_fits(&self, acc: Seq<int>, kk: int, x: Seq<int>) -> bool {
        &&& x.len() >= acc.len()
        &&& forall|q: int| 0 <= q < acc.len() ==> #[trigger] acc[q] + emod(kk, self.p as int) * x[q] <= u64::MAX
    }

    fn zero(&self) -> (r: Vec<u64>) {
        let n = self.k * self.k;
        let r = vec![0u64; n];
        proof {
            assert(ints_u64(r@) =~= self.spec_zero());
        }
        r
    }

    fn one(&self) -> (r: Vec<u64>) {
        let k = self.k;
        let mut m = vec![0u64; k * k];
        let mut i: usize = 0;
        while i < k
            invariant
                self.ring_ok(),
                k == self.k,
                m@.len() == k * k,
                i <= k,
                forall|q: int|
                    0 <= q < k * k ==> #[trigger] m@[q] == if q / (k as int) == q % (k as int) && q / (k as int) < i {
                        1int % (self.p as int)
                    } else {
                        0int
                    },
            decreases k - i,
        {
            proof {
                assert(i * k + i < k * k) by (nonlinear_arith)
                    requires
                        i < k,
                ;
            }
            m.set(i * k + i, 1 % self.p);
            proof {
                assert forall|q: int|
                    0 <= q < k * k implies #[trigger] m@[q] == if q / (k as int) == q % (k as int) && q / (k as int) < i + 1 {
                        1int % (self.p as int)
                    } else {
                        0int
                    } by {
                    lemma_fundamental_div_mod(q, k as int);
                    lemma_mod_bound(q, k as int);
                    if q == i * k + i {
                        lemma_fundamental_div_mod_converse(q, k as int, i as int, i as int);
                    } else if q / (k as int) == q % (k as int) && q / (k as int) == i {
                        assert(q == k * (q / (k as int)) + q % (k as int));
                        assert(q == i * k + i) by (nonlinear_arith)
                            requires
                                q == k * i + i,
                        ;
                    }
                }
            }
            i = i + 1;
        }
        proof {
            assert forall|q: int| 0 <= q < k * k implies #[trigger] m@[q] as int == self.spec_one()[q] by {
                lemma_fundamental_div_mod(q, k as int);
                assert(q / (k as int) < k) by {
                    lemma_multiply_divide_lt(q, k as int, k as int);
                }
            }
            assert(ints_u64(m@) =~= self.spec_one());
        }
        m
    }

    fn add_assign(&self, x: &mut Vec<u64>, y: &Vec<u64>) {
        let ghost x0 = ints_u64(x@);
        let n = x.len();
        let mut i: usize = 0;
        while i < n
            invariant
                self.ring_ok(),
                n == x@.len(),
                x0.len() == n,
                self.add_fits(x0, ints_u64(y@)),
                i <= n,
                forall|q: int| 0 <= q < n ==> #[trigger] x@[q] as int == if q < i {
                    (x0[q] + y@[q]) % (self.p as int)
                } else {
                    x0[q]
                },
            decreases n - i,
        {
            proof {
                assert(x0[i as int] + ints_u64(y@)[i as int] <= u64::MAX);
            }
            let v = (x[i] + y[i]) % self.p;
            x.set(i, v);
            i = i + 1;
        }
        proof {
            assert(ints_u64(x@) =~= self.spec_add(x0, ints_u64(y@)));
        }
    }

    #[verifier::spinoff_prover]
    fn mul(&self, x: &Vec<u64>, y: &Vec<u64>) -> (r: Vec<u64>) {
        let k = self.k;
        let p = self.p;
        let ghost xs = ints_u64(x@);
        let ghost ys = ints_u64(y@);
        let mut out = vec![0u64; k * k];
        proof {
            assert forall|i2: int, j: int| 0 <= i2 < k && 0 <= j < k implies #[trigger] out@[i2 * k + j] == 0 by {
                assert(i2 * k + j < k * k) by (nonlinear_arith)
                    requires
                        i2 < k,
                        j < k,
                ;
            }
        }
        let mut i: usize = 0;
        while i < k
            invariant
                self.ring_ok(),
                k == self.k,
                p == self.p,
                xs == ints_u64(x@),
                ys == ints_u64(y@),
                self.mul_fits(xs, ys),
                out@.len() == k * k,
                i <= k,
                forall|i2: int, j: int|
                    0 <= i2 < k && 0 <= j < k ==> #[trigger] out@[i2 * k + j] == if i2 < i {
                        mat_sum(xs, ys, k as int, i2, j, k as nat) % (p as int)
                    } else {
                        0
                    },
            decreases k - i,
        {
            let mut l: usize = 0;
            proof {
                lemma_small_mod(0, p as nat);
                assert forall|i2: int, j: int|
                    0 <= i2 < k && 0 <= j < k implies #[trigger] out@[i2 * k + j] == if i2 < i {
                        mat_sum(xs, ys, k as int, i2, j, k as nat) % (p as int)
                    } else if i2 == i {
                        mat_sum(xs, ys, k as int, i2, j, 0) % (p as int)
                    } else {
                        0
                    } by {
                    assert(mat_sum(xs, ys, k as int, i2, j, 0) == 0);
                }
            }
            while l < k
                invariant
                    self.ring_ok(),
                    k == self.k,
                    p == self.p,
                    xs == ints_u64(x@),
                    ys == ints_u64(y@),
                    self.mul_fits(xs, ys),
                    out@.len() == k * k,
                    i < k,
                    l <= k,
                    forall|i2: int, j: int|
                        0 <= i2 < k && 0 <= j < k ==> #[trigger] out@[i2 * k + j] == if i2 < i {
                            mat_sum(xs, ys, k as int, i2, j, k as nat) % (p as int)
                        } else if i2 == i {
                            mat_sum(xs, ys, k as int, i2, j, l as nat) % (p as int)
                        } else {
                            0
                        },
                decreases k - l,
            {
                proof {
                    assert(i * k + l < k * k) by (nonlinear_arith)
                        requires
                            i < k,
                            l < k,
                    ;
                }
                let a = x[i * k + l];
                let mut j: usize = 0;
                while j < k
                    invariant
                        self.ring_ok(),
                        k == self.k,
                        p == self.p,
                        xs == ints_u64(x@),
                        ys == ints_u64(y@),
                        self.mul_fits(xs, ys),
                        out@.len() == k * k,
                        i < k,
                        l < k,
                        a == x@[i * k + l],
                        i * k + l < k * k,
                        j <= k,
                        forall|i2: int, j2: int|
                            0 <= i2 < k && 0 <= j2 < k ==> #[trigger] out@[i2 * k + j2] == if i2 < i {
                                mat_sum(xs, ys, k as int, i2, j2, k as nat) % (p as int)
                            } else if i2 == i && j2 < j {
                                mat_sum(xs, ys, k as int, i2, j2, (l + 1) as nat) % (p as int)
                            } else if i2 == i {
                                mat_sum(xs, ys, k as int, i2, j2, l as nat) % (p as int)
                            } else {
                                0
                            },
                    decreases k - j,
                {
                    proof {
                        assert(i * k + j < k * k && l * k + j < k * k) by (nonlinear_arith)
                            requires
                                i < k,
                                j < k,
                                l < k,
                        ;
                    }
                    let ghost before = out@;
                    let o = out[i * k + j];
                    let b = y[l * k + j];
                    let ghost sl = mat_sum(xs, ys, k as int, i as int, j as int, l as nat);
                    proof {
                        assert(xs[i * k + l] == a as int);
                        assert(ys[l * k + j] == b as int);
                        assert(mat_sum(xs, ys, k as int, i as int, j as int, (l + 1) as nat) == sl + a * b);
                        assert(o == sl % (p as int));
                    }
                    if a != 0 {
                        proof {
                            assert(xs[i * k + l] * ys[l * k + j] + p - 1 <= u64::MAX);
                            lemma_mod_bound(sl, p as int);
                        }
                        let v = (o + a * b) % p;
                        out.set(i * k + j, v);
                        proof {
                            lemma_add_mod_noop_right((a * b) as int, sl, p as int);
                            assert(v == (sl + a * b) % (p as int));
                        }
                    } else {
                        proof {
                            assert(a * b == 0) by (nonlinear_arith)
                                requires
                                    a == 0,
                            ;
                            assert(sl + a * b == sl);
                        }
                    }
                    proof {
                        assert forall|i2: int, j2: int|
                            0 <= i2 < k && 0 <= j2 < k implies #[trigger] out@[i2 * k + j2] == if i2 < i {
                                mat_sum(xs, ys, k as int, i2, j2, k as nat) % (p as int)
                            } else if i2 == i && j2 < j + 1 {
                                mat_sum(xs, ys, k as int, i2, j2, (l + 1) as nat) % (p as int)
                            } else if i2 == i {
                                mat_sum(xs, ys, k as int, i2, j2, l as nat) % (p as int)
                            } else {
                                0
                            } by {
                            assert(i2 * k + j2 < k * k) by (nonlinear_arith)
                                requires
                                    i2 < k,
                                    j2 < k,
                            ;
                            if i2 * k + j2 == i * k + j {
                                lemma_fundamental_div_mod_converse(i2 * k + j2, k as int, i2, j2);
                                lemma_fundamental_div_mod_converse(i * k + j, k as int, i as int, j as int);
                                assert(i2 == i && j2 == j);
                                assert(out@[i2 * k + j2] == mat_sum(xs, ys, k as int, i as int, j as int, (l + 1) as nat) % (p as int));
                            } else {
                                assert(out@[i2 * k + j2] == before[i2 * k + j2]);
                                assert(before[i2 * k + j2] == if i2 < i {
                                    mat_sum(xs, ys, k as int, i2, j2, k as nat) % (p as int)
                                } else if i2 == i && j2 < j {
                                    mat_sum(xs, ys, k as int, i2, j2, (l + 1) as nat) % (p as int)
                                } else if i2 == i {
                                    mat_sum(xs, ys, k as int, i2, j2, l as nat) % (p as int)
                                } else {
                                    0
                                });
                            }
                        }
                    }
                    j = j + 1;
                }
                l = l + 1;
            }
            i = i + 1;
        }
        proof {
            assert forall|q: int| 0 <= q < k * k implies #[trigger] ints_u64(out@)[q] == self.spec_mul(xs, ys)[q] by {
                let qi = q / (k as int);
                let qj = q % (k as int);
                lemma_fundamental_div_mod(q, k as int);
                lemma_mod_bound(q, k as int);
                assert(qi < k) by {
                    lemma_multiply_divide_lt(q, k as int, k as int);
                }
                assert(q == qi * k + qj) by (nonlinear_arith)
                    requires
                        q == k * qi + qj,
                ;
            }
            assert(ints_u64(out@) =~= self.spec_mul(xs, ys));
        }
        out
    }

    fn scale_add_assign(&self, acc: &mut Vec<u64>, kk: i32, x: &Vec<u64>) {
        let s = rem_euclid(kk, self.p);
        let ghost acc0 = acc@;
        let ghost a0 = ints_u64(acc@);
        let n = acc.len();
        let mut i: usize = 0;
        while i < n
            invariant
                self.ring_ok(),
                n == acc@.len(),
                a0.len() == n,
                a0 == ints_u64(acc0),
                s == emod(kk as int, self.p as int),
                self.scale_fits(a0, kk as int, ints_u64(x@)),
                i <= n,
                forall|q: int| 0 <= q < n ==> #[trigger] acc@[q] as int == if q < i {
                    (a0[q] + s * x@[q]) % (self.p as int)
                } else {
                    a0[q]
                },
            decreases n - i,
        {
            proof {
                assert(a0[i as int] == acc0[i as int] as int);
                assert(a0[i as int] + s * ints_u64(x@)[i as int] <= u64::MAX);
                assert(s * x@[i as int] <= u64::MAX) by (nonlinear_arith)
                    requires
                        a0[i as int] + s * x@[i as int] <= u64::MAX,
                        a0[i as int] >= 0,
                ;
            }
            let v = (acc[i] + s * x[i]) % self.p;
            acc.set(i, v);
            i = i + 1;
        }
        proof {
            assert(ints_u64(acc@) =~= self.spec_scale_add(a0, kk as int, ints_u64(x@)));
        }
    }

    fn same(&self, x: &Vec<u64>, y: &Vec<u64>) -> (b: bool) {
        same_u64s(x, y)
    }

    fn is_zero(&self, x: &Vec<u64>) -> (b: bool) {
        let mut i: usize = 0;
        while i < x.len()
            invariant
                self.ring_ok(),
                i <= x@.len(),
                forall|q: int| 0 <= q < i ==> #[trigger] ints_u64(x@)[q] % (self.p as int) == 0,
            decreases x@.len() - i,
        {
            if x[i] % self.p != 0 {
                proof {
                    assert(ints_u64(x@)[i as int] % (self.p as int) != 0);
                }
                return false;
            }
            i = i + 1;
        }
        true
    }

    fn carrier_size(&self) -> (r: Option<usize>)
        ensures
            r == Some(pow(self.p as int, (self.k * self.k) as nat) as usize),
    {
        let e = (self.k * self.k) as u32;
        let b = self.p as usize;
        let mut r: usize = 1;
        let mut j: u32 = 0;
        proof {
            vstd::arithmetic::power::lemma_pow0(b as int);
        }
        while j < e
            invariant
                b == self.p,
                1 <= b,
                e == self.k * self.k,
                j <= e,
                r == pow(b as int, j as nat),
                pow(b as int, e as nat) <= usize::MAX,
            decreases e - j,
        {
            proof {
                vstd::arithmetic::power::lemma_pow_increases(b as nat, (j + 1) as nat, e as nat);
                assert(pow(b as int, (j + 1) as nat) == b * pow(b as int, j as nat)) by {
                    reveal(pow);
                }
                assert(r * b == b * r) by (nonlinear_arith);
            }
            r = r * b;
            j = j + 1;
        }
        Some(r)
    }

    fn name(&self) -> (r: String)
        ensures
            r@ == matfp_name_spec(self.k as nat, self.p as nat),
    {
        matfp_name(self.k, self.p)
    }
}

/// The contribution of the pair `(i, j)` to slot `t` of a product whose pair
/// `(i, j)` lands in slot `dst(i, j)` with sign `sgn(i, j)`.
pub open spec fn pair_term(x: Seq<int>, y: Seq<int>, dst: spec_fn(int, int) -> int, sgn: spec_fn(int, int) -> int, t: int, i: int, j: int) -> int {
    if dst(i, j) == t {
        sgn(i, j) * x[i] * y[j]
    } else {
        0
    }
}

/// Sum of the contributions to slot `t` of the pairs before `(i, j)` in
/// row-major order over `ny` columns.
pub open spec fn psum(
    x: Seq<int>,
    y: Seq<int>,
    dst: spec_fn(int, int) -> int,
    sgn: spec_fn(int, int) -> int,
    t: int,
    i: nat,
    j: nat,
    ny: nat,
) -> int
    decreases i, j,
{
    if j > 0 {
        psum(x, y, dst, sgn, t, i, (j - 1) as nat, ny) + pair_term(x, y, dst, sgn, t, i as int, j - 1)
    } else if i > 0 {
        psum(x, y, dst, sgn, t, (i - 1) as nat, ny, ny)
    } else {
        0
    }
}

/// Every partial sum and product of a pair-sum product fits in an `i128`:
/// the sums after each pair of a row, and the whole sum.
pub open spec fn psum_fits(x: Seq<int>, y: Seq<int>, dst: spec_fn(int, int) -> int, sgn: spec_fn(int, int) -> int, n_out: nat) -> bool {
    &&& forall|i: int, j: int| 0 <= i < x.len() && 0 <= j < y.len() ==> #[trigger] in_i128(x[i] * y[j])
    &&& forall|t: int, i: nat, j: nat|
        0 <= t < n_out && ((i < x.len() && j <= y.len()) || (i == x.len() && j == 0)) ==> #[trigger] in_i128(
            psum(x, y, dst, sgn, t, i, j, y.len()),
        )
}

/// A row whose `x` entry is zero adds nothing.
pub(crate) proof fn lemma_psum_zero_row(
    x: Seq<int>,
    y: Seq<int>,
    dst: spec_fn(int, int) -> int,
    sgn: spec_fn(int, int) -> int,
    t: int,
    i: nat,
    j: nat,
    ny: nat,
)
    requires
        i < x.len(),
        x[i as int] == 0,
    ensures
        psum(x, y, dst, sgn, t, i, j, ny) == psum(x, y, dst, sgn, t, i, 0, ny),
    decreases j,
{
    if j > 0 {
        lemma_psum_zero_row(x, y, dst, sgn, t, i, (j - 1) as nat, ny);
        assert(sgn(i as int, j - 1) * x[i as int] * y[j - 1] == 0) by (nonlinear_arith)
            requires
                x[i as int] == 0,
        ;
    }
}

/// The entries as integers.
pub open spec fn ints_i128(v: Seq<i128>) -> Seq<int> {
    v.map_values(|e: i128| e as int)
}

/// The entries as integers, for a fixed array.
pub open spec fn arr_view<const N: usize>(a: [i128; N]) -> Seq<int> {
    a@.map_values(|e: i128| e as int)
}

/// Entrywise equality of two coefficient vectors.
fn same_u64s(x: &Vec<u64>, y: &Vec<u64>) -> (b: bool)
    ensures
        b == (ints_u64(x@) == ints_u64(y@)),
{
    if x.len() != y.len() {
        proof {
            assert(ints_u64(x@).len() != ints_u64(y@).len());
        }
        return false;
    }
    let mut i: usize = 0;
    while i < x.len()
        invariant
            x@.len() == y@.len(),
            i <= x@.len(),
            forall|j: int| 0 <= j < i ==> x@[j] == y@[j],
        decreases x@.len() - i,
    {
        if x[i] != y[i] {
            proof {
                assert(ints_u64(x@)[i as int] != ints_u64(y@)[i as int]);
            }
            return false;
        }
        i = i + 1;
    }
    proof {
        assert(ints_u64(x@) =~= ints_u64(y@));
    }
    true
}

/// Entrywise equality of two coefficient vectors.
fn same_i128s(x: &Vec<i128>, y: &Vec<i128>) -> (b: bool)
    ensures
        b == (ints_i128(x@) == ints_i128(y@)),
{
    if x.len() != y.len() {
        proof {
            assert(ints_i128(x@).len() != ints_i128(y@).len());
        }
        return false;
    }
    let mut i: usize = 0;
    while i < x.len()
        invariant
            x@.len() == y@.len(),
            i <= x@.len(),
            forall|j: int| 0 <= j < i ==> x@[j] == y@[j],
        decreases x@.len() - i,
    {
        if x[i] != y[i] {
            proof {
                assert(ints_i128(x@)[i as int] != ints_i128(y@)[i as int]);
            }
            return false;
        }
        i = i + 1;
    }
    proof {
        assert(ints_i128(x@) =~= ints_i128(y@));
    }
    true
}

/// Entrywise equality of two coefficient arrays.
fn same_arr<const N: usize>(x: &[i128; N], y: &[i128; N]) -> (b: bool)
    ensures
        b == (arr_view(*x) == arr_view(*y)),
{
    let mut i: usize = 0;
    while i < N
        invariant
            x@.len() == N,
            y@.len() == N,
            i <= N,
            forall|j: int| 0 <= j < i ==> x@[j] == y@[j],
        decreases N - i,
    {
        if x[i] != y[i] {
            proof {
                assert(arr_view(*x)[i as int] != arr_view(*y)[i as int]);
            }
            return false;
        }
        i = i + 1;
    }
    proof {
        assert(arr_view(*x) =~= arr_view(*y));
    }
    true
}

/// An all-zero array of 31 coefficients.
fn zeros31() -> (r: [i128; N_WORDS])
    ensures
        forall|q: int| 0 <= q < 31 ==> #[trigger] r@[q] == 0,
        arr_view(r).len() == 31,
{
    let mut r = [0i128; 31];
    let mut i: usize = 0;
    while i < N_WORDS
        invariant
            i <= N_WORDS,
            r@.len() == 31,
            forall|q: int| 0 <= q < i ==> #[trigger] r@[q] == 0,
        decreases N_WORDS - i,
    {
        r[i] = 0;
        i = i + 1;
    }
    r
}

/// An all-zero array of 15 coefficients.
fn zeros15() -> (r: [i128; N_MONOMIALS])
    ensures
        forall|q: int| 0 <= q < 15 ==> #[trigger] r@[q] == 0,
        arr_view(r).len() == 15,
{
    let mut r = [0i128; 15];
    let mut i: usize = 0;
    while i < N_MONOMIALS
        invariant
            i <= N_MONOMIALS,
            r@.len() == 15,
            forall|q: int| 0 <= q < i ==> #[trigger] r@[q] == 0,
        decreases N_MONOMIALS - i,
    {
        r[i] = 0;
        i = i + 1;
    }
    r
}

/// The free noncommutative ring `Z<a, b>` with `a`, `b` the generators
/// themselves. A law holds here exactly when its difference polynomials
/// vanish *identically*, so this instance is the generic noncommutative
/// linear magma: it satisfies precisely the laws every linear magma
/// satisfies.
#[derive(Clone, Debug)]
pub struct FreeNc;

/// Truncated at total degree `MAX_DEG`; products that would exceed it cannot
/// arise from a law of order 4 and are rejected rather than silently dropped.
pub type NcElem = [i128; N_WORDS];

/// Slot of the concatenation of words `i` and `j`.
pub open spec fn nc_dst() -> spec_fn(int, int) -> int {
    |i: int, j: int|
        spec_word_index(
            spec_word_len(i as nat) + spec_word_len(j as nat),
            spec_word_bits(i as nat) * pow2(spec_word_len(j as nat)) + spec_word_bits(j as nat),
        ) as int
}

/// Sign one.
pub open spec fn unit_sgn() -> spec_fn(int, int) -> int {
    |i: int, j: int| 1int
}

/// Elementwise sum fits.
pub open spec fn sum_fits(x: Seq<int>, y: Seq<int>) -> bool {
    forall|q: int| 0 <= q < x.len() ==> #[trigger] in_i128(x[q] + y[q])
}

/// `acc + k * x` elementwise fits.
pub open spec fn scaled_fits(acc: Seq<int>, k: int, x: Seq<int>) -> bool {
    forall|q: int| 0 <= q < acc.len() ==> in_i128(k * #[trigger] x[q]) && in_i128(acc[q] + k * x[q])
}

/// The unit vector at `slot` among `n`.
pub open spec fn unit_vec(n: nat, slot: int) -> Seq<int> {
    Seq::new(n, |q: int| if q == slot { 1int } else { 0int })
}

impl FreeNc {
    /// The generator `a`, the word of length one with letter `a`.
    pub fn gen_a(&self) -> (e: NcElem)
        ensures
            arr_view(e) == unit_vec(31, 1),
    {
        let mut e = zeros31();
        proof {
            vstd::arithmetic::power2::lemma2_to64();
        }
        let w = word_index(1, 0);
        e[w] = 1;
        proof {
            assert(arr_view(e) =~= unit_vec(31, 1));
        }
        e
    }

    /// The generator `b`.
    pub fn gen_b(&self) -> (e: NcElem)
        ensures
            arr_view(e) == unit_vec(31, 2),
    {
        let mut e = zeros31();
        proof {
            vstd::arithmetic::power2::lemma2_to64();
        }
        let w = word_index(1, 1);
        e[w] = 1;
        proof {
            assert(arr_view(e) =~= unit_vec(31, 2));
        }
        e
    }
}

impl RingOps for FreeNc {
    type Elem = NcElem;

    open spec fn view_of(&self, x: NcElem) -> Seq<int> {
        arr_view(x)
    }

    open spec fn ring_ok(&self) -> bool {
        true
    }

    open spec fn spec_zero(&self) -> Seq<int> {
        Seq::new(31, |q: int| 0int)
    }

    open spec fn spec_one(&self) -> Seq<int> {
        unit_vec(31, 0)
    }

    open spec fn spec_add(&self, x: Seq<int>, y: Seq<int>) -> Seq<int> {
        Seq::new(31, |q: int| x[q] + y[q])
    }

    open spec fn spec_mul(&self, x: Seq<int>, y: Seq<int>) -> Seq<int> {
        Seq::new(31, |t: int| psum(x, y, nc_dst(), unit_sgn(), t, 31, 0, 31))
    }

    open spec fn spec_scale_add(&self, acc: Seq<int>, k: int, x: Seq<int>) -> Seq<int> {
        Seq::new(31, |q: int| acc[q] + k * x[q])
    }

    open spec fn finite_card(&self) -> Option<nat> {
        None
    }

    open spec fn spec_is_zero(&self, x: Seq<int>) -> bool {
        forall|q: int| 0 <= q < 31 ==> #[trigger] x[q] == 0
    }

    open spec fn add_fits(&self, x: Seq<int>, y: Seq<int>) -> bool {
        sum_fits(x, y)
    }

    open spec fn mul_fits(&self, x: Seq<int>, y: Seq<int>) -> bool {
        &&& forall|i: int, j: int|
            0 <= i < 31 && 0 <= j < 31 && #[trigger] x[i] != 0 && #[trigger] y[j] != 0 ==> spec_word_len(
                i as nat,
            ) + spec_word_len(j as nat) <= MAX_DEG
        &&& psum_fits(x, y, nc_dst(), unit_sgn(), 31)
    }

    open spec fn scale_fits(&self, acc: Seq<int>, k: int, x: Seq<int>) -> bool {
        scaled_fits(acc, k, x)
    }

    fn zero(&self) -> (r: NcElem) {
        let r = zeros31();
        proof {
            assert(arr_view(r) =~= self.spec_zero());
        }
        r
    }

    fn one(&self) -> (r: NcElem) {
        let mut e = zeros31();
        e[0] = 1;
        proof {
            assert(arr_view(e) =~= self.spec_one());
        }
        e
    }

    fn add_assign(&self, x: &mut NcElem, y: &NcElem) {
        let ghost x0 = arr_view(*x);
        let mut i: usize = 0;
        while i < N_WORDS
            invariant
                x0.len() == 31,
                sum_fits(x0, arr_view(*y)),
                i <= N_WORDS,
                forall|q: int| 0 <= q < 31 ==> #[trigger] x@[q] as int == if q < i { x0[q] + y@[q] } else { x0[q] },
            decreases N_WORDS - i,
        {
            proof {
                assert(in_i128(x0[i as int] + arr_view(*y)[i as int]));
            }
            x[i] = x[i] + y[i];
            i = i + 1;
        }
        proof {
            assert(arr_view(*x) =~= self.spec_add(x0, arr_view(*y)));
        }
    }

    #[verifier::spinoff_prover]
    fn mul(&self, x: &NcElem, y: &NcElem) -> (r: NcElem) {
        let ghost xs = arr_view(*x);
        let ghost ys = arr_view(*y);
        let ghost dst = nc_dst();
        let ghost sgn = unit_sgn();
        let mut out = zeros31();
        let mut i: usize = 0;
        while i < N_WORDS
            invariant
                xs == arr_view(*x),
                ys == arr_view(*y),
                dst == nc_dst(),
                sgn == unit_sgn(),
                self.mul_fits(xs, ys),
                i <= N_WORDS,
                forall|t: int| 0 <= t < 31 ==> #[trigger] out@[t] as int == psum(xs, ys, dst, sgn, t, i as nat, 0, 31),
            decreases N_WORDS - i,
        {
            if x[i] == 0 {
                proof {
                    assert forall|t: int| 0 <= t < 31 implies #[trigger] out@[t] as int == psum(xs, ys, dst, sgn, t, (i + 1) as nat, 0, 31) by {
                        lemma_psum_zero_row(xs, ys, dst, sgn, t, i as nat, 31, 31);
                    }
                }
                i = i + 1;
                continue;
            }
            let (li, bi) = word_of(i);
            let mut j: usize = 0;
            while j < N_WORDS
                invariant
                    xs == arr_view(*x),
                    ys == arr_view(*y),
                    dst == nc_dst(),
                    sgn == unit_sgn(),
                    self.mul_fits(xs, ys),
                    i < N_WORDS,
                    x@[i as int] != 0,
                    li == spec_word_len(i as nat),
                    bi == spec_word_bits(i as nat),
                    li <= MAX_DEG,
                    bi < pow2(li as nat),
                    j <= N_WORDS,
                    forall|t: int| 0 <= t < 31 ==> #[trigger] out@[t] as int == psum(xs, ys, dst, sgn, t, i as nat, j as nat, 31),
                decreases N_WORDS - j,
            {
                let ghost before = out@;
                if y[j] != 0 {
                    let (lj, bj) = word_of(j);
                    proof {
                        assert(xs[i as int] != 0 && ys[j as int] != 0);
                        assert(li + lj <= MAX_DEG);
                        vstd::arithmetic::power2::lemma2_to64();
                        assert(bi < 16 && bj < 16);
                        vstd::bits::lemma_u32_shl_is_mul(1u32, lj);
                        assert(bj < (1u32 << lj));
                        assert(((bi << lj) | bj) == bi * (1u32 << lj) + bj && (1u32 << lj) >= 1) by (bit_vector)
                            requires
                                lj <= 4,
                                bi < 16,
                                bj < (1u32 << lj),
                        ;
                        vstd::bits::lemma_u32_shl_is_mul(1u32, lj);
                        assert(bi * pow2(lj as nat) + bj < pow2((li + lj) as nat)) by {
                            vstd::arithmetic::power2::lemma_pow2_adds(li as nat, lj as nat);
                            assert(bi * pow2(lj as nat) + bj < pow2(li as nat) * pow2(lj as nat)) by (nonlinear_arith)
                                requires
                                    bi < pow2(li as nat),
                                    bj < pow2(lj as nat),
                            ;
                        }
                    }
                    let w = word_index(li + lj, (bi << lj) | bj);
                    proof {
                        assert(w as int == dst(i as int, j as int));
                        assert(w < 31) by {
                            vstd::arithmetic::power2::lemma2_to64();
                            if li + lj < 4 {
                                vstd::arithmetic::power2::lemma_pow2_strictly_increases((li + lj) as nat, 4);
                            }
                        }
                        assert(xs.len() == 31 && ys.len() == 31);
                        assert(in_i128(xs[i as int] * ys[j as int]));
                        assert(in_i128(psum(xs, ys, dst, sgn, w as int, i as nat, (j + 1) as nat, 31)));
                    }
                    let v = out[w] + x[i] * y[j];
                    out[w] = v;
                    proof {
                        assert forall|t: int| 0 <= t < 31 implies #[trigger] out@[t] as int == psum(xs, ys, dst, sgn, t, i as nat, (j + 1) as nat, 31) by {
                            if t != w as int {
                                assert(out@[t] == before[t]);
                            }
                        }
                    }
                } else {
                    proof {
                        assert forall|t: int| 0 <= t < 31 implies #[trigger] out@[t] as int == psum(xs, ys, dst, sgn, t, i as nat, (j + 1) as nat, 31) by {
                            assert(sgn(i as int, j as int) * xs[i as int] * ys[j as int] == 0) by (nonlinear_arith)
                                requires
                                    ys[j as int] == 0,
                            ;
                        }
                    }
                }
                j = j + 1;
            }
            i = i + 1;
        }
        proof {
            assert(arr_view(out) =~= self.spec_mul(xs, ys));
        }
        out
    }

    fn scale_add_assign(&self, acc: &mut NcElem, k: i32, x: &NcElem) {
        let ghost a0 = arr_view(*acc);
        let mut i: usize = 0;
        while i < N_WORDS
            invariant
                a0.len() == 31,
                scaled_fits(a0, k as int, arr_view(*x)),
                i <= N_WORDS,
                forall|q: int| 0 <= q < 31 ==> #[trigger] acc@[q] as int == if q < i { a0[q] + k * x@[q] } else { a0[q] },
            decreases N_WORDS - i,
        {
            proof {
                assert(in_i128(k * arr_view(*x)[i as int]) && in_i128(a0[i as int] + k * arr_view(*x)[i as int]));
            }
            acc[i] = acc[i] + k as i128 * x[i];
            i = i + 1;
        }
        proof {
            assert(arr_view(*acc) =~= self.spec_scale_add(a0, k as int, arr_view(*x)));
        }
    }

    fn same(&self, x: &NcElem, y: &NcElem) -> (b: bool) {
        same_arr(x, y)
    }

    fn is_zero(&self, x: &NcElem) -> (b: bool) {
        let mut i: usize = 0;
        while i < N_WORDS
            invariant
                i <= N_WORDS,
                forall|q: int| 0 <= q < i ==> #[trigger] arr_view(*x)[q] == 0,
            decreases N_WORDS - i,
        {
            if x[i] != 0 {
                proof {
                    assert(arr_view(*x)[i as int] != 0);
                }
                return false;
            }
            i = i + 1;
        }
        true
    }

    fn name(&self) -> (r: String)
        ensures
            r@ == "Z<a,b> (generic noncommutative)"@,
    {
        String::from_str("Z<a,b> (generic noncommutative)")
    }
}

/// Total degree of the monomial in slot `idx`.
pub open spec fn mono_total(idx: int) -> int {
    if idx < 1 {
        0
    } else if idx < 3 {
        1
    } else if idx < 6 {
        2
    } else if idx < 10 {
        3
    } else {
        4
    }
}

/// `(deg_a, deg_b)` of the monomial in slot `idx`: the inverse of
/// `spec_monomial_index` on the 15 slots.
pub open spec fn mono_deg(idx: int) -> (int, int) {
    let d = mono_total(idx);
    let db = idx - d * (d + 1) / 2;
    (d - db, db)
}

/// `(deg_a, deg_b)` for each of the 15 monomial slots.
fn monomial_degrees() -> (out: [(u32, u32); N_MONOMIALS])
    ensures
        forall|q: int| 0 <= q < 15 ==> (#[trigger] out@[q]).0 == mono_deg(q).0 && out@[q].1 == mono_deg(q).1,
{
    let mut out = [(0u32, 0u32); 15];
    let mut d: u32 = 0;
    while d <= MAX_DEG as u32
        invariant
            d <= 5,
            forall|q: int| 0 <= q < d * (d + 1) / 2 ==> (#[trigger] out@[q]).0 == mono_deg(q).0 && out@[q].1 == mono_deg(q).1,
        decreases 5 - d,
    {
        let mut db: u32 = 0;
        while db <= d
            invariant
                d <= 4,
                db <= d + 1,
                forall|q: int| 0 <= q < d * (d + 1) / 2 + db ==> (#[trigger] out@[q]).0 == mono_deg(q).0 && out@[q].1 == mono_deg(q).1,
            decreases d + 1 - db,
        {
            proof {
                assert((d * (d + 1)) <= 20) by (nonlinear_arith)
                    requires
                        d <= 4,
                ;
                assert(d * (d + 1) / 2 + db < 15) by (nonlinear_arith)
                    requires
                        d <= 4,
                        db <= d,
                ;
            }
            let mi = monomial_index(d - db, db);
            out[mi] = (d - db, db);
            proof {
                let q0 = d * (d + 1) / 2 + db;
                assert(mi == q0);
                assert(mono_total(q0 as int) == d) by {
                    assert(d == 0 || d == 1 || d == 2 || d == 3 || d == 4);
                }
            }
            db = db + 1;
        }
        proof {
            assert(d * (d + 1) / 2 + d + 1 == (d + 1) * (d + 2) / 2) by (nonlinear_arith)
                requires
                    d <= 4,
            ;
        }
        d = d + 1;
    }
    proof {
        assert(d == 5);
        assert(d * (d + 1) / 2 == 15);
    }
    out
}

/// Slot of the product of monomials `i` and `j` in the commutative ring.
pub open spec fn comm_dst() -> spec_fn(int, int) -> int {
    |i: int, j: int| spec_monomial_index(
        (mono_deg(i).0 + mono_deg(j).0) as nat,
        (mono_deg(i).1 + mono_deg(j).1) as nat,
    ) as int
}

/// `a^i b^j · a^k b^l = (-1)^m a^(i + k - m) b^(j - m + l)` with
/// `m = min(j, k)`: the normal form after cancelling `ba = -1` at the
/// interface.
pub open spec fn osi_parts(i: int, j: int, k: int, l: int) -> (int, int, int) {
    let m = if j < k {
        j
    } else {
        k
    };
    (if m % 2 == 0 {
        1int
    } else {
        -1int
    }, i + (k - m), (j - m) + l)
}

/// Slot of the product of normal forms `n` and `q`.
pub open spec fn osi_dst() -> spec_fn(int, int) -> int {
    |n: int, q: int| {
        let r = osi_parts(mono_deg(n).0, mono_deg(n).1, mono_deg(q).0, mono_deg(q).1);
        spec_monomial_index(r.1 as nat, r.2 as nat) as int
    }
}

/// Sign of the product of normal forms `n` and `q`.
pub open spec fn osi_sgn() -> spec_fn(int, int) -> int {
    |n: int, q: int| osi_parts(mono_deg(n).0, mono_deg(n).1, mono_deg(q).0, mono_deg(q).1).0
}

/// Elementwise `x += y` on 15 slots.
fn add15(x: &mut [i128; N_MONOMIALS], y: &[i128; N_MONOMIALS])
    requires
        sum_fits(arr_view(*old(x)), arr_view(*y)),
    ensures
        arr_view(*final(x)) == Seq::new(15, |q: int| arr_view(*old(x))[q] + arr_view(*y)[q]),
{
    let ghost x0 = arr_view(*x);
    let mut i: usize = 0;
    while i < N_MONOMIALS
        invariant
            x0.len() == 15,
            sum_fits(x0, arr_view(*y)),
            i <= N_MONOMIALS,
            forall|q: int| 0 <= q < 15 ==> #[trigger] x@[q] as int == if q < i { x0[q] + y@[q] } else { x0[q] },
        decreases N_MONOMIALS - i,
    {
        proof {
            assert(in_i128(x0[i as int] + arr_view(*y)[i as int]));
        }
        x[i] = x[i] + y[i];
        i = i + 1;
    }
    proof {
        assert(arr_view(*x) =~= Seq::new(15, |q: int| x0[q] + arr_view(*y)[q]));
    }
}

/// Elementwise `acc += k * x` on 15 slots.
fn scale15(acc: &mut [i128; N_MONOMIALS], k: i32, x: &[i128; N_MONOMIALS])
    requires
        scaled_fits(arr_view(*old(acc)), k as int, arr_view(*x)),
    ensures
        arr_view(*final(acc)) == Seq::new(15, |q: int| arr_view(*old(acc))[q] + k * arr_view(*x)[q]),
{
    let ghost a0 = arr_view(*acc);
    let mut i: usize = 0;
    while i < N_MONOMIALS
        invariant
            a0.len() == 15,
            scaled_fits(a0, k as int, arr_view(*x)),
            i <= N_MONOMIALS,
            forall|q: int| 0 <= q < 15 ==> #[trigger] acc@[q] as int == if q < i { a0[q] + k * x@[q] } else { a0[q] },
        decreases N_MONOMIALS - i,
    {
        proof {
            assert(in_i128(k * arr_view(*x)[i as int]) && in_i128(a0[i as int] + k * arr_view(*x)[i as int]));
        }
        acc[i] = acc[i] + k as i128 * x[i];
        i = i + 1;
    }
    proof {
        assert(arr_view(*acc) =~= Seq::new(15, |q: int| a0[q] + k * arr_view(*x)[q]));
    }
}

/// Every one of the 15 slots is zero.
fn zero15(x: &[i128; N_MONOMIALS]) -> (b: bool)
    ensures
        b == forall|q: int| 0 <= q < 15 ==> #[trigger] arr_view(*x)[q] == 0,
{
    let mut i: usize = 0;
    while i < N_MONOMIALS
        invariant
            i <= N_MONOMIALS,
            forall|q: int| 0 <= q < i ==> #[trigger] arr_view(*x)[q] == 0,
        decreases N_MONOMIALS - i,
    {
        if x[i] != 0 {
            proof {
                assert(arr_view(*x)[i as int] != 0);
            }
            return false;
        }
        i = i + 1;
    }
    true
}

/// The unit vector at slot `q` of 15.
fn unit15(q: usize) -> (e: [i128; N_MONOMIALS])
    requires
        q < 15,
    ensures
        arr_view(e) == unit_vec(15, q as int),
{
    let mut e = zeros15();
    e[q] = 1;
    proof {
        assert(arr_view(e) =~= unit_vec(15, q as int));
    }
    e
}

/// The free commutative ring `Z[a, b]`: the generic commutative linear
/// magma. Any law it satisfies but `FreeNc` does not is one whose linear
/// proof needs commutativity.
#[derive(Clone, Debug)]
pub struct FreeComm;

pub type CommElem = [i128; N_MONOMIALS];

impl FreeComm {
    /// The generator `a`.
    pub fn gen_a(&self) -> (e: CommElem)
        ensures
            arr_view(e) == unit_vec(15, 1),
    {
        proof {
            assert(((1nat + 0nat) * (1nat + 0nat + 1) / 2 + 0nat) == 1) by (nonlinear_arith);
            assert(spec_monomial_index(1, 0) == 1);
        }
        let q = monomial_index(1, 0);
        unit15(q)
    }

    /// The generator `b`.
    pub fn gen_b(&self) -> (e: CommElem)
        ensures
            arr_view(e) == unit_vec(15, 2),
    {
        proof {
            assert(((0nat + 1nat) * (0nat + 1nat + 1) / 2 + 1nat) == 2) by (nonlinear_arith);
            assert(spec_monomial_index(0, 1) == 2);
        }
        let q = monomial_index(0, 1);
        unit15(q)
    }
}

impl RingOps for FreeComm {
    type Elem = CommElem;

    open spec fn view_of(&self, x: CommElem) -> Seq<int> {
        arr_view(x)
    }

    open spec fn ring_ok(&self) -> bool {
        true
    }

    open spec fn spec_zero(&self) -> Seq<int> {
        Seq::new(15, |q: int| 0int)
    }

    open spec fn spec_one(&self) -> Seq<int> {
        unit_vec(15, 0)
    }

    open spec fn spec_add(&self, x: Seq<int>, y: Seq<int>) -> Seq<int> {
        Seq::new(15, |q: int| x[q] + y[q])
    }

    open spec fn spec_mul(&self, x: Seq<int>, y: Seq<int>) -> Seq<int> {
        Seq::new(15, |t: int| psum(x, y, comm_dst(), unit_sgn(), t, 15, 0, 15))
    }

    open spec fn spec_scale_add(&self, acc: Seq<int>, k: int, x: Seq<int>) -> Seq<int> {
        Seq::new(15, |q: int| acc[q] + k * x[q])
    }

    open spec fn finite_card(&self) -> Option<nat> {
        None
    }

    open spec fn spec_is_zero(&self, x: Seq<int>) -> bool {
        forall|q: int| 0 <= q < 15 ==> #[trigger] x[q] == 0
    }

    open spec fn add_fits(&self, x: Seq<int>, y: Seq<int>) -> bool {
        sum_fits(x, y)
    }

    open spec fn mul_fits(&self, x: Seq<int>, y: Seq<int>) -> bool {
        &&& forall|i: int, j: int|
            0 <= i < 15 && 0 <= j < 15 && #[trigger] x[i] != 0 && #[trigger] y[j] != 0 ==> mono_total(i)
                + mono_total(j) <= MAX_DEG
        &&& psum_fits(x, y, comm_dst(), unit_sgn(), 15)
    }

    open spec fn scale_fits(&self, acc: Seq<int>, k: int, x: Seq<int>) -> bool {
        scaled_fits(acc, k, x)
    }

    fn zero(&self) -> (r: CommElem) {
        let r = zeros15();
        proof {
            assert(arr_view(r) =~= self.spec_zero());
        }
        r
    }

    fn one(&self) -> (r: CommElem) {
        proof {
            assert(((0nat + 0nat) * (0nat + 0nat + 1) / 2 + 0nat) == 0) by (nonlinear_arith);
            assert(spec_monomial_index(0, 0) == 0);
        }
        let q = monomial_index(0, 0);
        unit15(q)
    }

    fn add_assign(&self, x: &mut CommElem, y: &CommElem) {
        add15(x, y);
    }

    fn mul(&self, x: &CommElem, y: &CommElem) -> (r: CommElem) {
        let degs = monomial_degrees();
        let ghost xs = arr_view(*x);
        let ghost ys = arr_view(*y);
        let ghost dst = comm_dst();
        let ghost sgn = unit_sgn();
        let mut out = zeros15();
        let mut i: usize = 0;
        while i < N_MONOMIALS
            invariant
                xs == arr_view(*x),
                ys == arr_view(*y),
                dst == comm_dst(),
                sgn == unit_sgn(),
                self.mul_fits(xs, ys),
                forall|q: int| 0 <= q < 15 ==> (#[trigger] degs@[q]).0 == mono_deg(q).0 && degs@[q].1 == mono_deg(q).1,
                i <= N_MONOMIALS,
                forall|t: int| 0 <= t < 15 ==> #[trigger] out@[t] as int == psum(xs, ys, dst, sgn, t, i as nat, 0, 15),
            decreases N_MONOMIALS - i,
        {
            if x[i] == 0 {
                proof {
                    assert forall|t: int| 0 <= t < 15 implies #[trigger] out@[t] as int == psum(xs, ys, dst, sgn, t, (i + 1) as nat, 0, 15) by {
                        lemma_psum_zero_row(xs, ys, dst, sgn, t, i as nat, 15, 15);
                    }
                }
                i = i + 1;
                continue;
            }
            let mut j: usize = 0;
            while j < N_MONOMIALS
                invariant
                    xs == arr_view(*x),
                    ys == arr_view(*y),
                    dst == comm_dst(),
                    sgn == unit_sgn(),
                    self.mul_fits(xs, ys),
                    forall|q: int| 0 <= q < 15 ==> (#[trigger] degs@[q]).0 == mono_deg(q).0 && degs@[q].1 == mono_deg(q).1,
                    i < N_MONOMIALS,
                    x@[i as int] != 0,
                    j <= N_MONOMIALS,
                    forall|t: int| 0 <= t < 15 ==> #[trigger] out@[t] as int == psum(xs, ys, dst, sgn, t, i as nat, j as nat, 15),
                decreases N_MONOMIALS - j,
            {
                let ghost before = out@;
                if y[j] != 0 {
                    let (ai, bi) = degs[i];
                    let (aj, bj) = degs[j];
                    proof {
                        assert(xs.len() == 15 && ys.len() == 15);
                        assert(xs[i as int] != 0 && ys[j as int] != 0);
                        assert(degs@[i as int].0 == mono_deg(i as int).0);
                        assert(degs@[j as int].0 == mono_deg(j as int).0);
                        assert(mono_total(i as int) + mono_total(j as int) <= 4);
                        assert(ai + bi == mono_total(i as int));
                        assert(aj + bj == mono_total(j as int));
                        assert((ai + aj + bi + bj) * (ai + aj + bi + bj + 1) <= 20) by (nonlinear_arith)
                            requires
                                ai + aj + bi + bj <= 4,
                        ;
                    }
                    let w = monomial_index(ai + aj, bi + bj);
                    proof {
                        assert(w as int == dst(i as int, j as int));
                        assert(w < 15) by (nonlinear_arith)
                            requires
                                w == (ai + aj + bi + bj) * (ai + aj + bi + bj + 1) / 2 + bi + bj,
                                ai + aj + bi + bj <= 4,
                        ;
                        assert(in_i128(xs[i as int] * ys[j as int]));
                        assert(in_i128(psum(xs, ys, dst, sgn, w as int, i as nat, (j + 1) as nat, 15)));
                    }
                    let v = out[w] + x[i] * y[j];
                    out[w] = v;
                    proof {
                        assert forall|t: int| 0 <= t < 15 implies #[trigger] out@[t] as int == psum(xs, ys, dst, sgn, t, i as nat, (j + 1) as nat, 15) by {
                            if t != w as int {
                                assert(out@[t] == before[t]);
                            }
                        }
                    }
                } else {
                    proof {
                        assert forall|t: int| 0 <= t < 15 implies #[trigger] out@[t] as int == psum(xs, ys, dst, sgn, t, i as nat, (j + 1) as nat, 15) by {
                            assert(sgn(i as int, j as int) * xs[i as int] * ys[j as int] == 0) by (nonlinear_arith)
                                requires
                                    ys[j as int] == 0,
                            ;
                        }
                    }
                }
                j = j + 1;
            }
            i = i + 1;
        }
        proof {
            assert(arr_view(out) =~= self.spec_mul(xs, ys));
        }
        out
    }

    fn scale_add_assign(&self, acc: &mut CommElem, k: i32, x: &CommElem) {
        scale15(acc, k, x);
    }

    fn same(&self, x: &CommElem, y: &CommElem) -> (b: bool) {
        same_arr(x, y)
    }

    fn is_zero(&self, x: &CommElem) -> (b: bool) {
        zero15(x)
    }

    fn name(&self) -> (r: String)
        ensures
            r@ == "Z[a,b] (generic commutative)"@,
    {
        String::from_str("Z[a,b] (generic commutative)")
    }
}

/// `Z<a, b> / (ba + 1)`: the free ring in which `b` is a one-sided inverse of
/// `a`, with `ab` left free. Every word reduces to a normal form `a^i b^j`,
/// since `ba -> -1` rewrites any descent.
///
/// This is the abstract shape of shift operators on integer sequences: taking
/// `a = L`, `b = -R` gives a one-sided inverse and nothing more. It is the
/// smallest ring that realises the separation `E1117 ⊭ E2441`, which admits
/// no finite counterexample at all.
#[derive(Clone, Debug)]
pub struct OneSidedInverse;

/// Coefficients of the normal forms `a^i b^j` with `i + j <= MAX_DEG`,
/// indexed by `monomial_index` just as the commutative monomials are.
pub type OsiElem = [i128; N_MONOMIALS];

/// `(i, j)` exponents for each normal-form slot `a^i b^j`.
fn normal_form_degrees() -> (out: [(u32, u32); N_MONOMIALS])
    ensures
        forall|q: int| 0 <= q < 15 ==> (#[trigger] out@[q]).0 == mono_deg(q).0 && out@[q].1 == mono_deg(q).1,
{
    monomial_degrees()
}

impl OneSidedInverse {
    /// The generator `a`.
    pub fn gen_a(&self) -> (e: OsiElem)
        ensures
            arr_view(e) == unit_vec(15, 1),
    {
        proof {
            assert(((1nat + 0nat) * (1nat + 0nat + 1) / 2 + 0nat) == 1) by (nonlinear_arith);
            assert(spec_monomial_index(1, 0) == 1);
        }
        let q = monomial_index(1, 0);
        unit15(q)
    }

    /// The generator `b`.
    pub fn gen_b(&self) -> (e: OsiElem)
        ensures
            arr_view(e) == unit_vec(15, 2),
    {
        proof {
            assert(((0nat + 1nat) * (0nat + 1nat + 1) / 2 + 1nat) == 2) by (nonlinear_arith);
            assert(spec_monomial_index(0, 1) == 2);
        }
        let q = monomial_index(0, 1);
        unit15(q)
    }

    /// `(a^i b^j)(a^k b^l) = (-1)^m a^(i + (k-m)) b^((j-m) + l)` where
    /// `m = min(j, k)`, obtained by cancelling `m` copies of `ba = -1` at the
    /// interface.
    fn mul_normal(i: u32, j: u32, k: u32, l: u32) -> (r: (i128, u32, u32))
        requires
            i + k <= u32::MAX,
            j + l <= u32::MAX,
        ensures
            r.0 == osi_parts(i as int, j as int, k as int, l as int).0,
            r.1 == osi_parts(i as int, j as int, k as int, l as int).1,
            r.2 == osi_parts(i as int, j as int, k as int, l as int).2,
    {
        let m = if j < k {
            j
        } else {
            k
        };
        let sign = if m % 2 == 0 {
            1i128
        } else {
            -1
        };
        (sign, i + (k - m), (j - m) + l)
    }
}

impl RingOps for OneSidedInverse {
    type Elem = OsiElem;

    open spec fn view_of(&self, x: OsiElem) -> Seq<int> {
        arr_view(x)
    }

    open spec fn ring_ok(&self) -> bool {
        true
    }

    open spec fn spec_zero(&self) -> Seq<int> {
        Seq::new(15, |q: int| 0int)
    }

    open spec fn spec_one(&self) -> Seq<int> {
        unit_vec(15, 0)
    }

    open spec fn spec_add(&self, x: Seq<int>, y: Seq<int>) -> Seq<int> {
        Seq::new(15, |q: int| x[q] + y[q])
    }

    open spec fn spec_mul(&self, x: Seq<int>, y: Seq<int>) -> Seq<int> {
        Seq::new(15, |t: int| psum(x, y, osi_dst(), osi_sgn(), t, 15, 0, 15))
    }

    open spec fn spec_scale_add(&self, acc: Seq<int>, k: int, x: Seq<int>) -> Seq<int> {
        Seq::new(15, |q: int| acc[q] + k * x[q])
    }

    open spec fn finite_card(&self) -> Option<nat> {
        None
    }

    open spec fn spec_is_zero(&self, x: Seq<int>) -> bool {
        forall|q: int| 0 <= q < 15 ==> #[trigger] x[q] == 0
    }

    open spec fn add_fits(&self, x: Seq<int>, y: Seq<int>) -> bool {
        sum_fits(x, y)
    }

    open spec fn mul_fits(&self, x: Seq<int>, y: Seq<int>) -> bool {
        &&& forall|n: int, q: int|
            0 <= n < 15 && 0 <= q < 15 && #[trigger] x[n] != 0 && #[trigger] y[q] != 0 ==> {
                let r = osi_parts(mono_deg(n).0, mono_deg(n).1, mono_deg(q).0, mono_deg(q).1);
                &&& r.1 + r.2 <= MAX_DEG
                &&& in_i128(r.0 * x[n])
                &&& in_i128(r.0 * x[n] * y[q])
            }
        &&& psum_fits(x, y, osi_dst(), osi_sgn(), 15)
    }

    open spec fn scale_fits(&self, acc: Seq<int>, k: int, x: Seq<int>) -> bool {
        scaled_fits(acc, k, x)
    }

    fn zero(&self) -> (r: OsiElem) {
        let r = zeros15();
        proof {
            assert(arr_view(r) =~= self.spec_zero());
        }
        r
    }

    fn one(&self) -> (r: OsiElem) {
        proof {
            assert(((0nat + 0nat) * (0nat + 0nat + 1) / 2 + 0nat) == 0) by (nonlinear_arith);
            assert(spec_monomial_index(0, 0) == 0);
        }
        let q = monomial_index(0, 0);
        unit15(q)
    }

    fn add_assign(&self, x: &mut OsiElem, y: &OsiElem) {
        add15(x, y);
    }

    fn mul(&self, x: &OsiElem, y: &OsiElem) -> (r: OsiElem) {
        let degs = normal_form_degrees();
        let ghost xs = arr_view(*x);
        let ghost ys = arr_view(*y);
        let ghost dst = osi_dst();
        let ghost sgn = osi_sgn();
        let mut out = zeros15();
        let mut n: usize = 0;
        while n < N_MONOMIALS
            invariant
                xs == arr_view(*x),
                ys == arr_view(*y),
                dst == osi_dst(),
                sgn == osi_sgn(),
                self.mul_fits(xs, ys),
                forall|q: int| 0 <= q < 15 ==> (#[trigger] degs@[q]).0 == mono_deg(q).0 && degs@[q].1 == mono_deg(q).1,
                n <= N_MONOMIALS,
                forall|t: int| 0 <= t < 15 ==> #[trigger] out@[t] as int == psum(xs, ys, dst, sgn, t, n as nat, 0, 15),
            decreases N_MONOMIALS - n,
        {
            let xn = x[n];
            if xn == 0 {
                proof {
                    assert forall|t: int| 0 <= t < 15 implies #[trigger] out@[t] as int == psum(xs, ys, dst, sgn, t, (n + 1) as nat, 0, 15) by {
                        lemma_psum_zero_row(xs, ys, dst, sgn, t, n as nat, 15, 15);
                    }
                }
                n = n + 1;
                continue;
            }
            let mut q: usize = 0;
            while q < N_MONOMIALS
                invariant
                    xs == arr_view(*x),
                    ys == arr_view(*y),
                    dst == osi_dst(),
                    sgn == osi_sgn(),
                    self.mul_fits(xs, ys),
                    forall|q2: int| 0 <= q2 < 15 ==> (#[trigger] degs@[q2]).0 == mono_deg(q2).0 && degs@[q2].1 == mono_deg(q2).1,
                    n < N_MONOMIALS,
                    xn == x@[n as int],
                    xn != 0,
                    q <= N_MONOMIALS,
                    forall|t: int| 0 <= t < 15 ==> #[trigger] out@[t] as int == psum(xs, ys, dst, sgn, t, n as nat, q as nat, 15),
                decreases N_MONOMIALS - q,
            {
                let ghost before = out@;
                let yq = y[q];
                if yq != 0 {
                    let (i, j) = degs[n];
                    let (k, l) = degs[q];
                    proof {
                        assert(xs.len() == 15 && ys.len() == 15);
                        assert(xs[n as int] != 0 && ys[q as int] != 0);
                        assert(degs@[n as int].0 == mono_deg(n as int).0);
                        assert(degs@[q as int].0 == mono_deg(q as int).0);
                        assert(i <= 4 && j <= 4 && k <= 4 && l <= 4);
                    }
                    let (sign, ni, nj) = OneSidedInverse::mul_normal(i, j, k, l);
                    proof {
                        assert(ni + nj <= 4);
                        assert((ni + nj) * (ni + nj + 1) <= 20) by (nonlinear_arith)
                            requires
                                ni + nj <= 4,
                        ;
                    }
                    let w = monomial_index(ni, nj);
                    proof {
                        assert(w as int == dst(n as int, q as int));
                        assert(sign as int == sgn(n as int, q as int));
                        assert(w < 15) by (nonlinear_arith)
                            requires
                                w == (ni + nj) * (ni + nj + 1) / 2 + nj,
                                ni + nj <= 4,
                        ;
                        assert(in_i128(xs[n as int] * ys[q as int]));
                        assert(in_i128(psum(xs, ys, dst, sgn, w as int, n as nat, (q + 1) as nat, 15)));
                        assert(sign * xn * yq == sgn(n as int, q as int) * xs[n as int] * ys[q as int]);
                        assert(in_i128(sign * xn));
                        assert(in_i128(sign * xn * yq));
                    }
                    let v = out[w] + sign * xn * yq;
                    out[w] = v;
                    proof {
                        assert forall|t: int| 0 <= t < 15 implies #[trigger] out@[t] as int == psum(xs, ys, dst, sgn, t, n as nat, (q + 1) as nat, 15) by {
                            if t != w as int {
                                assert(out@[t] == before[t]);
                            }
                        }
                    }
                } else {
                    proof {
                        assert forall|t: int| 0 <= t < 15 implies #[trigger] out@[t] as int == psum(xs, ys, dst, sgn, t, n as nat, (q + 1) as nat, 15) by {
                            assert(sgn(n as int, q as int) * xs[n as int] * ys[q as int] == 0) by (nonlinear_arith)
                                requires
                                    ys[q as int] == 0,
                            ;
                        }
                    }
                }
                q = q + 1;
            }
            n = n + 1;
        }
        proof {
            assert(arr_view(out) =~= self.spec_mul(xs, ys));
        }
        out
    }

    fn scale_add_assign(&self, acc: &mut OsiElem, k: i32, x: &OsiElem) {
        scale15(acc, k, x);
    }

    fn same(&self, x: &OsiElem, y: &OsiElem) -> (b: bool) {
        same_arr(x, y)
    }

    fn is_zero(&self, x: &OsiElem) -> (b: bool) {
        zero15(x)
    }

    fn name(&self) -> (r: String)
        ensures
            r@ == "Z<a,b>/(ba+1)"@,
    {
        String::from_str("Z<a,b>/(ba+1)")
    }
}

/// Drop trailing zero coefficients.
pub open spec fn trim(s: Seq<int>) -> Seq<int>
    decreases s.len(),
{
    if s.len() > 0 && s.last() == 0 {
        trim(s.drop_last())
    } else {
        s
    }
}

/// Coefficient `i`, zero past the end.
pub open spec fn coeff(s: Seq<int>, i: int) -> int {
    if 0 <= i < s.len() {
        s[i]
    } else {
        0
    }
}

/// The longer of two lengths.
pub open spec fn max_len(a: nat, b: nat) -> nat {
    if a >= b {
        a
    } else {
        b
    }
}

/// `Σ_{i < n} x[i] * y[t - i]` over the `i` for which `y[t - i]` exists.
pub open spec fn conv(x: Seq<int>, y: Seq<int>, t: int, n: nat) -> int
    decreases n,
{
    if n == 0 {
        0
    } else {
        let i = n - 1;
        conv(x, y, t, (n - 1) as nat) + if 0 <= t - i < y.len() {
            x[i] * y[t - i]
        } else {
            0
        }
    }
}

/// The convolution sum for slot `t` after rows `0..i` and the first `j`
/// entries of row `i`.
pub open spec fn conv_partial(x: Seq<int>, y: Seq<int>, t: int, i: nat, j: nat) -> int {
    conv(x, y, t, i) + if i < x.len() && i <= t < i + j {
        x[i as int] * y[t - i]
    } else {
        0
    }
}

/// `acc[i] + k * x[i]` fits, with both read as coefficients.
pub open spec fn coeff_scale_fits(acc: Seq<int>, k: int, x: Seq<int>, i: int) -> bool {
    in_i128(k * coeff(x, i)) && in_i128(coeff(acc, i) + k * coeff(x, i))
}

/// Remove trailing zeros in place.
fn trim_vec(v: &mut Vec<i128>)
    ensures
        ints_i128(final(v)@) == trim(ints_i128(old(v)@)),
{
    while v.len() > 0 && v[v.len() - 1] == 0
        invariant
            trim(ints_i128(v@)) == trim(ints_i128(old(v)@)),
        decreases v@.len(),
    {
        proof {
            let s = ints_i128(v@);
            assert(s.last() == 0);
            assert(s.drop_last() =~= ints_i128(v@.drop_last()));
        }
        v.pop();
    }
    proof {
        let s = ints_i128(v@);
        assert(s.len() == 0 || s.last() != 0);
    }
}

/// `Z[t]`, dense little-endian coefficient vectors. Infinite, commutative,
/// and the natural home for coefficient pairs that no finite ring realises.
#[derive(Clone, Debug)]
pub struct PolyZ;

impl PolyZ {
    /// The constant `k`.
    pub fn con(k: i128) -> (v: Vec<i128>)
        ensures
            ints_i128(v@) == trim(seq![k as int]),
    {
        if k == 0 {
            let v: Vec<i128> = Vec::new();
            proof {
                assert(seq![k as int].drop_last() =~= Seq::<int>::empty());
                assert(trim(Seq::<int>::empty()) == Seq::<int>::empty());
                assert(trim(seq![k as int]) == trim(seq![k as int].drop_last()));
                assert(ints_i128(v@) =~= Seq::<int>::empty());
            }
            v
        } else {
            let v = vec![k];
            proof {
                assert(ints_i128(v@) =~= seq![k as int]);
                assert(seq![k as int].last() != 0);
                assert(trim(seq![k as int]) == seq![k as int]);
            }
            v
        }
    }

    /// `c0 + c1 t`.
    pub fn lin(c0: i128, c1: i128) -> (v: Vec<i128>)
        ensures
            ints_i128(v@) == trim(seq![c0 as int, c1 as int]),
    {
        let mut v = vec![c0, c1];
        proof {
            assert(ints_i128(v@) =~= seq![c0 as int, c1 as int]);
        }
        trim_vec(&mut v);
        v
    }
}

impl RingOps for PolyZ {
    type Elem = Vec<i128>;

    open spec fn view_of(&self, x: Vec<i128>) -> Seq<int> {
        ints_i128(x@)
    }

    open spec fn ring_ok(&self) -> bool {
        true
    }

    open spec fn spec_zero(&self) -> Seq<int> {
        Seq::empty()
    }

    open spec fn spec_one(&self) -> Seq<int> {
        seq![1int]
    }

    open spec fn spec_add(&self, x: Seq<int>, y: Seq<int>) -> Seq<int> {
        trim(Seq::new(max_len(x.len(), y.len()), |i: int| coeff(x, i) + coeff(y, i)))
    }

    open spec fn spec_mul(&self, x: Seq<int>, y: Seq<int>) -> Seq<int> {
        if x.len() == 0 || y.len() == 0 {
            Seq::empty()
        } else {
            trim(Seq::new((x.len() + y.len() - 1) as nat, |t: int| conv(x, y, t, x.len())))
        }
    }

    open spec fn spec_scale_add(&self, acc: Seq<int>, k: int, x: Seq<int>) -> Seq<int> {
        trim(Seq::new(max_len(acc.len(), x.len()), |i: int| coeff(acc, i) + k * coeff(x, i)))
    }

    open spec fn finite_card(&self) -> Option<nat> {
        None
    }

    open spec fn spec_is_zero(&self, x: Seq<int>) -> bool {
        forall|i: int| 0 <= i < x.len() ==> #[trigger] x[i] == 0
    }

    open spec fn add_fits(&self, x: Seq<int>, y: Seq<int>) -> bool {
        forall|i: int| 0 <= i < max_len(x.len(), y.len()) ==> #[trigger] in_i128(coeff(x, i) + coeff(y, i))
    }

    open spec fn mul_fits(&self, x: Seq<int>, y: Seq<int>) -> bool {
        &&& x.len() + y.len() <= usize::MAX
        &&& forall|i: int, j: int| 0 <= i < x.len() && 0 <= j < y.len() ==> #[trigger] in_i128(x[i] * y[j])
        &&& forall|t: int, i: nat, j: nat|
            0 <= t < x.len() + y.len() - 1 && i <= x.len() && j <= y.len() ==> #[trigger] in_i128(
                conv_partial(x, y, t, i, j),
            )
    }

    open spec fn scale_fits(&self, acc: Seq<int>, k: int, x: Seq<int>) -> bool {
        forall|i: int| 0 <= i < max_len(acc.len(), x.len()) ==> #[trigger] coeff_scale_fits(acc, k, x, i)
    }

    fn zero(&self) -> (r: Vec<i128>) {
        let r: Vec<i128> = Vec::new();
        proof {
            assert(ints_i128(r@) =~= Seq::<int>::empty());
        }
        r
    }

    fn one(&self) -> (r: Vec<i128>) {
        let r = vec![1i128];
        proof {
            assert(ints_i128(r@) =~= seq![1int]);
        }
        r
    }

    fn add_assign(&self, x: &mut Vec<i128>, y: &Vec<i128>) {
        let ghost x0 = ints_i128(x@);
        let ghost y0 = ints_i128(y@);
        while x.len() < y.len()
            invariant
                x@.len() <= max_len(x0.len(), y0.len()),
                y0 == ints_i128(y@),
                forall|i: int| 0 <= i < x@.len() ==> #[trigger] x@[i] as int == coeff(x0, i),
                x@.len() >= x0.len(),
            decreases y@.len() - x@.len(),
        {
            x.push(0);
        }
        let n = y.len();
        let mut i: usize = 0;
        while i < n
            invariant
                n == y@.len(),
                y0 == ints_i128(y@),
                x@.len() == max_len(x0.len(), y0.len()),
                self.add_fits(x0, y0),
                i <= n,
                forall|q: int| 0 <= q < x@.len() ==> #[trigger] x@[q] as int == if q < i {
                    coeff(x0, q) + coeff(y0, q)
                } else {
                    coeff(x0, q)
                },
            decreases n - i,
        {
            proof {
                assert(in_i128(coeff(x0, i as int) + coeff(y0, i as int)));
            }
            let v = x[i] + y[i];
            x.set(i, v);
            i = i + 1;
        }
        proof {
            assert(ints_i128(x@) =~= Seq::new(max_len(x0.len(), y0.len()), |q: int| coeff(x0, q) + coeff(y0, q)));
        }
        trim_vec(x);
    }

    fn mul(&self, x: &Vec<i128>, y: &Vec<i128>) -> (r: Vec<i128>) {
        let ghost xs = ints_i128(x@);
        let ghost ys = ints_i128(y@);
        if x.len() == 0 || y.len() == 0 {
            let r: Vec<i128> = Vec::new();
            proof {
                assert(ints_i128(r@) =~= Seq::<int>::empty());
            }
            return r;
        }
        let lx = x.len();
        let ly = y.len();
        let mut out = vec![0i128; lx + ly - 1];
        let mut i: usize = 0;
        while i < lx
            invariant
                lx == x@.len(),
                ly == y@.len(),
                lx >= 1,
                ly >= 1,
                xs == ints_i128(x@),
                ys == ints_i128(y@),
                self.mul_fits(xs, ys),
                out@.len() == lx + ly - 1,
                i <= lx,
                forall|t: int| 0 <= t < lx + ly - 1 ==> #[trigger] out@[t] as int == conv(xs, ys, t, i as nat),
            decreases lx - i,
        {
            let mut j: usize = 0;
            while j < ly
                invariant
                    lx == x@.len(),
                    ly == y@.len(),
                    xs == ints_i128(x@),
                    ys == ints_i128(y@),
                    self.mul_fits(xs, ys),
                    out@.len() == lx + ly - 1,
                    i < lx,
                    j <= ly,
                    forall|t: int| 0 <= t < lx + ly - 1 ==> #[trigger] out@[t] as int == conv_partial(xs, ys, t, i as nat, j as nat),
                decreases ly - j,
            {
                let ghost before = out@;
                proof {
                    assert(in_i128(xs[i as int] * ys[j as int]));
                    assert(in_i128(conv_partial(xs, ys, (i + j) as int, i as nat, (j + 1) as nat)));
                }
                let v = out[i + j] + x[i] * y[j];
                out.set(i + j, v);
                proof {
                    assert forall|t: int| 0 <= t < lx + ly - 1 implies #[trigger] out@[t] as int == conv_partial(xs, ys, t, i as nat, (j + 1) as nat) by {
                        if t != i + j {
                            assert(out@[t] == before[t]);
                        }
                    }
                }
                j = j + 1;
            }
            proof {
                assert forall|t: int| 0 <= t < lx + ly - 1 implies #[trigger] out@[t] as int == conv(xs, ys, t, (i + 1) as nat) by {
                    assert(out@[t] as int == conv_partial(xs, ys, t, i as nat, ly as nat));
                }
            }
            i = i + 1;
        }
        proof {
            assert(ints_i128(out@) =~= Seq::new((xs.len() + ys.len() - 1) as nat, |t: int| conv(xs, ys, t, xs.len())));
        }
        trim_vec(&mut out);
        out
    }

    fn scale_add_assign(&self, acc: &mut Vec<i128>, k: i32, x: &Vec<i128>) {
        let ghost a0 = ints_i128(acc@);
        let ghost x0 = ints_i128(x@);
        while acc.len() < x.len()
            invariant
                acc@.len() <= max_len(a0.len(), x0.len()),
                x0 == ints_i128(x@),
                forall|i: int| 0 <= i < acc@.len() ==> #[trigger] acc@[i] as int == coeff(a0, i),
                acc@.len() >= a0.len(),
            decreases x@.len() - acc@.len(),
        {
            acc.push(0);
        }
        let n = x.len();
        let mut i: usize = 0;
        while i < n
            invariant
                n == x@.len(),
                x0 == ints_i128(x@),
                acc@.len() == max_len(a0.len(), x0.len()),
                self.scale_fits(a0, k as int, x0),
                i <= n,
                forall|q: int| 0 <= q < acc@.len() ==> #[trigger] acc@[q] as int == if q < i {
                    coeff(a0, q) + k * coeff(x0, q)
                } else {
                    coeff(a0, q)
                },
            decreases n - i,
        {
            proof {
                assert(x0.len() == n);
                assert(0 <= i < max_len(a0.len(), x0.len()));
                assert(coeff_scale_fits(a0, k as int, x0, i as int));
            }
            let v = acc[i] + k as i128 * x[i];
            acc.set(i, v);
            i = i + 1;
        }
        proof {
            assert(ints_i128(acc@) =~= Seq::new(max_len(a0.len(), x0.len()), |q: int| coeff(a0, q) + (k as int) * coeff(x0, q)));
        }
        trim_vec(acc);
    }

    fn same(&self, x: &Vec<i128>, y: &Vec<i128>) -> (b: bool) {
        same_i128s(x, y)
    }

    fn is_zero(&self, x: &Vec<i128>) -> (b: bool) {
        let mut i: usize = 0;
        while i < x.len()
            invariant
                i <= x@.len(),
                forall|q: int| 0 <= q < i ==> #[trigger] ints_i128(x@)[q] == 0,
            decreases x@.len() - i,
        {
            if x[i] != 0 {
                proof {
                    assert(ints_i128(x@)[i as int] != 0);
                }
                return false;
            }
            i = i + 1;
        }
        true
    }

    fn name(&self) -> (r: String)
        ensures
            r@ == "Z[t]"@,
    {
        String::from_str("Z[t]")
    }
}

/// Degrees `(deg_a, deg_b)` of the word at `index`.
pub fn word_degrees_of(index: usize) -> (r: (u32, u32))
    requires
        index < N_WORDS,
    ensures
        r.0 == spec_word_degrees(index as nat).0,
        r.1 == spec_word_degrees(index as nat).1,
{
    word_degrees(index)
}

} // verus!
