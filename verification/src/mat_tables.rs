//! The linear decision and the table agree over matrix rings `M_k(F_p)`.
//!
//! For `x ◇ y = ax + by` with `a`, `b` and the carrier `k x k` matrices over
//! `F_p`, a law holds in the multiplication table exactly when its
//! difference polynomials vanish at the word values of `a` and `b`; for
//! `x ◇ y = ax + by + c`, exactly when in addition its constant condition
//! holds. The
//! argument is the one for `Z/m`, carried out entrywise: every matrix
//! product is reduced mod `p` only at the end, and the noncommutative steps
//! rest on associativity and distributivity of the integer matrix product.

use crate::law::{depth, eval_term, is_assignment, lemma_eval_in_carrier, vars_below, Law, Term};
use crate::linear::{
    aff_value, coef, comb, icoef, law_vanishes, lin_value, linear_law_ok, listed, names_first, sparse, terms_vanish,
    word_val, words_spec, LawDiff, RingOps,
};
use crate::rings::emod;
use crate::nc::spec_word_index;
use crate::quadratic::{code_digit, lemma_code_digit_bound};
use crate::rings::{ints_u64, mat_sum, MatFp};
use vstd::arithmetic::div_mod::*;
use vstd::arithmetic::power::pow;
use vstd::arithmetic::power2::*;
use vstd::prelude::*;

verus! {

/// `Σ_{m < n} f(m)`.
pub open spec fn fsum(f: spec_fn(int) -> int, n: nat) -> int
    decreases n,
{
    if n == 0 {
        0
    } else {
        fsum(f, (n - 1) as nat) + f(n - 1)
    }
}

pub(crate) proof fn lemma_fsum_ext(f: spec_fn(int) -> int, g: spec_fn(int) -> int, n: nat)
    requires
        forall|m: int| 0 <= m < n ==> #[trigger] f(m) == g(m),
    ensures
        fsum(f, n) == fsum(g, n),
    decreases n,
{
    if n > 0 {
        lemma_fsum_ext(f, g, (n - 1) as nat);
    }
}

pub(crate) proof fn lemma_fsum_add(f: spec_fn(int) -> int, g: spec_fn(int) -> int, n: nat)
    ensures
        fsum(|m: int| f(m) + g(m), n) == fsum(f, n) + fsum(g, n),
    decreases n,
{
    if n > 0 {
        lemma_fsum_add(f, g, (n - 1) as nat);
    }
}

proof fn lemma_fsum_sub(f: spec_fn(int) -> int, g: spec_fn(int) -> int, n: nat)
    ensures
        fsum(|m: int| f(m) - g(m), n) == fsum(f, n) - fsum(g, n),
    decreases n,
{
    if n > 0 {
        lemma_fsum_sub(f, g, (n - 1) as nat);
    }
}

/// A constant factor on the right comes out of the sum.
proof fn lemma_fsum_mul_right(f: spec_fn(int) -> int, c: int, n: nat)
    ensures
        fsum(|m: int| f(m) * c, n) == fsum(f, n) * c,
    decreases n,
{
    if n > 0 {
        lemma_fsum_mul_right(f, c, (n - 1) as nat);
        let s = fsum(f, (n - 1) as nat);
        assert((s + f(n - 1)) * c == s * c + f(n - 1) * c) by (nonlinear_arith);
    }
}

/// A constant factor on the left comes out of the sum.
pub(crate) proof fn lemma_fsum_mul_left(c: int, f: spec_fn(int) -> int, n: nat)
    ensures
        fsum(|m: int| c * f(m), n) == c * fsum(f, n),
    decreases n,
{
    if n > 0 {
        lemma_fsum_mul_left(c, f, (n - 1) as nat);
        let s = fsum(f, (n - 1) as nat);
        assert(c * (s + f(n - 1)) == c * s + c * f(n - 1)) by (nonlinear_arith);
    }
}

/// A sum with a single nonzero term is that term.
pub(crate) proof fn lemma_fsum_single(f: spec_fn(int) -> int, u: int, n: nat)
    requires
        forall|m: int| 0 <= m < n && m != u ==> #[trigger] f(m) == 0,
    ensures
        fsum(f, n) == if 0 <= u < n {
            f(u)
        } else {
            0
        },
    decreases n,
{
    if n > 0 {
        lemma_fsum_single(f, u, (n - 1) as nat);
    }
}

/// Termwise congruent sums are congruent.
pub(crate) proof fn lemma_fsum_cong(f: spec_fn(int) -> int, g: spec_fn(int) -> int, n: nat, p: int)
    requires
        p >= 1,
        forall|m: int| 0 <= m < n ==> #[trigger] f(m) % p == g(m) % p,
    ensures
        fsum(f, n) % p == fsum(g, n) % p,
    decreases n,
{
    if n > 0 {
        lemma_fsum_cong(f, g, (n - 1) as nat, p);
        lemma_add_mod_noop(fsum(f, (n - 1) as nat), f(n - 1), p);
        lemma_add_mod_noop(fsum(g, (n - 1) as nat), g(n - 1), p);
    }
}

/// `Σ_l Σ_m f(l, m) = Σ_m Σ_l f(l, m)`.
proof fn lemma_fsum_swap(f: spec_fn(int, int) -> int, nl: nat, nm: nat)
    ensures
        fsum(|l: int| fsum(|m: int| f(l, m), nm), nl) == fsum(|m: int| fsum(|l: int| f(l, m), nl), nm),
    decreases nl,
{
    if nl > 0 {
        let nl1 = (nl - 1) as nat;
        lemma_fsum_swap(f, nl1, nm);
        let cols = |m: int| fsum(|l: int| f(l, m), nl1);
        let last = |m: int| f(nl1 as int, m);
        lemma_fsum_add(cols, last, nm);
        let whole = |m: int| fsum(|l: int| f(l, m), nl);
        let parts = |m: int| cols(m) + last(m);
        assert forall|m: int| 0 <= m < nm implies #[trigger] whole(m) == parts(m) by {
        }
        lemma_fsum_ext(whole, parts, nm);
        let rows = |l: int| fsum(|m: int| f(l, m), nm);
        assert((|m: int| f(nl1 as int, m)) =~= last);
        assert(rows(nl1 as int) == fsum(last, nm));
        assert(fsum(rows, nl) == fsum(rows, nl1) + rows(nl1 as int));
        assert(rows =~= (|l: int| fsum(|m: int| f(l, m), nm)));
        assert(whole =~= (|m: int| fsum(|l: int| f(l, m), nl)));
        assert(cols =~= (|m: int| fsum(|l: int| f(l, m), nl1)));
        assert(fsum(rows, nl1) == fsum(cols, nm));
        assert(fsum(whole, nm) == fsum(cols, nm) + fsum(last, nm));
        assert(fsum(rows, nl) == fsum(whole, nm));
    } else {
        lemma_fsum_single(|m: int| fsum(|l: int| f(l, m), nl), -1, nm);
    }
}

} // verus!

verus! {

/// The integer product of two `k x k` row-major matrices, unreduced.
pub open spec fn imul(x: Seq<int>, y: Seq<int>, k: nat) -> Seq<int> {
    Seq::new(k * k, |q: int| mat_sum(x, y, k as int, q / (k as int), q % (k as int), k))
}

/// Entrywise sum of the first `n` entries.
pub open spec fn madd(x: Seq<int>, y: Seq<int>, n: nat) -> Seq<int> {
    Seq::new(n, |q: int| x[q] + y[q])
}

/// The zero matrix with `n` entries.
pub open spec fn mzero(n: nat) -> Seq<int> {
    Seq::new(n, |q: int| 0int)
}

/// The first `n` entries agree mod `p`.
pub open spec fn mcong(x: Seq<int>, y: Seq<int>, n: nat, p: int) -> bool {
    forall|q: int| #![trigger x[q]] #![trigger y[q]] 0 <= q < n ==> x[q] % p == y[q] % p
}

proof fn lemma_cell(i: int, l: int, k: int)
    requires
        0 <= i < k,
        0 <= l < k,
    ensures
        0 <= i * k + l < k * k,
        (i * k + l) / k == i,
        (i * k + l) % k == l,
{
    assert(0 <= i * k + l < k * k) by (nonlinear_arith)
        requires
            0 <= i < k,
            0 <= l < k,
    ;
    lemma_fundamental_div_mod_converse(i * k + l, k, i, l);
}

proof fn lemma_split(q: int, k: int)
    requires
        0 <= k,
        0 <= q < k * k,
    ensures
        0 <= q / k < k,
        0 <= q % k < k,
        q == (q / k) * k + q % k,
{
    if k == 0 {
        assert(k * k == 0);
    }
    lemma_fundamental_div_mod(q, k);
    lemma_mod_bound(q, k);
    lemma_div_pos_is_pos(q, k);
    lemma_multiply_divide_lt(q, k, k);
    assert(q == (q / k) * k + q % k) by (nonlinear_arith)
        requires
            q == k * (q / k) + q % k,
    ;
}

proof fn lemma_mat_sum_fsum(x: Seq<int>, y: Seq<int>, k: int, i: int, j: int, n: nat)
    ensures
        mat_sum(x, y, k, i, j, n) == fsum(|l: int| x[i * k + l] * y[l * k + j], n),
    decreases n,
{
    if n > 0 {
        lemma_mat_sum_fsum(x, y, k, i, j, (n - 1) as nat);
    }
}

/// The product respects congruence mod `p` in both factors.
proof fn lemma_mat_sum_cong(x: Seq<int>, x2: Seq<int>, y: Seq<int>, y2: Seq<int>, k: int, i: int, j: int, n: nat, p: int)
    requires
        p >= 1,
        0 <= i < k,
        0 <= j < k,
        n <= k,
        mcong(x, x2, (k * k) as nat, p),
        mcong(y, y2, (k * k) as nat, p),
    ensures
        mat_sum(x, y, k, i, j, n) % p == mat_sum(x2, y2, k, i, j, n) % p,
    decreases n,
{
    if n > 0 {
        let l = n - 1;
        lemma_mat_sum_cong(x, x2, y, y2, k, i, j, (n - 1) as nat, p);
        lemma_cell(i, l, k);
        lemma_cell(l, j, k);
        let (a, a2, b, b2) = (x[i * k + l], x2[i * k + l], y[l * k + j], y2[l * k + j]);
        assert(a % p == a2 % p);
        assert(b % p == b2 % p);
        lemma_mul_mod_noop(a, b, p);
        lemma_mul_mod_noop(a2, b2, p);
        let s = mat_sum(x, y, k, i, j, (n - 1) as nat);
        let s2 = mat_sum(x2, y2, k, i, j, (n - 1) as nat);
        lemma_add_mod_noop(s, a * b, p);
        lemma_add_mod_noop(s2, a2 * b2, p);
    }
}

proof fn lemma_mat_sum_add_right(x: Seq<int>, y: Seq<int>, z: Seq<int>, k: int, i: int, j: int, n: nat)
    requires
        0 <= i < k,
        0 <= j < k,
        n <= k,
    ensures
        mat_sum(x, madd(y, z, (k * k) as nat), k, i, j, n) == mat_sum(x, y, k, i, j, n) + mat_sum(x, z, k, i, j, n),
    decreases n,
{
    if n > 0 {
        let l = n - 1;
        lemma_mat_sum_add_right(x, y, z, k, i, j, (n - 1) as nat);
        lemma_cell(l, j, k);
        let (a, b, c) = (x[i * k + l], y[l * k + j], z[l * k + j]);
        assert(a * (b + c) == a * b + a * c) by (nonlinear_arith);
    }
}

proof fn lemma_mat_sum_add_left(x: Seq<int>, y: Seq<int>, z: Seq<int>, k: int, i: int, j: int, n: nat)
    requires
        0 <= i < k,
        0 <= j < k,
        n <= k,
    ensures
        mat_sum(madd(x, y, (k * k) as nat), z, k, i, j, n) == mat_sum(x, z, k, i, j, n) + mat_sum(y, z, k, i, j, n),
    decreases n,
{
    if n > 0 {
        let l = n - 1;
        lemma_mat_sum_add_left(x, y, z, k, i, j, (n - 1) as nat);
        lemma_cell(i, l, k);
        let (a, b, c) = (x[i * k + l], y[i * k + l], z[l * k + j]);
        assert((a + b) * c == a * c + b * c) by (nonlinear_arith);
    }
}

proof fn lemma_mat_sum_zero(x: Seq<int>, k: int, i: int, j: int, n: nat)
    requires
        0 <= i < k,
        0 <= j < k,
        n <= k,
    ensures
        mat_sum(mzero((k * k) as nat), x, k, i, j, n) == 0,
        mat_sum(x, mzero((k * k) as nat), k, i, j, n) == 0,
    decreases n,
{
    if n > 0 {
        let l = n - 1;
        lemma_mat_sum_zero(x, k, i, j, (n - 1) as nat);
        lemma_cell(i, l, k);
        lemma_cell(l, j, k);
        let z = mzero((k * k) as nat);
        assert(z[l * k + j] == 0 && z[i * k + l] == 0);
        assert(x[i * k + l] * z[l * k + j] == 0);
        assert(z[i * k + l] * x[l * k + j] == 0);
    }
}

/// The integer matrix product is associative.
proof fn lemma_mat_sum_assoc(x: Seq<int>, y: Seq<int>, z: Seq<int>, k: nat, i: int, j: int)
    requires
        0 <= i < k,
        0 <= j < k,
    ensures
        mat_sum(imul(x, y, k), z, k as int, i, j, k) == mat_sum(x, imul(y, z, k), k as int, i, j, k),
{
    let ki = k as int;
    let f = |l: int, m: int| x[i * ki + m] * y[m * ki + l] * z[l * ki + j];
    lemma_fsum_swap(f, k, k);
    // Left side: Σ_l (Σ_m x y) z.
    lemma_mat_sum_fsum(imul(x, y, k), z, ki, i, j, k);
    let lt = |l: int| imul(x, y, k)[i * ki + l] * z[l * ki + j];
    let lrows = |l: int| fsum(|m: int| f(l, m), k);
    assert forall|l: int| 0 <= l < k implies #[trigger] lt(l) == lrows(l) by {
        lemma_cell(i, l, ki);
        lemma_mat_sum_fsum(x, y, ki, i, l, k);
        let g = |m: int| x[i * ki + m] * y[m * ki + l];
        lemma_fsum_mul_right(g, z[l * ki + j], k);
        let gz = |m: int| g(m) * z[l * ki + j];
        assert(gz =~= (|m: int| f(l, m)));
    }
    lemma_fsum_ext(lt, lrows, k);
    // Right side: Σ_m x (Σ_l y z).
    lemma_mat_sum_fsum(x, imul(y, z, k), ki, i, j, k);
    let rt = |m: int| x[i * ki + m] * imul(y, z, k)[m * ki + j];
    let rcols = |m: int| fsum(|l: int| f(l, m), k);
    assert forall|m: int| 0 <= m < k implies #[trigger] rt(m) == rcols(m) by {
        lemma_cell(m, j, ki);
        lemma_mat_sum_fsum(y, z, ki, m, j, k);
        let h = |l: int| y[m * ki + l] * z[l * ki + j];
        lemma_fsum_mul_left(x[i * ki + m], h, k);
        let xh = |l: int| x[i * ki + m] * h(l);
        assert forall|l: int| 0 <= l < k implies #[trigger] xh(l) == f(l, m) by {
            let (a, b, c) = (x[i * ki + m], y[m * ki + l], z[l * ki + j]);
            assert(a * (b * c) == a * b * c) by (nonlinear_arith);
        }
        lemma_fsum_ext(xh, |l: int| f(l, m), k);
    }
    lemma_fsum_ext(rt, rcols, k);
    assert(lt =~= (|l: int| imul(x, y, k)[i * ki + l] * z[l * ki + j]));
    assert(rt =~= (|m: int| x[i * ki + m] * imul(y, z, k)[m * ki + j]));
}

} // verus!

verus! {

proof fn lemma_one_left(ring: MatFp, y: Seq<int>, i: int, j: int)
    requires
        ring.p >= 1,
        0 <= i < ring.k,
        0 <= j < ring.k,
    ensures
        mat_sum(ring.spec_one(), y, ring.k as int, i, j, ring.k as nat) == (1int % (ring.p as int)) * y[i * ring.k + j],
{
    let k = ring.k as int;
    let one = ring.spec_one();
    lemma_mat_sum_fsum(one, y, k, i, j, ring.k as nat);
    let f = |l: int| one[i * k + l] * y[l * k + j];
    assert forall|l: int| 0 <= l < k && l != i implies #[trigger] f(l) == 0 by {
        lemma_cell(i, l, k);
    }
    lemma_cell(i, i, k);
    lemma_fsum_single(f, i, ring.k as nat);
}

proof fn lemma_one_right(ring: MatFp, x: Seq<int>, i: int, j: int)
    requires
        ring.p >= 1,
        0 <= i < ring.k,
        0 <= j < ring.k,
    ensures
        mat_sum(x, ring.spec_one(), ring.k as int, i, j, ring.k as nat) == x[i * ring.k + j] * (1int % (ring.p as int)),
{
    let k = ring.k as int;
    let one = ring.spec_one();
    lemma_mat_sum_fsum(x, one, k, i, j, ring.k as nat);
    let f = |l: int| x[i * k + l] * one[l * k + j];
    assert forall|l: int| 0 <= l < k && l != j implies #[trigger] f(l) == 0 by {
        lemma_cell(l, j, k);
    }
    lemma_cell(j, j, k);
    lemma_fsum_single(f, j, ring.k as nat);
}

/// The ring product is the integer product reduced.
proof fn lemma_mul_cong(ring: MatFp, x: Seq<int>, y: Seq<int>)
    requires
        ring.p >= 1,
    ensures
        mcong(ring.spec_mul(x, y), imul(x, y, ring.k as nat), (ring.k * ring.k) as nat, ring.p as int),
        ring.spec_mul(x, y).len() == ring.k * ring.k,
{
    let p = ring.p as int;
    assert forall|q: int| 0 <= q < ring.k * ring.k implies #[trigger] ring.spec_mul(x, y)[q] % p == #[trigger] imul(x, y, ring.k as nat)[q] % p by {
        lemma_mod_twice(imul(x, y, ring.k as nat)[q], p);
    }
}

proof fn lemma_word_children(len: nat, bits: nat)
    ensures
        spec_word_index(len + 1, 2 * bits) == 2 * spec_word_index(len, bits) + 1,
        spec_word_index(len + 1, 2 * bits + 1) == 2 * spec_word_index(len, bits) + 2,
{
    lemma_pow2_unfold(len + 1);
    lemma_pow2_pos(len);
}

/// Word `2w + 1` is word `w` times `a`, word `2w + 2` is word `w` times `b`.
proof fn lemma_word_steps(ring: MatFp, a: Seq<int>, b: Seq<int>, w: nat)
    ensures
        word_val(&ring, a, b, 2 * w + 1) == ring.spec_mul(word_val(&ring, a, b, w), a),
        word_val(&ring, a, b, 2 * w + 2) == ring.spec_mul(word_val(&ring, a, b, w), b),
{
    let c1 = (2 * w + 1) as nat;
    let c2 = (2 * w + 2) as nat;
    assert((c1 - 1) / 2 == w && c1 % 2 == 1);
    assert((c2 - 1) / 2 == w && c2 % 2 == 0);
}

/// A matrix of the carrier: `k x k`, entries reduced.
pub open spec fn canonical(ring: MatFp, x: Seq<int>) -> bool {
    &&& x.len() == ring.k * ring.k
    &&& forall|q: int| 0 <= q < x.len() ==> 0 <= #[trigger] x[q] < ring.p
}

/// `elements` lists every matrix of the carrier exactly once.
pub open spec fn enumerates(ring: MatFp, elements: Seq<Vec<u64>>) -> bool {
    &&& forall|e: int| 0 <= e < elements.len() ==> canonical(ring, #[trigger] ring.view_of(elements[e]))
    &&& forall|e1: int, e2: int|
        0 <= e1 < elements.len() && 0 <= e2 < elements.len() && ring.view_of(#[trigger] elements[e1]) == ring.view_of(
            #[trigger] elements[e2],
        ) ==> e1 == e2
    &&& forall|x: Seq<int>| canonical(ring, x) ==> #[trigger] listed(&ring, elements, x)
}

/// The multiplication table of `x ◇ y = ax + by` over `elements`, each entry
/// naming the first element equal to the product.
pub open spec fn is_matrix_table(ring: MatFp, a: Seq<int>, b: Seq<int>, elements: Seq<Vec<u64>>, table: Seq<u8>) -> bool {
    &&& table.len() == elements.len() * elements.len()
    &&& forall|i: int, j: int|
        0 <= i < elements.len() && 0 <= j < elements.len() ==> names_first(
            &ring,
            elements,
            lin_value(&ring, a, b, ring.view_of(elements[i]), ring.view_of(elements[j])),
            #[trigger] table[i * elements.len() + j] as int,
        )
}

/// The matrices an assignment of element indices stands for.
pub open spec fn assigned(ring: MatFp, elements: Seq<Vec<u64>>, vals: Seq<u8>) -> Seq<Seq<int>> {
    Seq::new(vals.len(), |u: int| ring.view_of(elements[vals[u] as int]))
}

/// Entry `q` of the linear form of `t` at path `(len, bits)`: every leaf
/// contributes its path word times the matrix of its variable.
pub open spec fn lf(ring: MatFp, a: Seq<int>, b: Seq<int>, t: Term, len: nat, bits: nat, xs: Seq<Seq<int>>, q: int) -> int
    decreases t,
{
    let k = ring.k as int;
    match t {
        Term::Var(u) => mat_sum(word_val(&ring, a, b, spec_word_index(len, bits)), xs[u as int], k, q / k, q % k, ring.k as nat),
        Term::Op(l, r) => lf(ring, a, b, *l, len + 1, 2 * bits, xs, q) + lf(ring, a, b, *r, len + 1, 2 * bits + 1, xs, q),
    }
}

proof fn lemma_table_in_range(ring: MatFp, a: Seq<int>, b: Seq<int>, elements: Seq<Vec<u64>>, table: Seq<u8>)
    requires
        is_matrix_table(ring, a, b, elements, table),
    ensures
        forall|c: int| 0 <= c < table.len() ==> table[c] < elements.len(),
{
    let n = elements.len() as int;
    assert forall|c: int| 0 <= c < table.len() implies table[c] < n by {
        lemma_split(c, n);
        let (i, j) = (c / n, c % n);
        assert(table[i * n + j] < n);
    }
}

/// The path word times the value of `t` is its linear form, mod `p`.
proof fn lemma_eval_lf(
    ring: MatFp,
    a: Seq<int>,
    b: Seq<int>,
    elements: Seq<Vec<u64>>,
    table: Seq<u8>,
    t: Term,
    len: nat,
    bits: nat,
    vals: Seq<u8>,
    q: int,
)
    requires
        ring.p >= 1,
        0 <= q < ring.k * ring.k,
        is_matrix_table(ring, a, b, elements, table),
        vars_below(t, vals.len()),
        forall|j: int| 0 <= j < vals.len() ==> vals[j] < elements.len(),
    ensures
        mat_sum(
            word_val(&ring, a, b, spec_word_index(len, bits)),
            ring.view_of(elements[eval_term(t, table, elements.len(), vals) as int]),
            ring.k as int,
            q / (ring.k as int),
            q % (ring.k as int),
            ring.k as nat,
        ) % (ring.p as int) == lf(ring, a, b, t, len, bits, assigned(ring, elements, vals), q) % (ring.p as int),
    decreases t,
{
    let k = ring.k as int;
    let kn = ring.k as nat;
    let p = ring.p as int;
    let n = elements.len();
    let (i, j) = (q / k, q % k);
    lemma_split(q, k);
    let w = spec_word_index(len, bits);
    let wv = word_val(&ring, a, b, w);
    match t {
        Term::Var(u) => {},
        Term::Op(l, r) => {
            lemma_eval_lf(ring, a, b, elements, table, *l, len + 1, 2 * bits, vals, q);
            lemma_eval_lf(ring, a, b, elements, table, *r, len + 1, 2 * bits + 1, vals, q);
            lemma_table_in_range(ring, a, b, elements, table);
            lemma_eval_in_carrier(*l, table, n, vals);
            lemma_eval_in_carrier(*r, table, n, vals);
            let el = eval_term(*l, table, n, vals) as int;
            let er = eval_term(*r, table, n, vals) as int;
            let xl = ring.view_of(elements[el]);
            let xr = ring.view_of(elements[er]);
            let v = ring.view_of(elements[eval_term(t, table, n, vals) as int]);
            assert(eval_term(t, table, n, vals) == table[el * n + er]);
            assert(v == lin_value(&ring, a, b, xl, xr));
            // The value is congruent to the unreduced `a·xl + b·xr`.
            let s = madd(imul(a, xl, kn), imul(b, xr, kn), (k * k) as nat);
            lemma_mul_cong(ring, a, xl);
            lemma_mul_cong(ring, b, xr);
            assert(mcong(v, s, (k * k) as nat, p)) by {
                assert forall|q2: int| 0 <= q2 < k * k implies #[trigger] v[q2] % p == #[trigger] s[q2] % p by {
                    let (c, d) = (imul(a, xl, kn)[q2], imul(b, xr, kn)[q2]);
                    assert(v[q2] == (ring.spec_mul(a, xl)[q2] + ring.spec_mul(b, xr)[q2]) % p);
                    lemma_mod_twice(ring.spec_mul(a, xl)[q2] + ring.spec_mul(b, xr)[q2], p);
                    lemma_add_mod_noop(ring.spec_mul(a, xl)[q2], ring.spec_mul(b, xr)[q2], p);
                    lemma_add_mod_noop(c, d, p);
                }
            }
            assert(mcong(wv, wv, (k * k) as nat, p));
            lemma_mat_sum_cong(wv, wv, v, s, k, i, j, kn, p);
            lemma_mat_sum_add_right(wv, imul(a, xl, kn), imul(b, xr, kn), k, i, j, kn);
            lemma_mat_sum_assoc(wv, a, xl, kn, i, j);
            lemma_mat_sum_assoc(wv, b, xr, kn, i, j);
            // The children's path words are the reduced products.
            lemma_word_children(len, bits);
            lemma_word_steps(ring, a, b, w);
            let wl = word_val(&ring, a, b, spec_word_index(len + 1, 2 * bits));
            let wr = word_val(&ring, a, b, spec_word_index(len + 1, 2 * bits + 1));
            assert(wl == ring.spec_mul(wv, a));
            assert(wr == ring.spec_mul(wv, b));
            lemma_mul_cong(ring, wv, a);
            lemma_mul_cong(ring, wv, b);
            assert(mcong(xl, xl, (k * k) as nat, p));
            assert(mcong(xr, xr, (k * k) as nat, p));
            assert(mcong(imul(wv, a, kn), wl, (k * k) as nat, p));
            assert(mcong(imul(wv, b, kn), wr, (k * k) as nat, p));
            lemma_mat_sum_cong(imul(wv, a, kn), wl, xl, xl, k, i, j, kn, p);
            lemma_mat_sum_cong(imul(wv, b, kn), wr, xr, xr, k, i, j, kn, p);
            let ml = mat_sum(wl, xl, k, i, j, kn);
            let mr = mat_sum(wr, xr, k, i, j, kn);
            let ul = mat_sum(imul(wv, a, kn), xl, k, i, j, kn);
            let ur = mat_sum(imul(wv, b, kn), xr, k, i, j, kn);
            lemma_add_mod_noop(ul, ur, p);
            lemma_add_mod_noop(ml, mr, p);
            let xs = assigned(ring, elements, vals);
            lemma_add_mod_noop(lf(ring, a, b, *l, len + 1, 2 * bits, xs, q), lf(ring, a, b, *r, len + 1, 2 * bits + 1, xs, q), p);
        },
    }
}

} // verus!

verus! {

/// The sum of the path words of the leaves of `t` that are variable `v`.
pub open spec fn leaf_words(ring: MatFp, a: Seq<int>, b: Seq<int>, t: Term, len: nat, bits: nat, v: nat) -> Seq<int>
    decreases t,
{
    match t {
        Term::Var(u) => if u == v {
            word_val(&ring, a, b, spec_word_index(len, bits))
        } else {
            mzero((ring.k * ring.k) as nat)
        },
        Term::Op(l, r) => madd(
            leaf_words(ring, a, b, *l, len + 1, 2 * bits, v),
            leaf_words(ring, a, b, *r, len + 1, 2 * bits + 1, v),
            (ring.k * ring.k) as nat,
        ),
    }
}

/// The linear form splits by variable: each variable contributes its leaf
/// words times its matrix.
proof fn lemma_lf_split(ring: MatFp, a: Seq<int>, b: Seq<int>, t: Term, len: nat, bits: nat, xs: Seq<Seq<int>>, q: int)
    requires
        0 <= q < ring.k * ring.k,
        vars_below(t, xs.len()),
    ensures
        lf(ring, a, b, t, len, bits, xs, q) == fsum(
            |v: int|
                mat_sum(
                    leaf_words(ring, a, b, t, len, bits, v as nat),
                    xs[v],
                    ring.k as int,
                    q / (ring.k as int),
                    q % (ring.k as int),
                    ring.k as nat,
                ),
            xs.len(),
        ),
    decreases t,
{
    let k = ring.k as int;
    let kn = ring.k as nat;
    let (i, j) = (q / k, q % k);
    lemma_split(q, k);
    let whole = |v: int| mat_sum(leaf_words(ring, a, b, t, len, bits, v as nat), xs[v], k, i, j, kn);
    match t {
        Term::Var(u) => {
            assert forall|v: int| 0 <= v < xs.len() && v != u implies #[trigger] whole(v) == 0 by {
                lemma_mat_sum_zero(xs[v], k, i, j, kn);
            }
            lemma_fsum_single(whole, u as int, xs.len());
        },
        Term::Op(l, r) => {
            lemma_lf_split(ring, a, b, *l, len + 1, 2 * bits, xs, q);
            lemma_lf_split(ring, a, b, *r, len + 1, 2 * bits + 1, xs, q);
            let fl = |v: int| mat_sum(leaf_words(ring, a, b, *l, len + 1, 2 * bits, v as nat), xs[v], k, i, j, kn);
            let fr = |v: int| mat_sum(leaf_words(ring, a, b, *r, len + 1, 2 * bits + 1, v as nat), xs[v], k, i, j, kn);
            let both = |v: int| fl(v) + fr(v);
            assert forall|v: int| 0 <= v < xs.len() implies #[trigger] whole(v) == both(v) by {
                lemma_mat_sum_add_left(
                    leaf_words(ring, a, b, *l, len + 1, 2 * bits, v as nat),
                    leaf_words(ring, a, b, *r, len + 1, 2 * bits + 1, v as nat),
                    xs[v],
                    k,
                    i,
                    j,
                    kn,
                );
            }
            lemma_fsum_ext(whole, both, xs.len());
            lemma_fsum_add(fl, fr, xs.len());
            assert(fl =~= (|v: int| mat_sum(leaf_words(ring, a, b, *l, len + 1, 2 * bits, v as nat), xs[v], ring.k as int, q / (ring.k as int), q % (ring.k as int), ring.k as nat)));
            assert(fr =~= (|v: int| mat_sum(leaf_words(ring, a, b, *r, len + 1, 2 * bits + 1, v as nat), xs[v], ring.k as int, q / (ring.k as int), q % (ring.k as int), ring.k as nat)));
        },
    }
    assert(whole =~= (|v: int| mat_sum(leaf_words(ring, a, b, t, len, bits, v as nat), xs[v], ring.k as int, q / (ring.k as int), q % (ring.k as int), ring.k as nat)));
}

/// The leaf words of `v` are `Σ_w coef(v, w) · word(w)`.
proof fn lemma_leaf_words_coef(ring: MatFp, a: Seq<int>, b: Seq<int>, t: Term, len: nat, bits: nat, v: nat, q: int)
    requires
        len + depth(t) <= 4,
        bits < pow2(len),
        0 <= q < ring.k * ring.k,
    ensures
        leaf_words(ring, a, b, t, len, bits, v)[q] == fsum(|w: int| coef(t, len, bits, v, w as nat) * word_val(&ring, a, b, w as nat)[q], 31),
    decreases t,
{
    let f = |w: int| coef(t, len, bits, v, w as nat) * word_val(&ring, a, b, w as nat)[q];
    match t {
        Term::Var(x) => {
            lemma2_to64();
            if len < 4 {
                lemma_pow2_strictly_increases(len, 4);
            }
            let idx = spec_word_index(len, bits);
            assert(idx < 31);
            assert forall|w: int| 0 <= w < 31 && w != idx implies #[trigger] f(w) == 0 by {
            }
            lemma_fsum_single(f, idx as int, 31);
        },
        Term::Op(l, r) => {
            lemma_pow2_unfold(len + 1);
            lemma_leaf_words_coef(ring, a, b, *l, len + 1, 2 * bits, v, q);
            lemma_leaf_words_coef(ring, a, b, *r, len + 1, 2 * bits + 1, v, q);
            let fl = |w: int| coef(*l, len + 1, 2 * bits, v, w as nat) * word_val(&ring, a, b, w as nat)[q];
            let fr = |w: int| coef(*r, len + 1, 2 * bits + 1, v, w as nat) * word_val(&ring, a, b, w as nat)[q];
            let both = |w: int| fl(w) + fr(w);
            assert forall|w: int| 0 <= w < 31 implies #[trigger] f(w) == both(w) by {
                let z = word_val(&ring, a, b, w as nat)[q];
                let (cl, cr) = (coef(*l, len + 1, 2 * bits, v, w as nat), coef(*r, len + 1, 2 * bits + 1, v, w as nat));
                assert((cl + cr) * z == cl * z + cr * z) by (nonlinear_arith);
            }
            lemma_fsum_ext(f, both, 31);
            lemma_fsum_add(fl, fr, 31);
            assert(fl =~= (|w: int| coef(*l, len + 1, 2 * bits, v, w as nat) * word_val(&ring, a, b, w as nat)[q]));
            assert(fr =~= (|w: int| coef(*r, len + 1, 2 * bits + 1, v, w as nat) * word_val(&ring, a, b, w as nat)[q]));
        },
    }
    assert(f =~= (|w: int| coef(t, len, bits, v, w as nat) * word_val(&ring, a, b, w as nat)[q]));
}

} // verus!

verus! {

proof fn lemma_comb_len(ring: MatFp, t: Seq<(u8, i32)>, words: Seq<Seq<int>>, n: nat)
    ensures
        comb(&ring, t, words, n).len() == ring.k * ring.k,
    decreases n,
{
    if n > 0 {
        lemma_comb_len(ring, t, words, (n - 1) as nat);
    }
}

proof fn lemma_comb_prefix(ring: MatFp, t1: Seq<(u8, i32)>, t2: Seq<(u8, i32)>, words: Seq<Seq<int>>, n: nat)
    requires
        n <= t1.len(),
        n <= t2.len(),
        forall|q: int| 0 <= q < n ==> t1[q] == t2[q],
    ensures
        comb(&ring, t1, words, n) == comb(&ring, t2, words, n),
    decreases n,
{
    if n > 0 {
        lemma_comb_prefix(ring, t1, t2, words, (n - 1) as nat);
    }
}

/// Summing the sparse terms of `c` gives `Σ c[w] · word(w)`, entrywise mod `p`.
proof fn lemma_comb_sparse(ring: MatFp, c: Seq<i32>, a: Seq<int>, b: Seq<int>, u: nat, q: int)
    requires
        ring.p >= 1,
        u <= 31,
        0 <= q < ring.k * ring.k,
    ensures
        comb(&ring, sparse(c, u), words_spec(&ring, a, b), sparse(c, u).len())[q] % (ring.p as int) == fsum(
            |w: int| c[w] * word_val(&ring, a, b, w as nat)[q],
            u,
        ) % (ring.p as int),
    decreases u,
{
    let words = words_spec(&ring, a, b);
    let p = ring.p as int;
    let f = |w: int| c[w] * word_val(&ring, a, b, w as nat)[q];
    if u > 0 {
        lemma_comb_sparse(ring, c, a, b, (u - 1) as nat, q);
        let s = sparse(c, (u - 1) as nat);
        let w = u - 1;
        let z = word_val(&ring, a, b, w as nat)[q];
        let prev = fsum(f, (u - 1) as nat);
        let cp = comb(&ring, s, words, s.len());
        lemma_comb_len(ring, s, words, s.len());
        assert(f =~= (|w: int| c[w] * word_val(&ring, a, b, w as nat)[q]));
        if c[w] != 0 {
            let x = (w as u8, c[w]);
            let t = s.push(x);
            assert(sparse(c, u) == t);
            lemma_comb_prefix(ring, t, s, words, s.len());
            assert(t[s.len() as int] == x);
            assert(words[w] == word_val(&ring, a, b, w as nat));
            let kk = c[w] as int;
            assert(comb(&ring, t, words, t.len())[q] == (cp[q] + emod(kk, p) * z) % p);
            lemma_mul_mod_noop_left(kk, z, p);
            lemma_add_mod_noop(cp[q], emod(kk, p) * z, p);
            lemma_add_mod_noop(prev, kk * z, p);
            lemma_mod_twice(cp[q] + emod(kk, p) * z, p);
            assert(fsum(f, u) == prev + kk * z);
        } else {
            assert(sparse(c, u) == s);
            assert(f(w) == 0);
        }
    } else {
        lemma_small_mod(0, ring.p as nat);
        assert(ring.spec_zero()[q] == 0);
    }
}

/// `x ≡ y (mod p)` exactly when `x - y ≡ 0`.
proof fn lemma_cong_diff(x: int, y: int, p: int)
    requires
        p >= 1,
    ensures
        (x - y) % p == 0 <==> x % p == y % p,
{
    lemma_sub_mod_noop(x, y, p);
    lemma_mod_bound(x, p);
    lemma_mod_bound(y, p);
    let d = x % p - y % p;
    assert((x - y) % p == d % p);
    if d == 0 {
        lemma_small_mod(0, p as nat);
    } else if d > 0 {
        lemma_small_mod(d as nat, p as nat);
    } else if d < 0 {
        lemma_mod_add_multiples_vanish(d, p);
        lemma_small_mod((d + p) as nat, p as nat);
        assert(d % p == (p + d) % p);
    }
}

/// A variable's check passes exactly when the leaf words of both sides agree
/// entrywise mod `p`.
proof fn lemma_check_is_leaf_words(ring: MatFp, a: Seq<int>, b: Seq<int>, law: Law, d: LawDiff, v: int)
    requires
        ring.p >= 1,
        linear_law_ok(law),
        d.describes(law),
        0 <= v < law.arity,
    ensures
        terms_vanish(&ring, d.terms@[v]@, words_spec(&ring, a, b)) <==> mcong(
            leaf_words(ring, a, b, law.lhs, 0, 0, v as nat),
            leaf_words(ring, a, b, law.rhs, 0, 0, v as nat),
            (ring.k * ring.k) as nat,
            ring.p as int,
        ),
{
    let p = ring.p as int;
    let kk = ring.k * ring.k;
    let words = words_spec(&ring, a, b);
    let c = d.diffs@[v].c@;
    let t = d.terms@[v]@;
    assert(t == sparse(c, 31));
    let cm = comb(&ring, t, words, t.len());
    lemma_comb_len(ring, t, words, t.len());
    let ll = leaf_words(ring, a, b, law.lhs, 0, 0, v as nat);
    let lr = leaf_words(ring, a, b, law.rhs, 0, 0, v as nat);
    lemma2_to64();
    assert forall|q: int| 0 <= q < kk implies #[trigger] cm[q] % p == (ll[q] - lr[q]) % p by {
        lemma_comb_sparse(ring, c, a, b, 31, q);
        lemma_leaf_words_coef(ring, a, b, law.lhs, 0, 0, v as nat, q);
        lemma_leaf_words_coef(ring, a, b, law.rhs, 0, 0, v as nat, q);
        let fl = |w: int| coef(law.lhs, 0, 0, v as nat, w as nat) * word_val(&ring, a, b, w as nat)[q];
        let fr = |w: int| coef(law.rhs, 0, 0, v as nat, w as nat) * word_val(&ring, a, b, w as nat)[q];
        let fc = |w: int| c[w] * word_val(&ring, a, b, w as nat)[q];
        let fd = |w: int| fl(w) - fr(w);
        assert forall|w: int| 0 <= w < 31 implies #[trigger] fc(w) == fd(w) by {
            assert(c[w] == coef(law.lhs, 0, 0, v as nat, w as nat) - coef(law.rhs, 0, 0, v as nat, w as nat));
            let z = word_val(&ring, a, b, w as nat)[q];
            let (x, y) = (coef(law.lhs, 0, 0, v as nat, w as nat), coef(law.rhs, 0, 0, v as nat, w as nat));
            assert((x - y) * z == x * z - y * z) by (nonlinear_arith);
        }
        lemma_fsum_ext(fc, fd, 31);
        lemma_fsum_sub(fl, fr, 31);
    }
    if terms_vanish(&ring, t, words) {
        assert forall|q: int| #![trigger ll[q]] #![trigger lr[q]] 0 <= q < kk implies ll[q] % p == lr[q] % p by {
            assert(cm[q] % p == 0);
            lemma_cong_diff(ll[q], lr[q], p);
        }
    }
    if mcong(ll, lr, kk as nat, p) {
        assert forall|q: int| 0 <= q < cm.len() implies #[trigger] cm[q] % p == 0 by {
            assert(ll[q] % p == lr[q] % p);
            lemma_cong_diff(ll[q], lr[q], p);
        }
    }
}

/// At the root the value of a side is its linear form, reduced.
proof fn lemma_root_value(ring: MatFp, a: Seq<int>, b: Seq<int>, elements: Seq<Vec<u64>>, table: Seq<u8>, t: Term, vals: Seq<u8>, q: int)
    requires
        ring.p >= 1,
        0 <= q < ring.k * ring.k,
        enumerates(ring, elements),
        is_matrix_table(ring, a, b, elements, table),
        vars_below(t, vals.len()),
        forall|j: int| 0 <= j < vals.len() ==> vals[j] < elements.len(),
    ensures
        eval_term(t, table, elements.len(), vals) < elements.len(),
        ring.view_of(elements[eval_term(t, table, elements.len(), vals) as int])[q] == lf(
            ring,
            a,
            b,
            t,
            0,
            0,
            assigned(ring, elements, vals),
            q,
        ) % (ring.p as int),
{
    let k = ring.k as int;
    let p = ring.p as int;
    lemma_table_in_range(ring, a, b, elements, table);
    lemma_eval_in_carrier(t, table, elements.len(), vals);
    let e = eval_term(t, table, elements.len(), vals) as int;
    let v = ring.view_of(elements[e]);
    assert(canonical(ring, v));
    lemma_eval_lf(ring, a, b, elements, table, t, 0, 0, vals, q);
    lemma2_to64();
    assert(spec_word_index(0, 0) == 0);
    lemma_split(q, k);
    lemma_one_left(ring, v, q / k, q % k);
    lemma_mul_mod_noop_left(1, v[q], p);
    lemma_small_mod(v[q] as nat, p as nat);
}

} // verus!

verus! {

/// The linear decision agrees with the table over `M_k(F_p)`: for
/// `x ◇ y = ax + by` on an enumeration of all `k x k` matrices over `F_p`,
/// the difference polynomials of a law vanish at the word values of `a`
/// and `b` exactly when the law holds in the multiplication table. So the
/// symbolic route and the table sweep give the same signature.
pub proof fn lemma_matrix_decision_matches_table(
    ring: MatFp,
    a: Seq<int>,
    b: Seq<int>,
    elements: Seq<Vec<u64>>,
    law: Law,
    d: LawDiff,
    table: Seq<u8>,
)
    requires
        ring.p >= 1,
        linear_law_ok(law),
        d.describes(law),
        elements.len() <= 256,
        enumerates(ring, elements),
        is_matrix_table(ring, a, b, elements, table),
    ensures
        law_vanishes(&ring, d.terms@, words_spec(&ring, a, b)) <==> law.holds_in(table, elements.len()),
{
    let k = ring.k as int;
    let kn = ring.k as nat;
    let kk = (ring.k * ring.k) as nat;
    let p = ring.p as int;
    let n = elements.len();
    let ar = law.arity as nat;
    let words = words_spec(&ring, a, b);
    let ll = |v: int| leaf_words(ring, a, b, law.lhs, 0, 0, v as nat);
    let lr = |v: int| leaf_words(ring, a, b, law.rhs, 0, 0, v as nat);
    if law_vanishes(&ring, d.terms@, words) {
        assert forall|vals: Seq<u8>| is_assignment(vals, ar, n) implies #[trigger] eval_term(law.lhs, table, n, vals)
            == eval_term(law.rhs, table, n, vals) by {
            let xs = assigned(ring, elements, vals);
            let el = eval_term(law.lhs, table, n, vals) as int;
            let er = eval_term(law.rhs, table, n, vals) as int;
            let vl = ring.view_of(elements[el]);
            let vr = ring.view_of(elements[er]);
            assert forall|q: int| 0 <= q < kk implies #[trigger] vl[q] == vr[q] by {
                lemma_root_value(ring, a, b, elements, table, law.lhs, vals, q);
                lemma_root_value(ring, a, b, elements, table, law.rhs, vals, q);
                lemma_lf_split(ring, a, b, law.lhs, 0, 0, xs, q);
                lemma_lf_split(ring, a, b, law.rhs, 0, 0, xs, q);
                lemma_split(q, k);
                let (i, j) = (q / k, q % k);
                let fl = |v: int| mat_sum(ll(v), xs[v], k, i, j, kn);
                let fr = |v: int| mat_sum(lr(v), xs[v], k, i, j, kn);
                assert forall|v: int| 0 <= v < ar implies #[trigger] fl(v) % p == fr(v) % p by {
                    assert(terms_vanish(&ring, d.terms@[v]@, words));
                    lemma_check_is_leaf_words(ring, a, b, law, d, v);
                    assert(mcong(xs[v], xs[v], kk, p));
                    lemma_mat_sum_cong(ll(v), lr(v), xs[v], xs[v], k, i, j, kn, p);
                }
                lemma_fsum_cong(fl, fr, ar, p);
                assert(fl =~= (|v: int| mat_sum(leaf_words(ring, a, b, law.lhs, 0, 0, v as nat), xs[v], ring.k as int, q / (ring.k as int), q % (ring.k as int), ring.k as nat)));
                assert(fr =~= (|v: int| mat_sum(leaf_words(ring, a, b, law.rhs, 0, 0, v as nat), xs[v], ring.k as int, q / (ring.k as int), q % (ring.k as int), ring.k as nat)));
            }
            lemma_table_in_range(ring, a, b, elements, table);
            lemma_eval_in_carrier(law.lhs, table, n, vals);
            lemma_eval_in_carrier(law.rhs, table, n, vals);
            assert(canonical(ring, vl));
            assert(canonical(ring, vr));
            assert(vl =~= vr);
        }
    }
    if law.holds_in(table, n) {
        let one = ring.spec_one();
        let zero = mzero(kk);
        assert(canonical(ring, one)) by {
            assert forall|q: int| 0 <= q < one.len() implies 0 <= #[trigger] one[q] < ring.p by {
                lemma_mod_bound(1, p);
            }
        }
        assert(canonical(ring, zero));
        assert(listed(&ring, elements, one));
        assert(listed(&ring, elements, zero));
        let i1 = choose|e: int| 0 <= e < n && ring.view_of(elements[e]) == one;
        let i0 = choose|e: int| 0 <= e < n && ring.view_of(elements[e]) == zero;
        assert forall|v: int| 0 <= v < d.terms@.len() implies terms_vanish(&ring, (#[trigger] d.terms@[v])@, words) by {
            let vals = Seq::new(ar, |u: int| if u == v { i1 as u8 } else { i0 as u8 });
            assert(is_assignment(vals, ar, n));
            let xs = assigned(ring, elements, vals);
            assert(eval_term(law.lhs, table, n, vals) == eval_term(law.rhs, table, n, vals));
            assert forall|q: int| #![trigger ll(v)[q]] #![trigger lr(v)[q]] 0 <= q < kk implies ll(v)[q] % p == lr(v)[q] % p by {
                lemma_root_value(ring, a, b, elements, table, law.lhs, vals, q);
                lemma_root_value(ring, a, b, elements, table, law.rhs, vals, q);
                lemma_lf_split(ring, a, b, law.lhs, 0, 0, xs, q);
                lemma_lf_split(ring, a, b, law.rhs, 0, 0, xs, q);
                lemma_split(q, k);
                let (i, j) = (q / k, q % k);
                assert(i * k + j == q);
                let fl = |u: int| mat_sum(ll(u), xs[u], k, i, j, kn);
                let fr = |u: int| mat_sum(lr(u), xs[u], k, i, j, kn);
                assert forall|u: int| 0 <= u < ar && u != v implies #[trigger] fl(u) == 0 by {
                    assert(xs[u] == zero);
                    lemma_mat_sum_zero(ll(u), k, i, j, kn);
                }
                assert forall|u: int| 0 <= u < ar && u != v implies #[trigger] fr(u) == 0 by {
                    assert(xs[u] == zero);
                    lemma_mat_sum_zero(lr(u), k, i, j, kn);
                }
                lemma_fsum_single(fl, v, ar);
                lemma_fsum_single(fr, v, ar);
                assert(xs[v] == one);
                lemma_one_right(ring, ll(v), i, j);
                lemma_one_right(ring, lr(v), i, j);
                lemma_mul_mod_noop_right(ll(v)[q], 1, p);
                lemma_mul_mod_noop_right(lr(v)[q], 1, p);
                assert(fl =~= (|u: int| mat_sum(leaf_words(ring, a, b, law.lhs, 0, 0, u as nat), xs[u], ring.k as int, q / (ring.k as int), q % (ring.k as int), ring.k as nat)));
                assert(fr =~= (|u: int| mat_sum(leaf_words(ring, a, b, law.rhs, 0, 0, u as nat), xs[u], ring.k as int, q / (ring.k as int), q % (ring.k as int), ring.k as nat)));
            }
            lemma_check_is_leaf_words(ring, a, b, law, d, v);
        }
    }
}

} // verus!

verus! {

/// The number whose base-`p` digits, least significant first, are `x`.
pub open spec fn from_digits(x: Seq<int>, p: int) -> int
    decreases x.len(),
{
    if x.len() == 0 {
        0
    } else {
        x[0] + p * from_digits(x.drop_first(), p)
    }
}

/// Two codes below `p^len` with the same first `len` digits are equal.
proof fn lemma_digits_determine_code(c1: nat, c2: nat, p: nat, len: nat)
    requires
        p >= 1,
        c1 < pow(p as int, len),
        c2 < pow(p as int, len),
        forall|j: nat| j < len ==> #[trigger] code_digit(c1, p, j) == code_digit(c2, p, j),
    ensures
        c1 == c2,
    decreases len,
{
    reveal(pow);
    if len > 0 {
        let pl = pow(p as int, (len - 1) as nat);
        assert(pow(p as int, len) == p * pl);
        assert forall|j: nat| j < len - 1 implies #[trigger] code_digit(c1 / p, p, j) == code_digit(c2 / p, p, j) by {
            assert(code_digit(c1, p, j + 1) == code_digit(c2, p, j + 1));
        }
        lemma_fundamental_div_mod(c1 as int, p as int);
        lemma_fundamental_div_mod(c2 as int, p as int);
        lemma_mod_bound(c1 as int, p as int);
        lemma_mod_bound(c2 as int, p as int);
        assert(c1 / p < pl) by {
            if c1 / p >= pl {
                assert(p * (c1 / p) >= p * pl) by (nonlinear_arith)
                    requires
                        c1 / p >= pl,
                        p >= 1,
                ;
            }
        }
        assert(c2 / p < pl) by {
            if c2 / p >= pl {
                assert(p * (c2 / p) >= p * pl) by (nonlinear_arith)
                    requires
                        c2 / p >= pl,
                        p >= 1,
                ;
            }
        }
        lemma_digits_determine_code(c1 / p, c2 / p, p, (len - 1) as nat);
        assert(code_digit(c1, p, 0) == code_digit(c2, p, 0));
    } else {
        assert(pow(p as int, 0) == 1);
    }
}

/// Digits below `p` are the digits of their numeral, which is below `p^len`.
proof fn lemma_from_digits(x: Seq<int>, p: nat)
    requires
        p >= 1,
        forall|j: int| 0 <= j < x.len() ==> 0 <= #[trigger] x[j] < p,
    ensures
        0 <= from_digits(x, p as int) < pow(p as int, x.len()),
        forall|j: nat| j < x.len() ==> #[trigger] code_digit(from_digits(x, p as int) as nat, p, j) == x[j as int],
    decreases x.len(),
{
    reveal(pow);
    if x.len() > 0 {
        let rest = x.drop_first();
        lemma_from_digits(rest, p);
        let r = from_digits(rest, p as int);
        let pl = pow(p as int, rest.len());
        let c = from_digits(x, p as int);
        assert(c == x[0] + p * r);
        assert(pow(p as int, x.len()) == p * pl);
        assert(0 <= c < p * pl) by (nonlinear_arith)
            requires
                c == x[0] + p * r,
                0 <= x[0] < p,
                0 <= r < pl,
        ;
        assert(c == r * p + x[0]) by (nonlinear_arith)
            requires
                c == x[0] + p * r,
        ;
        lemma_fundamental_div_mod_converse(c, p as int, r, x[0]);
        assert forall|j: nat| j < x.len() implies #[trigger] code_digit(c as nat, p, j) == x[j as int] by {
            if j > 0 {
                assert(code_digit(c as nat, p, j) == code_digit((c / (p as int)) as nat, p, (j - 1) as nat));
                assert(code_digit(r as nat, p, (j - 1) as nat) == rest[j - 1]);
            }
        }
    } else {
        assert(pow(p as int, 0) == 1);
    }
}

/// The matrices numbered by their base-`p` digits, as `enumerate_matrices`
/// lists them, list every matrix of `M_k(F_p)` exactly once.
pub proof fn lemma_numbered_matrices_enumerate(ring: MatFp, all: Seq<Vec<u64>>)
    requires
        ring.p >= 1,
        all.len() == pow(ring.p as int, (ring.k * ring.k) as nat),
        forall|code: int|
            0 <= code < all.len() ==> (#[trigger] all[code])@.len() == ring.k * ring.k && forall|j: int|
                0 <= j < ring.k * ring.k ==> all[code]@[j] == code_digit(code as nat, ring.p as nat, j as nat),
    ensures
        enumerates(ring, all),
{
    let p = ring.p as nat;
    let kk = (ring.k * ring.k) as nat;
    assert forall|e: int| 0 <= e < all.len() implies canonical(ring, #[trigger] ring.view_of(all[e])) by {
        assert forall|q: int| 0 <= q < ring.view_of(all[e]).len() implies 0 <= #[trigger] ring.view_of(all[e])[q] < ring.p by {
            lemma_code_digit_bound(e as nat, p, q as nat);
        }
    }
    assert forall|e1: int, e2: int|
        0 <= e1 < all.len() && 0 <= e2 < all.len() && ring.view_of(#[trigger] all[e1]) == ring.view_of(#[trigger] all[e2])
        implies e1 == e2 by {
        assert forall|j: nat| j < kk implies #[trigger] code_digit(e1 as nat, p, j) == code_digit(e2 as nat, p, j) by {
            assert(ring.view_of(all[e1])[j as int] == ring.view_of(all[e2])[j as int]);
        }
        lemma_digits_determine_code(e1 as nat, e2 as nat, p, kk);
    }
    assert forall|x: Seq<int>| canonical(ring, x) implies #[trigger] listed(&ring, all, x) by {
        lemma_from_digits(x, p);
        let c = from_digits(x, p as int);
        assert(ring.view_of(all[c]) =~= x) by {
            assert forall|j: int| 0 <= j < kk implies #[trigger] ring.view_of(all[c])[j] == x[j] by {
                assert(code_digit(c as nat, p, j as nat) == x[j]);
            }
        }
    }
}

} // verus!

verus! {

/// Entrywise difference of the first `n` entries.
pub open spec fn msub(x: Seq<int>, y: Seq<int>, n: nat) -> Seq<int> {
    Seq::new(n, |q: int| x[q] - y[q])
}

proof fn lemma_mat_sum_sub_left(x: Seq<int>, y: Seq<int>, z: Seq<int>, k: int, i: int, j: int, n: nat)
    requires
        0 <= i < k,
        0 <= j < k,
        n <= k,
    ensures
        mat_sum(msub(x, y, (k * k) as nat), z, k, i, j, n) == mat_sum(x, z, k, i, j, n) - mat_sum(y, z, k, i, j, n),
    decreases n,
{
    if n > 0 {
        let l = n - 1;
        lemma_mat_sum_sub_left(x, y, z, k, i, j, (n - 1) as nat);
        lemma_cell(i, l, k);
        let (a, b, c) = (x[i * k + l], y[i * k + l], z[l * k + j]);
        assert((a - b) * c == a * c - b * c) by (nonlinear_arith);
    }
}

/// The multiplication table of `x ◇ y = ax + by + c` over `elements`.
pub open spec fn is_affine_matrix_table(
    ring: MatFp,
    a: Seq<int>,
    b: Seq<int>,
    c: Seq<int>,
    elements: Seq<Vec<u64>>,
    table: Seq<u8>,
) -> bool {
    &&& table.len() == elements.len() * elements.len()
    &&& forall|i: int, j: int|
        0 <= i < elements.len() && 0 <= j < elements.len() ==> names_first(
            &ring,
            elements,
            aff_value(&ring, a, b, c, ring.view_of(elements[i]), ring.view_of(elements[j])),
            #[trigger] table[i * elements.len() + j] as int,
        )
}

/// The sum of the path words of the internal nodes of `t`.
pub open spec fn node_words(ring: MatFp, a: Seq<int>, b: Seq<int>, t: Term, len: nat, bits: nat) -> Seq<int>
    decreases t,
{
    let kk = (ring.k * ring.k) as nat;
    match t {
        Term::Var(_) => mzero(kk),
        Term::Op(l, r) => madd(
            madd(word_val(&ring, a, b, spec_word_index(len, bits)), node_words(ring, a, b, *l, len + 1, 2 * bits), kk),
            node_words(ring, a, b, *r, len + 1, 2 * bits + 1),
            kk,
        ),
    }
}

proof fn lemma_affine_table_in_range(ring: MatFp, a: Seq<int>, b: Seq<int>, c: Seq<int>, elements: Seq<Vec<u64>>, table: Seq<u8>)
    requires
        is_affine_matrix_table(ring, a, b, c, elements, table),
    ensures
        forall|i: int| 0 <= i < table.len() ==> table[i] < elements.len(),
{
    let n = elements.len() as int;
    assert forall|i: int| 0 <= i < table.len() implies table[i] < n by {
        lemma_split(i, n);
        let (x, y) = (i / n, i % n);
        assert(table[x * n + y] < n);
    }
}

/// The path word times the value of `t` is its linear form plus its
/// internal-node words times `c`, mod `p`.
proof fn lemma_eval_lf_affine(
    ring: MatFp,
    a: Seq<int>,
    b: Seq<int>,
    c: Seq<int>,
    elements: Seq<Vec<u64>>,
    table: Seq<u8>,
    t: Term,
    len: nat,
    bits: nat,
    vals: Seq<u8>,
    q: int,
)
    requires
        ring.p >= 1,
        0 <= q < ring.k * ring.k,
        is_affine_matrix_table(ring, a, b, c, elements, table),
        vars_below(t, vals.len()),
        forall|j: int| 0 <= j < vals.len() ==> vals[j] < elements.len(),
        c.len() == ring.k * ring.k,
    ensures
        mat_sum(
            word_val(&ring, a, b, spec_word_index(len, bits)),
            ring.view_of(elements[eval_term(t, table, elements.len(), vals) as int]),
            ring.k as int,
            q / (ring.k as int),
            q % (ring.k as int),
            ring.k as nat,
        ) % (ring.p as int) == (lf(ring, a, b, t, len, bits, assigned(ring, elements, vals), q) + mat_sum(
            node_words(ring, a, b, t, len, bits),
            c,
            ring.k as int,
            q / (ring.k as int),
            q % (ring.k as int),
            ring.k as nat,
        )) % (ring.p as int),
    decreases t,
{
    let k = ring.k as int;
    let kn = ring.k as nat;
    let kk = (k * k) as nat;
    let p = ring.p as int;
    let n = elements.len();
    let (i, j) = (q / k, q % k);
    lemma_split(q, k);
    let w = spec_word_index(len, bits);
    let wv = word_val(&ring, a, b, w);
    let xs = assigned(ring, elements, vals);
    match t {
        Term::Var(u) => {
            lemma_mat_sum_zero(c, k, i, j, kn);
        },
        Term::Op(l, r) => {
            lemma_eval_lf_affine(ring, a, b, c, elements, table, *l, len + 1, 2 * bits, vals, q);
            lemma_eval_lf_affine(ring, a, b, c, elements, table, *r, len + 1, 2 * bits + 1, vals, q);
            lemma_affine_table_in_range(ring, a, b, c, elements, table);
            lemma_eval_in_carrier(*l, table, n, vals);
            lemma_eval_in_carrier(*r, table, n, vals);
            let el = eval_term(*l, table, n, vals) as int;
            let er = eval_term(*r, table, n, vals) as int;
            let xl = ring.view_of(elements[el]);
            let xr = ring.view_of(elements[er]);
            let v = ring.view_of(elements[eval_term(t, table, n, vals) as int]);
            assert(eval_term(t, table, n, vals) == table[el * n + er]);
            assert(v == aff_value(&ring, a, b, c, xl, xr));
            // The value is congruent to the unreduced `a·xl + b·xr + c`.
            let s0 = madd(imul(a, xl, kn), imul(b, xr, kn), kk);
            let s = madd(s0, c, kk);
            lemma_mul_cong(ring, a, xl);
            lemma_mul_cong(ring, b, xr);
            assert(mcong(v, s, kk, p)) by {
                assert forall|q2: int| 0 <= q2 < k * k implies #[trigger] v[q2] % p == #[trigger] s[q2] % p by {
                    let (c1, d1) = (imul(a, xl, kn)[q2], imul(b, xr, kn)[q2]);
                    let (m1, m2) = (ring.spec_mul(a, xl)[q2], ring.spec_mul(b, xr)[q2]);
                    let lv = lin_value(&ring, a, b, xl, xr);
                    assert(lv[q2] == (m1 + m2) % p);
                    assert(v[q2] == (lv[q2] + c[q2]) % p);
                    assert(m1 == c1 % p);
                    assert(m2 == d1 % p);
                    assert(s[q2] == c1 + d1 + c[q2]);
                    lemma_mod_twice(lv[q2] + c[q2], p);
                    lemma_mod_twice(c1, p);
                    lemma_mod_twice(d1, p);
                    lemma_add_mod_noop(c1 % p, d1 % p, p);
                    lemma_add_mod_noop(m1, m2, p);
                    lemma_add_mod_noop(c1, d1, p);
                    lemma_add_mod_noop(lv[q2], c[q2], p);
                    lemma_add_mod_noop(c1 + d1, c[q2], p);
                    lemma_mod_twice(m1 + m2, p);
                    lemma_mod_twice(c1 + d1, p);
                }
            }
            assert(mcong(wv, wv, kk, p));
            lemma_mat_sum_cong(wv, wv, v, s, k, i, j, kn, p);
            lemma_mat_sum_add_right(wv, s0, c, k, i, j, kn);
            lemma_mat_sum_add_right(wv, imul(a, xl, kn), imul(b, xr, kn), k, i, j, kn);
            lemma_mat_sum_assoc(wv, a, xl, kn, i, j);
            lemma_mat_sum_assoc(wv, b, xr, kn, i, j);
            lemma_word_children(len, bits);
            lemma_word_steps(ring, a, b, w);
            let wl = word_val(&ring, a, b, spec_word_index(len + 1, 2 * bits));
            let wr = word_val(&ring, a, b, spec_word_index(len + 1, 2 * bits + 1));
            assert(wl == ring.spec_mul(wv, a));
            assert(wr == ring.spec_mul(wv, b));
            lemma_mul_cong(ring, wv, a);
            lemma_mul_cong(ring, wv, b);
            assert(mcong(xl, xl, kk, p));
            assert(mcong(xr, xr, kk, p));
            lemma_mat_sum_cong(imul(wv, a, kn), wl, xl, xl, k, i, j, kn, p);
            lemma_mat_sum_cong(imul(wv, b, kn), wr, xr, xr, k, i, j, kn, p);
            // The internal-node words split the same way.
            let nl = node_words(ring, a, b, *l, len + 1, 2 * bits);
            let nr = node_words(ring, a, b, *r, len + 1, 2 * bits + 1);
            lemma_mat_sum_add_left(madd(wv, nl, kk), nr, c, k, i, j, kn);
            lemma_mat_sum_add_left(wv, nl, c, k, i, j, kn);
            let ml = mat_sum(wl, xl, k, i, j, kn);
            let mr = mat_sum(wr, xr, k, i, j, kn);
            let ul = mat_sum(imul(wv, a, kn), xl, k, i, j, kn);
            let ur = mat_sum(imul(wv, b, kn), xr, k, i, j, kn);
            let cw = mat_sum(wv, c, k, i, j, kn);
            let cl = mat_sum(nl, c, k, i, j, kn);
            let cr = mat_sum(nr, c, k, i, j, kn);
            let fl = lf(ring, a, b, *l, len + 1, 2 * bits, xs, q);
            let fr = lf(ring, a, b, *r, len + 1, 2 * bits + 1, xs, q);
            // ul ≡ ml ≡ fl + cl, ur ≡ mr ≡ fr + cr.
            assert(ul % p == (fl + cl) % p);
            assert(ur % p == (fr + cr) % p);
            lemma_add_mod_noop(ul + ur, cw, p);
            lemma_add_mod_noop(ul, ur, p);
            lemma_add_mod_noop(fl + cl, fr + cr, p);
            lemma_add_mod_noop((fl + cl) + (fr + cr), cw, p);
            assert((fl + cl) + (fr + cr) + cw == (fl + fr) + (cw + cl + cr));
        },
    }
}

} // verus!

verus! {

/// The internal-node words are `Σ_w icoef(w) · word(w)`.
proof fn lemma_node_words_coef(ring: MatFp, a: Seq<int>, b: Seq<int>, t: Term, len: nat, bits: nat, q: int)
    requires
        len + depth(t) <= 4,
        bits < pow2(len),
        0 <= q < ring.k * ring.k,
    ensures
        node_words(ring, a, b, t, len, bits)[q] == fsum(|w: int| icoef(t, len, bits, w as nat) * word_val(&ring, a, b, w as nat)[q], 31),
    decreases t,
{
    let f = |w: int| icoef(t, len, bits, w as nat) * word_val(&ring, a, b, w as nat)[q];
    match t {
        Term::Var(x) => {
            assert forall|w: int| 0 <= w < 31 && w != -1 implies #[trigger] f(w) == 0 by {
            }
            lemma_fsum_single(f, -1, 31);
        },
        Term::Op(l, r) => {
            lemma2_to64();
            lemma_pow2_unfold(len + 1);
            if len < 3 {
                lemma_pow2_strictly_increases(len, 3);
            }
            let idx = spec_word_index(len, bits);
            assert(idx < 31);
            lemma_node_words_coef(ring, a, b, *l, len + 1, 2 * bits, q);
            lemma_node_words_coef(ring, a, b, *r, len + 1, 2 * bits + 1, q);
            let fl = |w: int| icoef(*l, len + 1, 2 * bits, w as nat) * word_val(&ring, a, b, w as nat)[q];
            let fr = |w: int| icoef(*r, len + 1, 2 * bits + 1, w as nat) * word_val(&ring, a, b, w as nat)[q];
            let fw = |w: int| (if w == idx { 1int } else { 0int }) * word_val(&ring, a, b, w as nat)[q];
            let lr = |w: int| fl(w) + fr(w);
            let all = |w: int| fw(w) + lr(w);
            assert forall|w: int| 0 <= w < 31 implies #[trigger] f(w) == all(w) by {
                let z = word_val(&ring, a, b, w as nat)[q];
                let e = if spec_word_index(len, bits) == w as nat { 1int } else { 0int };
                let (cl, cr) = (icoef(*l, len + 1, 2 * bits, w as nat), icoef(*r, len + 1, 2 * bits + 1, w as nat));
                assert(icoef(t, len, bits, w as nat) == e + cl + cr);
                assert((e + cl + cr) * z == e * z + (cl * z + cr * z)) by (nonlinear_arith);
            }
            lemma_fsum_ext(f, all, 31);
            lemma_fsum_add(fw, lr, 31);
            lemma_fsum_add(fl, fr, 31);
            assert forall|w: int| 0 <= w < 31 && w != idx implies #[trigger] fw(w) == 0 by {
            }
            lemma_fsum_single(fw, idx as int, 31);
            assert(fl =~= (|w: int| icoef(*l, len + 1, 2 * bits, w as nat) * word_val(&ring, a, b, w as nat)[q]));
            assert(fr =~= (|w: int| icoef(*r, len + 1, 2 * bits + 1, w as nat) * word_val(&ring, a, b, w as nat)[q]));
        },
    }
    assert(f =~= (|w: int| icoef(t, len, bits, w as nat) * word_val(&ring, a, b, w as nat)[q]));
}

/// The constant condition of an affine law over `M_k(F_p)`.
pub open spec fn matrix_const_vanishes(ring: MatFp, c: Seq<int>, d: LawDiff, ws: Seq<Seq<int>>) -> bool {
    ring.spec_is_zero(ring.spec_mul(comb(&ring, d.const_terms@, ws, d.const_terms@.len()), c))
}

/// The constant condition holds exactly when both sides' internal-node
/// words times `c` agree entrywise mod `p`.
proof fn lemma_const_check(ring: MatFp, a: Seq<int>, b: Seq<int>, c: Seq<int>, law: Law, d: LawDiff)
    requires
        ring.p >= 1,
        linear_law_ok(law),
        d.describes(law),
    ensures
        matrix_const_vanishes(ring, c, d, words_spec(&ring, a, b)) <==> forall|q: int|
            0 <= q < ring.k * ring.k ==> #[trigger] mat_sum(
                node_words(ring, a, b, law.lhs, 0, 0),
                c,
                ring.k as int,
                q / (ring.k as int),
                q % (ring.k as int),
                ring.k as nat,
            ) % (ring.p as int) == mat_sum(
                node_words(ring, a, b, law.rhs, 0, 0),
                c,
                ring.k as int,
                q / (ring.k as int),
                q % (ring.k as int),
                ring.k as nat,
            ) % (ring.p as int),
{
    let k = ring.k as int;
    let kn = ring.k as nat;
    let kk = (ring.k * ring.k) as nat;
    let p = ring.p as int;
    let words = words_spec(&ring, a, b);
    let cc = d.const_diff.c@;
    let t = d.const_terms@;
    let cm = comb(&ring, t, words, t.len());
    lemma_comb_len(ring, t, words, t.len());
    let nl = node_words(ring, a, b, law.lhs, 0, 0);
    let nr = node_words(ring, a, b, law.rhs, 0, 0);
    let dn = msub(nl, nr, kk);
    lemma2_to64();
    // The combination is the difference of the node words, entrywise.
    assert(mcong(cm, dn, kk, p)) by {
        assert forall|q: int| 0 <= q < kk implies #[trigger] cm[q] % p == #[trigger] dn[q] % p by {
            lemma_comb_sparse(ring, cc, a, b, 31, q);
            lemma_node_words_coef(ring, a, b, law.lhs, 0, 0, q);
            lemma_node_words_coef(ring, a, b, law.rhs, 0, 0, q);
            let fl = |w: int| icoef(law.lhs, 0, 0, w as nat) * word_val(&ring, a, b, w as nat)[q];
            let fr = |w: int| icoef(law.rhs, 0, 0, w as nat) * word_val(&ring, a, b, w as nat)[q];
            let fc = |w: int| cc[w] * word_val(&ring, a, b, w as nat)[q];
            let fd = |w: int| fl(w) - fr(w);
            assert forall|w: int| 0 <= w < 31 implies #[trigger] fc(w) == fd(w) by {
                assert(cc[w] == icoef(law.lhs, 0, 0, w as nat) - icoef(law.rhs, 0, 0, w as nat));
                let z = word_val(&ring, a, b, w as nat)[q];
                let (x, y) = (icoef(law.lhs, 0, 0, w as nat), icoef(law.rhs, 0, 0, w as nat));
                assert((x - y) * z == x * z - y * z) by (nonlinear_arith);
            }
            lemma_fsum_ext(fc, fd, 31);
            lemma_fsum_sub(fl, fr, 31);
        }
    }
    assert(mcong(c, c, kk, p));
    let prod = ring.spec_mul(cm, c);
    assert forall|q: int| 0 <= q < kk implies #[trigger] prod[q] % p == (mat_sum(nl, c, k, q / k, q % k, kn) - mat_sum(nr, c, k, q / k, q % k, kn)) % p by {
        lemma_split(q, k);
        lemma_mat_sum_cong(cm, dn, c, c, k, q / k, q % k, kn, p);
        lemma_mat_sum_sub_left(nl, nr, c, k, q / k, q % k, kn);
        lemma_mod_twice(mat_sum(cm, c, k, q / k, q % k, kn), p);
    }
    if matrix_const_vanishes(ring, c, d, words) {
        assert forall|q: int| 0 <= q < kk implies #[trigger] mat_sum(nl, c, k, q / k, q % k, kn) % p == mat_sum(nr, c, k, q / k, q % k, kn) % p by {
            assert(prod[q] % p == 0);
            lemma_cong_diff(mat_sum(nl, c, k, q / k, q % k, kn), mat_sum(nr, c, k, q / k, q % k, kn), p);
        }
    }
    if forall|q: int| 0 <= q < kk ==> #[trigger] mat_sum(nl, c, k, q / k, q % k, kn) % p == mat_sum(nr, c, k, q / k, q % k, kn) % p {
        assert forall|q: int| 0 <= q < prod.len() implies #[trigger] prod[q] % p == 0 by {
            assert(mat_sum(nl, c, k, q / k, q % k, kn) % p == mat_sum(nr, c, k, q / k, q % k, kn) % p);
            lemma_cong_diff(mat_sum(nl, c, k, q / k, q % k, kn), mat_sum(nr, c, k, q / k, q % k, kn), p);
        }
    }
}

/// At the root the value of a side is its affine form, reduced.
proof fn lemma_root_value_affine(
    ring: MatFp,
    a: Seq<int>,
    b: Seq<int>,
    c: Seq<int>,
    elements: Seq<Vec<u64>>,
    table: Seq<u8>,
    t: Term,
    vals: Seq<u8>,
    q: int,
)
    requires
        ring.p >= 1,
        0 <= q < ring.k * ring.k,
        c.len() == ring.k * ring.k,
        enumerates(ring, elements),
        is_affine_matrix_table(ring, a, b, c, elements, table),
        vars_below(t, vals.len()),
        forall|j: int| 0 <= j < vals.len() ==> vals[j] < elements.len(),
    ensures
        eval_term(t, table, elements.len(), vals) < elements.len(),
        ring.view_of(elements[eval_term(t, table, elements.len(), vals) as int])[q] == (lf(
            ring,
            a,
            b,
            t,
            0,
            0,
            assigned(ring, elements, vals),
            q,
        ) + mat_sum(node_words(ring, a, b, t, 0, 0), c, ring.k as int, q / (ring.k as int), q % (ring.k as int), ring.k as nat))
            % (ring.p as int),
{
    let k = ring.k as int;
    let p = ring.p as int;
    lemma_affine_table_in_range(ring, a, b, c, elements, table);
    lemma_eval_in_carrier(t, table, elements.len(), vals);
    let e = eval_term(t, table, elements.len(), vals) as int;
    let v = ring.view_of(elements[e]);
    assert(canonical(ring, v));
    lemma_eval_lf_affine(ring, a, b, c, elements, table, t, 0, 0, vals, q);
    lemma2_to64();
    assert(spec_word_index(0, 0) == 0);
    lemma_split(q, k);
    lemma_one_left(ring, v, q / k, q % k);
    lemma_mul_mod_noop_left(1, v[q], p);
    lemma_small_mod(v[q] as nat, p as nat);
}

} // verus!

verus! {

/// The affine decision agrees with the table over `M_k(F_p)`: for
/// `x ◇ y = ax + by + c` on an enumeration of all `k x k` matrices over
/// `F_p`, a law's difference polynomials vanish at the word values and its
/// constant condition holds exactly when the law holds in the
/// multiplication table.
pub proof fn lemma_affine_matrix_decision_matches_table(
    ring: MatFp,
    a: Seq<int>,
    b: Seq<int>,
    c: Seq<int>,
    elements: Seq<Vec<u64>>,
    law: Law,
    d: LawDiff,
    table: Seq<u8>,
)
    requires
        ring.p >= 1,
        c.len() == ring.k * ring.k,
        linear_law_ok(law),
        d.describes(law),
        elements.len() <= 256,
        enumerates(ring, elements),
        is_affine_matrix_table(ring, a, b, c, elements, table),
    ensures
        (law_vanishes(&ring, d.terms@, words_spec(&ring, a, b)) && matrix_const_vanishes(
            ring,
            c,
            d,
            words_spec(&ring, a, b),
        )) <==> law.holds_in(table, elements.len()),
{
    let k = ring.k as int;
    let kn = ring.k as nat;
    let kk = (ring.k * ring.k) as nat;
    let p = ring.p as int;
    let n = elements.len();
    let ar = law.arity as nat;
    let words = words_spec(&ring, a, b);
    let ll = |v: int| leaf_words(ring, a, b, law.lhs, 0, 0, v as nat);
    let lr = |v: int| leaf_words(ring, a, b, law.rhs, 0, 0, v as nat);
    let ccl = |q: int| mat_sum(node_words(ring, a, b, law.lhs, 0, 0), c, k, q / k, q % k, kn);
    let ccr = |q: int| mat_sum(node_words(ring, a, b, law.rhs, 0, 0), c, k, q / k, q % k, kn);
    lemma_const_check(ring, a, b, c, law, d);
    if law_vanishes(&ring, d.terms@, words) && matrix_const_vanishes(ring, c, d, words) {
        assert forall|vals: Seq<u8>| is_assignment(vals, ar, n) implies #[trigger] eval_term(law.lhs, table, n, vals)
            == eval_term(law.rhs, table, n, vals) by {
            let xs = assigned(ring, elements, vals);
            let el = eval_term(law.lhs, table, n, vals) as int;
            let er = eval_term(law.rhs, table, n, vals) as int;
            let vl = ring.view_of(elements[el]);
            let vr = ring.view_of(elements[er]);
            assert forall|q: int| 0 <= q < kk implies #[trigger] vl[q] == vr[q] by {
                lemma_root_value_affine(ring, a, b, c, elements, table, law.lhs, vals, q);
                lemma_root_value_affine(ring, a, b, c, elements, table, law.rhs, vals, q);
                lemma_lf_split(ring, a, b, law.lhs, 0, 0, xs, q);
                lemma_lf_split(ring, a, b, law.rhs, 0, 0, xs, q);
                lemma_split(q, k);
                let (i, j) = (q / k, q % k);
                let fl = |v: int| mat_sum(ll(v), xs[v], k, i, j, kn);
                let fr = |v: int| mat_sum(lr(v), xs[v], k, i, j, kn);
                assert forall|v: int| 0 <= v < ar implies #[trigger] fl(v) % p == fr(v) % p by {
                    assert(terms_vanish(&ring, d.terms@[v]@, words));
                    lemma_check_is_leaf_words(ring, a, b, law, d, v);
                    assert(mcong(xs[v], xs[v], kk, p));
                    lemma_mat_sum_cong(ll(v), lr(v), xs[v], xs[v], k, i, j, kn, p);
                }
                lemma_fsum_cong(fl, fr, ar, p);
                assert(fl =~= (|v: int| mat_sum(leaf_words(ring, a, b, law.lhs, 0, 0, v as nat), xs[v], ring.k as int, q / (ring.k as int), q % (ring.k as int), ring.k as nat)));
                assert(fr =~= (|v: int| mat_sum(leaf_words(ring, a, b, law.rhs, 0, 0, v as nat), xs[v], ring.k as int, q / (ring.k as int), q % (ring.k as int), ring.k as nat)));
                let (lfl, lfr) = (lf(ring, a, b, law.lhs, 0, 0, xs, q), lf(ring, a, b, law.rhs, 0, 0, xs, q));
                assert(ccl(q) % p == ccr(q) % p);
                lemma_add_mod_noop(lfl, ccl(q), p);
                lemma_add_mod_noop(lfr, ccr(q), p);
            }
            lemma_affine_table_in_range(ring, a, b, c, elements, table);
            lemma_eval_in_carrier(law.lhs, table, n, vals);
            lemma_eval_in_carrier(law.rhs, table, n, vals);
            assert(canonical(ring, vl));
            assert(canonical(ring, vr));
            assert(vl =~= vr);
        }
    }
    if law.holds_in(table, n) {
        let one = ring.spec_one();
        let zero = mzero(kk);
        assert(canonical(ring, one)) by {
            assert forall|q: int| 0 <= q < one.len() implies 0 <= #[trigger] one[q] < ring.p by {
                lemma_mod_bound(1, p);
            }
        }
        assert(canonical(ring, zero));
        assert(listed(&ring, elements, one));
        assert(listed(&ring, elements, zero));
        let i1 = choose|e: int| 0 <= e < n && ring.view_of(elements[e]) == one;
        let i0 = choose|e: int| 0 <= e < n && ring.view_of(elements[e]) == zero;
        // All variables at zero: the constant parts agree.
        let vals0 = Seq::new(ar, |u: int| i0 as u8);
        assert(is_assignment(vals0, ar, n));
        let xs0 = assigned(ring, elements, vals0);
        assert(eval_term(law.lhs, table, n, vals0) == eval_term(law.rhs, table, n, vals0));
        assert forall|q: int| 0 <= q < kk implies #[trigger] ccl(q) % p == ccr(q) % p by {
            lemma_root_value_affine(ring, a, b, c, elements, table, law.lhs, vals0, q);
            lemma_root_value_affine(ring, a, b, c, elements, table, law.rhs, vals0, q);
            lemma_lf_split(ring, a, b, law.lhs, 0, 0, xs0, q);
            lemma_lf_split(ring, a, b, law.rhs, 0, 0, xs0, q);
            lemma_split(q, k);
            let (i, j) = (q / k, q % k);
            let fl = |u: int| mat_sum(ll(u), xs0[u], k, i, j, kn);
            let fr = |u: int| mat_sum(lr(u), xs0[u], k, i, j, kn);
            assert forall|u: int| 0 <= u < ar && u != -1 implies #[trigger] fl(u) == 0 by {
                assert(xs0[u] == zero);
                lemma_mat_sum_zero(ll(u), k, i, j, kn);
            }
            assert forall|u: int| 0 <= u < ar && u != -1 implies #[trigger] fr(u) == 0 by {
                assert(xs0[u] == zero);
                lemma_mat_sum_zero(lr(u), k, i, j, kn);
            }
            lemma_fsum_single(fl, -1, ar);
            lemma_fsum_single(fr, -1, ar);
            assert(fl =~= (|u: int| mat_sum(leaf_words(ring, a, b, law.lhs, 0, 0, u as nat), xs0[u], ring.k as int, q / (ring.k as int), q % (ring.k as int), ring.k as nat)));
            assert(fr =~= (|u: int| mat_sum(leaf_words(ring, a, b, law.rhs, 0, 0, u as nat), xs0[u], ring.k as int, q / (ring.k as int), q % (ring.k as int), ring.k as nat)));
        }
        assert forall|q: int| 0 <= q < kk implies #[trigger] mat_sum(
            node_words(ring, a, b, law.lhs, 0, 0),
            c,
            ring.k as int,
            q / (ring.k as int),
            q % (ring.k as int),
            ring.k as nat,
        ) % (ring.p as int) == mat_sum(
            node_words(ring, a, b, law.rhs, 0, 0),
            c,
            ring.k as int,
            q / (ring.k as int),
            q % (ring.k as int),
            ring.k as nat,
        ) % (ring.p as int) by {
            assert(ccl(q) % p == ccr(q) % p);
        }
        assert(matrix_const_vanishes(ring, c, d, words));
        assert forall|v: int| 0 <= v < d.terms@.len() implies terms_vanish(&ring, (#[trigger] d.terms@[v])@, words) by {
            let vals = Seq::new(ar, |u: int| if u == v { i1 as u8 } else { i0 as u8 });
            assert(is_assignment(vals, ar, n));
            let xs = assigned(ring, elements, vals);
            assert(eval_term(law.lhs, table, n, vals) == eval_term(law.rhs, table, n, vals));
            assert forall|q: int| #![trigger ll(v)[q]] #![trigger lr(v)[q]] 0 <= q < kk implies ll(v)[q] % p == lr(v)[q] % p by {
                lemma_root_value_affine(ring, a, b, c, elements, table, law.lhs, vals, q);
                lemma_root_value_affine(ring, a, b, c, elements, table, law.rhs, vals, q);
                lemma_lf_split(ring, a, b, law.lhs, 0, 0, xs, q);
                lemma_lf_split(ring, a, b, law.rhs, 0, 0, xs, q);
                lemma_split(q, k);
                let (i, j) = (q / k, q % k);
                assert(i * k + j == q);
                let fl = |u: int| mat_sum(ll(u), xs[u], k, i, j, kn);
                let fr = |u: int| mat_sum(lr(u), xs[u], k, i, j, kn);
                assert forall|u: int| 0 <= u < ar && u != v implies #[trigger] fl(u) == 0 by {
                    assert(xs[u] == zero);
                    lemma_mat_sum_zero(ll(u), k, i, j, kn);
                }
                assert forall|u: int| 0 <= u < ar && u != v implies #[trigger] fr(u) == 0 by {
                    assert(xs[u] == zero);
                    lemma_mat_sum_zero(lr(u), k, i, j, kn);
                }
                lemma_fsum_single(fl, v, ar);
                lemma_fsum_single(fr, v, ar);
                assert(xs[v] == one);
                lemma_one_right(ring, ll(v), i, j);
                lemma_one_right(ring, lr(v), i, j);
                assert(fl =~= (|u: int| mat_sum(leaf_words(ring, a, b, law.lhs, 0, 0, u as nat), xs[u], ring.k as int, q / (ring.k as int), q % (ring.k as int), ring.k as nat)));
                assert(fr =~= (|u: int| mat_sum(leaf_words(ring, a, b, law.rhs, 0, 0, u as nat), xs[u], ring.k as int, q / (ring.k as int), q % (ring.k as int), ring.k as nat)));
                let (xl, xr) = (ll(v)[q] * (1int % p), lr(v)[q] * (1int % p));
                assert(ccl(q) % p == ccr(q) % p);
                // (xl + ccl) ≡ (xr + ccr) and ccl ≡ ccr, so xl ≡ xr.
                lemma_add_mod_noop(xl, ccl(q), p);
                lemma_add_mod_noop(xr, ccr(q), p);
                lemma_mod_twice(xl + ccl(q), p);
                lemma_mod_twice(xr + ccr(q), p);
                assert((xl % p + ccl(q) % p) % p == (xr % p + ccr(q) % p) % p);
                lemma_mod_bound(xl, p);
                lemma_mod_bound(xr, p);
                lemma_mod_bound(ccl(q), p);
                lemma_add_mod_noop(xl % p, ccl(q) % p, p);
                lemma_cong_diff(xl % p + ccl(q) % p, xr % p + ccr(q) % p, p);
                lemma_cong_diff(xl, xr, p);
                lemma_sub_mod_noop(xl % p + ccl(q) % p, xr % p + ccr(q) % p, p);
                lemma_sub_mod_noop(xl, xr, p);
                lemma_mod_twice(xl, p);
                lemma_mod_twice(xr, p);
                assert((xl % p + ccl(q) % p) - (xr % p + ccr(q) % p) == xl % p - xr % p);
                lemma_mul_mod_noop_right(ll(v)[q], 1, p);
                lemma_mul_mod_noop_right(lr(v)[q], 1, p);
            }
            lemma_check_is_leaf_words(ring, a, b, law, d, v);
        }
    }
}

} // verus!
