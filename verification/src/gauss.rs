//! Gauss–Jordan elimination over `F_m` on a flat augmented matrix of `neq`
//! rows and `w = nv + 1` columns, the last column being the right-hand side.

use crate::ext::{inv_mod, is_prime_spec};
use vstd::arithmetic::div_mod::*;
use vstd::prelude::*;

verus! {

/// Row `i` of a flat matrix with rows of `w` entries.
pub open spec fn row(a: Seq<u32>, w: nat, i: int) -> Seq<u32> {
    a.subrange(i * w, i * w + w)
}

/// Entry `(i, q)` of a flat matrix with rows of `w` entries.
pub open spec fn cell(a: Seq<u32>, w: nat, i: int, q: int) -> u32 {
    a[i * w + q]
}

/// `Σ_{j < n} r[j] · x[j]`.
pub open spec fn rdot(r: Seq<u32>, x: Seq<u32>, n: nat) -> int
    decreases n,
{
    if n == 0 {
        0
    } else {
        rdot(r, x, (n - 1) as nat) + r[n - 1] * x[n - 1]
    }
}

/// `x` satisfies the equation of row `r`: `Σ r[j] x[j] ≡ r[nv] (mod m)`.
pub open spec fn row_ok(r: Seq<u32>, nv: nat, x: Seq<u32>, m: int) -> bool {
    (rdot(r, x, nv) - r[nv as int]) % m == 0
}

/// `x` satisfies every equation of the system.
pub open spec fn solves(a: Seq<u32>, w: nat, nv: nat, neq: nat, x: Seq<u32>, m: int) -> bool {
    forall|i: int| 0 <= i < neq ==> #[trigger] row_ok(row(a, w, i), nv, x, m)
}

/// Rows `i` and `r` of a flat matrix do not overlap.
proof fn lemma_rows_apart(i: int, r: int, w: int)
    requires
        0 <= i,
        0 <= r,
        i != r,
        w >= 0,
    ensures
        i * w + w <= r * w || r * w + w <= i * w,
{
    if i < r {
        assert(i * w + w <= r * w) by (nonlinear_arith)
            requires
                i < r,
                w >= 0,
        ;
    } else {
        assert(r * w + w <= i * w) by (nonlinear_arith)
            requires
                r < i,
                w >= 0,
        ;
    }
}

proof fn lemma_row_in(i: int, q: int, w: int, neq: int)
    requires
        0 <= i < neq,
        0 <= q < w,
    ensures
        0 <= i * w + q < neq * w,
        i * w <= i * w + q < i * w + w,
{
    assert(0 <= i * w + q < neq * w) by (nonlinear_arith)
        requires
            0 <= i < neq,
            0 <= q < w,
    ;
    assert(0 <= i * w) by (nonlinear_arith)
        requires
            0 <= i,
            0 <= q < w,
    ;
}

proof fn lemma_row_fits(i: int, w: int, neq: int)
    requires
        0 <= i < neq,
        w >= 0,
    ensures
        0 <= i * w,
        i * w + w <= neq * w,
{
    assert(0 <= i * w && i * w + w <= neq * w) by (nonlinear_arith)
        requires
            0 <= i < neq,
            w >= 0,
    ;
}

/// Exchange rows `r` and `pr`.
pub(crate) fn swap_rows(a: &mut Vec<u32>, w: usize, neq: usize, r: usize, pr: usize)
    requires
        r < neq,
        pr < neq,
        old(a)@.len() == neq * w,
        neq * w <= usize::MAX,
    ensures
        final(a)@.len() == old(a)@.len(),
        forall|i: int|
            0 <= i < neq ==> #[trigger] row(final(a)@, w as nat, i) == row(
                old(a)@,
                w as nat,
                if i == r {
                    pr as int
                } else if i == pr {
                    r as int
                } else {
                    i
                },
            ),
{
    let ghost a0 = a@;
    let mut q: usize = 0;
    while q < w
        invariant
            r < neq,
            pr < neq,
            a0.len() == neq * w,
            neq * w <= usize::MAX,
            a@.len() == a0.len(),
            q <= w,
            forall|q2: int|
                0 <= q2 < q ==> #[trigger] cell(a@, w as nat, r as int, q2) == cell(a0, w as nat, pr as int, q2)
                    && cell(a@, w as nat, pr as int, q2) == cell(a0, w as nat, r as int, q2),
            forall|q2: int|
                q <= q2 < w ==> #[trigger] cell(a@, w as nat, r as int, q2) == cell(a0, w as nat, r as int, q2)
                    && cell(a@, w as nat, pr as int, q2) == cell(a0, w as nat, pr as int, q2),
            forall|idx: int|
                0 <= idx < a@.len() && !(r * w <= idx < r * w + w) && !(pr * w <= idx < pr * w + w) ==> a@[idx]
                    == a0[idx],
        decreases w - q,
    {
        proof {
            lemma_row_in(r as int, q as int, w as int, neq as int);
            lemma_row_in(pr as int, q as int, w as int, neq as int);
        }
        let ghost prev = a@;
        let t = a[r * w + q];
        let u = a[pr * w + q];
        a.set(r * w + q, u);
        a.set(pr * w + q, t);
        proof {
            let (ri, pri, wn) = (r as int, pr as int, w as nat);
            if r != pr {
                lemma_rows_apart(ri, pri, w as int);
            }
            assert forall|q2: int| 0 <= q2 < q + 1 implies #[trigger] cell(a@, wn, ri, q2) == cell(a0, wn, pri, q2)
                && cell(a@, wn, pri, q2) == cell(a0, wn, ri, q2) by {
                lemma_row_in(ri, q2, w as int, neq as int);
                lemma_row_in(pri, q2, w as int, neq as int);
                if q2 < q {
                    assert(cell(prev, wn, ri, q2) == cell(a0, wn, pri, q2));
                    assert(cell(prev, wn, pri, q2) == cell(a0, wn, ri, q2));
                } else {
                    assert(cell(prev, wn, ri, q2) == cell(a0, wn, ri, q2));
                    assert(cell(prev, wn, pri, q2) == cell(a0, wn, pri, q2));
                }
            }
            assert forall|q2: int| q + 1 <= q2 < w implies #[trigger] cell(a@, wn, ri, q2) == cell(a0, wn, ri, q2)
                && cell(a@, wn, pri, q2) == cell(a0, wn, pri, q2) by {
                lemma_row_in(ri, q2, w as int, neq as int);
                lemma_row_in(pri, q2, w as int, neq as int);
                assert(cell(prev, wn, ri, q2) == cell(a0, wn, ri, q2));
                assert(cell(prev, wn, pri, q2) == cell(a0, wn, pri, q2));
            }
        }
        q = q + 1;
    }
    proof {
        assert forall|i: int| 0 <= i < neq implies #[trigger] row(a@, w as nat, i) == row(
            a0,
            w as nat,
            if i == r {
                pr as int
            } else if i == pr {
                r as int
            } else {
                i
            },
        ) by {
            let src = if i == r {
                pr as int
            } else if i == pr {
                r as int
            } else {
                i
            };
            lemma_row_fits(i, w as int, neq as int);
            lemma_row_fits(src, w as int, neq as int);
            assert forall|q2: int| 0 <= q2 < w implies #[trigger] row(a@, w as nat, i)[q2] == row(a0, w as nat, src)[q2] by {
                lemma_row_in(i, q2, w as int, neq as int);
                lemma_row_in(src, q2, w as int, neq as int);
                if i == r {
                    assert(cell(a@, w as nat, r as int, q2) == cell(a0, w as nat, pr as int, q2));
                } else if i == pr {
                    assert(cell(a@, w as nat, r as int, q2) == cell(a0, w as nat, pr as int, q2));
                    assert(cell(a@, w as nat, pr as int, q2) == cell(a0, w as nat, r as int, q2));
                } else {
                    lemma_rows_apart(i, r as int, w as int);
                    lemma_rows_apart(i, pr as int, w as int);
                    assert(a@[i * w + q2] == a0[i * w + q2]);
                }
            }
            assert(row(a@, w as nat, i) =~= row(a0, w as nat, src));
        }
    }
}

} // verus!

verus! {

/// Multiply row `r` by `s`, reducing mod `m`.
pub(crate) fn scale_row(a: &mut Vec<u32>, w: usize, neq: usize, r: usize, s: u32, m: u32)
    requires
        r < neq,
        old(a)@.len() == neq * w,
        neq * w <= usize::MAX,
        1 <= m,
        s < m,
        (m - 1) * (m - 1) <= u32::MAX,
        forall|idx: int| 0 <= idx < old(a)@.len() ==> #[trigger] old(a)@[idx] < m,
    ensures
        final(a)@.len() == old(a)@.len(),
        forall|idx: int| 0 <= idx < final(a)@.len() ==> #[trigger] final(a)@[idx] < m,
        forall|q: int| 0 <= q < w ==> #[trigger] row(final(a)@, w as nat, r as int)[q] == (row(old(a)@, w as nat, r as int)[q] * s) % (m as int),
        forall|i: int| 0 <= i < neq && i != r ==> #[trigger] row(final(a)@, w as nat, i) == row(old(a)@, w as nat, i),
{
    let ghost a0 = a@;
    let mut q: usize = 0;
    while q < w
        invariant
            r < neq,
            a0.len() == neq * w,
            neq * w <= usize::MAX,
            a@.len() == a0.len(),
            1 <= m,
            s < m,
            (m - 1) * (m - 1) <= u32::MAX,
            q <= w,
            forall|idx: int| 0 <= idx < a0.len() ==> #[trigger] a0[idx] < m,
            forall|idx: int| 0 <= idx < a@.len() ==> #[trigger] a@[idx] < m,
            forall|q2: int| 0 <= q2 < q ==> #[trigger] cell(a@, w as nat, r as int, q2) == (cell(a0, w as nat, r as int, q2) * s) % (m as int),
            forall|q2: int| q <= q2 < w ==> #[trigger] cell(a@, w as nat, r as int, q2) == cell(a0, w as nat, r as int, q2),
            forall|idx: int| 0 <= idx < a@.len() && !(r * w <= idx < r * w + w) ==> a@[idx] == a0[idx],
        decreases w - q,
    {
        proof {
            lemma_row_in(r as int, q as int, w as int, neq as int);
        }
        let ghost prev = a@;
        let v = a[r * w + q];
        proof {
            assert(v * s <= (m - 1) * (m - 1)) by (nonlinear_arith)
                requires
                    v <= m - 1,
                    s <= m - 1,
            ;
        }
        a.set(r * w + q, v * s % m);
        proof {
            let (ri, wn) = (r as int, w as nat);
            assert forall|q2: int| 0 <= q2 < q + 1 implies #[trigger] cell(a@, wn, ri, q2) == (cell(a0, wn, ri, q2) * s) % (m as int) by {
                lemma_row_in(ri, q2, w as int, neq as int);
                if q2 < q {
                    assert(cell(prev, wn, ri, q2) == (cell(a0, wn, ri, q2) * s) % (m as int));
                } else {
                    assert(cell(prev, wn, ri, q2) == cell(a0, wn, ri, q2));
                }
            }
            assert forall|q2: int| q + 1 <= q2 < w implies #[trigger] cell(a@, wn, ri, q2) == cell(a0, wn, ri, q2) by {
                lemma_row_in(ri, q2, w as int, neq as int);
                assert(cell(prev, wn, ri, q2) == cell(a0, wn, ri, q2));
            }
        }
        q = q + 1;
    }
    proof {
        let (ri, wn) = (r as int, w as nat);
        lemma_row_fits(ri, w as int, neq as int);
        assert forall|q2: int| 0 <= q2 < w implies #[trigger] row(a@, wn, ri)[q2] == (row(a0, wn, ri)[q2] * s) % (m as int) by {
            assert(cell(a@, wn, ri, q2) == (cell(a0, wn, ri, q2) * s) % (m as int));
        }
        assert forall|i: int| 0 <= i < neq && i != r implies #[trigger] row(a@, wn, i) == row(a0, wn, i) by {
            lemma_row_fits(i, w as int, neq as int);
            lemma_rows_apart(i, ri, w as int);
            assert(row(a@, wn, i) =~= row(a0, wn, i));
        }
    }
}

/// Subtract `f` times row `r` from row `i`, reducing mod `m`.
pub(crate) fn eliminate_row(a: &mut Vec<u32>, w: usize, neq: usize, i: usize, r: usize, f: u32, m: u32)
    requires
        r < neq,
        i < neq,
        i != r,
        old(a)@.len() == neq * w,
        neq * w <= usize::MAX,
        1 <= m,
        f < m,
        (m - 1) * (m - 1) <= u32::MAX,
        forall|idx: int| 0 <= idx < old(a)@.len() ==> #[trigger] old(a)@[idx] < m,
    ensures
        final(a)@.len() == old(a)@.len(),
        forall|idx: int| 0 <= idx < final(a)@.len() ==> #[trigger] final(a)@[idx] < m,
        forall|q: int|
            0 <= q < w ==> #[trigger] row(final(a)@, w as nat, i as int)[q] == (row(old(a)@, w as nat, i as int)[q] + m
                - (f * row(old(a)@, w as nat, r as int)[q]) % (m as int)) % (m as int),
        forall|t: int| 0 <= t < neq && t != i ==> #[trigger] row(final(a)@, w as nat, t) == row(old(a)@, w as nat, t),
{
    let ghost a0 = a@;
    let mut q: usize = 0;
    while q < w
        invariant
            r < neq,
            i < neq,
            i != r,
            a0.len() == neq * w,
            neq * w <= usize::MAX,
            a@.len() == a0.len(),
            1 <= m,
            f < m,
            (m - 1) * (m - 1) <= u32::MAX,
            q <= w,
            forall|idx: int| 0 <= idx < a0.len() ==> #[trigger] a0[idx] < m,
            forall|idx: int| 0 <= idx < a@.len() ==> #[trigger] a@[idx] < m,
            forall|q2: int|
                0 <= q2 < q ==> #[trigger] cell(a@, w as nat, i as int, q2) == (cell(a0, w as nat, i as int, q2) + m - (f
                    * cell(a0, w as nat, r as int, q2)) % (m as int)) % (m as int),
            forall|q2: int| q <= q2 < w ==> #[trigger] cell(a@, w as nat, i as int, q2) == cell(a0, w as nat, i as int, q2),
            forall|idx: int| 0 <= idx < a@.len() && !(i * w <= idx < i * w + w) ==> a@[idx] == a0[idx],
        decreases w - q,
    {
        proof {
            lemma_row_in(r as int, q as int, w as int, neq as int);
            lemma_row_in(i as int, q as int, w as int, neq as int);
            lemma_rows_apart(i as int, r as int, w as int);
        }
        let ghost prev = a@;
        let prj = a[r * w + q];
        let aij = a[i * w + q];
        proof {
            assert(f * prj <= (m - 1) * (m - 1)) by (nonlinear_arith)
                requires
                    f <= m - 1,
                    prj <= m - 1,
            ;
            assert(prj == cell(a0, w as nat, r as int, q as int));
            assert(aij < m);
            assert(m <= 65536) by (nonlinear_arith)
                requires
                    (m - 1) * (m - 1) <= u32::MAX,
                    m >= 1,
            ;
        }
        a.set(i * w + q, (aij + m - f * prj % m) % m);
        proof {
            let (ii, ri, wn) = (i as int, r as int, w as nat);
            assert forall|q2: int| 0 <= q2 < q + 1 implies #[trigger] cell(a@, wn, ii, q2) == (cell(a0, wn, ii, q2) + m - (f
                * cell(a0, wn, ri, q2)) % (m as int)) % (m as int) by {
                lemma_row_in(ii, q2, w as int, neq as int);
                if q2 < q {
                    assert(cell(prev, wn, ii, q2) == (cell(a0, wn, ii, q2) + m - (f * cell(a0, wn, ri, q2)) % (m as int))
                        % (m as int));
                } else {
                    assert(cell(prev, wn, ii, q2) == cell(a0, wn, ii, q2));
                }
            }
            assert forall|q2: int| q + 1 <= q2 < w implies #[trigger] cell(a@, wn, ii, q2) == cell(a0, wn, ii, q2) by {
                lemma_row_in(ii, q2, w as int, neq as int);
                assert(cell(prev, wn, ii, q2) == cell(a0, wn, ii, q2));
            }
        }
        q = q + 1;
    }
    proof {
        let (ii, ri, wn) = (i as int, r as int, w as nat);
        lemma_row_fits(ii, w as int, neq as int);
        lemma_row_fits(ri, w as int, neq as int);
        assert forall|q2: int| 0 <= q2 < w implies #[trigger] row(a@, wn, ii)[q2] == (row(a0, wn, ii)[q2] + m - (f * row(
            a0,
            wn,
            ri,
        )[q2]) % (m as int)) % (m as int) by {
            assert(cell(a@, wn, ii, q2) == (cell(a0, wn, ii, q2) + m - (f * cell(a0, wn, ri, q2)) % (m as int)) % (m as int));
        }
        assert forall|t: int| 0 <= t < neq && t != i implies #[trigger] row(a@, wn, t) == row(a0, wn, t) by {
            lemma_row_fits(t, w as int, neq as int);
            lemma_rows_apart(t, ii, w as int);
            assert(row(a@, wn, t) =~= row(a0, wn, t));
        }
    }
}

} // verus!

verus! {

proof fn lemma_rdot_scale(r1: Seq<u32>, r2: Seq<u32>, x: Seq<u32>, n: nat, s: int, m: int)
    requires
        m >= 1,
        forall|j: int| 0 <= j < n ==> #[trigger] r2[j] == (r1[j] * s) % m,
    ensures
        rdot(r2, x, n) % m == (s * rdot(r1, x, n)) % m,
    decreases n,
{
    if n > 0 {
        let j = n - 1;
        lemma_rdot_scale(r1, r2, x, (n - 1) as nat, s, m);
        let (d1, d2) = (rdot(r1, x, (n - 1) as nat), rdot(r2, x, (n - 1) as nat));
        let (u, y) = (r1[j] as int, x[j] as int);
        lemma_mul_mod_noop_left(u * s, y, m);
        assert(r2[j] * y == ((u * s) % m) * y);
        lemma_add_mod_noop(d2, r2[j] * y, m);
        lemma_add_mod_noop(s * d1, (u * s) * y, m);
        lemma_mul_mod_noop_right(s, d1, m);
        assert(s * (d1 + u * y) == s * d1 + (u * s) * y) by (nonlinear_arith);
    }
}

/// `(u + m - (f v mod m)) mod m ≡ u - f v (mod m)`.
proof fn lemma_entry_elim(u: int, v: int, f: int, m: int)
    requires
        m >= 1,
    ensures
        ((u + m - (f * v) % m) % m) == (u - f * v) % m,
{
    lemma_mod_bound(f * v, m);
    lemma_sub_mod_noop(u + m, (f * v) % m, m);
    lemma_sub_mod_noop(u + m, f * v, m);
    lemma_mod_twice(f * v, m);
    lemma_mod_add_multiples_vanish(u - f * v, m);
    assert(u + m - f * v == m + (u - f * v));
}

proof fn lemma_rdot_elim(ri: Seq<u32>, rr: Seq<u32>, rn: Seq<u32>, x: Seq<u32>, n: nat, f: int, m: int)
    requires
        m >= 1,
        forall|j: int| 0 <= j < n ==> #[trigger] rn[j] == (ri[j] + m - (f * rr[j]) % m) % m,
    ensures
        rdot(rn, x, n) % m == (rdot(ri, x, n) - f * rdot(rr, x, n)) % m,
    decreases n,
{
    if n > 0 {
        let j = n - 1;
        lemma_rdot_elim(ri, rr, rn, x, (n - 1) as nat, f, m);
        let (di, dr, dn) = (rdot(ri, x, (n - 1) as nat), rdot(rr, x, (n - 1) as nat), rdot(rn, x, (n - 1) as nat));
        let (u, v, y) = (ri[j] as int, rr[j] as int, x[j] as int);
        // The new entry is congruent to u - f v.
        lemma_entry_elim(u, v, f, m);
        lemma_mul_mod_noop_left(rn[j] as int, y, m);
        lemma_mul_mod_noop_left(u - f * v, y, m);
        lemma_mod_twice(u - f * v, m);
        assert((rn[j] * y) % m == ((u - f * v) * y) % m);
        lemma_add_mod_noop(dn, rn[j] * y, m);
        lemma_add_mod_noop(di - f * dr, (u - f * v) * y, m);
        assert((di + u * y) - f * (dr + v * y) == (di - f * dr) + (u - f * v) * y) by (nonlinear_arith);
    }
}

/// Scaling a row by a unit keeps its solutions.
pub(crate) proof fn lemma_scale_sound(ro: Seq<u32>, rn: Seq<u32>, nv: nat, x: Seq<u32>, s: int, v: int, m: int)
    requires
        m >= 1,
        ro.len() > nv,
        rn.len() > nv,
        forall|j: int| 0 <= j <= nv ==> #[trigger] rn[j] == (ro[j] * s) % m,
        (v * s) % m == 1int % m,
        row_ok(rn, nv, x, m),
    ensures
        row_ok(ro, nv, x, m),
{
    lemma_rdot_scale(ro, rn, x, nv, s, m);
    let dot = rdot(ro, x, nv);
    let b = ro[nv as int] as int;
    let d = dot - b;
    // rn's residual is s times ro's.
    assert(rn[nv as int] == (b * s) % m);
    lemma_sub_mod_noop(rdot(rn, x, nv), rn[nv as int] as int, m);
    lemma_mod_twice(b * s, m);
    lemma_sub_mod_noop(s * dot, b * s, m);
    assert(s * dot - b * s == s * d) by (nonlinear_arith)
        requires
            d == dot - b,
    ;
    assert((s * d) % m == 0);
    // So v·s·d ≡ 0, and v·s ≡ 1.
    lemma_mul_mod_noop_right(v, s * d, m);
    assert(v * (s * d) == (v * s) * d) by (nonlinear_arith);
    lemma_mul_mod_noop_left(v * s, d, m);
    lemma_mul_mod_noop_left(1, d, m);
    assert(v * 0 == 0);
    lemma_small_mod(0, m as nat);
}

/// Subtracting a multiple of a satisfied row keeps a row's solutions.
pub(crate) proof fn lemma_elim_sound(ri: Seq<u32>, rr: Seq<u32>, rn: Seq<u32>, nv: nat, x: Seq<u32>, f: int, m: int)
    requires
        m >= 1,
        ri.len() > nv,
        rr.len() > nv,
        rn.len() > nv,
        forall|j: int| 0 <= j <= nv ==> #[trigger] rn[j] == (ri[j] + m - (f * rr[j]) % m) % m,
        row_ok(rn, nv, x, m),
        row_ok(rr, nv, x, m),
    ensures
        row_ok(ri, nv, x, m),
{
    lemma_rdot_elim(ri, rr, rn, x, nv, f, m);
    let (di, dr, dn) = (rdot(ri, x, nv), rdot(rr, x, nv), rdot(rn, x, nv));
    let (bi, br, bn) = (ri[nv as int] as int, rr[nv as int] as int, rn[nv as int] as int);
    lemma_entry_elim(bi, br, f, m);
    assert(bn % m == (bi - f * br) % m) by {
        lemma_mod_twice(bi - f * br, m);
        lemma_mod_bound(bi + m - (f * br) % m, m);
    }
    // (di - bi) ≡ (dn - bn) + f (dr - br).
    lemma_sub_mod_noop(dn, bn, m);
    lemma_sub_mod_noop(di - f * dr, bi - f * br, m);
    assert((di - f * dr) - (bi - f * br) == (di - bi) - f * (dr - br)) by (nonlinear_arith);
    lemma_mul_mod_noop_right(f, dr - br, m);
    assert(f * 0 == 0);
    lemma_small_mod(0, m as nat);
    lemma_sub_mod_noop(di - bi, f * (dr - br), m);
    lemma_add_mod_noop((di - bi) - f * (dr - br), f * (dr - br), m);
}

} // verus!

verus! {

/// Scaling a row keeps its solutions solutions.
pub(crate) proof fn lemma_scale_complete(ro: Seq<u32>, rn: Seq<u32>, nv: nat, x: Seq<u32>, s: int, m: int)
    requires
        m >= 1,
        forall|j: int| 0 <= j <= nv ==> #[trigger] rn[j] == (ro[j] * s) % m,
        row_ok(ro, nv, x, m),
    ensures
        row_ok(rn, nv, x, m),
{
    lemma_rdot_scale(ro, rn, x, nv, s, m);
    let dot = rdot(ro, x, nv);
    let b = ro[nv as int] as int;
    assert(rn[nv as int] == (b * s) % m);
    lemma_sub_mod_noop(rdot(rn, x, nv), rn[nv as int] as int, m);
    lemma_mod_twice(b * s, m);
    lemma_sub_mod_noop(s * dot, b * s, m);
    assert(s * dot - b * s == s * (dot - b)) by (nonlinear_arith);
    lemma_mul_mod_noop_right(s, dot - b, m);
    assert(s * 0 == 0);
    lemma_small_mod(0, m as nat);
}

/// Subtracting a multiple of a satisfied row from a satisfied row leaves a
/// satisfied row.
pub(crate) proof fn lemma_elim_complete(ri: Seq<u32>, rr: Seq<u32>, rn: Seq<u32>, nv: nat, x: Seq<u32>, f: int, m: int)
    requires
        m >= 1,
        forall|j: int| 0 <= j <= nv ==> #[trigger] rn[j] == (ri[j] + m - (f * rr[j]) % m) % m,
        row_ok(ri, nv, x, m),
        row_ok(rr, nv, x, m),
    ensures
        row_ok(rn, nv, x, m),
{
    lemma_rdot_elim(ri, rr, rn, x, nv, f, m);
    let (di, dr, dn) = (rdot(ri, x, nv), rdot(rr, x, nv), rdot(rn, x, nv));
    let (bi, br, bn) = (ri[nv as int] as int, rr[nv as int] as int, rn[nv as int] as int);
    lemma_entry_elim(bi, br, f, m);
    assert(bn % m == (bi - f * br) % m) by {
        lemma_mod_twice(bi - f * br, m);
        lemma_mod_bound(bi + m - (f * br) % m, m);
    }
    lemma_sub_mod_noop(dn, bn, m);
    lemma_sub_mod_noop(di - f * dr, bi - f * br, m);
    assert((di - f * dr) - (bi - f * br) == (di - bi) - f * (dr - br)) by (nonlinear_arith);
    lemma_mul_mod_noop_right(f, dr - br, m);
    assert(f * 0 == 0);
    lemma_small_mod(0, m as nat);
    lemma_sub_mod_noop(di - bi, f * (dr - br), m);
}

/// Pivot columns strictly increase and lie below `c`.
pub open spec fn pivots_ok(pv: Seq<usize>, c: nat) -> bool {
    &&& forall|t: int| 0 <= t < pv.len() ==> #[trigger] pv[t] < c
    &&& forall|t1: int, t2: int| 0 <= t1 < t2 < pv.len() ==> #[trigger] pv[t1] < #[trigger] pv[t2]
}

/// Column `c0` is in the list.
pub open spec fn has_col(pv: Seq<usize>, c0: int) -> bool {
    exists|t: int| 0 <= t < pv.len() && pv[t] == c0
}

/// The reduced shape after the columns below `c`: each pivot column is a
/// unit column with its one in the pivot's row, and below the pivot rows
/// every other processed column is zero.
pub open spec fn reduced(a: Seq<u32>, w: nat, neq: nat, pv: Seq<usize>, c: nat) -> bool {
    &&& forall|t: int| 0 <= t < pv.len() ==> #[trigger] cell(a, w, t, pv[t] as int) == 1
    &&& forall|t: int, i: int| 0 <= t < pv.len() && 0 <= i < neq && i != t ==> #[trigger] cell(a, w, i, pv[t] as int) == 0
    &&& forall|c0: int, i: int|
        0 <= c0 < c && !has_col(pv, c0) && pv.len() <= i < neq ==> #[trigger] cell(a, w, i, c0) == 0
}

/// `a` and `a0` have the same solutions.
pub open spec fn same_solutions(a: Seq<u32>, a0: Seq<u32>, w: nat, nv: nat, neq: nat, m: int) -> bool {
    forall|x: Seq<u32>| #[trigger] solves(a, w, nv, neq, x, m) <==> #[trigger] solves(a0, w, nv, neq, x, m)
}

/// Every entry is below `m`.
pub open spec fn entries_below(a: Seq<u32>, m: int) -> bool {
    forall|idx: int| 0 <= idx < a.len() ==> #[trigger] a[idx] < m
}

} // verus!

verus! {

pub(crate) proof fn lemma_row_cell(a: Seq<u32>, w: nat, neq: nat, i: int, q: int)
    requires
        a.len() == neq * w,
        0 <= i < neq,
        0 <= q < w,
    ensures
        row(a, w, i)[q] == cell(a, w, i, q),
        0 <= i * w + q < a.len(),
{
    lemma_row_fits(i, w as int, neq as int);
    lemma_row_in(i, q, w as int, neq as int);
}

/// Rows exchanged by an involution keep the solutions.
proof fn lemma_swap_sound(a_old: Seq<u32>, a_new: Seq<u32>, w: nat, nv: nat, neq: nat, r: int, pr: int, m: int)
    requires
        0 <= r < neq,
        0 <= pr < neq,
        forall|i: int|
            0 <= i < neq ==> #[trigger] row(a_new, w, i) == row(
                a_old,
                w,
                if i == r {
                    pr
                } else if i == pr {
                    r
                } else {
                    i
                },
            ),
    ensures
        same_solutions(a_new, a_old, w, nv, neq, m),
{
    assert forall|x: Seq<u32>| #[trigger] solves(a_new, w, nv, neq, x, m) implies solves(a_old, w, nv, neq, x, m) by {
        assert forall|i: int| 0 <= i < neq implies #[trigger] row_ok(row(a_old, w, i), nv, x, m) by {
            let j = if i == r {
                pr
            } else if i == pr {
                r
            } else {
                i
            };
            assert(row(a_new, w, j) == row(a_old, w, i));
            assert(row_ok(row(a_new, w, j), nv, x, m));
        }
    }
    assert forall|x: Seq<u32>| #[trigger] solves(a_old, w, nv, neq, x, m) implies solves(a_new, w, nv, neq, x, m) by {
        assert forall|i: int| 0 <= i < neq implies #[trigger] row_ok(row(a_new, w, i), nv, x, m) by {
            let j = if i == r {
                pr
            } else if i == pr {
                r
            } else {
                i
            };
            assert(row(a_new, w, i) == row(a_old, w, j));
            assert(row_ok(row(a_old, w, j), nv, x, m));
        }
    }
}

proof fn lemma_sound_trans(a2: Seq<u32>, a1: Seq<u32>, a0: Seq<u32>, w: nat, nv: nat, neq: nat, m: int)
    requires
        same_solutions(a2, a1, w, nv, neq, m),
        same_solutions(a1, a0, w, nv, neq, m),
    ensures
        same_solutions(a2, a0, w, nv, neq, m),
{
    assert forall|x: Seq<u32>| #[trigger] solves(a2, w, nv, neq, x, m) implies solves(a0, w, nv, neq, x, m) by {
        assert(solves(a1, w, nv, neq, x, m));
    }
    assert forall|x: Seq<u32>| #[trigger] solves(a0, w, nv, neq, x, m) implies solves(a2, w, nv, neq, x, m) by {
        assert(solves(a1, w, nv, neq, x, m));
    }
}

/// Exchanging two rows at or below the pivot rows keeps the reduced shape.
proof fn lemma_swap_keeps_reduced(a1: Seq<u32>, a2: Seq<u32>, w: nat, neq: nat, pv: Seq<usize>, c: nat, r: int, pr: int)
    requires
        r == pv.len(),
        r <= pr < neq,
        a1.len() == neq * w,
        a2.len() == neq * w,
        reduced(a1, w, neq, pv, c),
        forall|i: int|
            0 <= i < neq ==> #[trigger] row(a2, w, i) == row(
                a1,
                w,
                if i == r {
                    pr
                } else if i == pr {
                    r
                } else {
                    i
                },
            ),
        forall|t: int| 0 <= t < pv.len() ==> #[trigger] pv[t] < w,
        c <= w,
    ensures
        reduced(a2, w, neq, pv, c),
{
    assert forall|i: int, q: int| 0 <= i < neq && 0 <= q < w implies #[trigger] cell(a2, w, i, q) == cell(
        a1,
        w,
        if i == r {
            pr
        } else if i == pr {
            r
        } else {
            i
        },
        q,
    ) by {
        let src = if i == r {
            pr
        } else if i == pr {
            r
        } else {
            i
        };
        lemma_row_cell(a2, w, neq, i, q);
        lemma_row_cell(a1, w, neq, src, q);
        assert(row(a2, w, i) == row(a1, w, src));
    }
    assert forall|t: int| 0 <= t < pv.len() implies #[trigger] cell(a2, w, t, pv[t] as int) == 1 by {
        assert(cell(a2, w, t, pv[t] as int) == cell(a1, w, t, pv[t] as int));
    }
    assert forall|t: int, i: int| 0 <= t < pv.len() && 0 <= i < neq && i != t implies #[trigger] cell(a2, w, i, pv[t] as int) == 0 by {
        let src = if i == r {
            pr
        } else if i == pr {
            r
        } else {
            i
        };
        assert(cell(a2, w, i, pv[t] as int) == cell(a1, w, src, pv[t] as int));
    }
    assert forall|c0: int, i: int| 0 <= c0 < c && !has_col(pv, c0) && pv.len() <= i < neq implies #[trigger] cell(a2, w, i, c0) == 0 by {
        let src = if i == r {
            pr
        } else if i == pr {
            r
        } else {
            i
        };
        assert(cell(a2, w, i, c0) == cell(a1, w, src, c0));
    }
}

/// Scaling the first row below the pivot rows keeps the reduced shape.
proof fn lemma_scale_keeps_reduced(a2: Seq<u32>, a3: Seq<u32>, w: nat, neq: nat, pv: Seq<usize>, c: nat, r: int, s: int, m: int)
    requires
        r == pv.len(),
        r < neq,
        m >= 1,
        a2.len() == neq * w,
        a3.len() == neq * w,
        reduced(a2, w, neq, pv, c),
        forall|q: int| 0 <= q < w ==> #[trigger] row(a3, w, r)[q] == (row(a2, w, r)[q] * s) % m,
        forall|i: int| 0 <= i < neq && i != r ==> #[trigger] row(a3, w, i) == row(a2, w, i),
        forall|t: int| 0 <= t < pv.len() ==> #[trigger] pv[t] < w,
        c <= w,
    ensures
        reduced(a3, w, neq, pv, c),
{
    assert forall|i: int, q: int| 0 <= i < neq && 0 <= q < w && cell(a2, w, i, q) == 0 implies #[trigger] cell(a3, w, i, q) == 0 by {
        lemma_row_cell(a2, w, neq, i, q);
        lemma_row_cell(a3, w, neq, i, q);
        if i == r {
            assert(row(a3, w, r)[q] == (row(a2, w, r)[q] * s) % m);
            assert(0 * s == 0);
            lemma_small_mod(0, m as nat);
        } else {
            assert(row(a3, w, i) == row(a2, w, i));
        }
    }
    assert forall|i: int, q: int| 0 <= i < neq && 0 <= q < w && i != r implies #[trigger] cell(a3, w, i, q) == cell(a2, w, i, q) by {
        lemma_row_cell(a2, w, neq, i, q);
        lemma_row_cell(a3, w, neq, i, q);
        assert(row(a3, w, i) == row(a2, w, i));
    }
    assert forall|t: int| 0 <= t < pv.len() implies #[trigger] cell(a3, w, t, pv[t] as int) == 1 by {
        assert(cell(a3, w, t, pv[t] as int) == cell(a2, w, t, pv[t] as int));
    }
    assert forall|t: int, i: int| 0 <= t < pv.len() && 0 <= i < neq && i != t implies #[trigger] cell(a3, w, i, pv[t] as int) == 0 by {
        assert(cell(a2, w, i, pv[t] as int) == 0);
    }
    assert forall|c0: int, i: int| 0 <= c0 < c && !has_col(pv, c0) && pv.len() <= i < neq implies #[trigger] cell(a3, w, i, c0) == 0 by {
        assert(cell(a2, w, i, c0) == 0);
    }
}

/// `(u + m - (f·v mod m)) mod m` is `u` when `v` is zero, and zero when
/// `v` is one and `u` is `f`.
proof fn lemma_elim_entry(u: int, v: int, f: int, m: int)
    requires
        m >= 1,
        0 <= u < m,
        0 <= f < m,
    ensures
        v == 0 ==> (u + m - (f * v) % m) % m == u,
        v == 1 && u == f ==> (u + m - (f * v) % m) % m == 0,
{
    if v == 0 {
        assert(f * v == 0);
        lemma_small_mod(0, m as nat);
        lemma_mod_add_multiples_vanish(u, m);
        lemma_small_mod(u as nat, m as nat);
    }
    if v == 1 && u == f {
        lemma_small_mod(f as nat, m as nat);
        lemma_mod_self_0(m);
    }
}

/// Clear column `c` outside row `r`, whose entry there is one.
fn clear_column(a: &mut Vec<u32>, w: usize, nv: usize, neq: usize, r: usize, c: usize, m: u32, Ghost(pv): Ghost<Seq<usize>>)
    requires
        w == nv + 1,
        old(a)@.len() == neq * w,
        neq * w <= usize::MAX,
        2 <= m <= 255,
        entries_below(old(a)@, m as int),
        r < neq,
        c < nv,
        pv.len() == r,
        pivots_ok(pv, c as nat),
        reduced(old(a)@, w as nat, neq as nat, pv, c as nat),
        cell(old(a)@, w as nat, r as int, c as int) == 1,
    ensures
        final(a)@.len() == old(a)@.len(),
        entries_below(final(a)@, m as int),
        reduced(final(a)@, w as nat, neq as nat, pv.push(c), (c + 1) as nat),
        same_solutions(final(a)@, old(a)@, w as nat, nv as nat, neq as nat, m as int),
{
    let ghost a3 = a@;
    let ghost (wn, nvn, neqn, mi) = (w as nat, nv as nat, neq as nat, m as int);
    proof {
        assert((m - 1) * (m - 1) <= u32::MAX) by (nonlinear_arith)
            requires
                m <= 255,
                m >= 2,
        ;
        lemma_row_fits(r as int, w as int, neq as int);
        assert(same_solutions(a@, a3, wn, nvn, neqn, mi));
    }
    let mut i: usize = 0;
    while i < neq
        invariant
            w == nv + 1,
            wn == w,
            nvn == nv,
            neqn == neq,
            mi == m,
            a@.len() == neq * w,
            a3.len() == neq * w,
            neq * w <= usize::MAX,
            2 <= m <= 255,
            (m - 1) * (m - 1) <= u32::MAX,
            entries_below(a@, m as int),
            r < neq,
            c < nv,
            pv.len() == r,
            pivots_ok(pv, c as nat),
            i <= neq,
            row(a@, wn, r as int) == row(a3, wn, r as int),
            cell(a3, wn, r as int, c as int) == 1,
            forall|i2: int| i <= i2 < neq ==> #[trigger] row(a@, wn, i2) == row(a3, wn, i2),
            forall|i2: int| 0 <= i2 < i && i2 != r ==> #[trigger] cell(a@, wn, i2, c as int) == 0,
            reduced(a@, wn, neqn, pv, c as nat),
            reduced(a3, wn, neqn, pv, c as nat),
            same_solutions(a@, a3, wn, nvn, neqn, mi),
        decreases neq - i,
    {
        proof {
            lemma_row_in(i as int, c as int, w as int, neq as int);
        }
        if i != r && a[i * w + c] % m != 0 {
            let f = a[i * w + c];
            let ghost b0 = a@;
            eliminate_row(a, w, neq, i, r, f, m);
            proof {
                let (ii, ri) = (i as int, r as int);
                lemma_row_fits(ii, w as int, neq as int);
                lemma_row_fits(ri, w as int, neq as int);
                // Entries of row i where row r is zero are unchanged; at c it clears.
                assert forall|q: int| 0 <= q < w && cell(b0, wn, ri, q) == 0 implies #[trigger] cell(a@, wn, ii, q) == cell(b0, wn, ii, q) by {
                    lemma_row_cell(a@, wn, neqn, ii, q);
                    lemma_row_cell(b0, wn, neqn, ii, q);
                    lemma_row_cell(b0, wn, neqn, ri, q);
                    lemma_elim_entry(cell(b0, wn, ii, q) as int, 0, f as int, mi);
                }
                lemma_row_cell(a@, wn, neqn, ii, c as int);
                lemma_row_cell(b0, wn, neqn, ii, c as int);
                lemma_row_cell(b0, wn, neqn, ri, c as int);
                lemma_row_cell(a3, wn, neqn, ri, c as int);
                lemma_elim_entry(f as int, 1, f as int, mi);
                assert(cell(a@, wn, ii, c as int) == 0);
                assert forall|t2: int, q: int| 0 <= t2 < neq && 0 <= q < w && t2 != ii implies #[trigger] cell(a@, wn, t2, q) == cell(b0, wn, t2, q) by {
                    lemma_row_cell(a@, wn, neqn, t2, q);
                    lemma_row_cell(b0, wn, neqn, t2, q);
                    assert(row(a@, wn, t2) == row(b0, wn, t2));
                }
                assert(row(a@, wn, ri) == row(b0, wn, ri));
                // The reduced shape survives: row r is zero at every pivot
                // column and at every other processed column.
                assert forall|t: int| 0 <= t < pv.len() implies #[trigger] cell(a@, wn, t, pv[t] as int) == 1 by {
                    if t == ii {
                        assert(cell(b0, wn, ri, pv[t] as int) == 0);
                    }
                }
                assert forall|t: int, i2: int| 0 <= t < pv.len() && 0 <= i2 < neq && i2 != t implies #[trigger] cell(a@, wn, i2, pv[t] as int) == 0 by {
                    assert(cell(b0, wn, ri, pv[t] as int) == 0);
                    assert(cell(b0, wn, i2, pv[t] as int) == 0);
                }
                assert forall|c0: int, i2: int| 0 <= c0 < c && !has_col(pv, c0) && pv.len() <= i2 < neq implies #[trigger] cell(a@, wn, i2, c0) == 0 by {
                    assert(cell(b0, wn, ri, c0) == 0);
                    assert(cell(b0, wn, i2, c0) == 0);
                }
                assert forall|i2: int| 0 <= i2 < i + 1 && i2 != r implies #[trigger] cell(a@, wn, i2, c as int) == 0 by {
                    if i2 < i {
                        assert(cell(b0, wn, i2, c as int) == 0);
                    }
                }
                // Soundness: row r is a row of the system.
                assert(same_solutions(a@, b0, wn, nvn, neqn, mi)) by {
                    assert forall|x: Seq<u32>| #[trigger] solves(a@, wn, nvn, neqn, x, mi) implies solves(b0, wn, nvn, neqn, x, mi) by {
                        assert forall|i2: int| 0 <= i2 < neq implies #[trigger] row_ok(row(b0, wn, i2), nvn, x, mi) by {
                            assert(row_ok(row(a@, wn, i2), nvn, x, mi));
                            if i2 == ii {
                                assert(row_ok(row(a@, wn, ri), nvn, x, mi));
                                lemma_elim_sound(row(b0, wn, ii), row(b0, wn, ri), row(a@, wn, ii), nvn, x, f as int, mi);
                            }
                        }
                    }
                    assert forall|x: Seq<u32>| #[trigger] solves(b0, wn, nvn, neqn, x, mi) implies solves(a@, wn, nvn, neqn, x, mi) by {
                        assert forall|i2: int| 0 <= i2 < neq implies #[trigger] row_ok(row(a@, wn, i2), nvn, x, mi) by {
                            assert(row_ok(row(b0, wn, i2), nvn, x, mi));
                            if i2 == ii {
                                assert(row_ok(row(b0, wn, ri), nvn, x, mi));
                                lemma_elim_complete(row(b0, wn, ii), row(b0, wn, ri), row(a@, wn, ii), nvn, x, f as int, mi);
                            }
                        }
                    }
                }
                lemma_sound_trans(a@, b0, a3, wn, nvn, neqn, mi);
            }
        } else {
            proof {
                if i != r {
                    lemma_row_cell(a@, wn, neqn, i as int, c as int);
                    lemma_small_mod(cell(a@, wn, i as int, c as int) as nat, m as nat);
                }
            }
        }
        i = i + 1;
    }
    proof {
        let pv2 = pv.push(c);
        lemma_row_cell(a@, wn, neqn, r as int, c as int);
        lemma_row_cell(a3, wn, neqn, r as int, c as int);
        assert forall|c0: int| 0 <= c0 < c + 1 && !has_col(pv2, c0) implies !has_col(pv, c0) && c0 < c by {
            if has_col(pv, c0) {
                let t = choose|t: int| 0 <= t < pv.len() && pv[t] == c0;
                assert(pv2[t] == c0);
            }
            assert(pv2[pv.len() as int] == c);
        }
    }
}

/// Bring the augmented matrix to reduced row echelon form over `F_m`,
/// returning the pivot columns in order. The result has the same solutions
/// as the original system.
pub(crate) fn reduce(a: &mut Vec<u32>, w: usize, nv: usize, neq: usize, m: u32) -> (pv: Vec<usize>)
    requires
        w == nv + 1,
        old(a)@.len() == neq * w,
        neq * w <= usize::MAX,
        is_prime_spec(m as nat),
        m <= 255,
        entries_below(old(a)@, m as int),
    ensures
        final(a)@.len() == old(a)@.len(),
        entries_below(final(a)@, m as int),
        pv@.len() <= neq,
        pivots_ok(pv@, nv as nat),
        reduced(final(a)@, w as nat, neq as nat, pv@, nv as nat),
        same_solutions(final(a)@, old(a)@, w as nat, nv as nat, neq as nat, m as int),
{
    let ghost a0 = a@;
    let ghost (wn, nvn, neqn, mi) = (w as nat, nv as nat, neq as nat, m as int);
    let mut pivots: Vec<usize> = Vec::new();
    let mut r: usize = 0;
    let mut c: usize = 0;
    proof {
        assert(same_solutions(a@, a0, wn, nvn, neqn, mi));
    }
    while c < nv && r < neq
        invariant
            w == nv + 1,
            wn == w,
            nvn == nv,
            neqn == neq,
            mi == m,
            a@.len() == neq * w,
            a0.len() == neq * w,
            neq * w <= usize::MAX,
            is_prime_spec(m as nat),
            m <= 255,
            entries_below(a@, m as int),
            c <= nv,
            r == pivots@.len(),
            r <= neq,
            pivots_ok(pivots@, c as nat),
            reduced(a@, wn, neqn, pivots@, c as nat),
            same_solutions(a@, a0, wn, nvn, neqn, mi),
        decreases nv - c,
    {
        let mut pr = r;
        proof {
            assert forall|p: int| r <= p < neq implies #[trigger] (p * w) + c < neq * w by {
                lemma_row_in(p, c as int, w as int, neq as int);
            }
        }
        while pr < neq && a[pr * w + c] % m == 0
            invariant
                forall|p: int| r <= p < neq ==> #[trigger] (p * w) + c < neq * w,
                r <= pr <= neq,
                c < nv,
                w == nv + 1,
                a@.len() == neq * w,
                neq * w <= usize::MAX,
                m >= 2,
                forall|i: int| r <= i < pr ==> #[trigger] cell(a@, w as nat, i, c as int) % m == 0,
            decreases neq - pr,
        {
            proof {
                lemma_row_in(pr as int, c as int, w as int, neq as int);
            }
            pr = pr + 1;
        }
        if pr < neq {
            proof {
                lemma_row_in(pr as int, c as int, w as int, neq as int);
            }
            let ghost a1 = a@;
            swap_rows(a, w, neq, r, pr);
            proof {
                lemma_swap_sound(a1, a@, wn, nvn, neqn, r as int, pr as int, mi);
                lemma_sound_trans(a@, a1, a0, wn, nvn, neqn, mi);
                lemma_row_cell(a@, wn, neqn, r as int, c as int);
                lemma_row_cell(a1, wn, neqn, pr as int, c as int);
                assert(entries_below(a@, mi)) by {
                    assert forall|idx: int| 0 <= idx < a@.len() implies #[trigger] a@[idx] < m by {
                        let i = idx / (w as int);
                        let q = idx % (w as int);
                        lemma_fundamental_div_mod(idx, w as int);
                        lemma_mod_bound(idx, w as int);
                        assert(0 <= i < neq) by {
                            lemma_div_pos_is_pos(idx, w as int);
                            lemma_div_is_ordered(idx, (neq * w) as int, w as int);
                            lemma_div_by_multiple(neq as int, w as int);
                            if i == neq as int {
                                assert(idx >= (neq * w) as int) by (nonlinear_arith)
                                    requires
                                        idx == w * i + q,
                                        i == neq,
                                        q >= 0,
                                ;
                            }
                        }
                        assert(idx == i * w + q) by (nonlinear_arith)
                            requires
                                idx == w * i + q,
                        ;
                        lemma_row_cell(a@, wn, neqn, i, q);
                        let src = if i == r {
                            pr as int
                        } else if i == pr {
                            r as int
                        } else {
                            i
                        };
                        assert(row(a@, wn, i) == row(a1, wn, src));
                        lemma_row_cell(a1, wn, neqn, src, q);
                    }
                }
            }
            let v = a[r * w + c];
            proof {
                assert(v == cell(a1, wn, pr as int, c as int));
                assert(v % m != 0);
            }
            let inv = inv_mod(v, m);
            let ghost a2 = a@;
            proof {
                lemma_small_mod(v as nat, m as nat);
                assert(m - 1 <= 254);
                assert((m - 1) * (m - 1) <= u32::MAX) by (nonlinear_arith)
                    requires
                        m - 1 <= 254,
                ;
            }
            scale_row(a, w, neq, r, inv, m);
            proof {
                lemma_small_mod(1, m as nat);
                assert((v * inv) % (m as int) == 1);
                // Scaling by the inverse of the pivot keeps the solutions.
                assert(same_solutions(a@, a2, wn, nvn, neqn, mi)) by {
                    assert forall|x: Seq<u32>| #[trigger] solves(a@, wn, nvn, neqn, x, mi) implies solves(a2, wn, nvn, neqn, x, mi) by {
                        assert forall|i: int| 0 <= i < neq implies #[trigger] row_ok(row(a2, wn, i), nvn, x, mi) by {
                            assert(row_ok(row(a@, wn, i), nvn, x, mi));
                            if i == r {
                                lemma_row_fits(i, w as int, neq as int);
                                lemma_scale_sound(row(a2, wn, i), row(a@, wn, i), nvn, x, inv as int, v as int, mi);
                            }
                        }
                    }
                    assert forall|x: Seq<u32>| #[trigger] solves(a2, wn, nvn, neqn, x, mi) implies solves(a@, wn, nvn, neqn, x, mi) by {
                        assert forall|i: int| 0 <= i < neq implies #[trigger] row_ok(row(a@, wn, i), nvn, x, mi) by {
                            assert(row_ok(row(a2, wn, i), nvn, x, mi));
                            if i == r {
                                lemma_row_fits(i, w as int, neq as int);
                                lemma_scale_complete(row(a2, wn, i), row(a@, wn, i), nvn, x, inv as int, mi);
                            }
                        }
                    }
                }
                lemma_sound_trans(a@, a2, a0, wn, nvn, neqn, mi);
            }
            proof {
                lemma_swap_keeps_reduced(a1, a2, wn, neqn, pivots@, c as nat, r as int, pr as int);
                lemma_scale_keeps_reduced(a2, a@, wn, neqn, pivots@, c as nat, r as int, inv as int, mi);
                lemma_row_cell(a@, wn, neqn, r as int, c as int);
                lemma_row_cell(a2, wn, neqn, r as int, c as int);
                assert(cell(a@, wn, r as int, c as int) == 1);
            }
            let ghost a3 = a@;
            clear_column(a, w, nv, neq, r, c, m, Ghost(pivots@));
            proof {
                lemma_sound_trans(a@, a3, a0, wn, nvn, neqn, mi);
            }
            pivots.push(c);
            r = r + 1;
            proof {
                assert(pivots_ok(pivots@, (c + 1) as nat));
            }
        } else {
            proof {
                assert forall|c0: int, i: int|
                    0 <= c0 < c + 1 && !has_col(pivots@, c0) && pivots@.len() <= i < neq implies #[trigger] cell(a@, wn, i, c0) == 0 by {
                    if c0 == c {
                        assert(cell(a@, wn, i, c0) % m == 0);
                        lemma_row_cell(a@, wn, neqn, i, c0);
                        lemma_small_mod(cell(a@, wn, i, c0) as nat, m as nat);
                    }
                }
            }
        }
        c = c + 1;
    }
    pivots
}

} // verus!

verus! {

/// `Σ_{q < n} r[cols[q]] · x[cols[q]]`.
pub open spec fn fdot(r: Seq<u32>, x: Seq<u32>, cols: Seq<usize>, n: nat) -> int
    decreases n,
{
    if n == 0 {
        0
    } else {
        fdot(r, x, cols, (n - 1) as nat) + r[cols[n - 1] as int] * x[cols[n - 1] as int]
    }
}

/// The list strictly increases.
pub open spec fn increasing(cols: Seq<usize>) -> bool {
    forall|q1: int, q2: int| 0 <= q1 < q2 < cols.len() ==> #[trigger] cols[q1] < #[trigger] cols[q2]
}

/// `free` lists, in order, exactly the columns below `nv` that are not pivots.
pub open spec fn complement(free: Seq<usize>, pv: Seq<usize>, nv: nat) -> bool {
    &&& increasing(free)
    &&& forall|q: int| 0 <= q < free.len() ==> #[trigger] free[q] < nv
    &&& forall|j: int| 0 <= j < nv ==> (#[trigger] has_col(free, j) <==> !has_col(pv, j))
}

/// How many listed columns lie below `n`.
pub open spec fn below_count(cols: Seq<usize>, n: int) -> nat
    decreases n,
{
    if n <= 0 {
        0
    } else {
        below_count(cols, n - 1) + if has_col(cols, n - 1) {
            1nat
        } else {
            0nat
        }
    }
}

pub(crate) proof fn lemma_below_count(cols: Seq<usize>, n: int)
    requires
        increasing(cols),
        n >= 0,
    ensures
        below_count(cols, n) <= cols.len(),
        forall|q: int| 0 <= q < below_count(cols, n) ==> #[trigger] cols[q] < n,
        forall|q: int| below_count(cols, n) <= q < cols.len() ==> #[trigger] cols[q] >= n,
    decreases n,
{
    if n > 0 {
        lemma_below_count(cols, n - 1);
        let k = below_count(cols, n - 1);
        if has_col(cols, n - 1) {
            let q0 = choose|q: int| 0 <= q < cols.len() && cols[q] == n - 1;
            if q0 < k {
                assert(cols[q0] < n - 1);
            }
            if q0 > k {
                assert(cols[k as int] < cols[q0]);
                assert(cols[k as int] >= n - 1);
            }
            assert(q0 == k);
            assert forall|q: int| below_count(cols, n) <= q < cols.len() implies #[trigger] cols[q] >= n by {
                assert(cols[k as int] < cols[q]);
            }
        } else {
            assert forall|q: int| below_count(cols, n) <= q < cols.len() implies #[trigger] cols[q] >= n by {
                assert(cols[q] >= n - 1);
                if cols[q] == n - 1 {
                    assert(has_col(cols, n - 1));
                }
            }
        }
    }
}

proof fn lemma_next_free(cols: Seq<usize>, n: int)
    requires
        increasing(cols),
        n >= 1,
        has_col(cols, n - 1),
    ensures
        below_count(cols, n - 1) < cols.len(),
        cols[below_count(cols, n - 1) as int] == n - 1,
{
    lemma_below_count(cols, n - 1);
    let k = below_count(cols, n - 1);
    let q0 = choose|q: int| 0 <= q < cols.len() && cols[q] == n - 1;
    if q0 < k {
        assert(cols[q0] < n - 1);
    }
    if q0 > k {
        assert(cols[k as int] < cols[q0]);
        assert(cols[k as int] >= n - 1);
    }
}

/// A pivot row sums to its pivot's unknown plus the free part.
pub(crate) proof fn lemma_pivot_row_sum(r: Seq<u32>, x: Seq<u32>, pv: Seq<usize>, free: Seq<usize>, nv: nat, t: int, n: nat)
    requires
        0 <= t < pv.len(),
        n <= nv,
        complement(free, pv, nv),
        forall|s: int| 0 <= s < pv.len() ==> #[trigger] r[pv[s] as int] == if s == t { 1u32 } else { 0u32 },
    ensures
        rdot(r, x, n) == (if pv[t] < n { x[pv[t] as int] as int } else { 0 }) + fdot(r, x, free, below_count(free, n as int)),
    decreases n,
{
    if n > 0 {
        let j = n - 1;
        lemma_pivot_row_sum(r, x, pv, free, nv, t, (n - 1) as nat);
        let k = below_count(free, j);
        if has_col(free, j) {
            lemma_next_free(free, n as int);
            assert(below_count(free, n as int) == k + 1);
            assert(free[k as int] == j);
            assert(!has_col(pv, j));
            if pv[t] == j {
                assert(has_col(pv, j));
            }
        } else {
            assert(has_col(pv, j));
            assert(below_count(free, n as int) == k);
            let s = choose|s: int| 0 <= s < pv.len() && pv[s] == j;
            assert(r[j] == if s == t { 1u32 } else { 0u32 });
            if s != t {
                assert(r[j] * x[j] == 0);
            }
        }
    }
}

} // verus!

verus! {

pub(crate) proof fn lemma_fdot_ext(r: Seq<u32>, x1: Seq<u32>, x2: Seq<u32>, cols: Seq<usize>, n: nat)
    requires
        n <= cols.len(),
        forall|q: int| 0 <= q < n ==> x1[#[trigger] cols[q] as int] == x2[cols[q] as int],
    ensures
        fdot(r, x1, cols, n) == fdot(r, x2, cols, n),
    decreases n,
{
    if n > 0 {
        lemma_fdot_ext(r, x1, x2, cols, (n - 1) as nat);
        assert(x1[cols[n - 1] as int] == x2[cols[n - 1] as int]);
    }
}

/// A pivot row holds at `x` when its pivot unknown is its right-hand side
/// minus its free part.
proof fn lemma_pivot_row_ok(r: Seq<u32>, x: Seq<u32>, pv: Seq<usize>, free: Seq<usize>, nv: nat, t: int, m: int)
    requires
        m >= 1,
        0 <= t < pv.len(),
        pivots_ok(pv, nv),
        complement(free, pv, nv),
        forall|s: int| 0 <= s < pv.len() ==> #[trigger] r[pv[s] as int] == if s == t { 1u32 } else { 0u32 },
        x[pv[t] as int] == (r[nv as int] + m - fdot(r, x, free, free.len()) % m) % m,
    ensures
        row_ok(r, nv, x, m),
{
    lemma_pivot_row_sum(r, x, pv, free, nv, t, nv);
    lemma_below_count(free, nv as int);
    let k = below_count(free, nv as int);
    if k < free.len() {
        assert(free[k as int] >= nv);
    }
    assert(k == free.len());
    let f = fdot(r, x, free, free.len());
    let b = r[nv as int] as int;
    // x_p + f - b = ((b + m - f mod m) mod m) + f - b ≡ 0.
    lemma_entry_elim(b, f, 1, m);
    assert(1 * f == f);
    lemma_add_mod_noop(x[pv[t] as int] as int, f - b, m);
    lemma_mod_twice(b - f, m);
    lemma_add_mod_noop(b - f, f - b, m);
    lemma_small_mod(0, m as nat);
}

/// `x` with the free columns set from `freevals` and each pivot column
/// solved from its reduced row: a solution of every pivot row.
pub(crate) fn solve(
    a: &Vec<u32>,
    w: usize,
    nv: usize,
    neq: usize,
    pivots: &Vec<usize>,
    free: &Vec<usize>,
    freevals: &Vec<u32>,
    m: u32,
) -> (x: Vec<u32>)
    requires
        2 <= m <= 255,
        w == nv + 1,
        a@.len() == neq * w,
        neq * w <= usize::MAX,
        entries_below(a@, m as int),
        pivots@.len() <= neq,
        pivots_ok(pivots@, nv as nat),
        complement(free@, pivots@, nv as nat),
        freevals@.len() == free@.len(),
        reduced(a@, w as nat, neq as nat, pivots@, nv as nat),
    ensures
        x@.len() == nv,
        forall|i: int| 0 <= i < nv ==> #[trigger] x@[i] < m,
        forall|k: int| 0 <= k < free@.len() ==> #[trigger] x@[free@[k] as int] == freevals@[k] % m,
        forall|t: int| 0 <= t < pivots@.len() ==> #[trigger] row_ok(row(a@, w as nat, t), nv as nat, x@, m as int),
{
    let ghost (wn, nvn, neqn, mi) = (w as nat, nv as nat, neq as nat, m as int);
    let mut x: Vec<u32> = vec![0u32; nv];
    let mut k: usize = 0;
    while k < free.len()
        invariant
            m >= 2,
            x@.len() == nv,
            forall|i: int| 0 <= i < nv ==> #[trigger] x@[i] < m,
            freevals@.len() == free@.len(),
            complement(free@, pivots@, nv as nat),
            k <= free@.len(),
            forall|k2: int| 0 <= k2 < k ==> #[trigger] x@[free@[k2] as int] == freevals@[k2] % m,
        decreases free@.len() - k,
    {
        x.set(free[k], freevals[k] % m);
        proof {
            assert forall|k2: int| 0 <= k2 < k + 1 implies #[trigger] x@[free@[k2] as int] == freevals@[k2] % m by {
                if k2 < k {
                    assert(free@[k2] < free@[k as int]);
                }
            }
        }
        k = k + 1;
    }
    let ghost xf = x@;
    let mut i: usize = 0;
    while i < pivots.len()
        invariant
            2 <= m <= 255,
            w == nv + 1,
            wn == w,
            nvn == nv,
            neqn == neq,
            mi == m,
            a@.len() == neq * w,
            neq * w <= usize::MAX,
            entries_below(a@, m as int),
            x@.len() == nv,
            xf.len() == nv,
            forall|j: int| 0 <= j < nv ==> #[trigger] x@[j] < m,
            pivots@.len() <= neq,
            pivots_ok(pivots@, nv as nat),
            complement(free@, pivots@, nv as nat),
            i <= pivots@.len(),
            forall|q: int| 0 <= q < free@.len() ==> x@[#[trigger] free@[q] as int] == xf[free@[q] as int],
            forall|t: int|
                0 <= t < i ==> #[trigger] x@[pivots@[t] as int] == (cell(a@, wn, t, nv as int) + m - fdot(
                    row(a@, wn, t),
                    xf,
                    free@,
                    free@.len(),
                ) % mi) % mi,
        decreases pivots@.len() - i,
    {
        proof {
            lemma_row_in(i as int, nv as int, w as int, neq as int);
            lemma_row_fits(i as int, w as int, neq as int);
        }
        let mut s: u32 = 0;
        let mut q: usize = 0;
        while q < free.len()
            invariant
                2 <= m <= 255,
                w == nv + 1,
                wn == w,
                neqn == neq,
                a@.len() == neq * w,
                neq * w <= usize::MAX,
                entries_below(a@, m as int),
                x@.len() == nv,
                xf.len() == nv,
                forall|j: int| 0 <= j < nv ==> #[trigger] x@[j] < m,
                complement(free@, pivots@, nv as nat),
                forall|q2: int| 0 <= q2 < free@.len() ==> x@[#[trigger] free@[q2] as int] == xf[free@[q2] as int],
                i < neq,
                i * w + nv < neq * w,
                q <= free@.len(),
                s as int == fdot(row(a@, wn, i as int), xf, free@, q as nat) % (m as int),
            decreases free@.len() - q,
        {
            let j = free[q];
            proof {
                lemma_row_in(i as int, j as int, w as int, neq as int);
                lemma_row_cell(a@, wn, neqn, i as int, j as int);
            }
            let aij = a[i * w + j];
            let xj = x[j];
            proof {
                assert(aij < m);
                assert(xj < m);
                assert((m - 1) * (m - 1) <= 65025) by (nonlinear_arith)
                    requires
                        2 <= m <= 255,
                ;
                assert(aij * xj <= (m - 1) * (m - 1)) by (nonlinear_arith)
                    requires
                        aij <= m - 1,
                        xj <= m - 1,
                ;
                let f0 = fdot(row(a@, wn, i as int), xf, free@, q as nat);
                assert(fdot(row(a@, wn, i as int), xf, free@, (q + 1) as nat) == f0 + aij * xj);
                lemma_add_mod_noop(f0, (aij * xj) as int, m as int);
                lemma_mod_twice((aij * xj) as int, m as int);
                lemma_add_mod_noop(f0 % (m as int), (aij * xj) as int, m as int);
            }
            let v = aij * xj % m;
            s = (s + v) % m;
            q = q + 1;
        }
        let last = a[i * w + nv];
        proof {
            lemma_row_cell(a@, wn, neqn, i as int, nv as int);
            assert(pivots@[i as int] < nv);
        }
        let ghost before = x@;
        x.set(pivots[i], (last + m - s) % m);
        proof {
            let p = pivots@[i as int];
            assert(!has_col(free@, p as int)) by {
                assert(has_col(pivots@, p as int));
            }
            assert forall|q2: int| 0 <= q2 < free@.len() implies x@[#[trigger] free@[q2] as int] == xf[free@[q2] as int] by {
                if free@[q2] == p {
                    assert(has_col(free@, p as int));
                }
            }
            assert forall|t: int| 0 <= t < i + 1 implies #[trigger] x@[pivots@[t] as int] == (cell(a@, wn, t, nv as int) + m
                - fdot(row(a@, wn, t), xf, free@, free@.len()) % mi) % mi by {
                if t < i {
                    assert(pivots@[t] < pivots@[i as int]);
                    assert(before[pivots@[t] as int] == x@[pivots@[t] as int]);
                }
            }
        }
        i = i + 1;
    }
    proof {
        assert forall|k2: int| 0 <= k2 < free@.len() implies #[trigger] x@[free@[k2] as int] == freevals@[k2] % m by {
            assert(x@[free@[k2] as int] == xf[free@[k2] as int]);
        }
        assert forall|t: int| 0 <= t < pivots@.len() implies #[trigger] row_ok(row(a@, wn, t), nvn, x@, mi) by {
            let rt = row(a@, wn, t);
            lemma_row_fits(t, w as int, neq as int);
            assert forall|s2: int| 0 <= s2 < pivots@.len() implies #[trigger] rt[pivots@[s2] as int] == if s2 == t { 1u32 } else { 0u32 } by {
                lemma_row_cell(a@, wn, neqn, t, pivots@[s2] as int);
                if s2 != t {
                    assert(cell(a@, wn, t, pivots@[s2] as int) == 0);
                }
            }
            lemma_fdot_ext(rt, x@, xf, free@, free@.len());
            lemma_row_cell(a@, wn, neqn, t, nv as int);
            lemma_pivot_row_ok(rt, x@, pivots@, free@, nvn, t, mi);
        }
    }
    x
}

} // verus!

verus! {

/// No row reads `0 = b` with `b` nonzero.
pub open spec fn consistent_spec(a: Seq<u32>, w: nat, nv: nat, neq: nat, m: int) -> bool {
    forall|i: int|
        0 <= i < neq ==> ((forall|q: int| 0 <= q < nv ==> #[trigger] (cell(a, w, i, q) as int) % m == 0) ==> #[trigger] (cell(
            a,
            w,
            i,
            nv as int,
        ) as int) % m == 0)
}

/// Whether the system has no row `0 = b` with `b` nonzero.
pub(crate) fn consistent(a: &Vec<u32>, w: usize, nv: usize, neq: usize, m: u32) -> (b: bool)
    requires
        w == nv + 1,
        a@.len() == neq * w,
        neq * w <= usize::MAX,
        m >= 2,
    ensures
        b == consistent_spec(a@, w as nat, nv as nat, neq as nat, m as int),
{
    let mut i: usize = 0;
    while i < neq
        invariant
            w == nv + 1,
            a@.len() == neq * w,
            neq * w <= usize::MAX,
            2 <= m,
            i <= neq,
            forall|i2: int|
                0 <= i2 < i ==> ((forall|q: int| 0 <= q < nv ==> #[trigger] (cell(a@, w as nat, i2, q) as int) % (m as int) == 0)
                    ==> #[trigger] (cell(a@, w as nat, i2, nv as int) as int) % (m as int) == 0),
        decreases neq - i,
    {
        let mut all_zero = true;
        let mut q: usize = 0;
        while q < nv
            invariant
                i < neq,
                w == nv + 1,
                a@.len() == neq * w,
                neq * w <= usize::MAX,
                2 <= m,
                q <= nv,
                all_zero == forall|q2: int| 0 <= q2 < q ==> #[trigger] (cell(a@, w as nat, i as int, q2) as int) % (m as int) == 0,
            decreases nv - q,
        {
            proof {
                lemma_row_in(i as int, q as int, w as int, neq as int);
                assert(cell(a@, w as nat, i as int, q as int) == a@[i * w + q]);
            }
            let ghost before = all_zero;
            if a[i * w + q] % m != 0 {
                all_zero = false;
            }
            proof {
                if all_zero {
                    assert forall|q2: int| 0 <= q2 < q + 1 implies #[trigger] (cell(a@, w as nat, i as int, q2) as int) % (m as int) == 0 by {
                        if q2 < q {
                            assert(before);
                        }
                    }
                } else {
                    if before {
                        assert((cell(a@, w as nat, i as int, q as int) as int) % (m as int) != 0);
                    } else {
                        let q3 = choose|q3: int| 0 <= q3 < q && !((cell(a@, w as nat, i as int, q3) as int) % (m as int) == 0);
                        assert(!((cell(a@, w as nat, i as int, q3) as int) % (m as int) == 0));
                    }
                }
            }
            q = q + 1;
        }
        proof {
            lemma_row_in(i as int, nv as int, w as int, neq as int);
            assert(cell(a@, w as nat, i as int, nv as int) == a@[i * w + nv]);
        }
        if all_zero && a[i * w + nv] % m != 0 {
            proof {
                assert(!((cell(a@, w as nat, i as int, nv as int) as int) % (m as int) == 0));
            }
            return false;
        }
        i = i + 1;
    }
    true
}

/// The columns below `nv` that are not pivots, ascending.
pub(crate) fn free_columns(nv: usize, pivots: &Vec<usize>) -> (free: Vec<usize>)
    ensures
        complement(free@, pivots@, nv as nat),
{
    let mut free: Vec<usize> = Vec::new();
    let mut c: usize = 0;
    while c < nv
        invariant
            c <= nv,
            increasing(free@),
            forall|q: int| 0 <= q < free@.len() ==> #[trigger] free@[q] < c,
            forall|j: int| 0 <= j < c ==> (#[trigger] has_col(free@, j) <==> !has_col(pivots@, j)),
        decreases nv - c,
    {
        let mut is_pivot = false;
        let mut q: usize = 0;
        while q < pivots.len()
            invariant
                q <= pivots@.len(),
                is_pivot == exists|t: int| 0 <= t < q && pivots@[t] == c,
            decreases pivots@.len() - q,
        {
            if pivots[q] == c {
                is_pivot = true;
            }
            q = q + 1;
        }
        let ghost before = free@;
        if !is_pivot {
            free.push(c);
        }
        proof {
            assert forall|j: int| 0 <= j < c + 1 implies (#[trigger] has_col(free@, j) <==> !has_col(pivots@, j)) by {
                if j < c {
                    if has_col(free@, j) {
                        let t = choose|t: int| 0 <= t < free@.len() && free@[t] == j;
                        if t < before.len() {
                            assert(has_col(before, j));
                        }
                    }
                    if has_col(before, j) {
                        let t = choose|t: int| 0 <= t < before.len() && before[t] == j;
                        assert(free@[t] == j);
                    }
                } else {
                    if !is_pivot {
                        assert(free@[before.len() as int] == j);
                    } else {
                        if has_col(free@, j) {
                            let t = choose|t: int| 0 <= t < free@.len() && free@[t] == j;
                            assert(before[t] < c);
                        }
                    }
                }
            }
        }
        c = c + 1;
    }
    free
}

proof fn lemma_rdot_zero(r: Seq<u32>, x: Seq<u32>, n: nat)
    requires
        forall|j: int| 0 <= j < n ==> #[trigger] r[j] == 0,
    ensures
        rdot(r, x, n) == 0,
    decreases n,
{
    if n > 0 {
        lemma_rdot_zero(r, x, (n - 1) as nat);
        assert(r[n - 1] * x[n - 1] == 0);
    }
}

/// A reduced, consistent system is solved by what `solve` returns for its
/// pivot rows: the rows below them are all zero.
pub(crate) proof fn lemma_solves_reduced(a: Seq<u32>, w: nat, nv: nat, neq: nat, pv: Seq<usize>, free: Seq<usize>, x: Seq<u32>, m: int)
    requires
        m >= 2,
        w == nv + 1,
        a.len() == neq * w,
        entries_below(a, m),
        pv.len() <= neq,
        pivots_ok(pv, nv),
        complement(free, pv, nv),
        reduced(a, w, neq, pv, nv),
        consistent_spec(a, w, nv, neq, m),
        forall|t: int| 0 <= t < pv.len() ==> #[trigger] row_ok(row(a, w, t), nv, x, m),
    ensures
        solves(a, w, nv, neq, x, m),
{
    assert forall|i: int| 0 <= i < neq implies #[trigger] row_ok(row(a, w, i), nv, x, m) by {
        if i >= pv.len() {
            let ri = row(a, w, i);
            lemma_row_fits(i, w as int, neq as int);
            assert forall|j: int| 0 <= j < nv implies #[trigger] ri[j] == 0 by {
                lemma_row_cell(a, w, neq, i, j);
                if has_col(pv, j) {
                    let t = choose|t: int| 0 <= t < pv.len() && pv[t] == j;
                    assert(cell(a, w, i, pv[t] as int) == 0);
                } else {
                    assert(cell(a, w, i, j) == 0);
                }
            }
            assert forall|q: int| 0 <= q < nv implies #[trigger] (cell(a, w, i, q) as int) % m == 0 by {
                lemma_row_cell(a, w, neq, i, q);
                assert(ri[q] == 0);
                lemma_small_mod(0, m as nat);
            }
            assert((cell(a, w, i, nv as int) as int) % m == 0);
            lemma_row_cell(a, w, neq, i, nv as int);
            lemma_rdot_zero(ri, x, nv);
            lemma_sub_mod_noop(0, ri[nv as int] as int, m);
            lemma_small_mod(0, m as nat);
        }
    }
}

/// The difference of two solutions, taken entrywise mod `m`, solves the
/// homogeneous part of each equation.
pub(crate) proof fn lemma_rdot_diff(r: Seq<u32>, xs: Seq<u32>, xp: Seq<u32>, xb: Seq<u32>, n: nat, m: int)
    requires
        m >= 1,
        forall|j: int| 0 <= j < n ==> #[trigger] xb[j] == (xs[j] + m - (1 * xp[j]) % m) % m,
    ensures
        rdot(r, xb, n) % m == (rdot(r, xs, n) - rdot(r, xp, n)) % m,
    decreases n,
{
    if n > 0 {
        let j = n - 1;
        lemma_rdot_diff(r, xs, xp, xb, (n - 1) as nat, m);
        let (ds, dp, db) = (rdot(r, xs, (n - 1) as nat), rdot(r, xp, (n - 1) as nat), rdot(r, xb, (n - 1) as nat));
        let (u, v, c) = (xs[j] as int, xp[j] as int, r[j] as int);
        lemma_entry_elim(u, v, 1, m);
        lemma_mod_twice(u - v, m);
        lemma_mul_mod_noop_right(c, xb[j] as int, m);
        lemma_mul_mod_noop_right(c, u - v, m);
        lemma_add_mod_noop(db, c * xb[j], m);
        lemma_add_mod_noop(ds - dp, c * (u - v), m);
        assert((ds + c * u) - (dp + c * v) == (ds - dp) + c * (u - v)) by (nonlinear_arith);
    }
}

} // verus!

verus! {

/// A row `0 = b` with `b` nonzero has no solution.
pub(crate) proof fn lemma_inconsistent(a: Seq<u32>, w: nat, nv: nat, neq: nat, x: Seq<u32>, m: int)
    requires
        m >= 2,
        w == nv + 1,
        a.len() == neq * w,
        entries_below(a, m),
        !consistent_spec(a, w, nv, neq, m),
    ensures
        !solves(a, w, nv, neq, x, m),
{
    let i = choose|i: int|
        0 <= i < neq && !((forall|q: int| 0 <= q < nv ==> #[trigger] (cell(a, w, i, q) as int) % m == 0) ==> #[trigger] (cell(
            a,
            w,
            i,
            nv as int,
        ) as int) % m == 0);
    let ri = row(a, w, i);
    lemma_row_fits(i, w as int, neq as int);
    assert forall|j: int| 0 <= j < nv implies #[trigger] ri[j] == 0 by {
        lemma_row_cell(a, w, neq, i, j);
        assert((cell(a, w, i, j) as int) % m == 0);
        lemma_row_in(i, j, w as int, neq as int);
        lemma_small_mod(cell(a, w, i, j) as nat, m as nat);
    }
    lemma_rdot_zero(ri, x, nv);
    lemma_row_cell(a, w, neq, i, nv as int);
    lemma_row_in(i, nv as int, w as int, neq as int);
    let b = ri[nv as int] as int;
    lemma_small_mod(b as nat, m as nat);
    assert(b % m != 0);
    if (0 - b) % m == 0 {
        lemma_mod_add_multiples_vanish(0 - b, m);
        lemma_small_mod((m - b) as nat, m as nat);
        assert((m + (0 - b)) % m == m - b);
    }
    assert(!row_ok(ri, nv, x, m));
}

} // verus!
