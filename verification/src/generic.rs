//! The generic linear models.
//!
//! In the free noncommutative ring `Z<a, b>`, with `a` and `b` the
//! generators, the word values are the words themselves, so a law holds in
//! the generic linear magma exactly when its difference polynomials vanish
//! identically. Such a law then holds in every linear model over every ring.

use crate::law::Law;
use crate::corpus::{generic_fits, linear_fits};
use crate::linear::{
    comb, comb_fits, law_fits, law_vanishes, laws_indexed, sparse, step_fits, terms_short, terms_vanish, word_val, words_spec, LawDiff,
    LinearLaws, RingOps,
};
use crate::nc::{spec_monomial_index, spec_word_bits, spec_word_index, spec_word_len, MAX_DEG, N_WORDS};
use crate::rings::{
    comm_dst, in_i128, mono_deg, mono_total, nc_dst, osi_dst, osi_parts, osi_sgn, pair_term, psum, unit_sgn, unit_vec, FreeComm,
    FreeNc, OneSidedInverse,
};
use vstd::arithmetic::power2::*;
use vstd::prelude::*;

verus! {

/// The product of two unit vectors, entry by entry over the pairs before
/// `(i, j)`.
proof fn lemma_psum_units(p: int, q: int, t: int, i: nat, j: nat)
    requires
        0 <= p < 31,
        0 <= q < 31,
        i <= 31,
        j <= 31,
        i == 31 ==> j == 0,
    ensures
        psum(unit_vec(31, p), unit_vec(31, q), nc_dst(), unit_sgn(), t, i, j, 31) == if (p < i || (p == i
            && q < j)) && nc_dst()(p, q) == t {
            1int
        } else {
            0int
        },
    decreases i, j,
{
    let x = unit_vec(31, p);
    let y = unit_vec(31, q);
    if j > 0 {
        lemma_psum_units(p, q, t, i, (j - 1) as nat);
        let r = i as int;
        let c = j - 1;
        {
            assert(pair_term(x, y, nc_dst(), unit_sgn(), t, r, c) == if r == p && c == q && nc_dst()(p, q) == t {
                1int
            } else {
                0int
            }) by {
                if r == p && c == q {
                    assert(x[r] == 1 && y[c] == 1);
                } else if r != p {
                    assert(x[r] == 0);
                    assert(unit_sgn()(r, c) * x[r] * y[c] == 0) by (nonlinear_arith)
                        requires
                            x[r] == 0,
                    ;
                } else {
                    assert(y[c] == 0);
                    assert(unit_sgn()(r, c) * x[r] * y[c] == 0) by (nonlinear_arith)
                        requires
                            y[c] == 0,
                    ;
                }
            }
        }
    } else if i > 0 {
        lemma_psum_units(p, q, t, (i - 1) as nat, 31);
    }
}

/// In `Z<a, b>` the product of two words is their concatenation.
proof fn lemma_unit_mul(p: int, q: int)
    requires
        0 <= p < 31,
        0 <= q < 31,
    ensures
        FreeNc.spec_mul(unit_vec(31, p), unit_vec(31, q)) == unit_vec(31, nc_dst()(p, q)),
{
    assert forall|t: int| 0 <= t < 31 implies #[trigger] FreeNc.spec_mul(unit_vec(31, p), unit_vec(31, q))[t]
        == unit_vec(31, nc_dst()(p, q))[t] by {
        lemma_psum_units(p, q, t, 31, 0);
    }
    assert(FreeNc.spec_mul(unit_vec(31, p), unit_vec(31, q)) =~= unit_vec(31, nc_dst()(p, q)));
}

/// Appending `a` to word `p` gives word `2p + 1`, appending `b` gives
/// word `2p + 2`.
proof fn lemma_append_letter(p: int)
    requires
        0 <= p < 15,
    ensures
        nc_dst()(p, 1) == 2 * p + 1,
        nc_dst()(p, 2) == 2 * p + 2,
{
    lemma2_to64();
    let len = spec_word_len(p as nat);
    lemma_pow2_unfold(len + 1);
    assert(pow2(len) <= p + 1);
    assert(spec_word_len(1) == 1 && spec_word_bits(1) == 0);
    assert(spec_word_len(2) == 1 && spec_word_bits(2) == 1);
    assert(spec_word_bits(p as nat) == p + 1 - pow2(len));
}

/// The word values of the generators are the words themselves.
proof fn lemma_generic_words(idx: nat)
    requires
        idx < 31,
    ensures
        word_val(&FreeNc, unit_vec(31, 1), unit_vec(31, 2), idx) == unit_vec(31, idx as int),
    decreases idx,
{
    if idx > 0 {
        let p = ((idx - 1) / 2) as nat;
        lemma_generic_words(p);
        lemma_append_letter(p as int);
        if idx % 2 == 1 {
            lemma_unit_mul(p as int, 1);
        } else {
            lemma_unit_mul(p as int, 2);
        }
    }
}

proof fn lemma_comb_prefix_any<R: RingOps>(ring: &R, t1: Seq<(u8, i32)>, t2: Seq<(u8, i32)>, words: Seq<Seq<int>>, n: nat)
    requires
        n <= t1.len(),
        n <= t2.len(),
        forall|q: int| 0 <= q < n ==> t1[q] == t2[q],
    ensures
        comb(ring, t1, words, n) == comb(ring, t2, words, n),
    decreases n,
{
    if n > 0 {
        lemma_comb_prefix_any(ring, t1, t2, words, (n - 1) as nat);
    }
}

/// Over the generic words, summing the sparse terms of `c` gives `c`
/// itself.
proof fn lemma_generic_comb(c: Seq<i32>, u: nat, q: int)
    requires
        u <= 31,
        c.len() >= 31,
        0 <= q < 31,
    ensures
        comb(&FreeNc, sparse(c, u), words_spec(&FreeNc, unit_vec(31, 1), unit_vec(31, 2)), sparse(c, u).len())[q] == if q
            < u {
            c[q] as int
        } else {
            0
        },
    decreases u,
{
    let words = words_spec(&FreeNc, unit_vec(31, 1), unit_vec(31, 2));
    if u > 0 {
        lemma_generic_comb(c, (u - 1) as nat, q);
        let s = sparse(c, (u - 1) as nat);
        let w = (u - 1) as int;
        if c[w] != 0 {
            let x = (w as u8, c[w]);
            let t = s.push(x);
            assert(sparse(c, u) == t);
            lemma_comb_prefix_any(&FreeNc, t, s, words, s.len());
            assert(t[s.len() as int] == x);
            lemma_generic_words(w as nat);
            assert(words[w] == unit_vec(31, w));
        }
    }
}

/// Every coefficient of every difference polynomial of the law is zero.
pub open spec fn identically_zero(d: LawDiff) -> bool {
    forall|v: int, w: int| 0 <= v < d.diffs@.len() && 0 <= w < 31 ==> #[trigger] d.diffs@[v].c@[w] == 0
}

/// A law holds in the generic noncommutative linear magma, `Z<a, b>` with
/// `a` and `b` the generators, exactly when its difference polynomials
/// vanish identically.
pub proof fn lemma_generic_holds_iff_identity(d: LawDiff, law: Law)
    requires
        d.describes(law),
    ensures
        law_vanishes(&FreeNc, d.terms@, words_spec(&FreeNc, unit_vec(31, 1), unit_vec(31, 2)))
            <==> identically_zero(d),
{
    let words = words_spec(&FreeNc, unit_vec(31, 1), unit_vec(31, 2));
    assert forall|v: int| 0 <= v < d.terms@.len() implies (terms_vanish(&FreeNc, (#[trigger] d.terms@[v])@, words)
        <==> forall|w: int| 0 <= w < 31 ==> #[trigger] d.diffs@[v].c@[w] == 0) by {
        let c = d.diffs@[v].c@;
        let cm = comb(&FreeNc, sparse(c, 31), words, sparse(c, 31).len());
        assert(d.terms@[v]@ == sparse(c, 31));
        assert forall|q: int| 0 <= q < 31 implies #[trigger] cm[q] == c[q] as int by {
            lemma_generic_comb(c, 31, q);
        }
        if terms_vanish(&FreeNc, d.terms@[v]@, words) {
            assert forall|w: int| 0 <= w < 31 implies #[trigger] d.diffs@[v].c@[w] == 0 by {
                assert(cm[w] == 0);
            }
        }
        if forall|w: int| 0 <= w < 31 ==> #[trigger] d.diffs@[v].c@[w] == 0 {
            assert forall|q: int| 0 <= q < 31 implies #[trigger] cm[q] == 0 by {
                assert(d.diffs@[v].c@[q] == 0);
            }
        }
    }
    if law_vanishes(&FreeNc, d.terms@, words) {
        assert forall|v: int, w: int| 0 <= v < d.diffs@.len() && 0 <= w < 31 implies #[trigger] d.diffs@[v].c@[w] == 0 by {
            assert(terms_vanish(&FreeNc, d.terms@[v]@, words));
        }
    }
    if identically_zero(d) {
        assert forall|v: int| 0 <= v < d.terms@.len() implies terms_vanish(&FreeNc, (#[trigger] d.terms@[v])@, words) by {
            assert forall|w: int| 0 <= w < 31 implies #[trigger] d.diffs@[v].c@[w] == 0 by {}
        }
    }
}

/// With every coefficient zero there are no terms to sum.
proof fn lemma_sparse_of_zero(c: Seq<i32>, u: nat)
    requires
        u <= c.len(),
        forall|w: int| 0 <= w < u ==> c[w] == 0,
    ensures
        sparse(c, u) == Seq::<(u8, i32)>::empty(),
    decreases u,
{
    if u > 0 {
        lemma_sparse_of_zero(c, (u - 1) as nat);
    }
}

/// A law that holds in the generic noncommutative linear magma holds in
/// every linear model, over any ring whose zero tests as zero, whatever its
/// coefficients: the generic model's signature is contained in every
/// specialisation's.
pub proof fn lemma_generic_is_contained<R: RingOps>(ring: &R, d: LawDiff, law: Law, ws: Seq<Seq<int>>)
    requires
        d.describes(law),
        ring.spec_is_zero(ring.spec_zero()),
        law_vanishes(&FreeNc, d.terms@, words_spec(&FreeNc, unit_vec(31, 1), unit_vec(31, 2))),
    ensures
        law_vanishes(ring, d.terms@, ws),
{
    lemma_generic_holds_iff_identity(d, law);
    assert forall|v: int| 0 <= v < d.terms@.len() implies terms_vanish(ring, (#[trigger] d.terms@[v])@, ws) by {
        let c = d.diffs@[v].c@;
        assert(d.terms@[v]@ == sparse(c, 31));
        assert forall|w: int| 0 <= w < 31 implies c[w] == 0 by {
            assert(d.diffs@[v].c@[w] == 0);
        }
        lemma_sparse_of_zero(c, 31);
    }
}

} // verus!

verus! {

/// Multiplying word `p` of length at most three by a generator fits.
proof fn lemma_nc_step_fits(idx: nat)
    requires
        1 <= idx < 31,
    ensures
        step_fits(&FreeNc, unit_vec(31, 1), unit_vec(31, 2), idx),
{
    let p = ((idx - 1) / 2) as nat;
    lemma_generic_words(p);
    let g: int = if idx % 2 == 1 {
        1
    } else {
        2
    };
    let x = unit_vec(31, p as int);
    let y = unit_vec(31, g);
    lemma2_to64();
    assert forall|i: int, j: int| 0 <= i < 31 && 0 <= j < 31 && #[trigger] x[i] != 0 && #[trigger] y[j] != 0 implies spec_word_len(
        i as nat,
    ) + spec_word_len(j as nat) <= MAX_DEG by {
        assert(i == p && j == g);
    }
    assert forall|i: int, j: int| 0 <= i < x.len() && 0 <= j < y.len() implies #[trigger] in_i128(x[i] * y[j]) by {
        let (xi, yj) = (x[i], y[j]);
        assert(0 <= xi * yj <= 1) by (nonlinear_arith)
            requires
                0 <= xi <= 1,
                0 <= yj <= 1,
        ;
    }
    assert forall|t: int, i: nat, j: nat|
        0 <= t < 31 && ((i < x.len() && j <= y.len()) || (i == x.len() && j == 0)) implies #[trigger] in_i128(
        psum(x, y, nc_dst(), unit_sgn(), t, i, j, y.len()),
    ) by {
        lemma_psum_units(p as int, g, t, i, j);
    }
}

/// Partial sums over the generic words grow by at most `2^31` an entry a
/// term.
proof fn lemma_nc_comb(t: Seq<(u8, i32)>, n: nat)
    requires
        n <= t.len(),
        forall|q: int| 0 <= q < t.len() ==> (#[trigger] t[q]).0 < 31,
    ensures
        comb(&FreeNc, t, words_spec(&FreeNc, unit_vec(31, 1), unit_vec(31, 2)), n).len() == 31,
        forall|q: int|
            0 <= q < 31 ==> -n * 0x8000_0000 <= #[trigger] comb(
                &FreeNc,
                t,
                words_spec(&FreeNc, unit_vec(31, 1), unit_vec(31, 2)),
                n,
            )[q] <= n * 0x8000_0000,
    decreases n,
{
    if n > 0 {
        let ws = words_spec(&FreeNc, unit_vec(31, 1), unit_vec(31, 2));
        lemma_nc_comb(t, (n - 1) as nat);
        let w = t[n - 1].0 as int;
        assert(w < 31);
        lemma_generic_words(w as nat);
        assert(ws[w] == unit_vec(31, w));
        let k = t[n - 1].1 as int;
        assert forall|q: int| 0 <= q < 31 implies -n * 0x8000_0000 <= #[trigger] comb(&FreeNc, t, ws, n)[q] <= n
            * 0x8000_0000 by {
            let xq = ws[w][q];
            assert(-0x8000_0000 <= k * xq <= 0x8000_0000) by (nonlinear_arith)
                requires
                    -0x8000_0000 <= k < 0x8000_0000,
                    0 <= xq <= 1,
            ;
        }
    }
}

/// Every step of a sparse polynomial of at most 31 terms fits over the
/// generic words.
proof fn lemma_nc_comb_fits(t: Seq<(u8, i32)>)
    requires
        t.len() <= 31,
        forall|q: int| 0 <= q < t.len() ==> (#[trigger] t[q]).0 < 31,
    ensures
        comb_fits(&FreeNc, t, words_spec(&FreeNc, unit_vec(31, 1), unit_vec(31, 2))),
{
    let ws = words_spec(&FreeNc, unit_vec(31, 1), unit_vec(31, 2));
    assert forall|n: nat| n < t.len() implies #[trigger] FreeNc.scale_fits(
        comb(&FreeNc, t, ws, n),
        t[n as int].1 as int,
        ws[t[n as int].0 as int],
    ) by {
        lemma_nc_comb(t, n);
        let w = t[n as int].0 as int;
        lemma_generic_words(w as nat);
        let k = t[n as int].1 as int;
        assert forall|q: int| 0 <= q < comb(&FreeNc, t, ws, n).len() implies in_i128(k * #[trigger] ws[w][q]) && in_i128(
            comb(&FreeNc, t, ws, n)[q] + k * ws[w][q],
        ) by {
            let xq = ws[w][q];
            assert(-0x8000_0000 <= k * xq <= 0x8000_0000) by (nonlinear_arith)
                requires
                    -0x8000_0000 <= k < 0x8000_0000,
                    0 <= xq <= 1,
            ;
            assert(n * 0x8000_0000 <= 31 * 0x8000_0000) by (nonlinear_arith)
                requires
                    n <= 31,
            ;
        }
    }
}

/// The generic noncommutative model, `Z<a, b>` at its generators, can be
/// evaluated within `i128` for every list that `LinearLaws::build` made.
pub proof fn lemma_nc_generic_fits(ll: &LinearLaws)
    requires
        laws_indexed(ll),
        terms_short(ll),
    ensures
        linear_fits(&FreeNc, unit_vec(31, 1), unit_vec(31, 2), ll),
{
    assert forall|idx: nat| 1 <= idx < N_WORDS implies #[trigger] step_fits(&FreeNc, unit_vec(31, 1), unit_vec(31, 2), idx) by {
        lemma_nc_step_fits(idx);
    }
    let ws = words_spec(&FreeNc, unit_vec(31, 1), unit_vec(31, 2));
    assert forall|i: int| 0 <= i < ll.laws@.len() implies law_fits(&FreeNc, (#[trigger] ll.laws@[i]).terms@, ws) by {
        assert forall|v: int| 0 <= v < ll.laws@[i].terms@.len() implies comb_fits(
            &FreeNc,
            (#[trigger] ll.laws@[i].terms@[v])@,
            ws,
        ) by {
            lemma_nc_comb_fits(ll.laws@[i].terms@[v]@);
        }
    }
}

} // verus!

verus! {

/// `s` at slot `p` among 15, zero elsewhere.
pub open spec fn signed_unit(s: int, p: int) -> Seq<int> {
    Seq::new(15, |q: int| if q == p { s } else { 0int })
}

/// The product of a signed unit vector and a unit vector, over the pairs
/// before `(i, j)`.
proof fn lemma_psum_signed_units(
    s: int,
    p: int,
    q: int,
    dst: spec_fn(int, int) -> int,
    sgn: spec_fn(int, int) -> int,
    t: int,
    i: nat,
    j: nat,
)
    requires
        0 <= p < 15,
        0 <= q < 15,
        i <= 15,
        j <= 15,
        i == 15 ==> j == 0,
    ensures
        psum(signed_unit(s, p), unit_vec(15, q), dst, sgn, t, i, j, 15) == if (p < i || (p == i && q < j)) && dst(p, q)
            == t {
            sgn(p, q) * s
        } else {
            0int
        },
    decreases i, j,
{
    let x = signed_unit(s, p);
    let y = unit_vec(15, q);
    if j > 0 {
        lemma_psum_signed_units(s, p, q, dst, sgn, t, i, (j - 1) as nat);
        let r = i as int;
        let c = j - 1;
        if r == p && c == q {
            assert(x[r] == s && y[c] == 1);
            assert(sgn(r, c) * s * 1 == sgn(p, q) * s) by (nonlinear_arith)
                requires
                    r == p && c == q,
            ;
        } else if r != p {
            assert(x[r] == 0);
            assert(sgn(r, c) * x[r] * y[c] == 0) by (nonlinear_arith)
                requires
                    x[r] == 0,
            ;
        } else {
            assert(y[c] == 0);
            assert(sgn(r, c) * x[r] * y[c] == 0) by (nonlinear_arith)
                requires
                    y[c] == 0,
            ;
        }
    } else if i > 0 {
        lemma_psum_signed_units(s, p, q, dst, sgn, t, (i - 1) as nat, 15);
    }
}

/// A monomial index of total degree at most four names that total.
proof fn lemma_monomial_total(da: int, db: int)
    requires
        0 <= da,
        0 <= db,
        da + db <= 4,
    ensures
        mono_total(spec_monomial_index(da as nat, db as nat) as int) == da + db,
        spec_monomial_index(da as nat, db as nat) < 15,
{
    let a = da as nat;
    let b = db as nat;
    let t = a + b;
    let tri = t * (t + 1) / 2;
    assert(spec_monomial_index(a, b) == tri + b);
    if t == 0 {
        assert(tri == 0) by (nonlinear_arith)
            requires
                t == 0,
                tri == t * (t + 1) / 2,
        ;
    } else if t == 1 {
        assert(tri == 1) by (nonlinear_arith)
            requires
                t == 1,
                tri == t * (t + 1) / 2,
        ;
    } else if t == 2 {
        assert(tri == 3) by (nonlinear_arith)
            requires
                t == 2,
                tri == t * (t + 1) / 2,
        ;
    } else if t == 3 {
        assert(tri == 6) by (nonlinear_arith)
            requires
                t == 3,
                tri == t * (t + 1) / 2,
        ;
    } else {
        assert(tri == 10) by (nonlinear_arith)
            requires
                t == 4,
                tri == t * (t + 1) / 2,
        ;
    }
}

/// The degrees of a monomial slot add up to its total.
proof fn lemma_mono_deg(m: int)
    requires
        0 <= m < 15,
    ensures
        0 <= mono_deg(m).0,
        0 <= mono_deg(m).1,
        mono_deg(m).0 + mono_deg(m).1 == mono_total(m),
        mono_total(m) <= 4,
{
    let d = mono_total(m);
    if m < 1 {
        assert(d * (d + 1) / 2 == 0);
    } else if m < 3 {
        assert(d * (d + 1) / 2 == 1);
    } else if m < 6 {
        assert(d * (d + 1) / 2 == 3);
    } else if m < 10 {
        assert(d * (d + 1) / 2 == 6);
    } else {
        assert(d * (d + 1) / 2 == 10);
    }
}

/// The word at `idx` over `Z[a, b]`, as a monomial slot.
pub open spec fn comm_word(idx: nat) -> int
    decreases idx,
{
    if idx == 0 {
        0
    } else {
        let p = ((idx - 1) / 2) as nat;
        comm_dst()(comm_word(p), if idx % 2 == 1 { 1int } else { 2int })
    }
}

proof fn lemma_comm_words(idx: nat)
    requires
        idx < 31,
    ensures
        0 <= comm_word(idx) < 15,
        mono_total(comm_word(idx)) == spec_word_len(idx),
        word_val(&FreeComm, unit_vec(15, 1), unit_vec(15, 2), idx) == unit_vec(15, comm_word(idx)),
        idx >= 1 ==> step_fits(&FreeComm, unit_vec(15, 1), unit_vec(15, 2), idx),
    decreases idx,
{
    if idx > 0 {
        let p = ((idx - 1) / 2) as nat;
        lemma_comm_words(p);
        let g: int = if idx % 2 == 1 {
            1
        } else {
            2
        };
        let m = comm_word(p);
        let x = unit_vec(15, m);
        let y = unit_vec(15, g);
        assert(mono_deg(g) == if g == 1 { (1int, 0int) } else { (0int, 1int) });
        let d = mono_deg(m);
        lemma_mono_deg(m);
        lemma_monomial_total(d.0 + mono_deg(g).0, d.1 + mono_deg(g).1);
        assert(signed_unit(1, m) =~= x);
        assert forall|t: int| 0 <= t < 15 implies #[trigger] FreeComm.spec_mul(x, y)[t] == unit_vec(15, comm_word(idx))[t] by {
            lemma_psum_signed_units(1, m, g, comm_dst(), unit_sgn(), t, 15, 0);
        }
        assert(FreeComm.spec_mul(x, y) =~= unit_vec(15, comm_word(idx)));
        assert forall|i: int, j: int| 0 <= i < 15 && 0 <= j < 15 && #[trigger] x[i] != 0 && #[trigger] y[j] != 0 implies mono_total(i)
            + mono_total(j) <= MAX_DEG by {
            assert(i == m && j == g);
        }
        assert forall|i: int, j: int| 0 <= i < x.len() && 0 <= j < y.len() implies #[trigger] in_i128(x[i] * y[j]) by {
            let (xi, yj) = (x[i], y[j]);
            assert(0 <= xi * yj <= 1) by (nonlinear_arith)
                requires
                    0 <= xi <= 1,
                    0 <= yj <= 1,
            ;
        }
        assert forall|t: int, i: nat, j: nat|
            0 <= t < 15 && ((i < x.len() && j <= y.len()) || (i == x.len() && j == 0)) implies #[trigger] in_i128(
            psum(x, y, comm_dst(), unit_sgn(), t, i, j, y.len()),
        ) by {
            lemma_psum_signed_units(1, m, g, comm_dst(), unit_sgn(), t, i, j);
        }
    }
}

} // verus!

verus! {

/// The word at `idx` over `Z<a,b>/(ba+1)`, as a sign and a monomial slot.
pub open spec fn osi_word(idx: nat) -> (int, int)
    decreases idx,
{
    if idx == 0 {
        (1, 0)
    } else {
        let p = ((idx - 1) / 2) as nat;
        let g: int = if idx % 2 == 1 {
            1
        } else {
            2
        };
        let (s, m) = osi_word(p);
        (s * osi_sgn()(m, g), osi_dst()(m, g))
    }
}

proof fn lemma_osi_words(idx: nat)
    requires
        idx < 31,
    ensures
        osi_word(idx).0 == 1 || osi_word(idx).0 == -1,
        0 <= osi_word(idx).1 < 15,
        mono_total(osi_word(idx).1) <= spec_word_len(idx),
        word_val(&OneSidedInverse, unit_vec(15, 1), unit_vec(15, 2), idx) == signed_unit(osi_word(idx).0, osi_word(idx).1),
        idx >= 1 ==> step_fits(&OneSidedInverse, unit_vec(15, 1), unit_vec(15, 2), idx),
    decreases idx,
{
    if idx == 0 {
        assert(signed_unit(1, 0) =~= unit_vec(15, 0));
    } else {
        let p = ((idx - 1) / 2) as nat;
        lemma_osi_words(p);
        lemma2_to64();
        let g: int = if idx % 2 == 1 {
            1
        } else {
            2
        };
        let (s, m) = osi_word(p);
        let x = signed_unit(s, m);
        let y = unit_vec(15, g);
        assert(mono_deg(g) == if g == 1 { (1int, 0int) } else { (0int, 1int) });
        lemma_mono_deg(m);
        let dm = mono_deg(m);
        let dg = mono_deg(g);
        let r = osi_parts(dm.0, dm.1, dg.0, dg.1);
        assert(r.0 == 1 || r.0 == -1);
        assert(0 <= r.1 && 0 <= r.2 && r.1 + r.2 <= mono_total(m) + 1);
        lemma_monomial_total(r.1, r.2);
        assert(osi_dst()(m, g) == spec_monomial_index(r.1 as nat, r.2 as nat) as int);
        assert(osi_sgn()(m, g) == r.0);
        assert(s * r.0 == 1 || s * r.0 == -1) by (nonlinear_arith)
            requires
                s == 1 || s == -1,
                r.0 == 1 || r.0 == -1,
        ;
        assert forall|t: int| 0 <= t < 15 implies #[trigger] OneSidedInverse.spec_mul(x, y)[t] == signed_unit(
            s * r.0,
            osi_dst()(m, g),
        )[t] by {
            lemma_psum_signed_units(s, m, g, osi_dst(), osi_sgn(), t, 15, 0);
            assert(r.0 * s == s * r.0) by (nonlinear_arith);
        }
        assert(OneSidedInverse.spec_mul(x, y) =~= signed_unit(s * r.0, osi_dst()(m, g)));
        assert forall|n: int, q: int|
            0 <= n < 15 && 0 <= q < 15 && #[trigger] x[n] != 0 && #[trigger] y[q] != 0 implies {
            let rr = osi_parts(mono_deg(n).0, mono_deg(n).1, mono_deg(q).0, mono_deg(q).1);
            &&& rr.1 + rr.2 <= MAX_DEG
            &&& in_i128(rr.0 * x[n])
            &&& in_i128(rr.0 * x[n] * y[q])
        } by {
            assert(n == m && q == g);
            assert(-1 <= r.0 * s <= 1 && -1 <= r.0 * s * 1 <= 1) by (nonlinear_arith)
                requires
                    s == 1 || s == -1,
                    r.0 == 1 || r.0 == -1,
            ;
        }
        assert forall|i: int, j: int| 0 <= i < x.len() && 0 <= j < y.len() implies #[trigger] in_i128(x[i] * y[j]) by {
            let (xi, yj) = (x[i], y[j]);
            assert(-1 <= xi * yj <= 1) by (nonlinear_arith)
                requires
                    -1 <= xi <= 1,
                    0 <= yj <= 1,
            ;
        }
        assert forall|t: int, i: nat, j: nat|
            0 <= t < 15 && ((i < x.len() && j <= y.len()) || (i == x.len() && j == 0)) implies #[trigger] in_i128(
            psum(x, y, osi_dst(), osi_sgn(), t, i, j, y.len()),
        ) by {
            lemma_psum_signed_units(s, m, g, osi_dst(), osi_sgn(), t, i, j);
            assert(-1 <= osi_sgn()(m, g) * s <= 1) by (nonlinear_arith)
                requires
                    s == 1 || s == -1,
                    osi_sgn()(m, g) == 1 || osi_sgn()(m, g) == -1,
            ;
        }
    }
}

} // verus!

verus! {

/// Fifteen entries, each in `[-1, 1]`.
pub open spec fn small_entries(x: Seq<int>) -> bool {
    x.len() == 15 && forall|q: int| 0 <= q < 15 ==> -1 <= #[trigger] x[q] <= 1
}

proof fn lemma_comm_comb(t: Seq<(u8, i32)>, ws: Seq<Seq<int>>, n: nat)
    requires
        n <= t.len(),
        ws.len() == 31,
        forall|i: int| 0 <= i < 31 ==> small_entries(#[trigger] ws[i]),
        forall|q: int| 0 <= q < t.len() ==> (#[trigger] t[q]).0 < 31,
    ensures
        comb(&FreeComm, t, ws, n).len() == 15,
        forall|q: int| 0 <= q < 15 ==> -n * 0x8000_0000 <= #[trigger] comb(&FreeComm, t, ws, n)[q] <= n * 0x8000_0000,
    decreases n,
{
    if n > 0 {
        lemma_comm_comb(t, ws, (n - 1) as nat);
        let w = t[n - 1].0 as int;
        assert(w < 31);
        let k = t[n - 1].1 as int;
        assert forall|q: int| 0 <= q < 15 implies -n * 0x8000_0000 <= #[trigger] comb(&FreeComm, t, ws, n)[q] <= n * 0x8000_0000 by {
            let xq = ws[w][q];
            assert(-0x8000_0000 <= k * xq <= 0x8000_0000) by (nonlinear_arith)
                requires
                    -0x8000_0000 <= k < 0x8000_0000,
                    -1 <= xq <= 1,
            ;
        }
    }
}

proof fn lemma_comm_comb_fits(t: Seq<(u8, i32)>, ws: Seq<Seq<int>>)
    requires
        t.len() <= 31,
        ws.len() == 31,
        forall|i: int| 0 <= i < 31 ==> small_entries(#[trigger] ws[i]),
        forall|q: int| 0 <= q < t.len() ==> (#[trigger] t[q]).0 < 31,
    ensures
        comb_fits(&FreeComm, t, ws),
{
    assert forall|n: nat| n < t.len() implies #[trigger] FreeComm.scale_fits(
        comb(&FreeComm, t, ws, n),
        t[n as int].1 as int,
        ws[t[n as int].0 as int],
    ) by {
        lemma_comm_comb(t, ws, n);
        let w = t[n as int].0 as int;
        let k = t[n as int].1 as int;
        assert forall|q: int| 0 <= q < comb(&FreeComm, t, ws, n).len() implies in_i128(k * #[trigger] ws[w][q]) && in_i128(
            comb(&FreeComm, t, ws, n)[q] + k * ws[w][q],
        ) by {
            let xq = ws[w][q];
            assert(-0x8000_0000 <= k * xq <= 0x8000_0000) by (nonlinear_arith)
                requires
                    -0x8000_0000 <= k < 0x8000_0000,
                    -1 <= xq <= 1,
            ;
            assert(n * 0x8000_0000 <= 31 * 0x8000_0000) by (nonlinear_arith)
                requires
                    n <= 31,
            ;
        }
    }
}

proof fn lemma_osi_comb(t: Seq<(u8, i32)>, ws: Seq<Seq<int>>, n: nat)
    requires
        n <= t.len(),
        ws.len() == 31,
        forall|i: int| 0 <= i < 31 ==> small_entries(#[trigger] ws[i]),
        forall|q: int| 0 <= q < t.len() ==> (#[trigger] t[q]).0 < 31,
    ensures
        comb(&OneSidedInverse, t, ws, n).len() == 15,
        forall|q: int| 0 <= q < 15 ==> -n * 0x8000_0000 <= #[trigger] comb(&OneSidedInverse, t, ws, n)[q] <= n * 0x8000_0000,
    decreases n,
{
    if n > 0 {
        lemma_osi_comb(t, ws, (n - 1) as nat);
        let w = t[n - 1].0 as int;
        assert(w < 31);
        let k = t[n - 1].1 as int;
        assert forall|q: int| 0 <= q < 15 implies -n * 0x8000_0000 <= #[trigger] comb(&OneSidedInverse, t, ws, n)[q] <= n * 0x8000_0000 by {
            let xq = ws[w][q];
            assert(-0x8000_0000 <= k * xq <= 0x8000_0000) by (nonlinear_arith)
                requires
                    -0x8000_0000 <= k < 0x8000_0000,
                    -1 <= xq <= 1,
            ;
        }
    }
}

proof fn lemma_osi_comb_fits(t: Seq<(u8, i32)>, ws: Seq<Seq<int>>)
    requires
        t.len() <= 31,
        ws.len() == 31,
        forall|i: int| 0 <= i < 31 ==> small_entries(#[trigger] ws[i]),
        forall|q: int| 0 <= q < t.len() ==> (#[trigger] t[q]).0 < 31,
    ensures
        comb_fits(&OneSidedInverse, t, ws),
{
    assert forall|n: nat| n < t.len() implies #[trigger] OneSidedInverse.scale_fits(
        comb(&OneSidedInverse, t, ws, n),
        t[n as int].1 as int,
        ws[t[n as int].0 as int],
    ) by {
        lemma_osi_comb(t, ws, n);
        let w = t[n as int].0 as int;
        let k = t[n as int].1 as int;
        assert forall|q: int| 0 <= q < comb(&OneSidedInverse, t, ws, n).len() implies in_i128(k * #[trigger] ws[w][q]) && in_i128(
            comb(&OneSidedInverse, t, ws, n)[q] + k * ws[w][q],
        ) by {
            let xq = ws[w][q];
            assert(-0x8000_0000 <= k * xq <= 0x8000_0000) by (nonlinear_arith)
                requires
                    -0x8000_0000 <= k < 0x8000_0000,
                    -1 <= xq <= 1,
            ;
            assert(n * 0x8000_0000 <= 31 * 0x8000_0000) by (nonlinear_arith)
                requires
                    n <= 31,
            ;
        }
    }
}

/// The generic linear models, `Z[a, b]`, `Z<a, b>` and `Z<a, b>/(ba+1)` at
/// their generators, can be evaluated within `i128` for every list that
/// `LinearLaws::build` made.
pub proof fn lemma_generic_fits(ll: &LinearLaws)
    requires
        laws_indexed(ll),
        terms_short(ll),
    ensures
        generic_fits(ll),
{
    lemma_nc_generic_fits(ll);
    let wc = words_spec(&FreeComm, unit_vec(15, 1), unit_vec(15, 2));
    let wo = words_spec(&OneSidedInverse, unit_vec(15, 1), unit_vec(15, 2));
    assert forall|idx: nat| 1 <= idx < N_WORDS implies #[trigger] step_fits(&FreeComm, unit_vec(15, 1), unit_vec(15, 2), idx)
        by {
        lemma_comm_words(idx);
    }
    assert forall|idx: nat| 1 <= idx < N_WORDS implies #[trigger] step_fits(
        &OneSidedInverse,
        unit_vec(15, 1),
        unit_vec(15, 2),
        idx,
    ) by {
        lemma_osi_words(idx);
    }
    assert forall|i: int| 0 <= i < 31 implies small_entries(#[trigger] wc[i]) by {
        lemma_comm_words(i as nat);
    }
    assert forall|i: int| 0 <= i < 31 implies small_entries(#[trigger] wo[i]) by {
        lemma_osi_words(i as nat);
    }
    assert forall|i: int| 0 <= i < ll.laws@.len() implies law_fits(&FreeComm, (#[trigger] ll.laws@[i]).terms@, wc) by {
        assert forall|v: int| 0 <= v < ll.laws@[i].terms@.len() implies comb_fits(
            &FreeComm,
            (#[trigger] ll.laws@[i].terms@[v])@,
            wc,
        ) by {
            lemma_comm_comb_fits(ll.laws@[i].terms@[v]@, wc);
        }
    }
    assert forall|i: int| 0 <= i < ll.laws@.len() implies law_fits(&OneSidedInverse, (#[trigger] ll.laws@[i]).terms@, wo) by {
        assert forall|v: int| 0 <= v < ll.laws@[i].terms@.len() implies comb_fits(
            &OneSidedInverse,
            (#[trigger] ll.laws@[i].terms@[v])@,
            wo,
        ) by {
            lemma_osi_comb_fits(ll.laws@[i].terms@[v]@, wo);
        }
    }
}

} // verus!

verus! {

/// A monomial slot of total degree at most four gives back its degrees.
proof fn lemma_monomial_round_trip(da: int, db: int)
    requires
        0 <= da,
        0 <= db,
        da + db <= 4,
    ensures
        mono_deg(spec_monomial_index(da as nat, db as nat) as int) == (da, db),
{
    lemma_monomial_total(da, db);
    let idx = spec_monomial_index(da as nat, db as nat) as int;
    let t = da + db;
    let d = mono_total(idx);
    assert(d == t);
    let a = da as nat;
    let b = db as nat;
    assert(spec_monomial_index(a, b) == (a + b) * (a + b + 1) / 2 + b);
    assert(d * (d + 1) / 2 == (a + b) * (a + b + 1) / 2);
}

/// A signed unit vector times a unit vector is the signed unit vector at
/// the product's slot.
proof fn lemma_osi_mul_units(s: int, p: int, q: int)
    requires
        0 <= p < 15,
        0 <= q < 15,
    ensures
        OneSidedInverse.spec_mul(signed_unit(s, p), unit_vec(15, q)) == signed_unit(osi_sgn()(p, q) * s, osi_dst()(p, q)),
{
    assert forall|t: int| 0 <= t < 15 implies #[trigger] OneSidedInverse.spec_mul(signed_unit(s, p), unit_vec(15, q))[t]
        == signed_unit(osi_sgn()(p, q) * s, osi_dst()(p, q))[t] by {
        lemma_psum_signed_units(s, p, q, osi_dst(), osi_sgn(), t, 15, 0);
    }
    assert(OneSidedInverse.spec_mul(signed_unit(s, p), unit_vec(15, q)) =~= signed_unit(
        osi_sgn()(p, q) * s,
        osi_dst()(p, q),
    ));
}

/// The defining relation of the shift-operator ring `Z<a,b>/(ba+1)`: the
/// generator `b` times the generator `a` is minus the identity, `ba + 1 = 0`.
pub proof fn lemma_osi_ba_plus_one_is_zero()
    ensures
        OneSidedInverse.spec_add(OneSidedInverse.spec_mul(unit_vec(15, 2), unit_vec(15, 1)), OneSidedInverse.spec_one())
            == OneSidedInverse.spec_zero(),
{
    assert(signed_unit(1, 2) =~= unit_vec(15, 2));
    lemma_osi_mul_units(1, 2, 1);
    assert(mono_deg(2) == (0int, 1int));
    assert(mono_deg(1) == (1int, 0int));
    assert(osi_parts(0, 1, 1, 0) == (-1int, 0int, 0int));
    assert(spec_monomial_index(0, 0) == 0) by (nonlinear_arith);
    assert(osi_dst()(2, 1) == 0);
    assert(osi_sgn()(2, 1) == -1);
    assert(OneSidedInverse.spec_add(OneSidedInverse.spec_mul(unit_vec(15, 2), unit_vec(15, 1)), OneSidedInverse.spec_one())
        =~= OneSidedInverse.spec_zero());
}

/// In the other order the generators do not cancel: `ab` has no constant
/// term, so `b` is a one-sided inverse of `-a` and nothing more.
pub proof fn lemma_osi_ab_is_not_scalar()
    ensures
        OneSidedInverse.spec_mul(unit_vec(15, 1), unit_vec(15, 2))[0] == 0,
        OneSidedInverse.spec_mul(unit_vec(15, 1), unit_vec(15, 2)) != OneSidedInverse.spec_zero(),
{
    assert(signed_unit(1, 1) =~= unit_vec(15, 1));
    lemma_osi_mul_units(1, 1, 2);
    assert(mono_deg(1) == (1int, 0int));
    assert(mono_deg(2) == (0int, 1int));
    lemma_monomial_total(1, 1);
    assert(osi_parts(1, 0, 0, 1) == (1int, 1int, 1int));
    assert(spec_monomial_index(1, 1) == 4) by (nonlinear_arith);
    assert(osi_dst()(1, 2) == 4);
    assert(OneSidedInverse.spec_mul(unit_vec(15, 1), unit_vec(15, 2))[4] == 1);
}

/// Multiplying any monomial of degree at most three on the right by `b` and
/// then by `a` negates it: `x(ba) = -x`.
pub proof fn lemma_osi_right_ba_negates(n: int)
    requires
        0 <= n < 15,
        mono_total(n) <= 3,
    ensures
        OneSidedInverse.spec_mul(OneSidedInverse.spec_mul(unit_vec(15, n), unit_vec(15, 2)), unit_vec(15, 1)) == signed_unit(
            -1,
            n,
        ),
{
    lemma_mono_deg(n);
    let (i, j) = mono_deg(n);
    assert(mono_deg(2) == (0int, 1int));
    assert(mono_deg(1) == (1int, 0int));
    assert(signed_unit(1, n) =~= unit_vec(15, n));
    lemma_osi_mul_units(1, n, 2);
    let n2 = osi_dst()(n, 2);
    assert(osi_sgn()(n, 2) == 1);
    assert(n2 == spec_monomial_index(i as nat, (j + 1) as nat) as int);
    lemma_monomial_total(i, j + 1);
    lemma_monomial_round_trip(i, j + 1);
    lemma_osi_mul_units(1, n2, 1);
    assert(osi_sgn()(n2, 1) == -1);
    assert(osi_dst()(n2, 1) == spec_monomial_index(i as nat, j as nat) as int);
    lemma_monomial_total(i, j);
    // `n` is the slot of its own degrees.
    let t = i + j;
    assert(mono_total(n) == t);
    let tri = t * (t + 1) / 2;
    assert(n == tri + j);
    assert(spec_monomial_index(i as nat, j as nat) == tri + j);
}

} // verus!

verus! {

/// The product of two signed unit vectors, over the pairs before `(i, j)`.
proof fn lemma_psum_two_signed(
    s: int,
    p: int,
    u: int,
    q: int,
    dst: spec_fn(int, int) -> int,
    sgn: spec_fn(int, int) -> int,
    t: int,
    i: nat,
    j: nat,
)
    requires
        0 <= p < 15,
        0 <= q < 15,
        i <= 15,
        j <= 15,
        i == 15 ==> j == 0,
    ensures
        psum(signed_unit(s, p), signed_unit(u, q), dst, sgn, t, i, j, 15) == if (p < i || (p == i && q < j)) && dst(p, q)
            == t {
            sgn(p, q) * s * u
        } else {
            0int
        },
    decreases i, j,
{
    let x = signed_unit(s, p);
    let y = signed_unit(u, q);
    if j > 0 {
        lemma_psum_two_signed(s, p, u, q, dst, sgn, t, i, (j - 1) as nat);
        let r = i as int;
        let c = j - 1;
        if r == p && c == q {
            assert(x[r] == s && y[c] == u);
        } else if r != p {
            assert(x[r] == 0);
            assert(sgn(r, c) * x[r] * y[c] == 0) by (nonlinear_arith)
                requires
                    x[r] == 0,
            ;
        } else {
            assert(y[c] == 0);
            assert(sgn(r, c) * x[r] * y[c] == 0) by (nonlinear_arith)
                requires
                    y[c] == 0,
            ;
        }
    } else if i > 0 {
        lemma_psum_two_signed(s, p, u, q, dst, sgn, t, (i - 1) as nat, 15);
    }
}

proof fn lemma_osi_mul_signed(s: int, p: int, u: int, q: int)
    requires
        0 <= p < 15,
        0 <= q < 15,
    ensures
        OneSidedInverse.spec_mul(signed_unit(s, p), signed_unit(u, q)) == signed_unit(
            osi_sgn()(p, q) * s * u,
            osi_dst()(p, q),
        ),
{
    assert forall|t: int| 0 <= t < 15 implies #[trigger] OneSidedInverse.spec_mul(signed_unit(s, p), signed_unit(u, q))[t]
        == signed_unit(osi_sgn()(p, q) * s * u, osi_dst()(p, q))[t] by {
        lemma_psum_two_signed(s, p, u, q, osi_dst(), osi_sgn(), t, 15, 0);
    }
    assert(OneSidedInverse.spec_mul(signed_unit(s, p), signed_unit(u, q)) =~= signed_unit(
        osi_sgn()(p, q) * s * u,
        osi_dst()(p, q),
    ));
}

/// `(-1)^(m1 + m2)`, as the product of the two parities.
proof fn lemma_parity_sign(m1: int, m2: int)
    requires
        0 <= m1,
        0 <= m2,
    ensures
        (if m1 % 2 == 0 { 1int } else { -1int }) * (if m2 % 2 == 0 { 1int } else { -1int }) == if (m1 + m2) % 2 == 0 {
            1int
        } else {
            -1int
        },
{
    vstd::arithmetic::div_mod::lemma_add_mod_noop(m1, m2, 2);
    vstd::arithmetic::div_mod::lemma_mod_bound(m1, 2);
    vstd::arithmetic::div_mod::lemma_mod_bound(m2, 2);
    let a = m1 % 2;
    let b = m2 % 2;
    assert((m1 + m2) % 2 == (a + b) % 2);
    let x = if m1 % 2 == 0 { 1int } else { -1int };
    let y = if m2 % 2 == 0 { 1int } else { -1int };
    if a == 0 && b == 0 {
        assert((a + b) % 2 == 0);
        assert(x == 1 && y == 1);
        assert(x * y == 1);
    } else if a == 0 {
        assert((a + b) % 2 == 1);
        assert(x == 1 && y == -1);
        assert(x * y == -1);
    } else if b == 0 {
        assert((a + b) % 2 == 1);
        assert(x == -1 && y == 1);
        assert(x * y == -1);
    } else {
        assert((a + b) % 2 == 0);
        assert(x == -1 && y == -1);
        assert(x * y == 1) by (nonlinear_arith)
            requires
                x == -1 && y == -1,
        ;
    }
}

/// Multiplication of monomials is associative, as far as the degree bound
/// lets the products be formed: `(pq)r = p(qr)`.
pub proof fn lemma_osi_monomials_associate(p: int, q: int, r: int)
    requires
        0 <= p < 15,
        0 <= q < 15,
        0 <= r < 15,
        mono_total(p) + mono_total(q) + mono_total(r) <= 4,
    ensures
        OneSidedInverse.spec_mul(OneSidedInverse.spec_mul(unit_vec(15, p), unit_vec(15, q)), unit_vec(15, r))
            == OneSidedInverse.spec_mul(unit_vec(15, p), OneSidedInverse.spec_mul(unit_vec(15, q), unit_vec(15, r))),
{
    lemma_mono_deg(p);
    lemma_mono_deg(q);
    lemma_mono_deg(r);
    let (i, j) = mono_deg(p);
    let (k, l) = mono_deg(q);
    let (g, h) = mono_deg(r);
    assert(signed_unit(1, p) =~= unit_vec(15, p));
    assert(signed_unit(1, q) =~= unit_vec(15, q));
    assert(signed_unit(1, r) =~= unit_vec(15, r));
    // Left: (pq)r.
    let m1 = if j < k { j } else { k };
    let pq = osi_dst()(p, q);
    let s1 = osi_sgn()(p, q);
    assert(s1 == if m1 % 2 == 0 { 1int } else { -1int });
    lemma_monomial_total(i + (k - m1), (j - m1) + l);
    lemma_monomial_round_trip(i + (k - m1), (j - m1) + l);
    lemma_osi_mul_signed(1, p, 1, q);
    lemma_osi_mul_signed(s1 * 1 * 1, pq, 1, r);
    let m2 = if (j - m1) + l < g { (j - m1) + l } else { g };
    let s2 = osi_sgn()(pq, r);
    assert(s2 == if m2 % 2 == 0 { 1int } else { -1int });
    // Right: p(qr).
    let m3 = if l < g { l } else { g };
    let qr = osi_dst()(q, r);
    let s3 = osi_sgn()(q, r);
    assert(s3 == if m3 % 2 == 0 { 1int } else { -1int });
    lemma_monomial_total(k + (g - m3), (l - m3) + h);
    lemma_monomial_round_trip(k + (g - m3), (l - m3) + h);
    lemma_osi_mul_signed(1, q, 1, r);
    lemma_osi_mul_signed(1, p, s3 * 1 * 1, qr);
    let m4 = if j < k + (g - m3) { j } else { k + (g - m3) };
    let s4 = osi_sgn()(p, qr);
    assert(s4 == if m4 % 2 == 0 { 1int } else { -1int });
    // The same cancellations happen either way.
    assert(m1 + m2 == m3 + m4);
    assert(i + (k - m1) + (g - m2) == i + (k + (g - m3) - m4));
    assert((j - m1) + l - m2 + h == (j - m4) + ((l - m3) + h));
    lemma_parity_sign(m1, m2);
    lemma_parity_sign(m3, m4);
    assert(osi_dst()(pq, r) == osi_dst()(p, qr));
    assert(s2 * (s1 * 1 * 1) * 1 == s4 * 1 * (s3 * 1 * 1)) by (nonlinear_arith)
        requires
            s1 * s2 == s3 * s4,
    ;
}

} // verus!

verus! {

/// `Σ_{i < n} f(i)`.
pub open spec fn sum_upto(f: spec_fn(int) -> int, n: nat) -> int
    decreases n,
{
    if n == 0 {
        0
    } else {
        sum_upto(f, (n - 1) as nat) + f(n - 1)
    }
}

/// A sum with at most one nonzero term is that term.
proof fn lemma_sum_single(f: spec_fn(int) -> int, n: nat, i0: int)
    requires
        forall|i: int| 0 <= i < n && i != i0 ==> #[trigger] f(i) == 0,
    ensures
        sum_upto(f, n) == if 0 <= i0 < n { f(i0) } else { 0 },
    decreases n,
{
    if n > 0 {
        lemma_sum_single(f, (n - 1) as nat, i0);
    }
}

/// The contribution of row `i` of `x` to slot `t` of `x` times the unit
/// vector at `q`.
pub open spec fn osi_row(x: Seq<int>, q: int, t: int) -> spec_fn(int) -> int {
    |i: int| if osi_dst()(i, q) == t { osi_sgn()(i, q) * x[i] } else { 0int }
}

proof fn lemma_psum_unit_right(x: Seq<int>, q: int, t: int, i: nat, j: nat)
    requires
        0 <= q < 15,
        i <= 15,
        j <= 15,
        i == 15 ==> j == 0,
    ensures
        psum(x, unit_vec(15, q), osi_dst(), osi_sgn(), t, i, j, 15) == sum_upto(osi_row(x, q, t), i) + if q < j
            && osi_dst()(i as int, q) == t {
            osi_sgn()(i as int, q) * x[i as int]
        } else {
            0int
        },
    decreases i, j,
{
    let y = unit_vec(15, q);
    if j > 0 {
        lemma_psum_unit_right(x, q, t, i, (j - 1) as nat);
        let c = j - 1;
        let r = i as int;
        if c == q {
            assert(y[c] == 1);
            assert(osi_sgn()(r, c) * x[r] * y[c] == osi_sgn()(r, c) * x[r]) by (nonlinear_arith)
                requires
                    y[c] == 1,
            ;
        } else {
            assert(y[c] == 0);
            assert(osi_sgn()(r, c) * x[r] * y[c] == 0) by (nonlinear_arith)
                requires
                    y[c] == 0,
            ;
        }
    } else if i > 0 {
        lemma_psum_unit_right(x, q, t, (i - 1) as nat, 15);
    }
}

/// Slot `t` of `x` times the unit vector at `q` sums the rows that land on it.
proof fn lemma_osi_mul_unit_right(x: Seq<int>, q: int, t: int)
    requires
        0 <= q < 15,
        0 <= t < 15,
    ensures
        OneSidedInverse.spec_mul(x, unit_vec(15, q))[t] == sum_upto(osi_row(x, q, t), 15),
{
    lemma_psum_unit_right(x, q, t, 15, 0);
}

/// `x` has no monomial of degree four, so `xb` is still in range.
pub open spec fn below_top_degree(x: Seq<int>) -> bool {
    &&& x.len() == 15
    &&& forall|i: int| 0 <= i < 15 && mono_total(i) > 3 ==> #[trigger] x[i] == 0
}

/// The slot of `a^i b^j`.
pub open spec fn slot(d: (int, int)) -> int {
    spec_monomial_index(d.0 as nat, d.1 as nat) as int
}

proof fn lemma_slot_of_degrees(n: int)
    requires
        0 <= n < 15,
    ensures
        slot(mono_deg(n)) == n,
{
    lemma_mono_deg(n);
    let (i, j) = mono_deg(n);
    lemma_monomial_total(i, j);
    let t = i + j;
    assert(mono_total(n) == t);
    let tri = t * (t + 1) / 2;
    assert(n == tri + j);
    assert(spec_monomial_index(i as nat, j as nat) == tri + j);
}

/// Slot `s` of `xb` is `x` at the slot with one `b` fewer, or zero.
#[verifier::spinoff_prover]
#[verifier::rlimit(40)]
proof fn lemma_osi_times_b_at(x: Seq<int>, s: int)
    requires
        below_top_degree(x),
        0 <= s < 15,
    ensures
        OneSidedInverse.spec_mul(x, unit_vec(15, 2))[s] == if mono_deg(s).1 >= 1 {
            x[slot((mono_deg(s).0, mono_deg(s).1 - 1))]
        } else {
            0int
        },
{
    assert(mono_deg(2) == (0int, 1int));
    lemma_osi_mul_unit_right(x, 2, s);
    lemma_mono_deg(s);
    let (i, j) = mono_deg(s);
    let f = osi_row(x, 2, s);
    let i0 = if j >= 1 { slot((i, j - 1)) } else { -1 };
    assert forall|r: int| 0 <= r < 15 && r != i0 implies #[trigger] f(r) == 0 by {
        lemma_mono_deg(r);
        let (ri, rj) = mono_deg(r);
        if osi_dst()(r, 2) == s && x[r] != 0 {
            assert(mono_total(r) <= 3);
            lemma_monomial_round_trip(ri, rj + 1);
            lemma_monomial_total(ri, rj + 1);
            assert(mono_deg(s) == (ri, rj + 1));
            lemma_slot_of_degrees(r);
            assert(r == i0);
        }
    }
    lemma_sum_single(f, 15, i0);
    if j >= 1 {
        lemma_monomial_total(i, j - 1);
        lemma_monomial_round_trip(i, j - 1);
        lemma_slot_of_degrees(s);
        assert(osi_dst()(i0, 2) == s);
        assert(osi_sgn()(i0, 2) == 1);
    }
}

/// Slot `t` of `xb · a` is `-x[t]`.
#[verifier::spinoff_prover]
#[verifier::rlimit(40)]
proof fn lemma_osi_times_ba_at(x: Seq<int>, t: int)
    requires
        below_top_degree(x),
        0 <= t < 15,
    ensures
        OneSidedInverse.spec_mul(OneSidedInverse.spec_mul(x, unit_vec(15, 2)), unit_vec(15, 1))[t] == -x[t],
{
    let xb = OneSidedInverse.spec_mul(x, unit_vec(15, 2));
    assert(mono_deg(1) == (1int, 0int));
    lemma_osi_mul_unit_right(xb, 1, t);
    lemma_mono_deg(t);
    let (i, j) = mono_deg(t);
    let f = osi_row(xb, 1, t);
    let i0 = if i + j <= 3 { slot((i, j + 1)) } else { -1 };
    assert forall|r: int| 0 <= r < 15 && r != i0 implies #[trigger] f(r) == 0 by {
        lemma_mono_deg(r);
        let (ri, rj) = mono_deg(r);
        lemma_osi_times_b_at(x, r);
        if osi_dst()(r, 1) == t && xb[r] != 0 {
            assert(rj >= 1);
            assert(osi_dst()(r, 1) == slot((ri, rj - 1)));
            lemma_monomial_total(ri, rj - 1);
            lemma_monomial_round_trip(ri, rj - 1);
            assert(mono_deg(t) == (ri, rj - 1));
            lemma_slot_of_degrees(r);
            assert(r == i0);
        }
    }
    lemma_sum_single(f, 15, i0);
    if i + j <= 3 {
        lemma_monomial_total(i, j + 1);
        lemma_monomial_round_trip(i, j + 1);
        lemma_slot_of_degrees(t);
        lemma_osi_times_b_at(x, i0);
        assert(osi_dst()(i0, 1) == t);
        assert(osi_sgn()(i0, 1) == -1);
        assert(xb[i0] == x[t]);
    } else {
        assert(x[t] == 0);
    }
}

/// Multiplying any element without a degree-four monomial on the right by
/// `b` and then by `a` negates it: `x(ba) = -x`.
pub proof fn lemma_osi_right_ba_negates_all(x: Seq<int>)
    requires
        below_top_degree(x),
    ensures
        OneSidedInverse.spec_mul(OneSidedInverse.spec_mul(x, unit_vec(15, 2)), unit_vec(15, 1)) == Seq::new(
            15,
            |t: int| -x[t],
        ),
{
    let y = OneSidedInverse.spec_mul(OneSidedInverse.spec_mul(x, unit_vec(15, 2)), unit_vec(15, 1));
    assert forall|t: int| 0 <= t < 15 implies #[trigger] y[t] == -x[t] by {
        lemma_osi_times_ba_at(x, t);
    }
    assert(y =~= Seq::new(15, |t: int| -x[t]));
}

} // verus!
