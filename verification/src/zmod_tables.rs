//! The linear decision and the table agree over `Z/m`.
//!
//! For the linear magma `x ◇ y = ax + by` over `Z/m`, a law holds in the
//! multiplication table exactly when its difference polynomials vanish at
//! the word values of `a` and `b`. One direction instantiates the law at the
//! unit assignments (one variable 1, the rest 0); the other expands every
//! term as a linear form in its variables.

use crate::law::{eval_term, is_assignment, lemma_eval_in_carrier, vars_below, depth, Law, Term};
use crate::linear::{coef, comb, icoef, law_vanishes, linear_law_ok, sparse, terms_vanish, word_val, words_spec, AffineModel, LawDiff};
use crate::nc::{spec_word_index, N_WORDS};
use crate::rings::{emod, Zmod};
use vstd::arithmetic::div_mod::*;
use vstd::arithmetic::power2::*;
use vstd::prelude::*;

verus! {

/// The value of word `idx` of `{a, b}` in `Z/m`.
pub open spec fn zword(m: u64, a: int, b: int, idx: nat) -> int {
    word_val(&Zmod { m }, seq![a], seq![b], idx)[0]
}

/// The multiplication table of `x ◇ y = ax + by` over `Z/m`.
pub open spec fn is_linear_table(table: Seq<u8>, m: nat, a: int, b: int) -> bool {
    &&& table.len() == m * m
    &&& forall|x: int, y: int| 0 <= x < m && 0 <= y < m ==> #[trigger] table[x * m + y] == (a * x + b * y) % (m as int)
}

/// The linear form of `t` sitting at path `(len, bits)`: each leaf
/// lin_formutes its path word times its variable.
pub open spec fn lin_form(t: Term, len: nat, bits: nat, m: u64, a: int, b: int, vals: Seq<u8>) -> int
    decreases t,
{
    match t {
        Term::Var(u) => zword(m, a, b, spec_word_index(len, bits)) * vals[u as int],
        Term::Op(l, r) => lin_form(*l, len + 1, 2 * bits, m, a, b, vals) + lin_form(
            *r,
            len + 1,
            2 * bits + 1,
            m,
            a,
            b,
            vals,
        ),
    }
}

proof fn lemma_word_children(m: u64, a: int, b: int, len: nat, bits: nat)
    requires
        m >= 1,
    ensures
        spec_word_index(len + 1, 2 * bits) == 2 * spec_word_index(len, bits) + 1,
        spec_word_index(len + 1, 2 * bits + 1) == 2 * spec_word_index(len, bits) + 2,
        zword(m, a, b, spec_word_index(len + 1, 2 * bits)) == (zword(m, a, b, spec_word_index(len, bits)) * a) % (m as int),
        zword(m, a, b, spec_word_index(len + 1, 2 * bits + 1)) == (zword(m, a, b, spec_word_index(len, bits)) * b) % (m as int),
{
    lemma_pow2_unfold(len + 1);
    lemma_pow2_pos(len);
    let p = spec_word_index(len, bits);
    let c1 = (2 * p + 1) as nat;
    let c2 = (2 * p + 2) as nat;
    assert((c1 - 1) / 2 == p && c1 % 2 == 1);
    assert((c2 - 1) / 2 == p && c2 % 2 == 0);
}

/// A term scaled by its path word is its linear form, modulo `m`.
proof fn lemma_eval_is_lin_form(t: Term, len: nat, bits: nat, m: u64, a: int, b: int, table: Seq<u8>, vals: Seq<u8>)
    requires
        1 <= m,
        is_linear_table(table, m as nat, a, b),
        forall|i: int| 0 <= i < table.len() ==> table[i] < m,
        vars_below(t, vals.len()),
        forall|j: int| 0 <= j < vals.len() ==> vals[j] < m,
    ensures
        (zword(m, a, b, spec_word_index(len, bits)) * eval_term(t, table, m as nat, vals)) % (m as int)
            == lin_form(t, len, bits, m, a, b, vals) % (m as int),
    decreases t,
{
    let mi = m as int;
    match t {
        Term::Var(u) => {},
        Term::Op(l, r) => {
            lemma_eval_is_lin_form(*l, len + 1, 2 * bits, m, a, b, table, vals);
            lemma_eval_is_lin_form(*r, len + 1, 2 * bits + 1, m, a, b, table, vals);
            lemma_eval_in_carrier(*l, table, m as nat, vals);
            lemma_eval_in_carrier(*r, table, m as nat, vals);
            lemma_word_children(m, a, b, len, bits);
            let w = zword(m, a, b, spec_word_index(len, bits));
            let el = eval_term(*l, table, m as nat, vals) as int;
            let er = eval_term(*r, table, m as nat, vals) as int;
            let cl = lin_form(*l, len + 1, 2 * bits, m, a, b, vals);
            let cr = lin_form(*r, len + 1, 2 * bits + 1, m, a, b, vals);
            assert(eval_term(t, table, m as nat, vals) as int == (a * el + b * er) % mi);
            lemma_mul_mod_noop_right(w, a * el + b * er, mi);
            assert(w * (a * el + b * er) == (w * a) * el + (w * b) * er) by (nonlinear_arith);
            lemma_mul_mod_noop_left(w * a, el, mi);
            lemma_mul_mod_noop_left(w * b, er, mi);
            assert(((w * a) * el) % mi == cl % mi);
            assert(((w * b) * er) % mi == cr % mi);
            lemma_add_mod_noop((w * a) * el, (w * b) * er, mi);
            lemma_add_mod_noop(cl, cr, mi);
        },
    }
}

} // verus!

verus! {

/// `Σ_{w < u} coef(t, len, bits, v, w) · word(w)`.
pub open spec fn wsum(t: Term, len: nat, bits: nat, v: nat, m: u64, a: int, b: int, u: nat) -> int
    decreases u,
{
    if u == 0 {
        0
    } else {
        wsum(t, len, bits, v, m, a, b, (u - 1) as nat) + coef(t, len, bits, v, (u - 1) as nat) * zword(
            m,
            a,
            b,
            (u - 1) as nat,
        )
    }
}

/// Variable `v` set to 1, the other `k - 1` to 0.
pub open spec fn unit(k: nat, v: nat) -> Seq<u8> {
    Seq::new(k, |i: int| if i == v { 1u8 } else { 0u8 })
}

proof fn lemma_wsum_var(x: u8, len: nat, bits: nat, v: nat, m: u64, a: int, b: int, u: nat)
    ensures
        wsum(Term::Var(x), len, bits, v, m, a, b, u) == if x == v && spec_word_index(len, bits) < u {
            zword(m, a, b, spec_word_index(len, bits))
        } else {
            0
        },
    decreases u,
{
    if u > 0 {
        lemma_wsum_var(x, len, bits, v, m, a, b, (u - 1) as nat);
    }
}

proof fn lemma_wsum_op(l: Term, r: Term, len: nat, bits: nat, v: nat, m: u64, a: int, b: int, u: nat)
    ensures
        wsum(Term::Op(Box::new(l), Box::new(r)), len, bits, v, m, a, b, u) == wsum(l, len + 1, 2 * bits, v, m, a, b, u)
            + wsum(r, len + 1, 2 * bits + 1, v, m, a, b, u),
    decreases u,
{
    if u > 0 {
        lemma_wsum_op(l, r, len, bits, v, m, a, b, (u - 1) as nat);
        let w = (u - 1) as nat;
        let t = Term::Op(Box::new(l), Box::new(r));
        assert(coef(t, len, bits, v, w) == coef(l, len + 1, 2 * bits, v, w) + coef(r, len + 1, 2 * bits + 1, v, w));
        let z = zword(m, a, b, w);
        assert((coef(l, len + 1, 2 * bits, v, w) + coef(r, len + 1, 2 * bits + 1, v, w)) * z == coef(
            l,
            len + 1,
            2 * bits,
            v,
            w,
        ) * z + coef(r, len + 1, 2 * bits + 1, v, w) * z) by (nonlinear_arith);
    }
}

/// At a unit assignment the linear form of a term is the value of its
/// coefficient polynomial for that variable.
proof fn lemma_unit_form(t: Term, len: nat, bits: nat, k: nat, v: nat, m: u64, a: int, b: int)
    requires
        len + depth(t) <= 4,
        bits < pow2(len),
        vars_below(t, k),
        v < k,
    ensures
        lin_form(t, len, bits, m, a, b, unit(k, v)) == wsum(t, len, bits, v, m, a, b, 31),
    decreases t,
{
    match t {
        Term::Var(x) => {
            lemma2_to64();
            if len < 4 {
                lemma_pow2_strictly_increases(len, 4);
            }
            assert(spec_word_index(len, bits) < 31);
            lemma_wsum_var(x, len, bits, v, m, a, b, 31);
            let z = zword(m, a, b, spec_word_index(len, bits));
            assert(x < k);
            if x as nat == v {
                assert(unit(k, v)[x as int] == 1u8);
                assert(lin_form(t, len, bits, m, a, b, unit(k, v)) == z * 1);
            } else {
                assert(unit(k, v)[x as int] == 0u8);
                assert(lin_form(t, len, bits, m, a, b, unit(k, v)) == z * 0);
            }
        },
        Term::Op(l, r) => {
            lemma_pow2_unfold(len + 1);
            lemma_unit_form(*l, len + 1, 2 * bits, k, v, m, a, b);
            lemma_unit_form(*r, len + 1, 2 * bits + 1, k, v, m, a, b);
            lemma_wsum_op(*l, *r, len, bits, v, m, a, b, 31);
            assert(t == Term::Op(Box::new(*l), Box::new(*r)));
        },
    }
}

/// `Σ_{v < j} vals[v] · form(t at the unit assignment of v)`.
pub open spec fn vsum(t: Term, len: nat, bits: nat, m: u64, a: int, b: int, vals: Seq<u8>, k: nat, j: nat) -> int
    decreases j,
{
    if j == 0 {
        0
    } else {
        vsum(t, len, bits, m, a, b, vals, k, (j - 1) as nat) + vals[j - 1] * lin_form(
            t,
            len,
            bits,
            m,
            a,
            b,
            unit(k, (j - 1) as nat),
        )
    }
}

proof fn lemma_vsum_var(x: u8, len: nat, bits: nat, m: u64, a: int, b: int, vals: Seq<u8>, k: nat, j: nat)
    requires
        j <= k,
        x < k,
        vals.len() == k,
    ensures
        vsum(Term::Var(x), len, bits, m, a, b, vals, k, j) == if x < j {
            vals[x as int] * zword(m, a, b, spec_word_index(len, bits))
        } else {
            0
        },
    decreases j,
{
    if j > 0 {
        lemma_vsum_var(x, len, bits, m, a, b, vals, k, (j - 1) as nat);
        let u = unit(k, (j - 1) as nat);
        let z = zword(m, a, b, spec_word_index(len, bits));
        if x as int == j - 1 {
            assert(u[x as int] == 1u8);
            assert(vals[j - 1] * (z * 1) == vals[x as int] * z);
        } else {
            assert(u[x as int] == 0u8);
            assert(vals[j - 1] * (z * u[x as int]) == 0) by (nonlinear_arith)
                requires
                    u[x as int] == 0,
            ;
        }
    }
}

proof fn lemma_vsum_op(l: Term, r: Term, len: nat, bits: nat, m: u64, a: int, b: int, vals: Seq<u8>, k: nat, j: nat)
    ensures
        vsum(Term::Op(Box::new(l), Box::new(r)), len, bits, m, a, b, vals, k, j) == vsum(
            l,
            len + 1,
            2 * bits,
            m,
            a,
            b,
            vals,
            k,
            j,
        ) + vsum(r, len + 1, 2 * bits + 1, m, a, b, vals, k, j),
    decreases j,
{
    if j > 0 {
        lemma_vsum_op(l, r, len, bits, m, a, b, vals, k, (j - 1) as nat);
        let u = unit(k, (j - 1) as nat);
        let x = vals[j - 1] as int;
        let p = lin_form(l, len + 1, 2 * bits, m, a, b, u);
        let q = lin_form(r, len + 1, 2 * bits + 1, m, a, b, u);
        assert(x * (p + q) == x * p + x * q) by (nonlinear_arith);
    }
}

/// The linear form is linear in the assignment.
proof fn lemma_form_is_linear(t: Term, len: nat, bits: nat, m: u64, a: int, b: int, vals: Seq<u8>)
    requires
        vars_below(t, vals.len()),
    ensures
        lin_form(t, len, bits, m, a, b, vals) == vsum(t, len, bits, m, a, b, vals, vals.len(), vals.len()),
    decreases t,
{
    match t {
        Term::Var(x) => {
            lemma_vsum_var(x, len, bits, m, a, b, vals, vals.len(), vals.len());
            let z = zword(m, a, b, spec_word_index(len, bits));
            assert(z * vals[x as int] == vals[x as int] * z) by (nonlinear_arith);
        },
        Term::Op(l, r) => {
            lemma_form_is_linear(*l, len + 1, 2 * bits, m, a, b, vals);
            lemma_form_is_linear(*r, len + 1, 2 * bits + 1, m, a, b, vals);
            lemma_vsum_op(*l, *r, len, bits, m, a, b, vals, vals.len(), vals.len());
            assert(t == Term::Op(Box::new(*l), Box::new(*r)));
        },
    }
}

} // verus!

verus! {

/// `Σ_{w < u} c[w] · word(w)`.
pub open spec fn csum(c: Seq<i32>, m: u64, a: int, b: int, u: nat) -> int
    decreases u,
{
    if u == 0 {
        0
    } else {
        csum(c, m, a, b, (u - 1) as nat) + c[u - 1] * zword(m, a, b, (u - 1) as nat)
    }
}

proof fn lemma_comb_prefix(m: u64, t1: Seq<(u8, i32)>, t2: Seq<(u8, i32)>, words: Seq<Seq<int>>, n: nat)
    requires
        n <= t1.len(),
        n <= t2.len(),
        forall|q: int| 0 <= q < n ==> t1[q] == t2[q],
    ensures
        comb(&Zmod { m }, t1, words, n) == comb(&Zmod { m }, t2, words, n),
    decreases n,
{
    if n > 0 {
        lemma_comb_prefix(m, t1, t2, words, (n - 1) as nat);
    }
}

/// Summing the sparse terms of `c` gives `Σ c[w] · word(w)`, reduced.
proof fn lemma_comb_sparse(c: Seq<i32>, m: u64, a: int, b: int, u: nat)
    requires
        1 <= m,
        u <= 31,
        c.len() >= u,
    ensures
        comb(&Zmod { m }, sparse(c, u), words_spec(&Zmod { m }, seq![a], seq![b]), sparse(c, u).len())[0] == csum(
            c,
            m,
            a,
            b,
            u,
        ) % (m as int),
    decreases u,
{
    let zm = Zmod { m };
    let words = words_spec(&zm, seq![a], seq![b]);
    let mi = m as int;
    if u > 0 {
        lemma_comb_sparse(c, m, a, b, (u - 1) as nat);
        let s = sparse(c, (u - 1) as nat);
        let w = (u - 1) as nat;
        let z = zword(m, a, b, w);
        let prev = csum(c, m, a, b, w);
        if c[u - 1] != 0 {
            let x = ((u - 1) as u8, c[u - 1]);
            let t = s.push(x);
            assert(sparse(c, u) == t);
            lemma_comb_prefix(m, t, s, words, s.len());
            assert(t[s.len() as int] == x);
            assert(x.0 as int == w);
            assert(words[w as int][0] == z);
            let k = c[u - 1] as int;
            assert(comb(&zm, t, words, t.len())[0] == (prev % mi + emod(k, mi) * z) % mi);
            let a1 = (k % mi) * z;
            let a2 = k * z;
            lemma_add_mod_noop_right(a1, prev, mi);
            lemma_mul_mod_noop_left(k, z, mi);
            lemma_add_mod_noop(a1, prev, mi);
            lemma_add_mod_noop(a2, prev, mi);
            assert((prev % mi + a1) % mi == (a1 + prev) % mi);
            assert(csum(c, m, a, b, u) == prev + a2);
            assert((a2 + prev) % mi == (prev + a2) % mi);
        } else {
            assert(sparse(c, u) == s);
            assert(c[u - 1] * z == 0);
        }
    } else {
        lemma_small_mod(0, m as nat);
    }
}

/// The dense difference polynomial, summed against the word values, is the
/// difference of the two sides' coefficient sums.
proof fn lemma_csum_diff(d: LawDiff, law: Law, v: int, m: u64, a: int, b: int, u: nat)
    requires
        d.describes(law),
        0 <= v < law.arity,
        u <= 31,
    ensures
        csum(d.diffs@[v].c@, m, a, b, u) == wsum(law.lhs, 0, 0, v as nat, m, a, b, u) - wsum(
            law.rhs,
            0,
            0,
            v as nat,
            m,
            a,
            b,
            u,
        ),
    decreases u,
{
    if u > 0 {
        lemma_csum_diff(d, law, v, m, a, b, (u - 1) as nat);
        let w = (u - 1) as nat;
        let z = zword(m, a, b, w);
        let cl = coef(law.lhs, 0, 0, v as nat, w);
        let cr = coef(law.rhs, 0, 0, v as nat, w);
        assert(d.diffs@[v].c@[w as int] == cl - cr);
        assert((cl - cr) * z == cl * z - cr * z) by (nonlinear_arith);
    }
}

/// A multiple of `m` strictly between `-m` and `m` is zero.
proof fn lemma_small_zero(d: int, m: int)
    requires
        m >= 1,
        -m < d < m,
        d % m == 0,
    ensures
        d == 0,
{
    if d > 0 {
        lemma_small_mod(d as nat, m as nat);
    } else if d < 0 {
        lemma_mod_add_multiples_vanish(d, m);
        lemma_small_mod((d + m) as nat, m as nat);
    }
}

/// `Σ_{v < j} vals[v] · D_v`, with `D_v` the value of the difference
/// polynomial of variable `v`.
pub open spec fn dsum(law: Law, vals: Seq<u8>, m: u64, a: int, b: int, j: nat) -> int
    decreases j,
{
    if j == 0 {
        0
    } else {
        dsum(law, vals, m, a, b, (j - 1) as nat) + vals[j - 1] * (wsum(law.lhs, 0, 0, (j - 1) as nat, m, a, b, 31)
            - wsum(law.rhs, 0, 0, (j - 1) as nat, m, a, b, 31))
    }
}

proof fn lemma_vsum_diff(law: Law, vals: Seq<u8>, m: u64, a: int, b: int, j: nat)
    requires
        linear_law_ok(law),
        vals.len() == law.arity,
        j <= law.arity,
    ensures
        vsum(law.lhs, 0, 0, m, a, b, vals, vals.len(), j) - vsum(law.rhs, 0, 0, m, a, b, vals, vals.len(), j)
            == dsum(law, vals, m, a, b, j),
    decreases j,
{
    if j > 0 {
        lemma_vsum_diff(law, vals, m, a, b, (j - 1) as nat);
        let k = vals.len();
        let v = (j - 1) as nat;
        lemma2_to64();
        lemma_unit_form(law.lhs, 0, 0, k, v, m, a, b);
        lemma_unit_form(law.rhs, 0, 0, k, v, m, a, b);
        let x = vals[v as int] as int;
        let p = wsum(law.lhs, 0, 0, v, m, a, b, 31);
        let q = wsum(law.rhs, 0, 0, v, m, a, b, 31);
        assert(x * p - x * q == x * (p - q)) by (nonlinear_arith);
    }
}

proof fn lemma_dsum_zero(law: Law, vals: Seq<u8>, m: u64, a: int, b: int, j: nat)
    requires
        1 <= m,
        j <= vals.len(),
        forall|v: int| 0 <= v < j ==> (#[trigger] wsum(law.lhs, 0, 0, v as nat, m, a, b, 31) - wsum(law.rhs, 0, 0, v as nat, m, a, b, 31)) % (m as int) == 0,
    ensures
        dsum(law, vals, m, a, b, j) % (m as int) == 0,
    decreases j,
{
    if j > 0 {
        let mi = m as int;
        lemma_dsum_zero(law, vals, m, a, b, (j - 1) as nat);
        let v = (j - 1) as nat;
        let dv = wsum(law.lhs, 0, 0, v, m, a, b, 31) - wsum(law.rhs, 0, 0, v, m, a, b, 31);
        assert(dv % mi == 0);
        let x = vals[v as int] as int;
        lemma_mul_mod_noop_right(x, dv, mi);
        assert(x * (dv % mi) == 0);
        assert((x * dv) % mi == 0);
        let prev = dsum(law, vals, m, a, b, v);
        assert(dsum(law, vals, m, a, b, j) == prev + x * dv);
        lemma_add_mod_noop(prev, x * dv, mi);
        assert((prev % mi + (x * dv) % mi) % mi == 0);
    } else {
        lemma_small_mod(0, m as nat);
    }
}

proof fn lemma_table_entries(table: Seq<u8>, m: nat, a: int, b: int)
    requires
        1 <= m,
        is_linear_table(table, m, a, b),
    ensures
        forall|i: int| 0 <= i < table.len() ==> table[i] < m,
{
    assert forall|i: int| 0 <= i < table.len() implies table[i] < m by {
        let x = i / (m as int);
        let y = i % (m as int);
        lemma_fundamental_div_mod(i, m as int);
        assert(x < m) by {
            lemma_div_is_ordered(i, (m * m) as int, m as int);
            lemma_div_by_multiple(m as int, m as int);
        }
        assert(i == x * m + y) by (nonlinear_arith)
            requires
                i == m * x + y,
        ;
        assert(table[x * m + y] == (a * x + b * y) % (m as int));
    }
}

/// The linear decision agrees with the table over `Z/m`: the difference
/// polynomials of a law vanish at the word values of `a` and `b` exactly
/// when the law holds in the multiplication table of `x ◇ y = ax + by`.
/// So the symbolic route and the table sweep give the same signature.
pub proof fn lemma_linear_decision_matches_table(m: u64, a: u64, b: u64, law: Law, d: LawDiff, table: Seq<u8>)
    requires
        1 <= m,
        linear_law_ok(law),
        d.describes(law),
        is_linear_table(table, m as nat, a as int, b as int),
    ensures
        law_vanishes(&Zmod { m }, d.terms@, words_spec(&Zmod { m }, seq![a as int], seq![b as int]))
            <==> law.holds_in(table, m as nat),
{
    let zm = Zmod { m };
    let (ai, bi, mi) = (a as int, b as int, m as int);
    let words = words_spec(&zm, seq![ai], seq![bi]);
    let k = law.arity as nat;
    lemma2_to64();
    lemma_table_entries(table, m as nat, ai, bi);
    // Each variable's check is its coefficient sum vanishing mod m.
    assert forall|v: int| 0 <= v < k implies (terms_vanish(&zm, (#[trigger] d.terms@[v])@, words) <==> (wsum(
        law.lhs,
        0,
        0,
        v as nat,
        m,
        ai,
        bi,
        31,
    ) - wsum(law.rhs, 0, 0, v as nat, m, ai, bi, 31)) % mi == 0) by {
        let c = d.diffs@[v].c@;
        assert(d.terms@[v]@ == sparse(c, 31));
        lemma_comb_sparse(c, m, ai, bi, 31);
        lemma_csum_diff(d, law, v, m, ai, bi, 31);
        lemma_mod_twice(csum(c, m, ai, bi, 31), mi);
    }
    assert(zword(m, ai, bi, spec_word_index(0, 0)) == 1int % mi);
    if law_vanishes(&zm, d.terms@, words) {
        assert forall|vals: Seq<u8>| is_assignment(vals, k, m as nat) implies #[trigger] eval_term(
            law.lhs,
            table,
            m as nat,
            vals,
        ) == eval_term(law.rhs, table, m as nat, vals) by {
            let el = eval_term(law.lhs, table, m as nat, vals) as int;
            let er = eval_term(law.rhs, table, m as nat, vals) as int;
            lemma_eval_is_lin_form(law.lhs, 0, 0, m, ai, bi, table, vals);
            lemma_eval_is_lin_form(law.rhs, 0, 0, m, ai, bi, table, vals);
            lemma_eval_in_carrier(law.lhs, table, m as nat, vals);
            lemma_eval_in_carrier(law.rhs, table, m as nat, vals);
            lemma_mul_mod_noop_left(1, el, mi);
            lemma_mul_mod_noop_left(1, er, mi);
            lemma_small_mod(el as nat, m as nat);
            lemma_small_mod(er as nat, m as nat);
            let fl = lin_form(law.lhs, 0, 0, m, ai, bi, vals);
            let fr = lin_form(law.rhs, 0, 0, m, ai, bi, vals);
            assert(el == fl % mi);
            assert(er == fr % mi);
            lemma_form_is_linear(law.lhs, 0, 0, m, ai, bi, vals);
            lemma_form_is_linear(law.rhs, 0, 0, m, ai, bi, vals);
            lemma_vsum_diff(law, vals, m, ai, bi, k);
            assert forall|v: int| 0 <= v < k implies (#[trigger] wsum(law.lhs, 0, 0, v as nat, m, ai, bi, 31) - wsum(
                law.rhs,
                0,
                0,
                v as nat,
                m,
                ai,
                bi,
                31,
            )) % mi == 0 by {
                assert(terms_vanish(&zm, d.terms@[v]@, words));
            }
            lemma_dsum_zero(law, vals, m, ai, bi, k);
            assert((fl - fr) % mi == 0);
            lemma_sub_mod_noop(fl, fr, mi);
            lemma_mod_bound(fl, mi);
            lemma_mod_bound(fr, mi);
            lemma_small_zero(fl % mi - fr % mi, mi);
        }
    }
    if law.holds_in(table, m as nat) {
        assert forall|v: int| 0 <= v < d.terms@.len() implies terms_vanish(&zm, (#[trigger] d.terms@[v])@, words) by {
            let p = wsum(law.lhs, 0, 0, v as nat, m, ai, bi, 31);
            let q = wsum(law.rhs, 0, 0, v as nat, m, ai, bi, 31);
            if m == 1 {
                assert((p - q) % 1 == 0);
            } else {
                let vals = unit(k, v as nat);
                assert(is_assignment(vals, k, m as nat));
                let el = eval_term(law.lhs, table, m as nat, vals) as int;
                let er = eval_term(law.rhs, table, m as nat, vals) as int;
                assert(el == er);
                lemma_eval_is_lin_form(law.lhs, 0, 0, m, ai, bi, table, vals);
                lemma_eval_is_lin_form(law.rhs, 0, 0, m, ai, bi, table, vals);
                lemma_unit_form(law.lhs, 0, 0, k, v as nat, m, ai, bi);
                lemma_unit_form(law.rhs, 0, 0, k, v as nat, m, ai, bi);
                lemma_mul_mod_noop_left(1, el, mi);
                assert(p % mi == q % mi);
                lemma_sub_mod_noop(p, q, mi);
                assert((p % mi - q % mi) == 0);
            }
        }
    }
}

} // verus!

verus! {

/// The multiplication table of `x ◇ y = ax + by + c` over `Z/m`.
pub open spec fn is_affine_table(table: Seq<u8>, m: nat, a: int, b: int, c: int) -> bool {
    &&& table.len() == m * m
    &&& forall|x: int, y: int|
        0 <= x < m && 0 <= y < m ==> #[trigger] table[x * m + y] == (a * x + b * y + c) % (m as int)
}

/// The path words of the internal nodes of `t`, summed.
pub open spec fn iform(t: Term, len: nat, bits: nat, m: u64, a: int, b: int) -> int
    decreases t,
{
    match t {
        Term::Var(_) => 0,
        Term::Op(l, r) => zword(m, a, b, spec_word_index(len, bits)) + iform(*l, len + 1, 2 * bits, m, a, b) + iform(
            *r,
            len + 1,
            2 * bits + 1,
            m,
            a,
            b,
        ),
    }
}

/// `Σ_{w < u} icoef(t, len, bits, w) · word(w)`.
pub open spec fn isum(t: Term, len: nat, bits: nat, m: u64, a: int, b: int, u: nat) -> int
    decreases u,
{
    if u == 0 {
        0
    } else {
        isum(t, len, bits, m, a, b, (u - 1) as nat) + icoef(t, len, bits, (u - 1) as nat) * zword(m, a, b, (u - 1) as nat)
    }
}

proof fn lemma_isum_var(x: u8, len: nat, bits: nat, m: u64, a: int, b: int, u: nat)
    ensures
        isum(Term::Var(x), len, bits, m, a, b, u) == 0,
    decreases u,
{
    if u > 0 {
        lemma_isum_var(x, len, bits, m, a, b, (u - 1) as nat);
    }
}

proof fn lemma_isum_op(l: Term, r: Term, len: nat, bits: nat, m: u64, a: int, b: int, u: nat)
    ensures
        isum(Term::Op(Box::new(l), Box::new(r)), len, bits, m, a, b, u) == (if spec_word_index(len, bits) < u {
            zword(m, a, b, spec_word_index(len, bits))
        } else {
            0
        }) + isum(l, len + 1, 2 * bits, m, a, b, u) + isum(r, len + 1, 2 * bits + 1, m, a, b, u),
    decreases u,
{
    if u > 0 {
        lemma_isum_op(l, r, len, bits, m, a, b, (u - 1) as nat);
        let w = (u - 1) as nat;
        let t = Term::Op(Box::new(l), Box::new(r));
        let e: int = if spec_word_index(len, bits) == w {
            1
        } else {
            0
        };
        let il = icoef(l, len + 1, 2 * bits, w);
        let ir = icoef(r, len + 1, 2 * bits + 1, w);
        assert(icoef(t, len, bits, w) == e + il + ir);
        let z = zword(m, a, b, w);
        assert((e + il + ir) * z == e * z + il * z + ir * z) by (nonlinear_arith);
    }
}

proof fn lemma_iform_is_isum(t: Term, len: nat, bits: nat, m: u64, a: int, b: int)
    requires
        len + depth(t) <= 4,
        bits < pow2(len),
    ensures
        iform(t, len, bits, m, a, b) == isum(t, len, bits, m, a, b, 31),
    decreases t,
{
    match t {
        Term::Var(x) => {
            lemma_isum_var(x, len, bits, m, a, b, 31);
        },
        Term::Op(l, r) => {
            lemma2_to64();
            if len < 4 {
                lemma_pow2_strictly_increases(len, 4);
            }
            assert(spec_word_index(len, bits) < 31);
            lemma_pow2_unfold(len + 1);
            lemma_iform_is_isum(*l, len + 1, 2 * bits, m, a, b);
            lemma_iform_is_isum(*r, len + 1, 2 * bits + 1, m, a, b);
            lemma_isum_op(*l, *r, len, bits, m, a, b, 31);
            assert(t == Term::Op(Box::new(*l), Box::new(*r)));
        },
    }
}

/// In an affine magma a term scaled by its path word is its linear form
/// plus `c` times its internal path words, modulo `m`.
proof fn lemma_eval_affine(t: Term, len: nat, bits: nat, m: u64, a: int, b: int, c: int, table: Seq<u8>, vals: Seq<u8>)
    requires
        1 <= m,
        is_affine_table(table, m as nat, a, b, c),
        forall|i: int| 0 <= i < table.len() ==> table[i] < m,
        vars_below(t, vals.len()),
        forall|j: int| 0 <= j < vals.len() ==> vals[j] < m,
    ensures
        (zword(m, a, b, spec_word_index(len, bits)) * eval_term(t, table, m as nat, vals)) % (m as int) == (lin_form(
            t,
            len,
            bits,
            m,
            a,
            b,
            vals,
        ) + c * iform(t, len, bits, m, a, b)) % (m as int),
    decreases t,
{
    let mi = m as int;
    match t {
        Term::Var(u) => {},
        Term::Op(l, r) => {
            lemma_eval_affine(*l, len + 1, 2 * bits, m, a, b, c, table, vals);
            lemma_eval_affine(*r, len + 1, 2 * bits + 1, m, a, b, c, table, vals);
            lemma_eval_in_carrier(*l, table, m as nat, vals);
            lemma_eval_in_carrier(*r, table, m as nat, vals);
            lemma_word_children(m, a, b, len, bits);
            let w = zword(m, a, b, spec_word_index(len, bits));
            let el = eval_term(*l, table, m as nat, vals) as int;
            let er = eval_term(*r, table, m as nat, vals) as int;
            let sl = lin_form(*l, len + 1, 2 * bits, m, a, b, vals) + c * iform(*l, len + 1, 2 * bits, m, a, b);
            let sr = lin_form(*r, len + 1, 2 * bits + 1, m, a, b, vals) + c * iform(*r, len + 1, 2 * bits + 1, m, a, b);
            assert(eval_term(t, table, m as nat, vals) as int == (a * el + b * er + c) % mi);
            lemma_mul_mod_noop_right(w, a * el + b * er + c, mi);
            assert(w * (a * el + b * er + c) == (w * a) * el + ((w * b) * er + w * c)) by (nonlinear_arith);
            lemma_mul_mod_noop_left(w * a, el, mi);
            lemma_mul_mod_noop_left(w * b, er, mi);
            assert(((w * a) * el) % mi == sl % mi);
            assert(((w * b) * er) % mi == sr % mi);
            lemma_add_mod_noop((w * b) * er, w * c, mi);
            lemma_add_mod_noop(sr, w * c, mi);
            lemma_add_mod_noop((w * a) * el, (w * b) * er + w * c, mi);
            lemma_add_mod_noop(sl, sr + w * c, mi);
            let whole = lin_form(t, len, bits, m, a, b, vals) + c * iform(t, len, bits, m, a, b);
            assert(whole == sl + (sr + w * c)) by (nonlinear_arith)
                requires
                    lin_form(t, len, bits, m, a, b, vals) == lin_form(*l, len + 1, 2 * bits, m, a, b, vals) + lin_form(
                        *r,
                        len + 1,
                        2 * bits + 1,
                        m,
                        a,
                        b,
                        vals,
                    ),
                    iform(t, len, bits, m, a, b) == w + iform(*l, len + 1, 2 * bits, m, a, b) + iform(
                        *r,
                        len + 1,
                        2 * bits + 1,
                        m,
                        a,
                        b,
                    ),
                    sl == lin_form(*l, len + 1, 2 * bits, m, a, b, vals) + c * iform(*l, len + 1, 2 * bits, m, a, b),
                    sr == lin_form(*r, len + 1, 2 * bits + 1, m, a, b, vals) + c * iform(
                        *r,
                        len + 1,
                        2 * bits + 1,
                        m,
                        a,
                        b,
                    ),
                    whole == lin_form(t, len, bits, m, a, b, vals) + c * iform(t, len, bits, m, a, b),
            ;
        },
    }
}

/// At the all-zero assignment the linear form vanishes.
proof fn lemma_lin_form_zero(t: Term, len: nat, bits: nat, m: u64, a: int, b: int, k: nat)
    requires
        vars_below(t, k),
    ensures
        lin_form(t, len, bits, m, a, b, Seq::new(k, |i: int| 0u8)) == 0,
    decreases t,
{
    match t {
        Term::Var(x) => {
            let z = zword(m, a, b, spec_word_index(len, bits));
            assert(z * 0 == 0);
        },
        Term::Op(l, r) => {
            lemma_lin_form_zero(*l, len + 1, 2 * bits, m, a, b, k);
            lemma_lin_form_zero(*r, len + 1, 2 * bits + 1, m, a, b, k);
        },
    }
}

/// The constant difference polynomial, summed against the word values.
proof fn lemma_csum_const(d: LawDiff, law: Law, m: u64, a: int, b: int, u: nat)
    requires
        d.describes(law),
        u <= 31,
    ensures
        csum(d.const_diff.c@, m, a, b, u) == isum(law.lhs, 0, 0, m, a, b, u) - isum(law.rhs, 0, 0, m, a, b, u),
    decreases u,
{
    if u > 0 {
        lemma_csum_const(d, law, m, a, b, (u - 1) as nat);
        let w = (u - 1) as nat;
        let z = zword(m, a, b, w);
        let cl = icoef(law.lhs, 0, 0, w);
        let cr = icoef(law.rhs, 0, 0, w);
        assert(d.const_diff.c@[w as int] == cl - cr);
        assert((cl - cr) * z == cl * z - cr * z) by (nonlinear_arith);
    }
}

/// `x ≡ y (mod m)` for two values below `m` means they are equal; and a
/// difference `≡ 0` means the residues agree.
proof fn lemma_residues_equal(x: int, y: int, m: int)
    requires
        m >= 1,
        (x - y) % m == 0,
    ensures
        x % m == y % m,
{
    lemma_sub_mod_noop(x, y, m);
    lemma_mod_bound(x, m);
    lemma_mod_bound(y, m);
    lemma_small_zero(x % m - y % m, m);
}

/// The affine decision agrees with the table over `Z/m`: the difference
/// polynomials vanish and the constant condition holds at the word values
/// of `a`, `b` and the constant `c` exactly when the law holds in the
/// multiplication table of `x ◇ y = ax + by + c`.
pub proof fn lemma_affine_decision_matches_table(
    m: u64,
    a: u64,
    b: u64,
    c: u64,
    law: Law,
    d: LawDiff,
    table: Seq<u8>,
)
    requires
        1 <= m,
        linear_law_ok(law),
        d.describes(law),
        is_affine_table(table, m as nat, a as int, b as int, c as int),
    ensures
        (law_vanishes(&Zmod { m }, d.terms@, words_spec(&Zmod { m }, seq![a as int], seq![b as int])) && (AffineModel {
            ring: Zmod { m },
            a,
            b,
            c,
        }).const_vanishes(d, words_spec(&Zmod { m }, seq![a as int], seq![b as int]))) <==> law.holds_in(table, m as nat),
{
    let zm = Zmod { m };
    let am = AffineModel { ring: Zmod { m }, a, b, c };
    let (ai, bi, ci, mi) = (a as int, b as int, c as int, m as int);
    let words = words_spec(&zm, seq![ai], seq![bi]);
    let k = law.arity as nat;
    lemma2_to64();
    assert forall|i: int| 0 <= i < table.len() implies table[i] < m by {
        let x = i / mi;
        let y = i % mi;
        lemma_fundamental_div_mod(i, mi);
        assert(x < m) by {
            lemma_div_is_ordered(i, mi * mi, mi);
            lemma_div_by_multiple(mi, mi);
        }
        assert(i == x * mi + y) by (nonlinear_arith)
            requires
                i == mi * x + y,
        ;
        assert(table[x * mi + y] == (ai * x + bi * y + ci) % mi);
    }
    // The linear conditions, one per variable.
    assert forall|v: int| 0 <= v < k implies (terms_vanish(&zm, (#[trigger] d.terms@[v])@, words) <==> (wsum(
        law.lhs,
        0,
        0,
        v as nat,
        m,
        ai,
        bi,
        31,
    ) - wsum(law.rhs, 0, 0, v as nat, m, ai, bi, 31)) % mi == 0) by {
        let cv = d.diffs@[v].c@;
        assert(d.terms@[v]@ == sparse(cv, 31));
        lemma_comb_sparse(cv, m, ai, bi, 31);
        lemma_csum_diff(d, law, v, m, ai, bi, 31);
        lemma_mod_twice(csum(cv, m, ai, bi, 31), mi);
    }
    // The constant condition.
    let il = iform(law.lhs, 0, 0, m, ai, bi);
    let ir = iform(law.rhs, 0, 0, m, ai, bi);
    let idiff = il - ir;
    assert(am.const_vanishes(d, words) <==> (ci * idiff) % mi == 0) by {
        let cc = d.const_diff.c@;
        assert(d.const_terms@ == sparse(cc, 31));
        lemma_comb_sparse(cc, m, ai, bi, 31);
        lemma_csum_const(d, law, m, ai, bi, 31);
        lemma_iform_is_isum(law.lhs, 0, 0, m, ai, bi);
        lemma_iform_is_isum(law.rhs, 0, 0, m, ai, bi);
        let s = csum(cc, m, ai, bi, 31);
        assert(s == idiff);
        lemma_mul_mod_noop_left(s, ci, mi);
        lemma_mod_twice(s * ci, mi);
        assert(s * ci == ci * idiff) by (nonlinear_arith)
            requires
                s == idiff,
        ;
    }
    assert(zword(m, ai, bi, spec_word_index(0, 0)) == 1int % mi);
    // At any assignment the two sides differ by the linear part plus `c`
    // times the constant part.
    assert forall|vals: Seq<u8>| is_assignment(vals, k, m as nat) implies (eval_term(law.lhs, table, m as nat, vals)
        == eval_term(law.rhs, table, m as nat, vals) <==> ((lin_form(law.lhs, 0, 0, m, ai, bi, vals) - lin_form(
        law.rhs,
        0,
        0,
        m,
        ai,
        bi,
        vals,
    )) + ci * idiff) % mi == 0) by {
        let el = eval_term(law.lhs, table, m as nat, vals) as int;
        let er = eval_term(law.rhs, table, m as nat, vals) as int;
        lemma_eval_affine(law.lhs, 0, 0, m, ai, bi, ci, table, vals);
        lemma_eval_affine(law.rhs, 0, 0, m, ai, bi, ci, table, vals);
        lemma_eval_in_carrier(law.lhs, table, m as nat, vals);
        lemma_eval_in_carrier(law.rhs, table, m as nat, vals);
        lemma_mul_mod_noop_left(1, el, mi);
        lemma_mul_mod_noop_left(1, er, mi);
        lemma_small_mod(el as nat, m as nat);
        lemma_small_mod(er as nat, m as nat);
        let sl = lin_form(law.lhs, 0, 0, m, ai, bi, vals) + ci * il;
        let sr = lin_form(law.rhs, 0, 0, m, ai, bi, vals) + ci * ir;
        assert(el == sl % mi);
        assert(er == sr % mi);
        assert(sl - sr == (lin_form(law.lhs, 0, 0, m, ai, bi, vals) - lin_form(law.rhs, 0, 0, m, ai, bi, vals)) + ci
            * idiff) by (nonlinear_arith)
            requires
                sl == lin_form(law.lhs, 0, 0, m, ai, bi, vals) + ci * il,
                sr == lin_form(law.rhs, 0, 0, m, ai, bi, vals) + ci * ir,
                idiff == il - ir,
        ;
        if el == er {
            lemma_sub_mod_noop(sl, sr, mi);
            assert(0int % mi == 0) by {
                lemma_small_mod(0, m as nat);
            }
        }
        if (sl - sr) % mi == 0 {
            lemma_residues_equal(sl, sr, mi);
        }
    }
    if law_vanishes(&zm, d.terms@, words) && am.const_vanishes(d, words) {
        assert forall|vals: Seq<u8>| is_assignment(vals, k, m as nat) implies #[trigger] eval_term(
            law.lhs,
            table,
            m as nat,
            vals,
        ) == eval_term(law.rhs, table, m as nat, vals) by {
            lemma_form_is_linear(law.lhs, 0, 0, m, ai, bi, vals);
            lemma_form_is_linear(law.rhs, 0, 0, m, ai, bi, vals);
            lemma_vsum_diff(law, vals, m, ai, bi, k);
            assert forall|v: int| 0 <= v < k implies (#[trigger] wsum(law.lhs, 0, 0, v as nat, m, ai, bi, 31) - wsum(
                law.rhs,
                0,
                0,
                v as nat,
                m,
                ai,
                bi,
                31,
            )) % mi == 0 by {
                assert(terms_vanish(&zm, d.terms@[v]@, words));
            }
            lemma_dsum_zero(law, vals, m, ai, bi, k);
            let lf = lin_form(law.lhs, 0, 0, m, ai, bi, vals) - lin_form(law.rhs, 0, 0, m, ai, bi, vals);
            lemma_add_mod_noop(lf, ci * idiff, mi);
            lemma_small_mod(0, m as nat);
        }
    }
    if law.holds_in(table, m as nat) {
        let zeros = Seq::new(k, |i: int| 0u8);
        assert(is_assignment(zeros, k, m as nat));
        lemma_lin_form_zero(law.lhs, 0, 0, m, ai, bi, k);
        lemma_lin_form_zero(law.rhs, 0, 0, m, ai, bi, k);
        assert(eval_term(law.lhs, table, m as nat, zeros) == eval_term(law.rhs, table, m as nat, zeros));
        assert((ci * idiff) % mi == 0);
        assert forall|v: int| 0 <= v < d.terms@.len() implies terms_vanish(&zm, (#[trigger] d.terms@[v])@, words) by {
            let p = wsum(law.lhs, 0, 0, v as nat, m, ai, bi, 31);
            let q = wsum(law.rhs, 0, 0, v as nat, m, ai, bi, 31);
            if m == 1 {
                assert((p - q) % 1 == 0);
            } else {
                let vals = unit(k, v as nat);
                assert(is_assignment(vals, k, m as nat));
                assert(eval_term(law.lhs, table, m as nat, vals) == eval_term(law.rhs, table, m as nat, vals));
                lemma_unit_form(law.lhs, 0, 0, k, v as nat, m, ai, bi);
                lemma_unit_form(law.rhs, 0, 0, k, v as nat, m, ai, bi);
                assert(((p - q) + ci * idiff) % mi == 0);
                lemma_add_mod_noop(p - q, ci * idiff, mi);
                lemma_mod_bound(p - q, mi);
                lemma_small_mod(0, m as nat);
                assert(((p - q) % mi + 0) % mi == 0);
                lemma_mod_twice(p - q, mi);
            }
        }
    }
}

} // verus!
