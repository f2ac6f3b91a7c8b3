//! What the fibre residual says about an extension: once the residual is
//! flat in the fibre coordinates, it is zero exactly when the extension
//! satisfies the law.

use crate::ext::{
    ext_entry, ext_table, fibre_assignment, fibre_diff, fibre_residual, flat_of, flat_spec, lemma_residual_refutes, probe_fibre,
    probed_cell, probed_system, residual_spec, solves_probed, unit_cocycle, zero_cocycle, Extension, CocycleSpace, coeff_at,
    flat_at, member_step, member_upto, probe_at, refuted_at, refutes, first_nonzero, combined_residual,
    lemma_residual_residues, residues, probes_defined, probed_solvable,
};
use crate::finite::FiniteMagma;
use crate::gauss::{rdot, row, row_ok};
use crate::finite::{digits_of, encode, lemma_digits_are_assignment, lemma_encode_bound, lemma_encode_digits, table_ok};
use crate::law::{eval_term, is_assignment, vars_below, Law, Term};
use vstd::arithmetic::div_mod::*;
use vstd::arithmetic::mul::*;
use vstd::arithmetic::power::pow;
use vstd::prelude::*;

verus! {

/// The assignment that puts variable `j` at base element `bv[j]` and fibre
/// coordinate `fv[j]`.
pub open spec fn mix(bv: Seq<u8>, fv: Seq<int>, m: nat) -> Seq<u8> {
    Seq::new(bv.len(), |j: int| (bv[j] * m + fv[j]) as u8)
}

/// The fibre coordinate of `t` in the extension, its variables at base
/// elements `bv` and fibre coordinates `fv`.
pub open spec fn fib(
    t: Term,
    base: Seq<u8>,
    nb: nat,
    m: nat,
    alpha: nat,
    beta: nat,
    coc: Seq<u32>,
    bv: Seq<u8>,
    fv: Seq<int>,
) -> int
    decreases t,
{
    match t {
        Term::Var(v) => fv[v as int],
        Term::Op(l, r) => (alpha * fib(*l, base, nb, m, alpha, beta, coc, bv, fv) + beta * fib(
            *r,
            base,
            nb,
            m,
            alpha,
            beta,
            coc,
            bv,
            fv,
        ) + coc[eval_term(*l, base, nb, bv) * nb + eval_term(*r, base, nb, bv)]) % (m as int),
    }
}

/// The fibre coordinates are residues.
pub open spec fn fibres_ok(fv: Seq<int>, m: nat) -> bool {
    forall|j: int| 0 <= j < fv.len() ==> 0 <= #[trigger] fv[j] < m
}

/// The base elements are elements.
pub open spec fn bases_ok(bv: Seq<u8>, nb: nat) -> bool {
    forall|j: int| 0 <= j < bv.len() ==> #[trigger] bv[j] < nb
}

/// A term evaluates in the extension to its value in the base, lifted, plus
/// its fibre coordinate.
pub proof fn lemma_ext_eval(
    t: Term,
    base: Seq<u8>,
    nb: nat,
    m: nat,
    alpha: nat,
    beta: nat,
    coc: Seq<u32>,
    bv: Seq<u8>,
    fv: Seq<int>,
)
    requires
        m >= 1,
        table_ok(nb, base),
        nb * m <= 255,
        coc.len() >= nb * nb,
        vars_below(t, bv.len()),
        fv.len() == bv.len(),
        bases_ok(bv, nb),
        fibres_ok(fv, m),
    ensures
        eval_term(t, base, nb, bv) < nb,
        0 <= fib(t, base, nb, m, alpha, beta, coc, bv, fv) < m,
        eval_term(t, ext_table(base, nb, m, alpha, beta, coc), nb * m, mix(bv, fv, m)) == eval_term(t, base, nb, bv) * m
            + fib(t, base, nb, m, alpha, beta, coc, bv, fv),
    decreases t,
{
    let n = nb * m;
    let tbl = ext_table(base, nb, m, alpha, beta, coc);
    match t {
        Term::Var(v) => {
            let b = bv[v as int] as int;
            let f = fv[v as int];
            assert(b * m + f < nb * m) by (nonlinear_arith)
                requires
                    b < nb,
                    f < m,
            ;
            assert(0 <= b * m) by (nonlinear_arith)
                requires
                    b >= 0,
                    m >= 1,
            ;
        },
        Term::Op(l, r) => {
            lemma_ext_eval(*l, base, nb, m, alpha, beta, coc, bv, fv);
            lemma_ext_eval(*r, base, nb, m, alpha, beta, coc, bv, fv);
            let vals = mix(bv, fv, m);
            let bl = eval_term(*l, base, nb, bv) as int;
            let br = eval_term(*r, base, nb, bv) as int;
            let fl = fib(*l, base, nb, m, alpha, beta, coc, bv, fv);
            let fr = fib(*r, base, nb, m, alpha, beta, coc, bv, fv);
            let x = eval_term(*l, tbl, n, vals) as int;
            let y = eval_term(*r, tbl, n, vals) as int;
            assert(x == bl * m + fl);
            assert(y == br * m + fr);
            assert(x < n && y < n) by (nonlinear_arith)
                requires
                    x == bl * m + fl,
                    y == br * m + fr,
                    bl < nb,
                    br < nb,
                    fl < m,
                    fr < m,
                    n == nb * m,
            ;
            assert(0 <= x * n + y < n * n) by (nonlinear_arith)
                requires
                    0 <= x < n,
                    0 <= y < n,
            ;
            lemma_fundamental_div_mod_converse(x * n + y, n as int, x, y);
            lemma_fundamental_div_mod_converse(x, m as int, bl, fl);
            lemma_fundamental_div_mod_converse(y, m as int, br, fr);
            let idx = bl * nb + br;
            assert(0 <= idx < nb * nb) by (nonlinear_arith)
                requires
                    0 <= bl < nb,
                    0 <= br < nb,
                    idx == bl * nb + br,
            ;
            let c = coc[idx] as int;
            let f = (alpha * fl + beta * fr + c) % (m as int);
            lemma_mod_bound(alpha * fl + beta * fr + c, m as int);
            let bz = base[idx] as int;
            assert(bz < nb);
            assert(bz * m + f < nb * m) by (nonlinear_arith)
                requires
                    bz < nb,
                    0 <= f < m,
            ;
            assert(0 <= bz * m) by (nonlinear_arith)
                requires
                    bz >= 0,
                    m >= 1,
            ;
            assert(ext_entry(base, nb, m, alpha, beta, coc, x as nat, y as nat) == bz * m + f);
            assert(tbl[x * n + y] == (bz * m + f) as u8);
        },
    }
}

/// How the fibre coordinate of `t` moves with that of variable `v`: the
/// product of the `alpha`s and `beta`s along each path to an occurrence of
/// `v`, summed.
pub open spec fn coef(t: Term, alpha: nat, beta: nat, v: int) -> int
    decreases t,
{
    match t {
        Term::Var(w) => if w as int == v {
            1
        } else {
            0
        },
        Term::Op(l, r) => alpha * coef(*l, alpha, beta, v) + beta * coef(*r, alpha, beta, v),
    }
}

/// `Σ_{v < k} coef(t, v) * fv[v]`.
pub open spec fn lin(t: Term, alpha: nat, beta: nat, fv: Seq<int>, k: nat) -> int
    decreases k,
{
    if k == 0 {
        0
    } else {
        lin(t, alpha, beta, fv, (k - 1) as nat) + coef(t, alpha, beta, k - 1) * fv[k - 1]
    }
}

/// Every fibre coordinate zero.
pub open spec fn zero_fibres(k: nat) -> Seq<int> {
    Seq::new(k, |j: int| 0int)
}

proof fn lemma_lin_var(w: u8, alpha: nat, beta: nat, fv: Seq<int>, k: nat)
    ensures
        lin(Term::Var(w), alpha, beta, fv, k) == if (w as int) < k {
            fv[w as int]
        } else {
            0
        },
    decreases k,
{
    if k > 0 {
        lemma_lin_var(w, alpha, beta, fv, (k - 1) as nat);
    }
}

proof fn lemma_lin_op(l: Term, r: Term, alpha: nat, beta: nat, fv: Seq<int>, k: nat)
    ensures
        lin(Term::Op(Box::new(l), Box::new(r)), alpha, beta, fv, k) == alpha * lin(l, alpha, beta, fv, k) + beta * lin(
            r,
            alpha,
            beta,
            fv,
            k,
        ),
    decreases k,
{
    if k > 0 {
        lemma_lin_op(l, r, alpha, beta, fv, (k - 1) as nat);
        let t = Term::Op(Box::new(l), Box::new(r));
        let (a, b, f) = (coef(l, alpha, beta, k - 1), coef(r, alpha, beta, k - 1), fv[k - 1]);
        let (ll, lr) = (lin(l, alpha, beta, fv, (k - 1) as nat), lin(r, alpha, beta, fv, (k - 1) as nat));
        assert(coef(t, alpha, beta, k - 1) == alpha * a + beta * b);
        assert((alpha * a + beta * b) * f + alpha * ll + beta * lr == alpha * (ll + a * f) + beta * (lr + b * f))
            by (nonlinear_arith);
    }
}

/// Congruent summands give congruent combinations.
proof fn lemma_combine_mod(a: int, a2: int, b: int, b2: int, alpha: int, beta: int, c: int, m: int)
    requires
        m > 0,
        a % m == a2 % m,
        b % m == b2 % m,
    ensures
        (alpha * a + beta * b + c) % m == (alpha * a2 + beta * b2 + c) % m,
{
    lemma_fundamental_div_mod(a, m);
    lemma_fundamental_div_mod(a2, m);
    lemma_fundamental_div_mod(b, m);
    lemma_fundamental_div_mod(b2, m);
    let (qa, qa2, qb, qb2) = (a / m, a2 / m, b / m, b2 / m);
    let (ra, rb) = (a % m, b % m);
    let (da, db) = (qa - qa2, qb - qb2);
    assert(a == a2 + m * da) by (nonlinear_arith)
        requires
            a == m * qa + ra,
            a2 == m * qa2 + ra,
            da == qa - qa2,
    ;
    assert(b == b2 + m * db) by (nonlinear_arith)
        requires
            b == m * qb + rb,
            b2 == m * qb2 + rb,
            db == qb - qb2,
    ;
    assert(alpha * a == alpha * a2 + m * (alpha * da)) by (nonlinear_arith)
        requires
            a == a2 + m * da,
    ;
    assert(beta * b == beta * b2 + m * (beta * db)) by (nonlinear_arith)
        requires
            b == b2 + m * db,
    ;
    let k = alpha * da + beta * db;
    assert(m * (alpha * da) + m * (beta * db) == m * k) by (nonlinear_arith)
        requires
            k == alpha * da + beta * db,
    ;
    assert(alpha * a + beta * b + c == m * k + (alpha * a2 + beta * b2 + c));
    lemma_mod_multiples_vanish(k, alpha * a2 + beta * b2 + c, m);
}

/// The fibre coordinate moves linearly with the fibre coordinates of the
/// variables, mod `m`.
pub proof fn lemma_fib_linear(
    t: Term,
    base: Seq<u8>,
    nb: nat,
    m: nat,
    alpha: nat,
    beta: nat,
    coc: Seq<u32>,
    bv: Seq<u8>,
    fv: Seq<int>,
)
    requires
        m >= 1,
        vars_below(t, bv.len()),
        fv.len() == bv.len(),
    ensures
        fib(t, base, nb, m, alpha, beta, coc, bv, fv) % (m as int) == (fib(t, base, nb, m, alpha, beta, coc, bv, zero_fibres(bv.len()))
            + lin(t, alpha, beta, fv, bv.len())) % (m as int),
    decreases t,
{
    let k = bv.len();
    let z = zero_fibres(k);
    let mi = m as int;
    match t {
        Term::Var(w) => {
            lemma_lin_var(w, alpha, beta, fv, k);
        },
        Term::Op(l, r) => {
            lemma_fib_linear(*l, base, nb, m, alpha, beta, coc, bv, fv);
            lemma_fib_linear(*r, base, nb, m, alpha, beta, coc, bv, fv);
            lemma_lin_op(*l, *r, alpha, beta, fv, k);
            assert(t == Term::Op(Box::new(*l), Box::new(*r)));
            let c = coc[eval_term(*l, base, nb, bv) * nb + eval_term(*r, base, nb, bv)] as int;
            let (fl, fr) = (fib(*l, base, nb, m, alpha, beta, coc, bv, fv), fib(*r, base, nb, m, alpha, beta, coc, bv, fv));
            let (fl0, fr0) = (fib(*l, base, nb, m, alpha, beta, coc, bv, z), fib(*r, base, nb, m, alpha, beta, coc, bv, z));
            let (ll, lr) = (lin(*l, alpha, beta, fv, k), lin(*r, alpha, beta, fv, k));
            lemma_combine_mod(fl, fl0 + ll, fr, fr0 + lr, alpha as int, beta as int, c, mi);
            // (alpha fl + beta fr + c) % m == (alpha (fl0 + ll) + beta (fr0 + lr) + c) % m
            let base0 = alpha * fl0 + beta * fr0 + c;
            assert(alpha * (fl0 + ll) + beta * (fr0 + lr) + c == base0 + (alpha * ll + beta * lr)) by (nonlinear_arith)
                requires
                    base0 == alpha * fl0 + beta * fr0 + c,
            ;
            lemma_fundamental_div_mod(base0, mi);
            let q = base0 / mi;
            assert(base0 + (alpha * ll + beta * lr) == mi * q + (base0 % mi + (alpha * ll + beta * lr)));
            lemma_mod_multiples_vanish(q, base0 % mi + (alpha * ll + beta * lr), mi);
            // fib(t, fv) is already reduced
            lemma_mod_bound(alpha * fl + beta * fr + c, mi);
            lemma_small_mod_int((alpha * fl + beta * fr + c) % mi, mi);
        },
    }
}

proof fn lemma_small_mod_int(x: int, m: int)
    requires
        m > 0,
        0 <= x < m,
    ensures
        x % m == x,
{
    lemma_small_mod(x as nat, m as nat);
}

/// The fibre coordinates of probe `p`: variable `p - 1` at `1`, the others at
/// `0`, when the fibre has more than one element.
pub open spec fn probe_fibres(p: nat, m: nat, k: nat) -> Seq<int> {
    Seq::new(k, |j: int| probe_fibre(j, p, m) as int)
}

proof fn lemma_lin_unit(t: Term, alpha: nat, beta: nat, p: nat, m: nat, k: nat)
    requires
        1 <= p,
    ensures
        lin(t, alpha, beta, probe_fibres(p, m, k), k) == if p <= k && m > 1 {
            coef(t, alpha, beta, p - 1)
        } else {
            0
        },
    decreases k,
{
    if k > 0 {
        lemma_lin_unit(t, alpha, beta, p, m, (k - 1) as nat);
        let fv = probe_fibres(p, m, k);
        let fv1 = probe_fibres(p, m, (k - 1) as nat);
        assert forall|j: int| 0 <= j < k - 1 implies fv[j] == fv1[j] by {}
        lemma_lin_prefix(t, alpha, beta, fv, fv1, (k - 1) as nat);
        let c = coef(t, alpha, beta, k - 1);
        assert(c * 0 == 0 && c * 1 == c) by (nonlinear_arith);
        if k == p && m > 1 {
            assert(fv[k - 1] == 1);
        } else {
            assert(fv[k - 1] == 0);
        }
    }
}

proof fn lemma_lin_prefix(t: Term, alpha: nat, beta: nat, fv: Seq<int>, fv2: Seq<int>, k: nat)
    requires
        forall|j: int| 0 <= j < k ==> fv[j] == fv2[j],
    ensures
        lin(t, alpha, beta, fv, k) == lin(t, alpha, beta, fv2, k),
    decreases k,
{
    if k > 0 {
        lemma_lin_prefix(t, alpha, beta, fv, fv2, (k - 1) as nat);
    }
}

/// Two terms whose coefficients agree mod `m` move together.
proof fn lemma_lin_diff(tr: Term, tl: Term, alpha: nat, beta: nat, fv: Seq<int>, m: int, k: nat)
    requires
        m > 0,
        forall|v: int| 0 <= v < k ==> (coef(tr, alpha, beta, v) - coef(tl, alpha, beta, v)) % m == 0,
    ensures
        (lin(tr, alpha, beta, fv, k) - lin(tl, alpha, beta, fv, k)) % m == 0,
    decreases k,
{
    if k > 0 {
        let k1 = (k - 1) as nat;
        lemma_lin_diff(tr, tl, alpha, beta, fv, m, k1);
        let d = coef(tr, alpha, beta, k - 1) - coef(tl, alpha, beta, k - 1);
        let f = fv[k - 1];
        lemma_fundamental_div_mod(d, m);
        let q = d / m;
        assert(d * f == m * (q * f)) by (nonlinear_arith)
            requires
                d == m * q + 0,
        ;
        lemma_mod_multiples_basic(q * f, m);
        assert((m * (q * f)) % m == 0) by {
            lemma_mul_is_commutative(m, q * f);
        }
        let prev = lin(tr, alpha, beta, fv, k1) - lin(tl, alpha, beta, fv, k1);
        assert(lin(tr, alpha, beta, fv, k) - lin(tl, alpha, beta, fv, k) == prev + d * f) by (nonlinear_arith)
            requires
                lin(tr, alpha, beta, fv, k) == lin(tr, alpha, beta, fv, k1) + coef(tr, alpha, beta, k - 1) * f,
                lin(tl, alpha, beta, fv, k) == lin(tl, alpha, beta, fv, k1) + coef(tl, alpha, beta, k - 1) * f,
                prev == lin(tr, alpha, beta, fv, k1) - lin(tl, alpha, beta, fv, k1),
                d == coef(tr, alpha, beta, k - 1) - coef(tl, alpha, beta, k - 1),
        ;
        lemma_small_mod(0, m as nat);
        assert(prev % m == 0int % m);
        assert((d * f) % m == 0int % m);
        lemma_combine_mod(prev, 0, d * f, 0, 1, 1, 0, m);
        assert(1 * prev + 1 * (d * f) + 0 == prev + d * f);
        assert(1 * 0 + 1 * 0 + 0 == 0int);
    }
}

/// A term at the assignment that `code` names under probe `p`.
proof fn lemma_code_eval(
    t: Term,
    base: Seq<u8>,
    nb: nat,
    m: nat,
    alpha: nat,
    beta: nat,
    coc: Seq<u32>,
    code: nat,
    p: nat,
    k: nat,
)
    requires
        m >= 1,
        table_ok(nb, base),
        nb * m <= 255,
        coc.len() >= nb * nb,
        vars_below(t, k),
    ensures
        ({
            let bv = digits_of(code, nb, k);
            let fv = probe_fibres(p, m, k);
            let e = eval_term(t, ext_table(base, nb, m, alpha, beta, coc), nb * m, fibre_assignment(code, nb, m, p, k));
            &&& eval_term(t, base, nb, bv) < nb
            &&& 0 <= fib(t, base, nb, m, alpha, beta, coc, bv, fv) < m
            &&& e == eval_term(t, base, nb, bv) * m + fib(t, base, nb, m, alpha, beta, coc, bv, fv)
            &&& (e as int) % (m as int) == fib(t, base, nb, m, alpha, beta, coc, bv, fv)
            &&& (e as int) / (m as int) == eval_term(t, base, nb, bv)
        }),
{
    let bv = digits_of(code, nb, k);
    let fv = probe_fibres(p, m, k);
    lemma_digits_are_assignment(code, nb, k);
    assert(fibre_assignment(code, nb, m, p, k) =~= mix(bv, fv, m));
    lemma_ext_eval(t, base, nb, m, alpha, beta, coc, bv, fv);
    let b = eval_term(t, base, nb, bv) as int;
    let f = fib(t, base, nb, m, alpha, beta, coc, bv, fv);
    lemma_fundamental_div_mod_converse(b * m + f, m as int, b, f);
}

/// `x % m` and `(x + m) % m` agree.
proof fn lemma_plus_m(x: int, m: int)
    requires
        m > 0,
    ensures
        (x + m) % m == x % m,
{
    lemma_mod_multiples_vanish(1, x, m);
    assert(m * 1 + x == x + m);
}

/// The two sides' fibre coefficients agree mod `m`.
pub open spec fn coefs_agree(law: Law, alpha: nat, beta: nat, m: nat) -> bool {
    forall|v: int| 0 <= v < law.arity ==> (#[trigger] coef(law.rhs, alpha, beta, v) - coef(law.lhs, alpha, beta, v)) % (m as int) == 0
}

/// A flat residual means the fibre coefficients of the two sides agree.
proof fn lemma_flat_coefs(base: Seq<u8>, nb: nat, m: nat, alpha: nat, beta: nat, coc: Seq<u32>, law: Law)
    requires
        m >= 1,
        table_ok(nb, base),
        nb * m <= 255,
        coc.len() >= nb * nb,
        law.wf(),
        flat_of(ext_table(base, nb, m, alpha, beta, coc), nb, m, law),
    ensures
        coefs_agree(law, alpha, beta, m),
{
    let tbl = ext_table(base, nb, m, alpha, beta, coc);
    let n = nb * m;
    let k = law.arity as nat;
    let mi = m as int;
    let r0 = residual_spec(tbl, nb, m, law, 0);
    let v0 = r0->0;
    let total = pow(nb as int, k) as nat;
    vstd::arithmetic::power::lemma_pow_positive(nb as int, k);
    // The coefficients of the two sides agree mod m.
    assert forall|v: int| 0 <= v < k implies (#[trigger] coef(law.rhs, alpha, beta, v) - coef(law.lhs, alpha, beta, v)) % mi
        == 0 by {
        if m > 1 {
            let p = (v + 1) as nat;
            assert(residual_spec(tbl, nb, m, law, p) == r0);
            let bv = digits_of(0, nb, k);
            lemma_code_eval(law.lhs, base, nb, m, alpha, beta, coc, 0, 0, k);
            lemma_code_eval(law.rhs, base, nb, m, alpha, beta, coc, 0, 0, k);
            lemma_code_eval(law.lhs, base, nb, m, alpha, beta, coc, 0, p, k);
            lemma_code_eval(law.rhs, base, nb, m, alpha, beta, coc, 0, p, k);
            let z = probe_fibres(0, m, k);
            let u = probe_fibres(p, m, k);
            assert(z =~= zero_fibres(k));
            let fl0 = fib(law.lhs, base, nb, m, alpha, beta, coc, bv, z);
            let fr0 = fib(law.rhs, base, nb, m, alpha, beta, coc, bv, z);
            let flp = fib(law.lhs, base, nb, m, alpha, beta, coc, bv, u);
            let frp = fib(law.rhs, base, nb, m, alpha, beta, coc, bv, u);
            lemma_fib_linear(law.lhs, base, nb, m, alpha, beta, coc, bv, u);
            lemma_fib_linear(law.rhs, base, nb, m, alpha, beta, coc, bv, u);
            lemma_lin_unit(law.lhs, alpha, beta, p, m, k);
            lemma_lin_unit(law.rhs, alpha, beta, p, m, k);
            let cl = coef(law.lhs, alpha, beta, v);
            let cr = coef(law.rhs, alpha, beta, v);
            // flp ≡ fl0 + cl, frp ≡ fr0 + cr
            lemma_small_mod_int(flp, mi);
            lemma_small_mod_int(frp, mi);
            // the residual entries at code 0 agree
            let e0 = fibre_diff(
                eval_term(law.lhs, tbl, n, fibre_assignment(0, nb, m, 0, k)) as int,
                eval_term(law.rhs, tbl, n, fibre_assignment(0, nb, m, 0, k)) as int,
                mi,
            );
            let ep = fibre_diff(
                eval_term(law.lhs, tbl, n, fibre_assignment(0, nb, m, p, k)) as int,
                eval_term(law.rhs, tbl, n, fibre_assignment(0, nb, m, p, k)) as int,
                mi,
            );
            lemma_mod_bound((fr0 + mi) - fl0, mi);
            lemma_mod_bound((frp + mi) - flp, mi);
            assert(e0 == ((fr0 + mi) - fl0) % mi);
            assert(ep == ((frp + mi) - flp) % mi);
            assert(v0[0] == e0 as u32);
            assert(residual_spec(tbl, nb, m, law, p)->0[0] == ep as u32);
            assert(0 <= e0 < mi && 0 <= ep < mi);
            assert(m <= 255) by (nonlinear_arith)
                requires
                    nb * m <= 255,
                    nb >= 1,
            ;
            assert((e0 as u32) as int == e0 && (ep as u32) as int == ep);
            assert(ep == e0);
            lemma_plus_m(fr0 - fl0, mi);
            lemma_plus_m(frp - flp, mi);
            // (frp - flp) ≡ (fr0 + cr) - (fl0 + cl)
            lemma_combine_mod(frp, fr0 + cr, flp, fl0 + cl, 1, -1, 0, mi);
            assert(1 * frp + (-1) * flp + 0 == frp - flp);
            assert(1 * (fr0 + cr) + (-1) * (fl0 + cl) + 0 == (fr0 - fl0) + (cr - cl));
            // so (fr0 - fl0) + (cr - cl) ≡ fr0 - fl0, hence cr - cl ≡ 0
            let x = fr0 - fl0;
            lemma_combine_mod(x + (cr - cl), x, x, x, 1, -1, 0, mi);
            assert(1 * (x + (cr - cl)) + (-1) * x + 0 == cr - cl);
            assert(1 * x + (-1) * x + 0 == 0int);
            lemma_small_mod(0, m);
        } else {
            lemma_mod_bound(coef(law.rhs, alpha, beta, v) - coef(law.lhs, alpha, beta, v), 1);
        }
    }
}

/// With the fibre coefficients in agreement, a residual that is zero
/// everywhere means the extension satisfies the law.
proof fn lemma_zero_residual_satisfies(base: Seq<u8>, nb: nat, m: nat, alpha: nat, beta: nat, coc: Seq<u32>, law: Law)
    requires
        m >= 1,
        table_ok(nb, base),
        nb * m <= 255,
        coc.len() >= nb * nb,
        law.wf(),
        coefs_agree(law, alpha, beta, m),
        residual_spec(ext_table(base, nb, m, alpha, beta, coc), nb, m, law, 0) matches Some(v) && forall|i: int|
            0 <= i < v.len() ==> v[i] == 0,
    ensures
        law.holds_in(ext_table(base, nb, m, alpha, beta, coc), nb * m),
{
    let tbl = ext_table(base, nb, m, alpha, beta, coc);
    let n = nb * m;
    let k = law.arity as nat;
    let mi = m as int;
    let r0 = residual_spec(tbl, nb, m, law, 0);
    let v0 = r0->0;
    let total = pow(nb as int, k) as nat;
    vstd::arithmetic::power::lemma_pow_positive(nb as int, k);
    assert(m <= 255) by (nonlinear_arith)
        requires
            nb * m <= 255,
            nb >= 1,
    ;
    assert forall|vals: Seq<u8>| is_assignment(vals, k, n) implies #[trigger] eval_term(law.lhs, tbl, n, vals) == eval_term(
        law.rhs,
        tbl,
        n,
        vals,
    ) by {
        let bv = Seq::new(k, |j: int| ((vals[j] as int) / mi) as u8);
        let fv = Seq::new(k, |j: int| (vals[j] as int) % mi);
        assert forall|j: int| 0 <= j < k implies #[trigger] bv[j] < nb && 0 <= fv[j] < m && vals[j] == bv[j] * m + fv[j] by {
            lemma_fundamental_div_mod(vals[j] as int, mi);
            lemma_mod_bound(vals[j] as int, mi);
            assert((vals[j] as int) / mi < nb) by {
                let q = (vals[j] as int) / mi;
                let r = (vals[j] as int) % mi;
                assert(q < nb) by (nonlinear_arith)
                    requires
                        vals[j] == mi * q + r,
                        r >= 0,
                        vals[j] < nb * mi,
                        mi >= 1,
                ;
            }
            lemma_div_pos_is_pos(vals[j] as int, mi);
            let q = (vals[j] as int) / mi;
            assert(q <= vals[j]) by {
                lemma_div_is_ordered_by_denominator(vals[j] as int, 1, mi);
            }
            assert(bv[j] as int == q);
            assert(vals[j] == mi * q + (vals[j] as int) % mi);
            assert(bv[j] * m == mi * q) by (nonlinear_arith)
                requires
                    bv[j] as int == q,
                    mi == m,
            ;
            assert(fv[j] == (vals[j] as int) % mi);
        }
        assert(vals =~= mix(bv, fv, m));
        let code = encode(bv, nb);
        lemma_encode_bound(bv, nb);
        assert(digits_of(code, nb, k) =~= bv) by {
            assert forall|j: int| 0 <= j < k implies digits_of(code, nb, k)[j] == bv[j] by {
                lemma_encode_digits(bv, nb, j as nat);
            }
        }
        assert(code < total);
        lemma_code_eval(law.lhs, base, nb, m, alpha, beta, coc, code, 0, k);
        lemma_code_eval(law.rhs, base, nb, m, alpha, beta, coc, code, 0, k);
        let z = probe_fibres(0, m, k);
        assert(z =~= zero_fibres(k));
        let fl0 = fib(law.lhs, base, nb, m, alpha, beta, coc, bv, z);
        let fr0 = fib(law.rhs, base, nb, m, alpha, beta, coc, bv, z);
        let bl = eval_term(law.lhs, base, nb, bv) as int;
        let br = eval_term(law.rhs, base, nb, bv) as int;
        // the residual is Some: the base parts agree at `code`
        let la = fibre_assignment(code, nb, m, 0, k);
        assert((eval_term(law.lhs, tbl, n, la) as int) / mi == (eval_term(law.rhs, tbl, n, la) as int) / mi);
        assert(bl == br);
        // the residual is zero at `code`: the fibre parts agree
        assert(v0[code as int] == fibre_diff(eval_term(law.lhs, tbl, n, la) as int, eval_term(law.rhs, tbl, n, la) as int, mi) as u32);
        let fd = fibre_diff(eval_term(law.lhs, tbl, n, la) as int, eval_term(law.rhs, tbl, n, la) as int, mi);
        lemma_mod_bound((fr0 + mi) - fl0, mi);
        assert(fd == ((fr0 + mi) - fl0) % mi);
        assert(0 <= fd < mi);
        assert(v0.len() == total);
        assert(v0[code as int] == 0);
        assert((fd as u32) as int == fd);
        assert(((fr0 + mi) - fl0) % mi == 0);
        lemma_plus_m(fr0 - fl0, mi);
        // general fibres
        lemma_ext_eval(law.lhs, base, nb, m, alpha, beta, coc, bv, fv);
        lemma_ext_eval(law.rhs, base, nb, m, alpha, beta, coc, bv, fv);
        lemma_fib_linear(law.lhs, base, nb, m, alpha, beta, coc, bv, fv);
        lemma_fib_linear(law.rhs, base, nb, m, alpha, beta, coc, bv, fv);
        lemma_lin_diff(law.rhs, law.lhs, alpha, beta, fv, mi, k);
        let fl = fib(law.lhs, base, nb, m, alpha, beta, coc, bv, fv);
        let fr = fib(law.rhs, base, nb, m, alpha, beta, coc, bv, fv);
        let ll = lin(law.lhs, alpha, beta, fv, k);
        let lr = lin(law.rhs, alpha, beta, fv, k);
        // fr - fl ≡ (fr0 + lr) - (fl0 + ll) = (fr0 - fl0) + (lr - ll) ≡ 0
        lemma_combine_mod(fr, fr0 + lr, fl, fl0 + ll, 1, -1, 0, mi);
        assert(1 * fr + (-1) * fl + 0 == fr - fl);
        assert(1 * (fr0 + lr) + (-1) * (fl0 + ll) + 0 == (fr0 - fl0) + (lr - ll));
        lemma_small_mod(0, m);
        lemma_combine_mod(fr0 - fl0, 0, lr - ll, 0, 1, 1, 0, mi);
        assert(1 * (fr0 - fl0) + 1 * (lr - ll) + 0 == (fr0 - fl0) + (lr - ll));
        assert((fr - fl) % mi == 0);
        assert(fr == fl) by {
            lemma_fundamental_div_mod(fr - fl, mi);
            let q = (fr - fl) / mi;
            assert(fr - fl == mi * q);
            if q > 0 {
                assert(mi * q >= mi) by (nonlinear_arith)
                    requires
                        q >= 1,
                        mi >= 1,
                ;
            } else if q < 0 {
                assert(mi * q <= -mi) by (nonlinear_arith)
                    requires
                        q <= -1,
                        mi >= 1,
                ;
            } else {
                assert(mi * q == 0) by (nonlinear_arith)
                    requires
                        q == 0,
                ;
            }
        }
    }
}


/// Once the residual is flat, the extension satisfies the law exactly when
/// the residual, every variable at fibre coordinate zero, is zero everywhere.
pub proof fn lemma_flat_residual_decides(
    base: Seq<u8>,
    nb: nat,
    m: nat,
    alpha: nat,
    beta: nat,
    coc: Seq<u32>,
    law: Law,
)
    requires
        m >= 1,
        table_ok(nb, base),
        nb * m <= 255,
        coc.len() >= nb * nb,
        law.wf(),
        flat_of(ext_table(base, nb, m, alpha, beta, coc), nb, m, law),
    ensures
        law.holds_in(ext_table(base, nb, m, alpha, beta, coc), nb * m) <==> (residual_spec(
            ext_table(base, nb, m, alpha, beta, coc),
            nb,
            m,
            law,
            0,
        ) matches Some(v) && forall|i: int| 0 <= i < v.len() ==> v[i] == 0),
{
    let tbl = ext_table(base, nb, m, alpha, beta, coc);
    let r0 = residual_spec(tbl, nb, m, law, 0);
    let zero = r0 matches Some(v) && forall|i: int| 0 <= i < v.len() ==> v[i] == 0;
    if !zero {
        lemma_residual_refutes(tbl, nb, m, law, 0);
    } else {
        lemma_flat_coefs(base, nb, m, alpha, beta, coc, law);
        lemma_zero_residual_satisfies(base, nb, m, alpha, beta, coc, law);
    }
}

/// An extension whose residual for `law` is flat satisfies `law` exactly
/// when the residual, every variable at fibre coordinate zero, is zero
/// everywhere.
pub proof fn lemma_law_residual_decides(ext: &Extension, law: Law)
    requires
        ext.fits(),
        law.wf(),
        flat_spec(ext, law),
    ensures
        law.holds_in(ext.spec_table(), ext.spec_carrier()) <==> (residual_spec(
            ext.spec_table(),
            ext.base.n as nat,
            ext.m as nat,
            law,
            0,
        ) matches Some(v) && forall|i: int| 0 <= i < v.len() ==> v[i] == 0),
{
    assert(ext.spec_carrier() == (ext.base.n as nat) * (ext.m as nat));
    lemma_flat_residual_decides(
        ext.base.table@,
        ext.base.n as nat,
        ext.m as nat,
        ext.alpha as nat,
        ext.beta as nat,
        ext.cocycle@,
        law,
    );
}

/// How the fibre coordinate of `t` moves with cocycle entry `j`, the
/// variables at base elements `bv`.
pub open spec fn ccoef(t: Term, base: Seq<u8>, nb: nat, bv: Seq<u8>, alpha: nat, beta: nat, j: int) -> int
    decreases t,
{
    match t {
        Term::Var(_) => 0,
        Term::Op(l, r) => alpha * ccoef(*l, base, nb, bv, alpha, beta, j) + beta * ccoef(*r, base, nb, bv, alpha, beta, j)
            + if j == eval_term(*l, base, nb, bv) * nb + eval_term(*r, base, nb, bv) {
            1int
        } else {
            0int
        },
    }
}

/// `Σ_{j < n} ccoef(t, j) * c[j]`.
pub open spec fn clin(t: Term, base: Seq<u8>, nb: nat, bv: Seq<u8>, alpha: nat, beta: nat, c: Seq<u32>, n: nat) -> int
    decreases n,
{
    if n == 0 {
        0
    } else {
        clin(t, base, nb, bv, alpha, beta, c, (n - 1) as nat) + ccoef(t, base, nb, bv, alpha, beta, n - 1) * c[n - 1]
    }
}

proof fn lemma_clin_var(w: u8, base: Seq<u8>, nb: nat, bv: Seq<u8>, alpha: nat, beta: nat, c: Seq<u32>, n: nat)
    ensures
        clin(Term::Var(w), base, nb, bv, alpha, beta, c, n) == 0,
    decreases n,
{
    if n > 0 {
        lemma_clin_var(w, base, nb, bv, alpha, beta, c, (n - 1) as nat);
        assert(0 * c[n - 1] == 0);
    }
}

proof fn lemma_clin_op(l: Term, r: Term, base: Seq<u8>, nb: nat, bv: Seq<u8>, alpha: nat, beta: nat, c: Seq<u32>, n: nat)
    ensures
        ({
            let idx = eval_term(l, base, nb, bv) * nb + eval_term(r, base, nb, bv);
            clin(Term::Op(Box::new(l), Box::new(r)), base, nb, bv, alpha, beta, c, n) == alpha * clin(l, base, nb, bv, alpha, beta, c, n)
                + beta * clin(r, base, nb, bv, alpha, beta, c, n) + if idx < n {
                c[idx as int] as int
            } else {
                0
            }
        }),
    decreases n,
{
    if n > 0 {
        let n1 = (n - 1) as nat;
        lemma_clin_op(l, r, base, nb, bv, alpha, beta, c, n1);
        let t = Term::Op(Box::new(l), Box::new(r));
        let idx = eval_term(l, base, nb, bv) * nb + eval_term(r, base, nb, bv);
        let (a, b) = (ccoef(l, base, nb, bv, alpha, beta, n - 1), ccoef(r, base, nb, bv, alpha, beta, n - 1));
        let d: int = if n - 1 == idx {
            1
        } else {
            0
        };
        let f = c[n - 1] as int;
        assert(ccoef(t, base, nb, bv, alpha, beta, n - 1) == alpha * a + beta * b + d);
        let (la, lb) = (clin(l, base, nb, bv, alpha, beta, c, n1), clin(r, base, nb, bv, alpha, beta, c, n1));
        assert((alpha * a + beta * b + d) * f + alpha * la + beta * lb == alpha * (la + a * f) + beta * (lb + b * f) + d * f)
            by (nonlinear_arith);
        assert(d * f == if n - 1 == idx { f } else { 0 }) by (nonlinear_arith)
            requires
                d == if n - 1 == idx { 1int } else { 0int },
        ;
    }
}

/// With every fibre coordinate zero, the fibre coordinate of `t` is linear in
/// the cocycle, mod `m`.
proof fn lemma_fib_cocycle_linear(
    t: Term,
    base: Seq<u8>,
    nb: nat,
    m: nat,
    alpha: nat,
    beta: nat,
    coc: Seq<u32>,
    bv: Seq<u8>,
)
    requires
        m >= 1,
        table_ok(nb, base),
        coc.len() >= nb * nb,
        vars_below(t, bv.len()),
        bases_ok(bv, nb),
    ensures
        fib(t, base, nb, m, alpha, beta, coc, bv, zero_fibres(bv.len())) % (m as int) == clin(t, base, nb, bv, alpha, beta, coc, nb * nb)
            % (m as int),
    decreases t,
{
    let z = zero_fibres(bv.len());
    let mi = m as int;
    let nn = nb * nb;
    match t {
        Term::Var(w) => {
            lemma_clin_var(w, base, nb, bv, alpha, beta, coc, nn);
        },
        Term::Op(l, r) => {
            lemma_fib_cocycle_linear(*l, base, nb, m, alpha, beta, coc, bv);
            lemma_fib_cocycle_linear(*r, base, nb, m, alpha, beta, coc, bv);
            lemma_clin_op(*l, *r, base, nb, bv, alpha, beta, coc, nn);
            assert(t == Term::Op(Box::new(*l), Box::new(*r)));
            lemma_eval_in_base(*l, base, nb, bv);
            lemma_eval_in_base(*r, base, nb, bv);
            let bl = eval_term(*l, base, nb, bv) as int;
            let br = eval_term(*r, base, nb, bv) as int;
            let idx = bl * nb + br;
            assert(0 <= idx < nn) by (nonlinear_arith)
                requires
                    0 <= bl < nb,
                    0 <= br < nb,
                    idx == bl * nb + br,
                    nn == nb * nb,
            ;
            let cc = coc[idx] as int;
            let (fl, fr) = (fib(*l, base, nb, m, alpha, beta, coc, bv, z), fib(*r, base, nb, m, alpha, beta, coc, bv, z));
            let (cl, cr) = (clin(*l, base, nb, bv, alpha, beta, coc, nn), clin(*r, base, nb, bv, alpha, beta, coc, nn));
            lemma_combine_mod(fl, cl, fr, cr, alpha as int, beta as int, cc, mi);
            lemma_mod_bound(alpha * fl + beta * fr + cc, mi);
            lemma_small_mod_int((alpha * fl + beta * fr + cc) % mi, mi);
        },
    }
}

/// A term's value in the base is an element.
proof fn lemma_eval_in_base(t: Term, base: Seq<u8>, nb: nat, bv: Seq<u8>)
    requires
        table_ok(nb, base),
        vars_below(t, bv.len()),
        bases_ok(bv, nb),
    ensures
        eval_term(t, base, nb, bv) < nb,
    decreases t,
{
    match t {
        Term::Var(_) => {},
        Term::Op(l, r) => {
            lemma_eval_in_base(*l, base, nb, bv);
            lemma_eval_in_base(*r, base, nb, bv);
            let x = eval_term(*l, base, nb, bv) as int;
            let y = eval_term(*r, base, nb, bv) as int;
            assert(0 <= x * nb + y < nb * nb) by (nonlinear_arith)
                requires
                    0 <= x < nb,
                    0 <= y < nb,
            ;
        },
    }
}

proof fn lemma_clin_zero(t: Term, base: Seq<u8>, nb: nat, bv: Seq<u8>, alpha: nat, beta: nat, n: nat)
    requires
        n <= nb * nb,
    ensures
        clin(t, base, nb, bv, alpha, beta, zero_cocycle(nb), n) == 0,
    decreases n,
{
    if n > 0 {
        lemma_clin_zero(t, base, nb, bv, alpha, beta, (n - 1) as nat);
        let c = ccoef(t, base, nb, bv, alpha, beta, n - 1);
        assert(c * 0 == 0);
    }
}

proof fn lemma_clin_unit(t: Term, base: Seq<u8>, nb: nat, bv: Seq<u8>, alpha: nat, beta: nat, j: int, n: nat)
    requires
        0 <= j < nb * nb,
        n <= nb * nb,
    ensures
        clin(t, base, nb, bv, alpha, beta, unit_cocycle(nb, j), n) == if j < n {
            ccoef(t, base, nb, bv, alpha, beta, j)
        } else {
            0
        },
    decreases n,
{
    if n > 0 {
        lemma_clin_unit(t, base, nb, bv, alpha, beta, j, (n - 1) as nat);
        let c = ccoef(t, base, nb, bv, alpha, beta, n - 1);
        assert(c * 0 == 0 && c * 1 == c);
    }
}

/// The residual entry for `code` under cocycle `coc`: the fibre difference
/// of the two sides, every variable at fibre coordinate zero.
pub open spec fn res_entry(base: Seq<u8>, nb: nat, m: nat, alpha: nat, beta: nat, coc: Seq<u32>, law: Law, code: nat) -> int {
    let k = law.arity as nat;
    let tbl = ext_table(base, nb, m, alpha, beta, coc);
    let a = fibre_assignment(code, nb, m, 0, k);
    fibre_diff(eval_term(law.lhs, tbl, nb * m, a) as int, eval_term(law.rhs, tbl, nb * m, a) as int, m as int)
}

/// A residual entry is linear in the cocycle.
proof fn lemma_res_entry(base: Seq<u8>, nb: nat, m: nat, alpha: nat, beta: nat, coc: Seq<u32>, law: Law, code: nat)
    requires
        m >= 1,
        table_ok(nb, base),
        nb * m <= 255,
        coc.len() >= nb * nb,
        law.wf(),
    ensures
        ({
            let bv = digits_of(code, nb, law.arity as nat);
            res_entry(base, nb, m, alpha, beta, coc, law, code) == (clin(law.rhs, base, nb, bv, alpha, beta, coc, nb * nb) - clin(
                law.lhs,
                base,
                nb,
                bv,
                alpha,
                beta,
                coc,
                nb * nb,
            )) % (m as int)
        }),
{
    let k = law.arity as nat;
    let mi = m as int;
    let bv = digits_of(code, nb, k);
    lemma_digits_are_assignment(code, nb, k);
    lemma_code_eval(law.lhs, base, nb, m, alpha, beta, coc, code, 0, k);
    lemma_code_eval(law.rhs, base, nb, m, alpha, beta, coc, code, 0, k);
    let z = probe_fibres(0, m, k);
    assert(z =~= zero_fibres(k));
    lemma_fib_cocycle_linear(law.lhs, base, nb, m, alpha, beta, coc, bv);
    lemma_fib_cocycle_linear(law.rhs, base, nb, m, alpha, beta, coc, bv);
    let fl = fib(law.lhs, base, nb, m, alpha, beta, coc, bv, z);
    let fr = fib(law.rhs, base, nb, m, alpha, beta, coc, bv, z);
    let cl = clin(law.lhs, base, nb, bv, alpha, beta, coc, nb * nb);
    let cr = clin(law.rhs, base, nb, bv, alpha, beta, coc, nb * nb);
    lemma_plus_m(fr - fl, mi);
    assert((fr + mi) - fl == (fr - fl) + mi);
    lemma_combine_mod(fr, cr, fl, cl, 1, -1, 0, mi);
    assert(1 * fr + (-1) * fl + 0 == fr - fl);
    assert(1 * cr + (-1) * cl + 0 == cr - cl);
}

/// Sums whose coefficients agree mod `m` agree mod `m`.
proof fn lemma_rdot_congr(rw: Seq<u32>, x: Seq<u32>, tr: Term, tl: Term, base: Seq<u8>, nb: nat, bv: Seq<u8>, alpha: nat, beta: nat, m: int, n: nat)
    requires
        m > 0,
        forall|j: int|
            0 <= j < n ==> (rw[j] as int) % m == (ccoef(tr, base, nb, bv, alpha, beta, j) - ccoef(tl, base, nb, bv, alpha, beta, j))
                % m,
    ensures
        rdot(rw, x, n) % m == (clin(tr, base, nb, bv, alpha, beta, x, n) - clin(tl, base, nb, bv, alpha, beta, x, n)) % m,
    decreases n,
{
    if n > 0 {
        let n1 = (n - 1) as nat;
        lemma_rdot_congr(rw, x, tr, tl, base, nb, bv, alpha, beta, m, n1);
        let d = ccoef(tr, base, nb, bv, alpha, beta, n - 1) - ccoef(tl, base, nb, bv, alpha, beta, n - 1);
        let f = x[n - 1] as int;
        let rj = rw[n - 1] as int;
        lemma_combine_mod(rj, d, 0, 0, f, 0, 0, m);
        assert(f * rj + 0 * 0 + 0 == rj * f) by (nonlinear_arith);
        assert(f * d + 0 * 0 + 0 == d * f) by (nonlinear_arith);
        let prev = rdot(rw, x, n1);
        let dprev = clin(tr, base, nb, bv, alpha, beta, x, n1) - clin(tl, base, nb, bv, alpha, beta, x, n1);
        lemma_combine_mod(prev, dprev, rj * f, d * f, 1, 1, 0, m);
        assert(1 * prev + 1 * (rj * f) + 0 == rdot(rw, x, n));
        assert(clin(tr, base, nb, bv, alpha, beta, x, n) - clin(tl, base, nb, bv, alpha, beta, x, n) == dprev + d * f)
            by (nonlinear_arith)
            requires
                clin(tr, base, nb, bv, alpha, beta, x, n) == clin(tr, base, nb, bv, alpha, beta, x, n1) + ccoef(tr, base, nb, bv, alpha, beta, n - 1) * f,
                clin(tl, base, nb, bv, alpha, beta, x, n) == clin(tl, base, nb, bv, alpha, beta, x, n1) + ccoef(tl, base, nb, bv, alpha, beta, n - 1) * f,
                dprev == clin(tr, base, nb, bv, alpha, beta, x, n1) - clin(tl, base, nb, bv, alpha, beta, x, n1),
                d == ccoef(tr, base, nb, bv, alpha, beta, n - 1) - ccoef(tl, base, nb, bv, alpha, beta, n - 1),
        ;
        assert(1 * dprev + 1 * (d * f) + 0 == dprev + d * f);
    }
}

/// The base parts of the two sides do not depend on the cocycle: when the
/// residual under the zero cocycle exists, so does the residual under any
/// cocycle, entry by entry the fibre difference.
proof fn lemma_residual_some(base: Seq<u8>, nb: nat, m: nat, alpha: nat, beta: nat, coc: Seq<u32>, law: Law, z: Seq<u32>)
    requires
        m >= 1,
        table_ok(nb, base),
        nb * m <= 255,
        coc.len() >= nb * nb,
        z.len() >= nb * nb,
        law.wf(),
        residual_spec(ext_table(base, nb, m, alpha, beta, z), nb, m, law, 0) is Some,
    ensures
        residual_spec(ext_table(base, nb, m, alpha, beta, coc), nb, m, law, 0) == Some(
            Seq::new(
                pow(nb as int, law.arity as nat) as nat,
                |c: int| res_entry(base, nb, m, alpha, beta, coc, law, c as nat) as u32,
            ),
        ),
{
    let k = law.arity as nat;
    let n = nb * m;
    let mi = m as int;
    let t0 = ext_table(base, nb, m, alpha, beta, z);
    let tx = ext_table(base, nb, m, alpha, beta, coc);
    let total = pow(nb as int, k) as nat;
    assert forall|code: nat| code < total implies (#[trigger] eval_term(law.lhs, tx, n, fibre_assignment(code, nb, m, 0, k))
        as int) / mi == (eval_term(law.rhs, tx, n, fibre_assignment(code, nb, m, 0, k)) as int) / mi by {
        lemma_code_eval(law.lhs, base, nb, m, alpha, beta, z, code, 0, k);
        lemma_code_eval(law.rhs, base, nb, m, alpha, beta, z, code, 0, k);
        lemma_code_eval(law.lhs, base, nb, m, alpha, beta, coc, code, 0, k);
        lemma_code_eval(law.rhs, base, nb, m, alpha, beta, coc, code, 0, k);
        assert((eval_term(law.lhs, t0, n, fibre_assignment(code, nb, m, 0, k)) as int) / mi == (eval_term(
            law.rhs,
            t0,
            n,
            fibre_assignment(code, nb, m, 0, k),
        ) as int) / mi);
    }
    let rs = residual_spec(tx, nb, m, law, 0);
    assert(rs is Some);
    assert(rs->0 =~= Seq::new(total, |c: int| res_entry(base, nb, m, alpha, beta, coc, law, c as nat) as u32));
}

/// Row `i` of a flat matrix of rows of `w` entries, at column `j`.
proof fn lemma_row_entry(a: Seq<u32>, w: nat, i: int, j: int, neq: nat)
    requires
        a.len() == neq * w,
        0 <= i < neq,
        0 <= j < w,
    ensures
        row(a, w, i)[j] == a[i * w + j],
        0 <= i * w + j < a.len(),
{
    assert(0 <= i * w + j < neq * w) by (nonlinear_arith)
        requires
            0 <= i < neq,
            0 <= j < w,
    ;
    assert(i * w + w <= neq * w) by (nonlinear_arith)
        requires
            0 <= i < neq,
            w >= 0,
    ;
}

/// Every solution of the probed system makes the extension satisfy the law,
/// once the residual is flat under the zero cocycle: the residual is affine
/// in the cocycle, and the probed system is that affine map.
pub proof fn lemma_probed_solutions_satisfy(base: &FiniteMagma, m: u32, alpha: u32, beta: u32, law: Law, x: Seq<u32>)
    requires
        base.wf(),
        law.wf(),
        m >= 1,
        base.n * m <= 255,
        x.len() == base.n * base.n,
        flat_of(
            ext_table(base.table@, base.n as nat, m as nat, alpha as nat, beta as nat, zero_cocycle(base.n as nat)),
            base.n as nat,
            m as nat,
            law,
        ),
        solves_probed(base, m, alpha, beta, law, x),
    ensures
        law.holds_in(
            ext_table(base.table@, base.n as nat, m as nat, alpha as nat, beta as nat, x),
            (base.n as nat) * (m as nat),
        ),
{
    let nb = base.n as nat;
    let tb = base.table@;
    let (mn, an, bn) = (m as nat, alpha as nat, beta as nat);
    let mi = m as int;
    let nn = nb * nb;
    let k = law.arity as nat;
    let z = zero_cocycle(nb);
    lemma_flat_coefs(tb, nb, mn, an, bn, z, law);
    let total = pow(nb as int, k) as nat;
    lemma_residual_some(tb, nb, mn, an, bn, z, law, z);
    lemma_residual_some(tb, nb, mn, an, bn, x, law, z);
    let w = nn + 1;
    let a0 = probed_system(tb, nb, mn, an, bn, law);
    let r0 = fibre_residual(tb, nb, mn, an, bn, law, z);
    assert(r0.len() == total);
    assert(a0.len() == total * w);
    assert forall|code: int| 0 <= code < total implies #[trigger] res_entry(tb, nb, mn, an, bn, x, law, code as nat) == 0 by {
        let bv = digits_of(code as nat, nb, k);
        lemma_res_entry(tb, nb, mn, an, bn, x, law, code as nat);
        lemma_res_entry(tb, nb, mn, an, bn, z, law, code as nat);
        lemma_clin_zero(law.lhs, tb, nb, bv, an, bn, nn);
        lemma_clin_zero(law.rhs, tb, nb, bv, an, bn, nn);
        lemma_small_mod(0, mn);
        assert(r0[code] == 0);
        let rw = row(a0, w, code);
        assert(row_ok(rw, nn, x, mi));
        // the row's cells
        assert forall|j: int| 0 <= j < nn implies (#[trigger] rw[j] as int) % mi == (ccoef(law.rhs, tb, nb, bv, an, bn, j) - ccoef(
            law.lhs,
            tb,
            nb,
            bv,
            an,
            bn,
            j,
        )) % mi by {
            lemma_row_entry(a0, w, code, j, total);
            lemma_fundamental_div_mod_converse(code * w + j, w as int, code, j);
            assert(rw[j] == probed_cell(tb, nb, mn, an, bn, law, code, j));
            let u = unit_cocycle(nb, j);
            lemma_residual_some(tb, nb, mn, an, bn, u, law, z);
            lemma_res_entry(tb, nb, mn, an, bn, u, law, code as nat);
            lemma_clin_unit(law.lhs, tb, nb, bv, an, bn, j, nn);
            lemma_clin_unit(law.rhs, tb, nb, bv, an, bn, j, nn);
            let e = res_entry(tb, nb, mn, an, bn, u, law, code as nat);
            let dd = ccoef(law.rhs, tb, nb, bv, an, bn, j) - ccoef(law.lhs, tb, nb, bv, an, bn, j);
            assert(e == dd % mi);
            lemma_mod_bound(dd, mi);
            assert(fibre_residual(tb, nb, mn, an, bn, law, u)[code] == e as u32);
            assert(mi <= 255) by (nonlinear_arith)
                requires
                    nb * mi <= 255,
                    nb >= 1,
            ;
            assert((e as u32) as int == e);
            lemma_plus_m(e, mi);
            lemma_small_mod_int(e, mi);
            assert(rw[j] as int == e);
            lemma_small_mod_int(dd % mi, mi);
        }
        lemma_row_entry(a0, w, code, nn as int, total);
        lemma_fundamental_div_mod_converse(code * w + nn, w as int, code, nn as int);
        assert(rw[nn as int] == probed_cell(tb, nb, mn, an, bn, law, code, nn as int));
        lemma_mod_self_0(mi);
        assert(rw[nn as int] == 0);
        lemma_rdot_congr(rw, x, law.rhs, law.lhs, tb, nb, bv, an, bn, mi, nn);
    }
    let tx = ext_table(tb, nb, mn, an, bn, x);
    assert(residual_spec(tx, nb, mn, law, 0) matches Some(v) && forall|i: int| 0 <= i < v.len() ==> v[i] == 0);
    lemma_zero_residual_satisfies(tb, nb, mn, an, bn, x, law);
}

proof fn lemma_mod_self_0(m: int)
    requires
        m > 0,
    ensures
        m % m == 0,
{
    lemma_fundamental_div_mod_converse(m, m, 1, 0);
}

/// `Σ (rhs - lhs) cocycle coefficients · c`, for the base elements `bv`.
pub open spec fn dlin(law: Law, base: Seq<u8>, nb: nat, bv: Seq<u8>, alpha: nat, beta: nat, c: Seq<u32>) -> int {
    clin(law.rhs, base, nb, bv, alpha, beta, c, nb * nb) - clin(law.lhs, base, nb, bv, alpha, beta, c, nb * nb)
}

/// `clin` respects entry-wise congruences `c1 ≡ c2 + a·c3`.
proof fn lemma_clin_congr(t: Term, base: Seq<u8>, nb: nat, bv: Seq<u8>, alpha: nat, beta: nat, c1: Seq<u32>, c2: Seq<u32>, c3: Seq<u32>, a: int, m: int, n: nat)
    requires
        m > 0,
        forall|j: int| 0 <= j < n ==> (c1[j] as int) % m == (c2[j] + a * c3[j]) % m,
    ensures
        clin(t, base, nb, bv, alpha, beta, c1, n) % m == (clin(t, base, nb, bv, alpha, beta, c2, n) + a * clin(t, base, nb, bv, alpha, beta, c3, n)) % m,
    decreases n,
{
    if n > 0 {
        let n1 = (n - 1) as nat;
        lemma_clin_congr(t, base, nb, bv, alpha, beta, c1, c2, c3, a, m, n1);
        let q = ccoef(t, base, nb, bv, alpha, beta, n - 1);
        let (x1, x2, x3) = (c1[n - 1] as int, c2[n - 1] as int, c3[n - 1] as int);
        lemma_combine_mod(x1, x2 + a * x3, 0, 0, q, 0, 0, m);
        assert(q * x1 + 0 * 0 + 0 == q * x1) by (nonlinear_arith);
        assert(q * (x2 + a * x3) + 0 * 0 + 0 == q * x2 + a * (q * x3)) by (nonlinear_arith);
        let (p1, p2, p3) = (
            clin(t, base, nb, bv, alpha, beta, c1, n1),
            clin(t, base, nb, bv, alpha, beta, c2, n1),
            clin(t, base, nb, bv, alpha, beta, c3, n1),
        );
        lemma_combine_mod(p1, p2 + a * p3, q * x1, q * x2 + a * (q * x3), 1, 1, 0, m);
        assert(1 * p1 + 1 * (q * x1) + 0 == clin(t, base, nb, bv, alpha, beta, c1, n));
        assert(1 * (p2 + a * p3) + 1 * (q * x2 + a * (q * x3)) + 0 == clin(t, base, nb, bv, alpha, beta, c2, n) + a * clin(
            t,
            base,
            nb,
            bv,
            alpha,
            beta,
            c3,
            n,
        )) by (nonlinear_arith)
            requires
                clin(t, base, nb, bv, alpha, beta, c2, n) == p2 + q * x2,
                clin(t, base, nb, bv, alpha, beta, c3, n) == p3 + q * x3,
        ;
    }
}

/// `dlin` respects entry-wise congruences `c1 ≡ c2 + a·c3` on the first
/// `nb²` entries.
proof fn lemma_dlin_congr(law: Law, base: Seq<u8>, nb: nat, bv: Seq<u8>, alpha: nat, beta: nat, c1: Seq<u32>, c2: Seq<u32>, c3: Seq<u32>, a: int, m: int)
    requires
        m > 0,
        forall|j: int| 0 <= j < nb * nb ==> (c1[j] as int) % m == (c2[j] + a * c3[j]) % m,
    ensures
        dlin(law, base, nb, bv, alpha, beta, c1) % m == (dlin(law, base, nb, bv, alpha, beta, c2) + a * dlin(law, base, nb, bv, alpha, beta, c3)) % m,
{
    let nn = nb * nb;
    lemma_clin_congr(law.rhs, base, nb, bv, alpha, beta, c1, c2, c3, a, m, nn);
    lemma_clin_congr(law.lhs, base, nb, bv, alpha, beta, c1, c2, c3, a, m, nn);
    let (r1, r2, r3) = (
        clin(law.rhs, base, nb, bv, alpha, beta, c1, nn),
        clin(law.rhs, base, nb, bv, alpha, beta, c2, nn),
        clin(law.rhs, base, nb, bv, alpha, beta, c3, nn),
    );
    let (l1, l2, l3) = (
        clin(law.lhs, base, nb, bv, alpha, beta, c1, nn),
        clin(law.lhs, base, nb, bv, alpha, beta, c2, nn),
        clin(law.lhs, base, nb, bv, alpha, beta, c3, nn),
    );
    lemma_combine_mod(r1, r2 + a * r3, l1, l2 + a * l3, 1, -1, 0, m);
    assert(1 * r1 + (-1) * l1 + 0 == r1 - l1);
    assert(1 * (r2 + a * r3) + (-1) * (l2 + a * l3) + 0 == (r2 - l2) + a * (r3 - l3)) by (nonlinear_arith);
}

/// A probe that does not refute the target leaves `dlin` at zero mod `m`.
proof fn lemma_unrefuted_dlin(base: Seq<u8>, nb: nat, m: nat, alpha: nat, beta: nat, coc: Seq<u32>, law: Law, code: nat)
    requires
        m >= 1,
        table_ok(nb, base),
        nb * m <= 255,
        coc.len() >= nb * nb,
        law.wf(),
        !refutes(base, nb, m, alpha, beta, coc, law),
        code < pow(nb as int, law.arity as nat),
    ensures
        dlin(law, base, nb, digits_of(code, nb, law.arity as nat), alpha, beta, coc) % (m as int) == 0,
{
    lemma_residual_some(base, nb, m, alpha, beta, coc, law, coc);
    lemma_res_entry(base, nb, m, alpha, beta, coc, law, code);
    let e = res_entry(base, nb, m, alpha, beta, coc, law, code);
    lemma_mod_bound(dlin(law, base, nb, digits_of(code, nb, law.arity as nat), alpha, beta, coc), m as int);
    assert(m <= 255) by (nonlinear_arith)
        requires
            nb * m <= 255,
            nb >= 1,
    ;
    assert((e as u32) as int == e);
    vstd::arithmetic::power::lemma_pow_positive(nb as int, law.arity as nat);
    let v = residual_spec(ext_table(base, nb, m, alpha, beta, coc), nb, m, law, 0)->0;
    assert(v[code as int] == e as u32);
    assert(v[code as int] == 0);
}

/// Every member of a space whose probes all leave the target unrefuted and
/// flat satisfies the target: the target's residual is affine in the cocycle,
/// so it vanishes on the whole space once it vanishes at the particular
/// solution and at each `particular + basis_i`.
pub proof fn lemma_blocked_members_satisfy(
    base: &FiniteMagma,
    m: u32,
    alpha: u32,
    beta: u32,
    sp: &CocycleSpace,
    target: Law,
    coeffs: Seq<u32>,
)
    requires
        base.wf(),
        target.wf(),
        m >= 1,
        base.n * m <= 255,
        sp.particular@.len() == base.n * base.n,
        forall|k: int| 0 <= k < sp.basis@.len() ==> (#[trigger] sp.basis@[k])@.len() >= base.n * base.n,
        forall|q: int|
            0 <= q <= sp.basis@.len() ==> !#[trigger] refuted_at(base, m, alpha, beta, sp, target, q) && flat_at(
                base,
                m,
                alpha,
                beta,
                sp,
                target,
                q,
            ),
    ensures
        target.holds_in(
            ext_table(
                base.table@,
                base.n as nat,
                m as nat,
                alpha as nat,
                beta as nat,
                member_upto(sp.particular@, sp.basis_view(), coeffs, m as int, sp.basis@.len()),
            ),
            (base.n as nat) * (m as nat),
        ),
{
    let nb = base.n as nat;
    let tb = base.table@;
    let (mn, an, bn) = (m as nat, alpha as nat, beta as nat);
    let mi = m as int;
    let nn = nb * nb;
    let k = target.arity as nat;
    let part = sp.particular@;
    let bv_ = sp.basis_view();
    let nbasis = sp.basis@.len();
    let x = member_upto(part, bv_, coeffs, mi, nbasis);
    assert(!refuted_at(base, m, alpha, beta, sp, target, 0));
    assert(flat_at(base, m, alpha, beta, sp, target, 0));
    assert(probe_at(sp, m, 0) == part);
    vstd::arithmetic::power::lemma_pow_positive(nb as int, k);
    lemma_flat_coefs(tb, nb, mn, an, bn, part, target);
    crate::ext::lemma_member_upto_len_pub(part, bv_, coeffs, mi, nbasis);
    let total = pow(nb as int, k) as nat;
    assert forall|code: int| 0 <= code < total implies #[trigger] res_entry(tb, nb, mn, an, bn, x, target, code as nat) == 0 by {
        let bv = digits_of(code as nat, nb, k);
        lemma_unrefuted_dlin(tb, nb, mn, an, bn, part, target, code as nat);
        // each basis vector leaves dlin at zero
        assert forall|t: int| 0 <= t < nbasis implies #[trigger] dlin(target, tb, nb, bv, an, bn, bv_[t]) % mi == 0 by {
            assert(!refuted_at(base, m, alpha, beta, sp, target, t + 1));
            let pt = probe_at(sp, m, t + 1);
            assert(bv_[t] == sp.basis@[t]@);
            lemma_unrefuted_dlin(tb, nb, mn, an, bn, pt, target, code as nat);
            assert forall|j: int| 0 <= j < nn implies (pt[j] as int) % mi == (part[j] + 1 * bv_[t][j]) % mi by {
                lemma_mod_bound(part[j] + bv_[t][j], mi);
                lemma_small_mod_int((part[j] + bv_[t][j]) % mi, mi);
            }
            lemma_dlin_congr(target, tb, nb, bv, an, bn, pt, part, bv_[t], 1, mi);
            let (dp, d0, db) = (
                dlin(target, tb, nb, bv, an, bn, pt),
                dlin(target, tb, nb, bv, an, bn, part),
                dlin(target, tb, nb, bv, an, bn, bv_[t]),
            );
            // dp ≡ d0 + db, dp ≡ 0, d0 ≡ 0, so db ≡ 0
            lemma_small_mod(0, mn);
            lemma_combine_mod(d0 + 1 * db, dp, d0, 0, 1, -1, 0, mi);
            assert(1 * (d0 + 1 * db) + (-1) * d0 + 0 == db);
            assert(1 * dp + (-1) * 0 + 0 == dp);
        }
        // the members leave dlin at zero
        assert forall|t: int| 0 <= t < bv_.len() implies (#[trigger] bv_[t]).len() >= nb * nb by {
            assert(bv_[t] == sp.basis@[t]@);
        }
        assert(mi <= 255) by (nonlinear_arith)
            requires
                nb * mi <= 255,
                nb >= 1,
        ;
        lemma_members_dlin(target, tb, nb, bv, an, bn, part, bv_, coeffs, mi, nbasis as nat);
        lemma_res_entry(tb, nb, mn, an, bn, x, target, code as nat);
    }
    lemma_residual_some(tb, nb, mn, an, bn, x, target, part);
    lemma_zero_residual_satisfies(tb, nb, mn, an, bn, x, target);
}

/// Members built from basis vectors that leave `dlin` at zero leave it at
/// zero too.
proof fn lemma_members_dlin(
    law: Law,
    base: Seq<u8>,
    nb: nat,
    bv: Seq<u8>,
    alpha: nat,
    beta: nat,
    part: Seq<u32>,
    basis: Seq<Seq<u32>>,
    coeffs: Seq<u32>,
    m: int,
    k: nat,
)
    requires
        0 < m <= 255,
        k <= basis.len(),
        part.len() == nb * nb,
        forall|t: int| 0 <= t < basis.len() ==> (#[trigger] basis[t]).len() >= nb * nb,
        dlin(law, base, nb, bv, alpha, beta, part) % m == 0,
        forall|t: int| 0 <= t < basis.len() ==> #[trigger] dlin(law, base, nb, bv, alpha, beta, basis[t]) % m == 0,
    ensures
        dlin(law, base, nb, bv, alpha, beta, member_upto(part, basis, coeffs, m, k)) % m == 0,
    decreases k,
{
    if k > 0 {
        let k1 = (k - 1) as nat;
        lemma_members_dlin(law, base, nb, bv, alpha, beta, part, basis, coeffs, m, k1);
        let prev = member_upto(part, basis, coeffs, m, k1);
        crate::ext::lemma_member_upto_len_pub(part, basis, coeffs, m, k1);
        let b = basis[k - 1];
        let a = coeff_at(coeffs, k - 1, m);
        let cur = member_step(prev, b, a, m);
        assert(b.len() >= nb * nb);
        assert forall|j: int| 0 <= j < nb * nb implies (cur[j] as int) % m == (prev[j] + a * b[j]) % m by {
            lemma_mod_bound(prev[j] + a * b[j], m);
            assert(cur[j] == ((prev[j] + a * b[j]) % m) as u32);
            lemma_small_mod_int((prev[j] + a * b[j]) % m, m);
        }
        lemma_dlin_congr(law, base, nb, bv, alpha, beta, cur, prev, b, a, m);
        let (dc, dpv, db) = (
            dlin(law, base, nb, bv, alpha, beta, cur),
            dlin(law, base, nb, bv, alpha, beta, prev),
            dlin(law, base, nb, bv, alpha, beta, b),
        );
        lemma_small_mod(0, m as nat);
        lemma_combine_mod(dpv, 0, db, 0, 1, a, 0, m);
        assert(1 * dpv + a * db + 0 == dpv + a * db);
        assert(1 * 0 + a * 0 + 0 == 0int) by (nonlinear_arith);
    }
}

/// Whether a probe's residual exists does not depend on the probe, and it
/// exists exactly when the base satisfies the law: the base parts of the two
/// sides are the base's own values.
pub proof fn lemma_probe_some(base: Seq<u8>, nb: nat, m: nat, alpha: nat, beta: nat, coc: Seq<u32>, law: Law, p: nat)
    requires
        m >= 1,
        table_ok(nb, base),
        nb * m <= 255,
        coc.len() >= nb * nb,
        law.wf(),
    ensures
        (residual_spec(ext_table(base, nb, m, alpha, beta, coc), nb, m, law, p) is Some) == (residual_spec(
            ext_table(base, nb, m, alpha, beta, coc),
            nb,
            m,
            law,
            0,
        ) is Some),
        (residual_spec(ext_table(base, nb, m, alpha, beta, coc), nb, m, law, 0) is Some) == law.holds_in(base, nb),
{
    let k = law.arity as nat;
    let n = nb * m;
    let mi = m as int;
    let tbl = ext_table(base, nb, m, alpha, beta, coc);
    let total = pow(nb as int, k) as nat;
    vstd::arithmetic::power::lemma_pow_positive(nb as int, k);
    assert forall|code: nat| code < total implies ((#[trigger] eval_term(law.lhs, tbl, n, fibre_assignment(code, nb, m, p, k))
        as int) / mi == (eval_term(law.rhs, tbl, n, fibre_assignment(code, nb, m, p, k)) as int) / mi) == (eval_term(
        law.lhs,
        base,
        nb,
        digits_of(code, nb, k),
    ) == eval_term(law.rhs, base, nb, digits_of(code, nb, k))) by {
        lemma_code_eval(law.lhs, base, nb, m, alpha, beta, coc, code, p, k);
        lemma_code_eval(law.rhs, base, nb, m, alpha, beta, coc, code, p, k);
    }
    assert forall|code: nat| code < total implies ((#[trigger] eval_term(law.lhs, tbl, n, fibre_assignment(code, nb, m, 0, k))
        as int) / mi == (eval_term(law.rhs, tbl, n, fibre_assignment(code, nb, m, 0, k)) as int) / mi) == (eval_term(
        law.lhs,
        base,
        nb,
        digits_of(code, nb, k),
    ) == eval_term(law.rhs, base, nb, digits_of(code, nb, k))) by {
        lemma_code_eval(law.lhs, base, nb, m, alpha, beta, coc, code, 0, k);
        lemma_code_eval(law.rhs, base, nb, m, alpha, beta, coc, code, 0, k);
    }
    if law.holds_in(base, nb) {
        assert forall|code: nat| code < total implies #[trigger] eval_term(law.lhs, base, nb, digits_of(code, nb, k))
            == eval_term(law.rhs, base, nb, digits_of(code, nb, k)) by {
            lemma_digits_are_assignment(code, nb, k);
        }
        assert forall|code: nat| code < total implies (#[trigger] eval_term(law.lhs, tbl, n, fibre_assignment(code, nb, m, p, k))
            as int) / mi == (eval_term(law.rhs, tbl, n, fibre_assignment(code, nb, m, p, k)) as int) / mi by {
            assert(eval_term(law.lhs, base, nb, digits_of(code, nb, k)) == eval_term(law.rhs, base, nb, digits_of(code, nb, k)));
        }
        assert(residual_spec(tbl, nb, m, law, p) is Some);
    } else {
        let vals = choose|vals: Seq<u8>|
            is_assignment(vals, k, nb) && !(#[trigger] eval_term(law.lhs, base, nb, vals) == eval_term(law.rhs, base, nb, vals));
        let code = encode(vals, nb);
        lemma_encode_bound(vals, nb);
        assert(digits_of(code, nb, k) =~= vals) by {
            assert forall|j: int| 0 <= j < k implies digits_of(code, nb, k)[j] == vals[j] by {
                lemma_encode_digits(vals, nb, j as nat);
            }
        }
        assert(code < total);
        assert(eval_term(law.lhs, base, nb, digits_of(code, nb, k)) != eval_term(law.rhs, base, nb, digits_of(code, nb, k)));
        assert(!((eval_term(law.lhs, tbl, n, fibre_assignment(code, nb, m, 0, k)) as int) / mi == (eval_term(
            law.rhs,
            tbl,
            n,
            fibre_assignment(code, nb, m, 0, k),
        ) as int) / mi));
        assert(!((eval_term(law.lhs, tbl, n, fibre_assignment(code, nb, m, p, k)) as int) / mi == (eval_term(
            law.rhs,
            tbl,
            n,
            fibre_assignment(code, nb, m, p, k),
        ) as int) / mi));
        assert(residual_spec(tbl, nb, m, law, p) is None);
    }
}

/// The combined residual at `code` is zero exactly when every one of the
/// first `p` probes is zero there.
proof fn lemma_first_nonzero(table: Seq<u8>, nb: nat, m: nat, law: Law, code: int, p: nat)
    ensures
        (first_nonzero(table, nb, m, law, code, p) == 0) == (forall|q: nat| q < p ==> #[trigger] residual_spec(table, nb, m, law, q)->0[code] == 0),
    decreases p,
{
    if p > 0 {
        lemma_first_nonzero(table, nb, m, law, code, (p - 1) as nat);
        if first_nonzero(table, nb, m, law, code, p) == 0 {
            assert forall|q: nat| q < p implies #[trigger] residual_spec(table, nb, m, law, q)->0[code] == 0 by {
                if q < p - 1 {
                } else {
                    assert(q == p - 1);
                }
            }
        }
    }
}

/// The combined residual is zero everywhere exactly when the extension
/// satisfies the law, and absent exactly when the base does not.
pub proof fn lemma_combined_residual(base: Seq<u8>, nb: nat, m: nat, alpha: nat, beta: nat, coc: Seq<u32>, law: Law)
    requires
        m >= 1,
        table_ok(nb, base),
        nb * m <= 255,
        coc.len() >= nb * nb,
        law.wf(),
    ensures
        (combined_residual(ext_table(base, nb, m, alpha, beta, coc), nb, m, law) is None) == !law.holds_in(base, nb),
        combined_residual(ext_table(base, nb, m, alpha, beta, coc), nb, m, law) matches Some(w) ==> {
            &&& w.len() == pow(nb as int, law.arity as nat)
            &&& residues(w, m)
            &&& ((forall|i: int| 0 <= i < w.len() ==> w[i] == 0) <==> law.holds_in(ext_table(base, nb, m, alpha, beta, coc), nb * m))
        },
{
    let tbl = ext_table(base, nb, m, alpha, beta, coc);
    let k = law.arity as nat;
    let total = pow(nb as int, k) as nat;
    vstd::arithmetic::power::lemma_pow_positive(nb as int, k);
    lemma_probe_some(base, nb, m, alpha, beta, coc, law, 0);
    if let Some(w) = combined_residual(tbl, nb, m, law) {
        let v0 = residual_spec(tbl, nb, m, law, 0)->0;
        assert(v0.len() == total);
        // every probe exists, with residue entries
        assert forall|q: nat| q <= k implies (#[trigger] residual_spec(tbl, nb, m, law, q)) is Some
            && residual_spec(tbl, nb, m, law, q)->0.len() == total && residues(residual_spec(tbl, nb, m, law, q)->0, m) by {
            lemma_probe_some(base, nb, m, alpha, beta, coc, law, q);
            lemma_residual_residues(tbl, nb, m, law, q);
        }
        assert forall|c: int| 0 <= c < w.len() implies #[trigger] w[c] < m by {
            assert(w[c] == first_nonzero(tbl, nb, m, law, c, k + 1));
            lemma_first_nonzero_bound(tbl, nb, m, law, c, k + 1);
        }
        if forall|i: int| 0 <= i < w.len() ==> w[i] == 0 {
            // every probe is zero everywhere, so flat and zero
            assert forall|q: nat| q <= k implies #[trigger] residual_spec(tbl, nb, m, law, q)->0 =~= Seq::new(total, |c: int| 0u32) by {
                let vq = residual_spec(tbl, nb, m, law, q)->0;
                assert forall|c: int| 0 <= c < total implies vq[c] == 0u32 by {
                    assert(w[c] == 0);
                    lemma_first_nonzero(tbl, nb, m, law, c, k + 1);
                    assert(residual_spec(tbl, nb, m, law, q)->0[c] == 0);
                }
            }
            assert forall|p: nat| 1 <= p <= k implies #[trigger] residual_spec(tbl, nb, m, law, p) == residual_spec(tbl, nb, m, law, 0) by {
                assert(residual_spec(tbl, nb, m, law, p)->0 =~= Seq::new(total, |c: int| 0u32));
                assert(residual_spec(tbl, nb, m, law, 0)->0 =~= Seq::new(total, |c: int| 0u32));
            }
            assert(flat_of(tbl, nb, m, law));
            lemma_flat_residual_decides(base, nb, m, alpha, beta, coc, law);
            assert forall|i: int| 0 <= i < v0.len() implies v0[i] == 0 by {
                assert(residual_spec(tbl, nb, m, law, 0)->0 =~= Seq::new(total, |c: int| 0u32));
            }
        }
        if law.holds_in(tbl, nb * m) {
            assert forall|q: nat, c: int| q <= k && 0 <= c < total implies #[trigger] residual_spec(tbl, nb, m, law, q)->0[c] == 0 by {
                if residual_spec(tbl, nb, m, law, q)->0[c] != 0 {
                    assert(residual_spec(tbl, nb, m, law, q) is Some);
                    lemma_residual_refutes(tbl, nb, m, law, q);
                }
            }
            assert forall|i: int| 0 <= i < w.len() implies w[i] == 0 by {
                lemma_first_nonzero(tbl, nb, m, law, i, k + 1);
            }
        }
    }
}

proof fn lemma_first_nonzero_bound(table: Seq<u8>, nb: nat, m: nat, law: Law, code: int, p: nat)
    requires
        forall|q: nat| q < p ==> residues(#[trigger] residual_spec(table, nb, m, law, q)->0, m),
        forall|q: nat| q < p ==> 0 <= code < (#[trigger] residual_spec(table, nb, m, law, q))->0.len(),
        m >= 1,
    ensures
        first_nonzero(table, nb, m, law, code, p) < m,
    decreases p,
{
    if p > 0 {
        lemma_first_nonzero_bound(table, nb, m, law, code, (p - 1) as nat);
        assert(residues(residual_spec(table, nb, m, law, (p - 1) as nat)->0, m));
        assert(0 <= code < residual_spec(table, nb, m, law, (p - 1) as nat)->0.len());
    }
}

/// A base that refutes the law has no cocycle space: every probe's residual
/// is missing, so `cocycle_space` returns `None`.
pub proof fn lemma_refuting_base_has_no_space(base: &FiniteMagma, m: u32, alpha: u32, beta: u32, law: Law)
    requires
        base.wf(),
        law.wf(),
        m >= 1,
        base.n * m <= 255,
        !base.satisfies(&law),
    ensures
        !probes_defined(base, m, alpha, beta, law),
        !(flat_of(
            ext_table(base.table@, base.n as nat, m as nat, alpha as nat, beta as nat, zero_cocycle(base.n as nat)),
            base.n as nat,
            m as nat,
            law,
        ) && probes_defined(base, m, alpha, beta, law) && probed_solvable(base, m, alpha, beta, law)),
{
    let nb = base.n as nat;
    assert(nb >= 1);
    assert(nb * nb >= 1) by (nonlinear_arith)
        requires
            nb >= 1,
    ;
    let coc = unit_cocycle(nb, 0);
    lemma_probe_some(base.table@, nb, m as nat, alpha as nat, beta as nat, coc, law, 0);
    assert(residual_spec(ext_table(base.table@, nb, m as nat, alpha as nat, beta as nat, coc), nb, m as nat, law, 0) is None);
}

} // verus!
