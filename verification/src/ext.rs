//! Magma extensions ("magma cohomology").
//!
//! An extension of a base magma `B` by `Z/m` is the magma on `B × Z/m` with
//!
//! ```text
//!     (x, s) ◇ (y, t) = (x ◇ y, α s + β t + c(x, y))
//! ```
//!
//! for fixed `α, β ∈ Z/m` and a cocycle `c: B × B → Z/m`. Elements are
//! numbered `x * m + s`, so the base coordinate is `e / m` and the fibre
//! coordinate is `e % m`.
//!
//! The family reaches separations no product or power can. For a fixed base,
//! fibre and `(α, β)`, whether the extension satisfies a law is a *linear*
//! condition on `c`, so the cocycles that work form a subspace of
//! `(Z/m)^{|B|²}` and are found by elimination rather than by enumerating
//! `m^{|B|²}` of them.

use crate::finite::{digits_of, lemma_digits_are_assignment, pow_u64, table_ok, FiniteMagma};
use crate::gauss::{
    below_count, cell, complement, consistent, entries_below, fdot, free_columns, has_col, increasing, lemma_below_count,
    lemma_fdot_ext, lemma_inconsistent, lemma_pivot_row_sum, lemma_rdot_diff, lemma_row_cell, lemma_solves_reduced,
    pivots_ok, rdot, reduce, reduced, row, row_ok, same_solutions, solve, solves,
};
use crate::law::{eval_term, is_assignment, lemma_eval_in_carrier, vars_below, Law, Term};
use vstd::arithmetic::div_mod::*;
use vstd::arithmetic::power::*;
use vstd::prelude::*;

verus! {

/// An extension of `base` by `Z/m`, twisted by `cocycle`.
#[derive(Clone, Debug)]
pub struct Extension {
    pub base: FiniteMagma,
    pub m: u32,
    pub alpha: u32,
    pub beta: u32,
    /// Row-major `|B| × |B|`, entries in `0..m`.
    pub cocycle: Vec<u32>,
}

/// The product of elements `e1` and `e2` of the extension.
pub open spec fn ext_entry(
    base: Seq<u8>,
    nb: nat,
    m: nat,
    alpha: nat,
    beta: nat,
    coc: Seq<u32>,
    e1: nat,
    e2: nat,
) -> nat {
    let (nb, m) = (nb as int, m as int);
    let bx = e1 as int / m;
    let s = e1 as int % m;
    let by = e2 as int / m;
    let t = e2 as int % m;
    (base[bx * nb + by] * m + (alpha * s + beta * t + coc[bx * nb + by]) % m) as nat
}

/// The multiplication table of the extension of the base table `base` (on
/// `nb` elements) by `Z/m` with coefficients `alpha`, `beta` and cocycle `coc`.
pub open spec fn ext_table(base: Seq<u8>, nb: nat, m: nat, alpha: nat, beta: nat, coc: Seq<u32>) -> Seq<u8> {
    let n = nb * m;
    Seq::new(
        n * n,
        |i: int| ext_entry(base, nb, m, alpha, beta, coc, (i / (n as int)) as nat, (i % (n as int)) as nat) as u8,
    )
}

/// The fibre coordinate of `rhs` minus that of `lhs`, mod `m`.
pub open spec fn fibre_diff(l: int, r: int, m: int) -> int {
    ((r % m + m) - l % m) % m
}

impl Extension {
    /// Carrier size `|B| * m`.
    pub open spec fn spec_carrier(&self) -> nat {
        (self.base.n * self.m) as nat
    }

    /// The extension's multiplication table, row-major.
    pub open spec fn spec_table(&self) -> Seq<u8> {
        ext_table(
            self.base.table@,
            self.base.n as nat,
            self.m as nat,
            self.alpha as nat,
            self.beta as nat,
            self.cocycle@,
        )
    }

    /// The table can be built: a well-formed base, a fibre of at least one
    /// element, a carrier of at most 255, a full cocycle, and fibre sums that
    /// fit in a `usize`.
    pub open spec fn fits(&self) -> bool {
        &&& self.base.wf()
        &&& self.m >= 1
        &&& self.base.n * self.m <= 255
        &&& self.cocycle@.len() >= self.base.n * self.base.n
        &&& forall|i: int|
            0 <= i < self.base.n * self.base.n ==> self.alpha * (self.m - 1) + self.beta * (
            self.m - 1) + #[trigger] self.cocycle@[i] <= usize::MAX
    }

    /// Carrier size `|B| * m`.
    pub fn carrier(&self) -> (r: usize)
        requires
            self.base.n * self.m <= usize::MAX,
        ensures
            r == self.spec_carrier(),
    {
        self.base.n * self.m as usize
    }

    /// The explicit multiplication table.
    pub fn magma(&self) -> (r: FiniteMagma)
        requires
            self.fits(),
        ensures
            r.wf(),
            r.n == self.spec_carrier(),
            r.table@ == self.spec_table(),
    {
        let nb = self.base.n;
        let m = self.m as usize;
        let n = nb * m;
        proof {
            assert(nb * m >= 1) by (nonlinear_arith)
                requires
                    nb >= 1,
                    m >= 1,
            ;
            assert(n * n <= 65025) by (nonlinear_arith)
                requires
                    n <= 255,
            ;
        }
        let mut table: Vec<u8> = Vec::new();
        let mut i: usize = 0;
        while i < n * n
            invariant
                self.fits(),
                nb == self.base.n,
                m == self.m,
                n == nb * m,
                1 <= n <= 255,
                n * n <= 65025,
                i <= n * n,
                table@.len() == i,
                forall|q: int| 0 <= q < i ==> #[trigger] table@[q] == self.spec_table()[q],
                forall|q: int| 0 <= q < i ==> #[trigger] table@[q] < n,
            decreases n * n - i,
        {
            let e1 = i / n;
            let e2 = i % n;
            let bx = e1 / m;
            let s = e1 % m;
            let by = e2 / m;
            let t = e2 % m;
            proof {
                lemma_fundamental_div_mod(i as int, n as int);
                lemma_mod_bound(i as int, n as int);
                assert(e1 < n) by {
                    lemma_div_is_ordered(i as int, (n * n) as int, n as int);
                    lemma_div_by_multiple(n as int, n as int);
                    lemma_multiply_divide_lt(i as int, n as int, n as int);
                }
                assert(nb * m == m * nb) by (nonlinear_arith);
                assert(bx < nb) by {
                    lemma_multiply_divide_lt(e1 as int, m as int, nb as int);
                }
                assert(by < nb) by {
                    lemma_multiply_divide_lt(e2 as int, m as int, nb as int);
                }
                assert(nb * nb <= 65025) by (nonlinear_arith)
                    requires
                        nb <= 255,
                ;
                lemma_mod_bound(e1 as int, m as int);
                lemma_mod_bound(e2 as int, m as int);
                assert(bx * nb + by < nb * nb) by (nonlinear_arith)
                    requires
                        bx < nb,
                        by < nb,
                ;
                assert(self.alpha * s <= self.alpha * (m - 1)) by (nonlinear_arith)
                    requires
                        s <= m - 1,
                ;
                assert(self.beta * t <= self.beta * (m - 1)) by (nonlinear_arith)
                    requires
                        t <= m - 1,
                ;
            }
            let bz = self.base.op(bx as u8, by as u8) as usize;
            let c = self.cocycle[bx * nb + by] as usize;
            let f = (self.alpha as usize * s + self.beta as usize * t + c) % m;
            proof {
                lemma_mod_bound((self.alpha * s + self.beta * t + c) as int, m as int);
                assert(bz * m + f < n) by (nonlinear_arith)
                    requires
                        bz < nb,
                        f < m,
                        n == nb * m,
                ;
            }
            table.push((bz * m + f) as u8);
            i = i + 1;
        }
        proof {
            assert(table@ =~= self.spec_table());
        }
        FiniteMagma { n, table }
    }
}

/// Evaluate a term under an assignment, by table lookup.
fn eval(t: &Term, vals: &Vec<u8>, tbl: &Vec<u8>, n: usize) -> (r: u8)
    requires
        table_ok(n as nat, tbl@),
        vars_below(*t, vals@.len()),
        forall|j: int| 0 <= j < vals@.len() ==> vals@[j] < n,
    ensures
        r == eval_term(*t, tbl@, n as nat, vals@),
        r < n,
    decreases t,
{
    proof {
        lemma_eval_in_carrier(*t, tbl@, n as nat, vals@);
    }
    match t {
        Term::Var(v) => vals[*v as usize],
        Term::Op(l, r) => {
            let x = eval(l, vals, tbl, n) as usize;
            let y = eval(r, vals, tbl, n) as usize;
            proof {
                assert(x * n + y < n * n) by (nonlinear_arith)
                    requires
                        x < n,
                        y < n,
                ;
                assert(n * n <= 65025) by (nonlinear_arith)
                    requires
                        n <= 255,
                ;
            }
            tbl[x * n + y]
        },
    }
}

/// The fibre coordinate that probe `probe` gives variable `j`: probe `0`
/// puts every variable at `0`; probe `v + 1` puts variable `v` at `1` (when
/// the fibre has more than one element) and every other variable at `0`.
pub open spec fn probe_fibre(j: int, probe: nat, m: nat) -> nat {
    if j + 1 == probe && m > 1 {
        1
    } else {
        0
    }
}

/// The assignment that `code` names under probe `probe`: variable `j` gets
/// base element `digits_of(code, nb, k)[j]` with fibre coordinate
/// `probe_fibre(j, probe, m)`.
pub open spec fn fibre_assignment(code: nat, nb: nat, m: nat, probe: nat, k: nat) -> Seq<u8> {
    Seq::new(k, |j: int| (digits_of(code, nb, k)[j] * m + probe_fibre(j, probe, m)) as u8)
}

/// The fibre residual of a law in an extension table: `None` when some
/// assignment puts the two sides in different base fibres, otherwise the
/// difference `rhs - lhs` of fibre coordinates, mod `m`, per assignment.
pub open spec fn residual_spec(
    table: Seq<u8>,
    nb: nat,
    m: nat,
    law: Law,
    fibre: nat,
) -> Option<Seq<u32>> {
    let n = nb * m;
    let k = law.arity as nat;
    let total = pow(nb as int, k) as nat;
    if forall|code: nat|
        code < total ==> (#[trigger] eval_term(
            law.lhs,
            table,
            n,
            fibre_assignment(code, nb, m, fibre, k),
        ) as int) / (m as int) == (eval_term(
            law.rhs,
            table,
            n,
            fibre_assignment(code, nb, m, fibre, k),
        ) as int) / (m as int) {
        Some(
            Seq::new(
                total,
                |code: int|
                    {
                        let l = eval_term(
                            law.lhs,
                            table,
                            n,
                            fibre_assignment(code as nat, nb, m, fibre, k),
                        );
                        let r = eval_term(
                            law.rhs,
                            table,
                            n,
                            fibre_assignment(code as nat, nb, m, fibre, k),
                        );
                        fibre_diff(l as int, r as int, m as int) as u32
                    },
            ),
        )
    } else {
        None
    }
}

proof fn lemma_fibre_assignment(code: nat, nb: nat, m: nat, fibre: nat, k: nat)
    requires
        nb >= 1,
        m >= 1,
    ensures
        is_assignment(fibre_assignment(code, nb, m, fibre, k), k, nb * m),
{
    lemma_digits_are_assignment(code, nb, k);
    assert forall|j: int| 0 <= j < k implies #[trigger] fibre_assignment(code, nb, m, fibre, k)[j]
        < nb * m by {
        let d = digits_of(code, nb, k)[j];
        let f = probe_fibre(j, fibre, m);
        assert(d * m + f < nb * m) by (nonlinear_arith)
            requires
                d < nb,
                f < m,
        ;
    }
}

/// A residual that is absent, or nonzero somewhere, witnesses that the law
/// fails in the extension.
pub proof fn lemma_residual_refutes(table: Seq<u8>, nb: nat, m: nat, law: Law, fibre: nat)
    requires
        nb >= 1,
        m >= 1,
        match residual_spec(table, nb, m, law, fibre) {
            None => true,
            Some(v) => exists|c: int| 0 <= c < v.len() && v[c] != 0,
        },
    ensures
        !law.holds_in(table, nb * m),
{
    let n = nb * m;
    let k = law.arity as nat;
    let total = pow(nb as int, k) as nat;
    lemma_pow_positive(nb as int, k);
    match residual_spec(table, nb, m, law, fibre) {
        None => {
            let code = choose|code: nat|
                code < total && !((#[trigger] eval_term(
                    law.lhs,
                    table,
                    n,
                    fibre_assignment(code, nb, m, fibre, k),
                ) as int) / (m as int) == (eval_term(
                    law.rhs,
                    table,
                    n,
                    fibre_assignment(code, nb, m, fibre, k),
                ) as int) / (m as int));
            lemma_fibre_assignment(code, nb, m, fibre, k);
            let vals = fibre_assignment(code, nb, m, fibre, k);
            assert(eval_term(law.lhs, table, n, vals) != eval_term(law.rhs, table, n, vals));
        },
        Some(v) => {
            let c = choose|c: int| 0 <= c < v.len() && v[c] != 0;
            let code = c as nat;
            lemma_fibre_assignment(code, nb, m, fibre, k);
            let vals = fibre_assignment(code, nb, m, fibre, k);
            let l = eval_term(law.lhs, table, n, vals);
            let r = eval_term(law.rhs, table, n, vals);
            if l == r {
                assert(fibre_diff(l as int, r as int, m as int) == 0) by {
                    lemma_mod_self_0(m as int);
                }
            }
        },
    }
}

proof fn lemma_mod_self_0(m: int)
    requires
        m > 0,
    ensures
        m % m == 0,
{
    lemma_mod_self_0_helper(m);
}

proof fn lemma_mod_self_0_helper(m: int)
    requires
        m > 0,
    ensures
        m % m == 0,
{
    lemma_fundamental_div_mod_converse(m, m, 1, 0);
}

/// The fibre residual of `law`, one value per assignment of base elements,
/// the variables at the fibre coordinates that probe `probe` gives them.
///
/// Returns `None` when the base coordinates themselves disagree, i.e. the base
/// magma does not satisfy the law: no cocycle repairs that.
fn residual(ext: &Extension, law: &Law, probe: usize) -> (r: Option<Vec<u32>>)
    requires
        ext.fits(),
        law.wf(),
        pow(ext.base.n as int, law.arity as nat) <= usize::MAX,
    ensures
        r matches Some(v) ==> residual_spec(
            ext.spec_table(),
            ext.base.n as nat,
            ext.m as nat,
            *law,
            probe as nat,
        ) == Some(v@),
        r is None ==> residual_spec(
            ext.spec_table(),
            ext.base.n as nat,
            ext.m as nat,
            *law,
            probe as nat,
        ) is None,
{
    let nb = ext.base.n;
    let m = ext.m as usize;
    let tbl = ext.magma();
    let n = tbl.n;
    let k = law.arity as usize;
    let total = pow_u64(nb as u64, law.arity as u32) as usize;
    let ghost table = ext.spec_table();
    let mut out: Vec<u32> = Vec::new();
    let mut vals: Vec<u8> = vec![0u8; k];
    let mut code: usize = 0;
    proof {
        lemma_pow_positive(nb as int, k as nat);
    }
    while code < total
        invariant
            ext.fits(),
            law.wf(),
            nb == ext.base.n,
            m == ext.m,
            n == nb * m,
            tbl.wf(),
            tbl.n == n,
            tbl.table@ == table,
            table == ext.spec_table(),
            k == law.arity,
            1 <= k <= 7,
            total == pow(nb as int, k as nat),
            vals@.len() == k,
            code <= total,
            out@.len() == code,
            forall|c: nat|
                c < code ==> (#[trigger] eval_term(law.lhs, table, n as nat, fibre_assignment(c, nb as nat, m as nat, probe as nat, k as nat))
                    as int) / (m as int) == (eval_term(law.rhs, table, n as nat, fibre_assignment(c, nb as nat, m as nat, probe as nat, k as nat))
                    as int) / (m as int),
            forall|c: int|
                0 <= c < code ==> #[trigger] out@[c] == fibre_diff(
                    eval_term(law.lhs, table, n as nat, fibre_assignment(c as nat, nb as nat, m as nat, probe as nat, k as nat)) as int,
                    eval_term(law.rhs, table, n as nat, fibre_assignment(c as nat, nb as nat, m as nat, probe as nat, k as nat)) as int,
                    m as int,
                ) as u32,
        decreases total - code,
    {
        let mut v = code;
        let mut j: usize = 0;
        proof {
            lemma_pow0(nb as int);
        }
        while j < k
            invariant
                nb == ext.base.n,
                1 <= nb <= 255,
                m == ext.m,
                1 <= m,
                nb * m <= 255,
                    k == law.arity,
                1 <= k <= 7,
                vals@.len() == k,
                j <= k,
                v == (code as int) / pow(nb as int, j as nat),
                forall|q: int| 0 <= q < j ==> #[trigger] vals@[q] == fibre_assignment(code as nat, nb as nat, m as nat, probe as nat, k as nat)[q],
            decreases k - j,
        {
            proof {
                lemma_pow_positive(nb as int, j as nat);
                lemma_div_denominator(code as int, pow(nb as int, j as nat), nb as int);
                assert(pow(nb as int, (j + 1) as nat) == nb * pow(nb as int, j as nat)) by {
                    reveal(pow);
                }
                assert(pow(nb as int, j as nat) * nb == nb * pow(nb as int, j as nat))
                    by (nonlinear_arith);
                lemma_mod_bound(v as int, nb as int);
            }
            let pf: usize = if j + 1 == probe && m > 1 {
                1
            } else {
                0
            };
            proof {
                assert(pf == probe_fibre(j as int, probe as nat, m as nat));
                assert((v % nb) * m + pf < nb * m) by (nonlinear_arith)
                    requires
                        v % nb < nb,
                        pf < m,
                ;
                assert(digits_of(code as nat, nb as nat, k as nat)[j as int] == v % nb);
            }
            vals.set(j, ((v % nb) * m + pf) as u8);
            v = v / nb;
            j = j + 1;
        }
        proof {
            assert(vals@ =~= fibre_assignment(code as nat, nb as nat, m as nat, probe as nat, k as nat));
            lemma_fibre_assignment(code as nat, nb as nat, m as nat, probe as nat, k as nat);
        }
        let l = eval(&law.lhs, &vals, &tbl.table, n) as usize;
        let r = eval(&law.rhs, &vals, &tbl.table, n) as usize;
        if l / m != r / m {
            proof {
                let c = code as nat;
                assert(c < total);
                assert(!((eval_term(
                    law.lhs,
                    table,
                    n as nat,
                    fibre_assignment(c, nb as nat, m as nat, probe as nat, k as nat),
                ) as int) / (m as int) == (eval_term(
                    law.rhs,
                    table,
                    n as nat,
                    fibre_assignment(c, nb as nat, m as nat, probe as nat, k as nat),
                ) as int) / (m as int)));
            }
            return None;
        }
        proof {
            lemma_mod_bound(r as int, m as int);
            lemma_mod_bound(l as int, m as int);
            assert(m <= 255) by (nonlinear_arith)
                requires
                    nb * m <= 255,
                    nb >= 1,
            ;
        }
        let d = ((r % m + m) - l % m) as u32;
        proof {
            assert(d == (r as int % m as int + m) - l as int % m as int);
        }
        out.push(d % ext.m);
        code = code + 1;
    }
    proof {
        let rs = residual_spec(table, nb as nat, m as nat, *law, probe as nat);
        assert(rs is Some);
        assert(out@ =~= rs->0);
    }
    Some(out)
}

/// The fibre residual of `law` under a given cocycle: `None` when the base
/// magma refutes the law; otherwise, per assignment of base elements, the
/// first nonzero fibre difference of the two sides among the probes (every
/// variable at fibre coordinate zero, then each variable in turn at one).
/// Zero everywhere exactly when the extension satisfies the law.
pub fn law_residual(ext: &Extension, law: &Law) -> (r: Option<Vec<u32>>)
    requires
        ext.fits(),
        law.wf(),
        pow(ext.base.n as int, law.arity as nat) <= usize::MAX,
    ensures
        r is None <==> !ext.base.satisfies(law),
        r matches Some(v) ==> {
            &&& Some(v@) == combined_residual(ext.spec_table(), ext.base.n as nat, ext.m as nat, *law)
            &&& v@.len() == pow(ext.base.n as int, law.arity as nat)
            &&& residues(v@, ext.m as nat)
            &&& ((forall|i: int| 0 <= i < v@.len() ==> v@[i] == 0) <==> law.holds_in(ext.spec_table(), ext.spec_carrier()))
        },
{
    let ghost tbl = ext.spec_table();
    let ghost (nb, m) = (ext.base.n as nat, ext.m as nat);
    proof {
        crate::ext_laws::lemma_combined_residual(
            ext.base.table@,
            nb,
            m,
            ext.alpha as nat,
            ext.beta as nat,
            ext.cocycle@,
            *law,
        );
        assert(ext.spec_carrier() == nb * m);
    }
    let mut out = match residual(ext, law, 0) {
        Some(v) => v,
        None => return None,
    };
    let ghost total = out@.len();
    proof {
        assert forall|c: int| 0 <= c < total implies #[trigger] out@[c] == first_nonzero(tbl, nb, m, *law, c, 1) by {
            reveal_with_fuel(first_nonzero, 2);
        }
    }
    let k = law.arity as usize;
    let mut p: usize = 1;
    while p <= k
        invariant
            ext.fits(),
            law.wf(),
            pow(ext.base.n as int, law.arity as nat) <= usize::MAX,
            k == law.arity,
            k <= 7,
            1 <= p <= k + 1,
            tbl == ext.spec_table(),
            nb == ext.base.n,
            m == ext.m,
            residual_spec(tbl, nb, m, *law, 0) is Some,
            total == residual_spec(tbl, nb, m, *law, 0)->0.len(),
            out@.len() == total,
            forall|c: int| 0 <= c < total ==> #[trigger] out@[c] == first_nonzero(tbl, nb, m, *law, c, p as nat),
        decreases k + 1 - p,
    {
        proof {
            crate::ext_laws::lemma_probe_some(
                ext.base.table@,
                nb,
                m,
                ext.alpha as nat,
                ext.beta as nat,
                ext.cocycle@,
                *law,
                p as nat,
            );
        }
        let rp = match residual(ext, law, p) {
            Some(v) => v,
            None => {
                proof {
                    assert(false);
                }
                return None;
            },
        };
        proof {
            crate::ext_laws::lemma_probe_some(
                ext.base.table@,
                nb,
                m,
                ext.alpha as nat,
                ext.beta as nat,
                ext.cocycle@,
                *law,
                0,
            );
            lemma_residual_residues(tbl, nb, m, *law, p as nat);
            lemma_residual_residues(tbl, nb, m, *law, 0);
        }
        let mut i: usize = 0;
        while i < out.len()
            invariant
                out@.len() == total,
                rp@.len() == total,
                rp@ == residual_spec(tbl, nb, m, *law, p as nat)->0,
                i <= total,
                forall|c: int| 0 <= c < i ==> #[trigger] out@[c] == first_nonzero(tbl, nb, m, *law, c, (p + 1) as nat),
                forall|c: int| i <= c < total ==> #[trigger] out@[c] == first_nonzero(tbl, nb, m, *law, c, p as nat),
            decreases total - i,
        {
            if out[i] == 0 {
                out.set(i, rp[i]);
            }
            i = i + 1;
        }
        p = p + 1;
    }
    Some(out)
}

/// The residual at assignment `code` over the first `p` probes: the first of
/// their entries there that is nonzero, or zero when every one is.
pub open spec fn first_nonzero(table: Seq<u8>, nb: nat, m: nat, law: Law, code: int, p: nat) -> u32
    decreases p,
{
    if p == 0 {
        0
    } else {
        let prev = first_nonzero(table, nb, m, law, code, (p - 1) as nat);
        if prev != 0 {
            prev
        } else {
            residual_spec(table, nb, m, law, (p - 1) as nat)->0[code]
        }
    }
}

/// The residual of a law over every probe of the fibre coordinates: absent
/// when the base parts of the two sides disagree; otherwise, per assignment
/// of base elements, the first nonzero fibre difference among the probes
/// (all variables at zero, then each variable in turn at one), or zero.
pub open spec fn combined_residual(table: Seq<u8>, nb: nat, m: nat, law: Law) -> Option<Seq<u32>> {
    match residual_spec(table, nb, m, law, 0) {
        None => None,
        Some(v) => Some(Seq::new(v.len(), |c: int| first_nonzero(table, nb, m, law, c, (law.arity + 1) as nat))),
    }
}

/// `a == b` on vectors.
fn same_vec(a: &Vec<u32>, b: &Vec<u32>) -> (r: bool)
    ensures
        r == (a@ == b@),
{
    if a.len() != b.len() {
        return false;
    }
    let mut i: usize = 0;
    while i < a.len()
        invariant
            a@.len() == b@.len(),
            i <= a@.len(),
            forall|q: int| 0 <= q < i ==> a@[q] == b@[q],
        decreases a@.len() - i,
    {
        if a[i] != b[i] {
            return false;
        }
        i = i + 1;
    }
    proof {
        assert(a@ =~= b@);
    }
    true
}

/// The residual with every variable at fibre coordinate zero exists, and
/// moving any one variable to fibre coordinate one leaves it unchanged, in
/// the extension table `table` of a base of `nb` elements by `Z/m`.
///
/// The fibre coordinate of a term is affine in the fibre coordinates of its
/// variables, with coefficients that depend on the term alone; so the
/// residual changes linearly with them, and these probes, one per variable,
/// see every coefficient of that change.
pub open spec fn flat_of(table: Seq<u8>, nb: nat, m: nat, law: Law) -> bool {
    let r0 = residual_spec(table, nb, m, law, 0);
    &&& r0 is Some
    &&& forall|p: nat| 1 <= p <= law.arity ==> #[trigger] residual_spec(table, nb, m, law, p) == r0
}

/// `flat_of` for an extension.
pub open spec fn flat_spec(ext: &Extension, law: Law) -> bool {
    flat_of(ext.spec_table(), ext.base.n as nat, ext.m as nat, law)
}

/// Whether the residual really is independent of the fibre coordinates,
/// which is what makes the system linear in `c` alone: the residual is
/// compared, for each variable in turn, with that variable at fibre
/// coordinate one and the others at zero, against all at zero.
pub fn residual_is_flat(ext: &Extension, law: &Law) -> (b: bool)
    requires
        ext.fits(),
        law.wf(),
        pow(ext.base.n as int, law.arity as nat) <= usize::MAX,
    ensures
        b == flat_spec(ext, *law),
{
    let base = match residual(ext, law, 0) {
        Some(r) => r,
        None => return false,
    };
    let k = law.arity as usize;
    let mut p: usize = 1;
    while p <= k
        invariant
            ext.fits(),
            law.wf(),
            k == law.arity,
            k <= 7,
            pow(ext.base.n as int, law.arity as nat) <= usize::MAX,
            1 <= p <= k + 1,
            residual_spec(ext.spec_table(), ext.base.n as nat, ext.m as nat, *law, 0) == Some(
                base@,
            ),
            forall|g: nat|
                1 <= g < p ==> #[trigger] residual_spec(
                    ext.spec_table(),
                    ext.base.n as nat,
                    ext.m as nat,
                    *law,
                    g,
                ) == Some(base@),
        decreases k + 1 - p,
    {
        match residual(ext, law, p) {
            Some(r) => {
                if !same_vec(&r, &base) {
                    return false;
                }
            },
            None => {
                return false;
            },
        }
        p = p + 1;
    }
    true
}

/// The affine space of cocycles making the extension satisfy a law: a
/// particular solution plus a basis of the homogeneous part, over `F_m`.
#[derive(Debug)]
pub struct CocycleSpace {
    pub particular: Vec<u32>,
    pub basis: Vec<Vec<u32>>,
    pub m: u32,
}

/// Coefficient `k` of a member, reduced mod `m`; missing ones are zero.
pub open spec fn coeff_at(coeffs: Seq<u32>, k: int, m: int) -> int {
    if 0 <= k < coeffs.len() {
        coeffs[k] as int % m
    } else {
        0
    }
}

/// `prev + a * b`, entry-wise mod `m`, as far as `b` reaches.
pub open spec fn member_step(prev: Seq<u32>, b: Seq<u32>, a: int, m: int) -> Seq<u32> {
    Seq::new(
        prev.len(),
        |i: int|
            if i < b.len() {
                ((prev[i] + a * b[i]) % m) as u32
            } else {
                prev[i]
            },
    )
}

/// The particular solution with the first `k` basis vectors added in.
pub open spec fn member_upto(
    part: Seq<u32>,
    basis: Seq<Seq<u32>>,
    coeffs: Seq<u32>,
    m: int,
    k: nat,
) -> Seq<u32>
    decreases k,
{
    if k == 0 {
        part
    } else {
        member_step(
            member_upto(part, basis, coeffs, m, (k - 1) as nat),
            basis[k - 1],
            coeff_at(coeffs, k - 1, m),
            m,
        )
    }
}

/// A member is as long as the particular solution.
pub proof fn lemma_member_upto_len_pub(part: Seq<u32>, basis: Seq<Seq<u32>>, coeffs: Seq<u32>, m: int, k: nat)
    ensures
        member_upto(part, basis, coeffs, m, k).len() == part.len(),
{
    lemma_member_upto_len(part, basis, coeffs, m, k);
}

proof fn lemma_member_upto_len(part: Seq<u32>, basis: Seq<Seq<u32>>, coeffs: Seq<u32>, m: int, k: nat)
    ensures
        member_upto(part, basis, coeffs, m, k).len() == part.len(),
    decreases k,
{
    if k > 0 {
        lemma_member_upto_len(part, basis, coeffs, m, (k - 1) as nat);
    }
}

/// Adding `c` times `b` to `prev` adds `c` times its product with a row.
proof fn lemma_rdot_step(r: Seq<u32>, prev: Seq<u32>, b: Seq<u32>, c: int, n: nat, m: int)
    requires
        2 <= m <= 255,
        c >= 0,
        prev.len() >= n,
        b.len() >= n,
        forall|i: int| 0 <= i < n ==> #[trigger] prev[i] < m,
    ensures
        rdot(r, member_step(prev, b, c, m), n) % m == (rdot(r, prev, n) + c * rdot(r, b, n)) % m,
    decreases n,
{
    if n > 0 {
        let j = n - 1;
        lemma_rdot_step(r, prev, b, c, (n - 1) as nat, m);
        let nw = member_step(prev, b, c, m);
        let (dn, dp, db) = (rdot(r, nw, (n - 1) as nat), rdot(r, prev, (n - 1) as nat), rdot(r, b, (n - 1) as nat));
        let (u, v, rr) = (prev[j] as int, b[j] as int, r[j] as int);
        let e = u + c * v;
        lemma_mod_bound(e, m);
        assert(nw[j] == e % m);
        lemma_mul_mod_noop_right(rr, e, m);
        lemma_add_mod_noop(dn, rr * nw[j], m);
        lemma_add_mod_noop(dp + c * db, rr * e, m);
        assert((dp + rr * u) + c * (db + rr * v) == (dp + c * db) + rr * e) by (nonlinear_arith)
            requires
                e == u + c * v,
        ;
    }
}

/// Every member of the space solves the system the particular solution
/// solves, when each basis vector solves its homogeneous part.
proof fn lemma_members_solve(
    a0: Seq<u32>,
    w: nat,
    nv: nat,
    neq: nat,
    part: Seq<u32>,
    basis: Seq<Seq<u32>>,
    coeffs: Seq<u32>,
    m: int,
    k: nat,
)
    requires
        2 <= m <= 255,
        w == nv + 1,
        a0.len() == neq * w,
        part.len() == nv,
        residues(part, m as nat),
        solves(a0, w, nv, neq, part, m),
        k <= basis.len(),
        forall|t: int| 0 <= t < basis.len() ==> (#[trigger] basis[t]).len() == nv,
        forall|t: int, i: int| 0 <= t < basis.len() && 0 <= i < neq ==> #[trigger] rdot(row(a0, w, i), #[trigger] basis[t], nv) % m == 0,
    ensures
        solves(a0, w, nv, neq, member_upto(part, basis, coeffs, m, k), m),
        member_upto(part, basis, coeffs, m, k).len() == nv,
        residues(member_upto(part, basis, coeffs, m, k), m as nat),
    decreases k,
{
    lemma_member_upto_len(part, basis, coeffs, m, k);
    if k > 0 {
        let k1 = (k - 1) as nat;
        lemma_members_solve(a0, w, nv, neq, part, basis, coeffs, m, k1);
        let prev = member_upto(part, basis, coeffs, m, k1);
        let b = basis[k1 as int];
        let c = coeff_at(coeffs, k1 as int, m);
        let cur = member_upto(part, basis, coeffs, m, k);
        assert(cur == member_step(prev, b, c, m));
        assert forall|i: int| 0 <= i < cur.len() implies #[trigger] cur[i] < m by {
            lemma_mod_bound(prev[i] + c * b[i], m);
        }
        assert forall|i: int| 0 <= i < neq implies #[trigger] row_ok(row(a0, w, i), nv, cur, m) by {
            let ri = row(a0, w, i);
            assert(row_ok(ri, nv, prev, m));
            lemma_rdot_step(ri, prev, b, c, nv, m);
            assert(rdot(ri, b, nv) % m == 0);
            lemma_mul_mod_noop_right(c, rdot(ri, b, nv), m);
            assert(c * 0 == 0);
            lemma_add_mod_noop(rdot(ri, prev, nv), c * rdot(ri, b, nv), m);
            lemma_small_mod(0, m as nat);
            lemma_mod_twice(rdot(ri, prev, nv), m);
            assert(rdot(ri, cur, nv) % m == rdot(ri, prev, nv) % m);
            let bb = ri[nv as int] as int;
            lemma_sub_mod_noop(rdot(ri, cur, nv), bb, m);
            lemma_sub_mod_noop(rdot(ri, prev, nv), bb, m);
        }
    }
}

/// The free entries of a member are its coefficients, when the particular
/// solution is zero there and basis vector `k` is the unit at free column `k`.
proof fn lemma_member_free_entries(
    part: Seq<u32>,
    basis: Seq<Seq<u32>>,
    free: Seq<usize>,
    coeffs: Seq<u32>,
    m: int,
    k: nat,
    kk: int,
)
    requires
        2 <= m <= 255,
        k <= basis.len(),
        basis.len() == free.len(),
        coeffs.len() == free.len(),
        0 <= kk < free.len(),
        forall|q: int| 0 <= q < free.len() ==> #[trigger] free[q] < part.len(),
        forall|t: int| 0 <= t < basis.len() ==> (#[trigger] basis[t]).len() == part.len(),
        forall|q: int| 0 <= q < free.len() ==> part[#[trigger] free[q] as int] == 0,
        forall|t: int, q: int|
            0 <= t < basis.len() && 0 <= q < free.len() ==> (#[trigger] basis[t])[#[trigger] free[q] as int] == if t == q {
                1u32
            } else {
                0u32
            },
        forall|q: int| 0 <= q < coeffs.len() ==> #[trigger] coeffs[q] < m,
    ensures
        member_upto(part, basis, coeffs, m, k)[free[kk] as int] == if kk < k {
            coeffs[kk]
        } else {
            0u32
        },
    decreases k,
{
    lemma_member_upto_len(part, basis, coeffs, m, k);
    if k > 0 {
        let k1 = (k - 1) as nat;
        lemma_member_free_entries(part, basis, free, coeffs, m, k1, kk);
        lemma_member_upto_len(part, basis, coeffs, m, k1);
        let prev = member_upto(part, basis, coeffs, m, k1);
        let f = free[kk] as int;
        let c = coeff_at(coeffs, k1 as int, m);
        lemma_small_mod(coeffs[k1 as int] as nat, m as nat);
        assert(basis[k1 as int][f] == if k1 == kk { 1u32 } else { 0u32 });
        if kk == k1 {
            assert(prev[f] == 0);
            lemma_small_mod(c as nat, m as nat);
        } else if kk < k1 {
            assert(prev[f] == coeffs[kk]);
            lemma_small_mod(coeffs[kk] as nat, m as nat);
        } else {
            lemma_small_mod(0, m as nat);
        }
    }
}

/// Every solution of the system is the member whose coefficients are its
/// free entries: pivot entries are fixed by the free ones.
proof fn lemma_solutions_are_members(
    a: Seq<u32>,
    a0: Seq<u32>,
    w: nat,
    nv: nat,
    neq: nat,
    pv: Seq<usize>,
    free: Seq<usize>,
    part: Seq<u32>,
    basis: Seq<Seq<u32>>,
    m: int,
    x: Seq<u32>,
)
    requires
        2 <= m <= 255,
        w == nv + 1,
        a.len() == neq * w,
        a0.len() == neq * w,
        pv.len() <= neq,
        pivots_ok(pv, nv),
        complement(free, pv, nv),
        reduced(a, w, neq, pv, nv),
        same_solutions(a, a0, w, nv, neq, m),
        part.len() == nv,
        residues(part, m as nat),
        solves(a0, w, nv, neq, part, m),
        basis.len() == free.len(),
        forall|t: int| 0 <= t < basis.len() ==> (#[trigger] basis[t]).len() == nv,
        forall|t: int, i: int| 0 <= t < basis.len() && 0 <= i < neq ==> #[trigger] rdot(row(a0, w, i), #[trigger] basis[t], nv) % m == 0,
        forall|q: int| 0 <= q < free.len() ==> part[#[trigger] free[q] as int] == 0,
        forall|t: int, q: int|
            0 <= t < basis.len() && 0 <= q < free.len() ==> (#[trigger] basis[t])[#[trigger] free[q] as int] == if t == q {
                1u32
            } else {
                0u32
            },
        x.len() == nv,
        residues(x, m as nat),
        solves(a0, w, nv, neq, x, m),
    ensures
        x == member_upto(part, basis, Seq::new(free.len(), |q: int| x[free[q] as int]), m, basis.len()),
{
    let cx = Seq::new(free.len(), |q: int| x[free[q] as int]);
    let y = member_upto(part, basis, cx, m, basis.len());
    lemma_members_solve(a0, w, nv, neq, part, basis, cx, m, basis.len());
    assert(solves(a, w, nv, neq, x, m));
    assert(solves(a, w, nv, neq, y, m));
    // Free entries agree.
    assert forall|kk: int| 0 <= kk < free.len() implies y[#[trigger] free[kk] as int] == x[free[kk] as int] by {
        lemma_member_free_entries(part, basis, free, cx, m, basis.len(), kk);
    }
    // Pivot entries agree: each pivot row fixes its pivot from the free part.
    lemma_below_count(free, nv as int);
    if below_count(free, nv as int) < free.len() {
        assert(free[below_count(free, nv as int) as int] >= nv);
    }
    assert forall|t: int| 0 <= t < pv.len() implies y[#[trigger] pv[t] as int] == x[pv[t] as int] by {
        let rt = row(a, w, t);
        assert forall|s2: int| 0 <= s2 < pv.len() implies #[trigger] rt[pv[s2] as int] == if s2 == t { 1u32 } else { 0u32 } by {
            lemma_row_cell(a, w, neq, t, pv[s2] as int);
            if s2 != t {
                assert(cell(a, w, t, pv[s2] as int) == 0);
            }
        }
        lemma_pivot_row_sum(rt, x, pv, free, nv, t, nv);
        lemma_pivot_row_sum(rt, y, pv, free, nv, t, nv);
        lemma_fdot_ext(rt, x, y, free, free.len());
        assert(row_ok(rt, nv, x, m));
        assert(row_ok(rt, nv, y, m));
        let fx = fdot(rt, x, free, free.len());
        let b = rt[nv as int] as int;
        lemma_sub_mod_noop(x[pv[t] as int] + fx - b, y[pv[t] as int] + fx - b, m);
        lemma_small_mod(0, m as nat);
        assert((x[pv[t] as int] + fx - b) - (y[pv[t] as int] + fx - b) == x[pv[t] as int] - y[pv[t] as int]);
        lemma_small_mod(x[pv[t] as int] as nat, m as nat);
        lemma_small_mod(y[pv[t] as int] as nat, m as nat);
        let d = (x[pv[t] as int] as int) - (y[pv[t] as int] as int);
        if d > 0 {
            lemma_small_mod(d as nat, m as nat);
        } else if d < 0 {
            lemma_mod_add_multiples_vanish(d, m);
            lemma_small_mod((d + m) as nat, m as nat);
            assert(d % m == (m + d) % m);
        }
    }
    lemma_member_upto_len(part, basis, cx, m, basis.len());
    assert forall|j: int| 0 <= j < nv implies y[j] == x[j] by {
        if has_col(free, j) {
            let q = choose|q: int| 0 <= q < free.len() && free[q] == j;
            assert(y[free[q] as int] == x[free[q] as int]);
        } else {
            assert(has_col(pv, j));
            let t = choose|t: int| 0 <= t < pv.len() && pv[t] == j;
            assert(y[pv[t] as int] == x[pv[t] as int]);
        }
    }
    assert(x =~= y);
}

impl CocycleSpace {
    /// The basis vectors as sequences.
    pub open spec fn basis_view(&self) -> Seq<Seq<u32>> {
        self.basis@.map_values(|v: Vec<u32>| v@)
    }

    /// No step of `member(coeffs)` overflows.
    pub open spec fn member_fits(&self, coeffs: Seq<u32>) -> bool {
        forall|k: nat, i: int|
            k < self.basis@.len() && 0 <= i < self.particular@.len() && i < self.basis@[k as int]@.len()
                ==> #[trigger] member_upto(
                self.particular@,
                self.basis_view(),
                coeffs,
                self.m as int,
                k,
            )[i] + coeff_at(coeffs, k as int, self.m as int) * self.basis@[k as int]@[i]
                <= u32::MAX
    }

    /// Dimension of the homogeneous part.
    pub fn dimension(&self) -> (d: usize)
        ensures
            d == self.basis@.len(),
    {
        self.basis.len()
    }

    /// The member `particular + sum_k coeffs[k] * basis[k]`, mod `m`, with
    /// missing coefficients taken as zero.
    pub fn member(&self, coeffs: &[u32]) -> (c: Vec<u32>)
        requires
            self.m > 0 || self.basis@.len() == 0,
            self.member_fits(coeffs@),
        ensures
            c@ == member_upto(
                self.particular@,
                self.basis_view(),
                coeffs@,
                self.m as int,
                self.basis@.len(),
            ),
    {
        let mut c = self.particular.clone();
        proof {
            assert(c@ =~= self.particular@);
        }
        let mut k: usize = 0;
        while k < self.basis.len()
            invariant
                self.m > 0 || self.basis@.len() == 0,
                self.member_fits(coeffs@),
                k <= self.basis@.len(),
                c@ == member_upto(self.particular@, self.basis_view(), coeffs@, self.m as int, k as nat),
            decreases self.basis@.len() - k,
        {
            let raw: u32 = if k < coeffs.len() {
                coeffs[k]
            } else {
                0
            };
            let a = raw % self.m;
            proof {
                if k >= coeffs@.len() {
                    assert(0u32 % self.m == 0);
                }
                lemma_member_upto_len(self.particular@, self.basis_view(), coeffs@, self.m as int, k as nat);
            }
            let b = &self.basis[k];
            let ghost prev = c@;
            let mut i: usize = 0;
            while i < c.len() && i < b.len()
                invariant
                    self.m > 0,
                    self.member_fits(coeffs@),
                    k < self.basis@.len(),
                    b@ == self.basis@[k as int]@,
                    prev == member_upto(self.particular@, self.basis_view(), coeffs@, self.m as int, k as nat),
                    a == coeff_at(coeffs@, k as int, self.m as int),
                    c@.len() == prev.len(),
                    prev.len() == self.particular@.len(),
                    i <= c@.len(),
                    forall|q: int| 0 <= q < c@.len() ==> #[trigger] c@[q] == if q < i {
                        member_step(prev, b@, a as int, self.m as int)[q]
                    } else {
                        prev[q]
                    },
                decreases c@.len() - i,
            {
                proof {
                    assert(prev[i as int] + coeff_at(coeffs@, k as int, self.m as int) * self.basis@[k as int]@[i as int] <= u32::MAX);
                    assert(a * b@[i as int] <= u32::MAX);
                }
                let v = (c[i] + a * b[i]) % self.m;
                c.set(i, v);
                i = i + 1;
            }
            proof {
                assert(self.basis_view()[k as int] == b@);
                assert(c@ =~= member_step(prev, b@, a as int, self.m as int));
            }
            k = k + 1;
        }
        c
    }
}

/// One squaring step of binary exponentiation keeps `r · b^e` fixed mod `p`.
proof fn lemma_square_step(r: int, b: int, e: nat, p: int)
    requires
        p >= 1,
    ensures
        e % 2 == 1 ==> (((r * b) % p) * pow((b * b) % p, e / 2)) % p == (r * pow(b, e)) % p,
        e % 2 == 0 ==> (r * pow((b * b) % p, e / 2)) % p == (r * pow(b, e)) % p,
{
    let h = e / 2;
    lemma_pow_mod_noop(b * b, h, p);
    lemma_pow_multiplies(b, 2, h);
    lemma_square_is_pow2(b);
    assert(pow(b, 2) == b * b) by {
        reveal(pow);
        assert(pow(b, 1) == b * pow(b, 0));
        assert(pow(b, 0) == 1);
    }
    assert(pow(b * b, h) == pow(b, 2 * h));
    let q = pow((b * b) % p, h);
    let z = pow(b, 2 * h);
    assert(q % p == z % p);
    if e % 2 == 1 {
        assert(e == 2 * h + 1);
        lemma_pow_adds(b, 2 * h, 1);
        lemma_pow1(b);
        assert(pow(b, e) == z * b);
        lemma_mul_mod_noop_left(r * b, q, p);
        lemma_mul_mod_noop_right(r * b, q, p);
        lemma_mul_mod_noop_right(r * b, z, p);
        assert((r * b) * z == r * (z * b)) by (nonlinear_arith);
    } else {
        assert(e == 2 * h);
        lemma_mul_mod_noop_right(r, q, p);
        lemma_mul_mod_noop_right(r, z, p);
    }
}

/// `a^(p-2) mod p`, the inverse of `a` modulo a prime `p`.
pub(crate) fn inv_mod(a: u32, p: u32) -> (r: u32)
    requires
        p >= 2,
    ensures
        r < p,
        r as int == pow((a % p) as int, (p - 2) as nat) % (p as int),
        is_prime_spec(p as nat) && a % p != 0 ==> (a * r) % (p as int) == 1,
{
    let pp = p as u64;
    let mut r: u64 = 1;
    let mut b = a as u64 % pp;
    let mut e = pp - 2;
    let ghost target = pow((a % p) as int, (p - 2) as nat) % (p as int);
    proof {
        lemma_pow0(b as int);
        lemma_small_mod(1, p as nat);
    }
    while e > 0
        invariant
            pp == p,
            2 <= pp <= u32::MAX,
            r < pp,
            b < pp,
            target == pow((a % p) as int, (p - 2) as nat) % (p as int),
            ((r as int) * pow(b as int, e as nat)) % (pp as int) == target,
        decreases e,
    {
        proof {
            assert(r * b <= u32::MAX * u32::MAX) by (nonlinear_arith)
                requires
                    r <= u32::MAX,
                    b <= u32::MAX,
            ;
            assert(b * b <= u32::MAX * u32::MAX) by (nonlinear_arith)
                requires
                    b <= u32::MAX,
            ;
            assert(e >> 1 < e) by (bit_vector)
                requires
                    e > 0,
            ;
            assert(e >> 1 == e / 2) by (bit_vector);
            assert((e & 1 == 1) == (e % 2 == 1)) by (bit_vector);
            lemma_square_step(r as int, b as int, e as nat, pp as int);
        }
        if e & 1 == 1 {
            r = r * b % pp;
        }
        b = b * b % pp;
        e = e >> 1;
    }
    proof {
        lemma_pow0(b as int);
        lemma_small_mod(r as nat, pp as nat);
        if is_prime_spec(p as nat) && a % p != 0 {
            let a1 = (a % p) as int;
            let pi = p as int;
            lemma_small_mod(a1 as nat, p as nat);
            crate::modp::lemma_fermat(p as nat, a1);
            lemma_pow_adds(a1, 1, (p - 2) as nat);
            lemma_pow1(a1);
            assert(pow(a1, (p - 1) as nat) == a1 * pow(a1, (p - 2) as nat));
            lemma_mul_mod_noop_right(a1, pow(a1, (p - 2) as nat), pi);
            lemma_mul_mod_noop_left(a as int, r as int, pi);
        }
    }
    (r % pp) as u32
}

/// `n` is prime.
pub open spec fn is_prime_spec(n: nat) -> bool {
    &&& n >= 2
    &&& forall|d: nat| 2 <= d && d * d <= n ==> #[trigger] (n % d) != 0
}

pub fn is_prime(n: u32) -> (b: bool)
    ensures
        b == is_prime_spec(n as nat),
{
    if n < 2 {
        return false;
    }
    let nn = n as u64;
    let mut d: u64 = 2;
    proof {
        assert(d * d <= 65536 * 65536);
    }
    while d * d <= nn
        invariant
            2 <= d <= nn + 1,
            d <= 65536,
            d * d <= 65536 * 65536,
            nn == n,
            n >= 2,
            forall|e: nat| 2 <= e < d && e * e <= n ==> #[trigger] ((n as nat) % e) != 0,
        decreases nn + 1 - d,
    {
        if nn % d == 0 {
            return false;
        }
        proof {
            assert(d <= nn) by (nonlinear_arith)
                requires
                    d * d <= nn,
                    d >= 2,
            ;
            assert(d <= 65535) by (nonlinear_arith)
                requires
                    d * d <= 4294967295,
                    d >= 2,
            ;
            assert((d + 1) * (d + 1) <= 65536 * 65536) by (nonlinear_arith)
                requires
                    d <= 65535,
            ;
        }
        d = d + 1;
    }
    proof {
        assert forall|e: nat| 2 <= e && e * e <= n implies #[trigger] ((n as nat) % e) != 0 by {
            if e >= d {
                assert(e * e >= d * d) by (nonlinear_arith)
                    requires
                        e >= d,
                        d >= 0,
                ;
            }
        }
    }
    true
}

/// The all-zero cocycle on a base of `nb` elements.
pub open spec fn zero_cocycle(nb: nat) -> Seq<u32> {
    Seq::new(nb * nb, |i: int| 0u32)
}

/// Every entry is a residue mod `m`.
pub open spec fn residues(v: Seq<u32>, m: nat) -> bool {
    forall|i: int| 0 <= i < v.len() ==> #[trigger] v[i] < m
}

/// Every entry of a residual is a residue mod `m`.
pub(crate) proof fn lemma_residual_residues(table: Seq<u8>, nb: nat, m: nat, law: Law, fibre: nat)
    requires
        m >= 1,
        nb >= 1,
    ensures
        residual_spec(table, nb, m, law, fibre) matches Some(v) ==> residues(v, m) && v.len()
            == pow(nb as int, law.arity as nat),
{
    lemma_pow_positive(nb as int, law.arity as nat);
    match residual_spec(table, nb, m, law, fibre) {
        Some(v) => {
            assert forall|i: int| 0 <= i < v.len() implies #[trigger] v[i] < m by {
                let k = law.arity as nat;
                let vals = fibre_assignment(i as nat, nb, m, fibre, k);
                let l = eval_term(law.lhs, table, nb * m, vals) as int;
                let r = eval_term(law.rhs, table, nb * m, vals) as int;
                lemma_mod_bound(((r % (m as int) + m) - l % (m as int)), m as int);
            }
        },
        None => {},
    }
}

/// An extension with the given cocycle, built fresh.
fn extension_with(base: &FiniteMagma, m: u32, alpha: u32, beta: u32, cocycle: Vec<u32>) -> (e: Extension)
    requires
        base.wf(),
    ensures
        e.base.n == base.n,
        e.base.table@ == base.table@,
        e.m == m,
        e.alpha == alpha,
        e.beta == beta,
        e.cocycle@ == cocycle@,
{
    Extension { base: base.clone(), m, alpha, beta, cocycle }
}

/// The cocycle that is one at entry `j` and zero elsewhere.
pub open spec fn unit_cocycle(nb: nat, j: int) -> Seq<u32> {
    Seq::new(nb * nb, |i: int| if i == j { 1u32 } else { 0u32 })
}

/// The fibre residual at coordinate zero of the extension with cocycle
/// `coc`, empty when the two sides leave their base fibre.
pub open spec fn fibre_residual(base: Seq<u8>, nb: nat, m: nat, alpha: nat, beta: nat, law: Law, coc: Seq<u32>) -> Seq<u32> {
    match residual_spec(ext_table(base, nb, m, alpha, beta, coc), nb, m, law, 0) {
        Some(v) => v,
        None => Seq::empty(),
    }
}

/// Entry `(i, j)` of the probed system: for `j < nb²` the change of residual
/// `i` when cocycle entry `j` goes from zero to one, and in the last column
/// minus residual `i` at the zero cocycle, all mod `m`.
pub open spec fn probed_cell(base: Seq<u8>, nb: nat, m: nat, alpha: nat, beta: nat, law: Law, i: int, j: int) -> u32 {
    let r0 = fibre_residual(base, nb, m, alpha, beta, law, zero_cocycle(nb));
    let mi = m as int;
    if j < nb * nb {
        ((fibre_residual(base, nb, m, alpha, beta, law, unit_cocycle(nb, j))[i] + mi - (r0[i] as int) % mi) % mi) as u32
    } else {
        ((mi - (r0[i] as int) % mi) % mi) as u32
    }
}

/// The linear system the cocycle solver probes, as a flat augmented matrix
/// of one row per assignment and `nb² + 1` columns.
pub open spec fn probed_system(base: Seq<u8>, nb: nat, m: nat, alpha: nat, beta: nat, law: Law) -> Seq<u32> {
    let w = nb * nb + 1;
    let neq = fibre_residual(base, nb, m, alpha, beta, law, zero_cocycle(nb)).len();
    Seq::new(neq * w, |idx: int| probed_cell(base, nb, m, alpha, beta, law, idx / (w as int), idx % (w as int)))
}

/// `x` solves every equation of the probed system.
pub open spec fn solves_probed(base: &FiniteMagma, m: u32, alpha: u32, beta: u32, law: Law, x: Seq<u32>) -> bool {
    let nb = base.n as nat;
    solves(
        probed_system(base.table@, nb, m as nat, alpha as nat, beta as nat, law),
        nb * nb + 1,
        nb * nb,
        fibre_residual(base.table@, nb, m as nat, alpha as nat, beta as nat, law, zero_cocycle(nb)).len(),
        x,
        m as int,
    )
}

/// `x` solves the homogeneous part of every equation of the probed system.
pub open spec fn annihilates_probed(base: &FiniteMagma, m: u32, alpha: u32, beta: u32, law: Law, x: Seq<u32>) -> bool {
    let nb = base.n as nat;
    let a0 = probed_system(base.table@, nb, m as nat, alpha as nat, beta as nat, law);
    forall|i: int|
        0 <= i < fibre_residual(base.table@, nb, m as nat, alpha as nat, beta as nat, law, zero_cocycle(nb)).len() ==> #[trigger] rdot(
            row(a0, nb * nb + 1, i),
            x,
            nb * nb,
        ) % (m as int) == 0
}

/// Every unit cocycle gives a residual at fibre coordinate zero.
pub open spec fn probes_defined(base: &FiniteMagma, m: u32, alpha: u32, beta: u32, law: Law) -> bool {
    let nb = base.n as nat;
    forall|j: int|
        0 <= j < nb * nb ==> (#[trigger] residual_spec(
            ext_table(base.table@, nb, m as nat, alpha as nat, beta as nat, unit_cocycle(nb, j)),
            nb,
            m as nat,
            law,
            0,
        )) is Some
}

/// Some cocycle solves the probed system.
pub open spec fn probed_solvable(base: &FiniteMagma, m: u32, alpha: u32, beta: u32, law: Law) -> bool {
    exists|x: Seq<u32>| x.len() == base.n * base.n && #[trigger] solves_probed(base, m, alpha, beta, law, x)
}

proof fn lemma_increasing_len(cols: Seq<usize>, n: nat)
    requires
        increasing(cols),
        forall|q: int| 0 <= q < cols.len() ==> #[trigger] cols[q] < n,
    ensures
        cols.len() <= n,
{
    assert forall|q: int| 0 <= q < cols.len() implies #[trigger] cols[q] >= q by {
        lemma_increasing_at_least(cols, q);
    }
    if cols.len() > n {
        assert(cols[n as int] >= n);
    }
}

proof fn lemma_increasing_at_least(cols: Seq<usize>, q: int)
    requires
        increasing(cols),
        0 <= q < cols.len(),
    ensures
        cols[q] >= q,
    decreases q,
{
    if q > 0 {
        lemma_increasing_at_least(cols, q - 1);
        assert(cols[q - 1] < cols[q]);
    }
}

/// Solve for the cocycles under which the extension satisfies `law`.
///
/// `m` must be prime, so that the fibre is a field and elimination applies.
/// Returns `None` when the base magma fails the law, when the residual is not
/// flat in the fibre coordinate, or when the system is inconsistent.
///
/// The system is the one probed at fibre coordinate zero: the residual at the
/// zero cocycle and its change under each unit cocycle. The returned space is
/// exactly its solution set: every member solves it, and every solution is a
/// member.
pub fn cocycle_space(base: &FiniteMagma, m: u32, alpha: u32, beta: u32, law: &Law) -> (r: Option<
    CocycleSpace,
>)
    requires
        is_prime_spec(m as nat),
        base.wf(),
        law.wf(),
        base.n * m <= 255,
        (m - 1) * (m - 1) <= u32::MAX,
        alpha * (m - 1) + beta * (m - 1) + 1 <= usize::MAX,
        pow(base.n as int, law.arity as nat) <= usize::MAX,
        pow(base.n as int, law.arity as nat) * (base.n * base.n + 1) <= usize::MAX,
    ensures
        r is Some <==> flat_of(
            ext_table(
                base.table@,
                base.n as nat,
                m as nat,
                alpha as nat,
                beta as nat,
                zero_cocycle(base.n as nat),
            ),
            base.n as nat,
            m as nat,
            *law,
        ) && probes_defined(base, m, alpha, beta, *law) && probed_solvable(base, m, alpha, beta, *law),
        r matches Some(sp) ==> {
            &&& sp.m == m
            &&& sp.particular@.len() == base.n * base.n
            &&& residues(sp.particular@, m as nat)
            &&& sp.basis@.len() <= base.n * base.n
            &&& forall|k: int|
                0 <= k < sp.basis@.len() ==> (#[trigger] sp.basis@[k])@.len() == base.n * base.n
                    && residues(sp.basis@[k]@, m as nat)
            &&& solves_probed(base, m, alpha, beta, *law, sp.particular@)
            &&& forall|k: int|
                0 <= k < sp.basis@.len() ==> annihilates_probed(base, m, alpha, beta, *law, #[trigger] sp.basis@[k]@)
            &&& forall|coeffs: Seq<u32>|
                solves_probed(
                    base,
                    m,
                    alpha,
                    beta,
                    *law,
                    #[trigger] member_upto(sp.particular@, sp.basis_view(), coeffs, m as int, sp.basis@.len()),
                )
            &&& forall|x: Seq<u32>|
                x.len() == base.n * base.n && residues(x, m as nat) && #[trigger] solves_probed(base, m, alpha, beta, *law, x)
                    ==> exists|coeffs: Seq<u32>|
                    x == #[trigger] member_upto(sp.particular@, sp.basis_view(), coeffs, m as int, sp.basis@.len())
            &&& forall|c1: Seq<u32>, c2: Seq<u32>|
                c1.len() == sp.basis@.len() && c2.len() == sp.basis@.len() && residues(c1, m as nat) && residues(c2, m as nat)
                    && #[trigger] member_upto(sp.particular@, sp.basis_view(), c1, m as int, sp.basis@.len())
                    == #[trigger] member_upto(sp.particular@, sp.basis_view(), c2, m as int, sp.basis@.len()) ==> c1 == c2
            &&& forall|coeffs: Seq<u32>|
                law.holds_in(
                    ext_table(
                        base.table@,
                        base.n as nat,
                        m as nat,
                        alpha as nat,
                        beta as nat,
                        #[trigger] member_upto(sp.particular@, sp.basis_view(), coeffs, m as int, sp.basis@.len()),
                    ),
                    (base.n as nat) * (m as nat),
                )
        },
{
    let nb = base.n;
    proof {
        assert(nb * nb <= 65025) by (nonlinear_arith)
            requires
                nb <= 255,
        ;
    }
    let nv = nb * nb;
    proof {
        assert(m <= 255) by (nonlinear_arith)
            requires
                nb * m <= 255,
                nb >= 1,
        ;
    }
    let zero = extension_with(base, m, alpha, beta, vec![0u32; nv]);
    proof {
        assert(zero.cocycle@ =~= zero_cocycle(nb as nat));
        assert(zero.fits());
    }
    if !residual_is_flat(&zero, law) {
        return None;
    }
    let r0 = match residual(&zero, law, 0) {
        Some(v) => v,
        None => {
            return None;
        },
    };
    proof {
        lemma_residual_residues(zero.spec_table(), nb as nat, m as nat, *law, 0);
    }
    let neq = r0.len();
    let w = nv + 1;
    proof {
        assert(neq * w <= usize::MAX) by (nonlinear_arith)
            requires
                neq == pow(nb as int, law.arity as nat),
                w == nv + 1,
                nv == nb * nb,
                pow(nb as int, law.arity as nat) * (nb * nb + 1) <= usize::MAX,
        ;
    }
    let ghost (tb, nbn, mn, an, bn) = (base.table@, nb as nat, m as nat, alpha as nat, beta as nat);
    let ghost wn = w as nat;
    proof {
        assert(r0@ == fibre_residual(tb, nbn, mn, an, bn, *law, zero_cocycle(nbn)));
    }
    let mut a: Vec<u32> = vec![0u32; neq * w];
    // Column j is the effect of bumping cocycle entry j by one. The map is
    // linear, so probing the unit vectors determines it.
    let mut j: usize = 0;
    while j < nv
        invariant
            nb == base.n,
            nbn == nb,
            tb == base.table@,
            mn == m,
            an == alpha,
            bn == beta,
            wn == w,
            nv == nb * nb,
            nv <= 65025,
            w == nv + 1,
            neq == r0@.len(),
            neq == pow(nb as int, law.arity as nat),
            r0@ == fibre_residual(tb, nbn, mn, an, bn, *law, zero_cocycle(nbn)),
            a@.len() == neq * w,
            neq * w <= usize::MAX,
            residues(a@, m as nat),
            residues(r0@, m as nat),
            2 <= m <= 255,
            base.wf(),
            law.wf(),
            base.n * m <= 255,
            alpha * (m - 1) + beta * (m - 1) + 1 <= usize::MAX,
            pow(base.n as int, law.arity as nat) <= usize::MAX,
            j <= nv,
            forall|i2: int, j2: int|
                0 <= i2 < neq && 0 <= j2 < j ==> #[trigger] cell(a@, wn, i2, j2) == probed_cell(tb, nbn, mn, an, bn, *law, i2, j2),
            forall|j2: int|
                0 <= j2 < j ==> (#[trigger] residual_spec(
                    ext_table(tb, nbn, mn, an, bn, unit_cocycle(nbn, j2)),
                    nbn,
                    mn,
                    *law,
                    0,
                )) is Some,
        decreases nv - j,
    {
        let mut coc = vec![0u32; nv];
        coc.set(j, 1);
        proof {
            assert(coc@ =~= unit_cocycle(nbn, j as int));
        }
        let e = extension_with(base, m, alpha, beta, coc);
        proof {
            assert(e.fits());
        }
        let rj = match residual(&e, law, 0) {
            Some(v) => v,
            None => {
                return None;
            },
        };
        proof {
            lemma_residual_residues(e.spec_table(), nb as nat, m as nat, *law, 0);
            assert(rj@ == fibre_residual(tb, nbn, mn, an, bn, *law, unit_cocycle(nbn, j as int)));
            assert(e.spec_table() == ext_table(tb, nbn, mn, an, bn, unit_cocycle(nbn, j as int)));
        }
        let mut i: usize = 0;
        while i < neq
            invariant
                w == nv + 1,
                wn == w,
                nbn == nb,
                nv == nb * nb,
                j < nv,
                neq == r0@.len(),
                neq == rj@.len(),
                r0@ == fibre_residual(tb, nbn, mn, an, bn, *law, zero_cocycle(nbn)),
                rj@ == fibre_residual(tb, nbn, mn, an, bn, *law, unit_cocycle(nbn, j as int)),
                mn == m,
                a@.len() == neq * w,
                neq * w <= usize::MAX,
                residues(a@, m as nat),
                residues(r0@, m as nat),
                residues(rj@, m as nat),
                2 <= m <= 255,
                i <= neq,
                forall|i2: int, j2: int|
                    0 <= i2 < neq && 0 <= j2 < j ==> #[trigger] cell(a@, wn, i2, j2) == probed_cell(tb, nbn, mn, an, bn, *law, i2, j2),
                forall|i2: int| 0 <= i2 < i ==> #[trigger] cell(a@, wn, i2, j as int) == probed_cell(tb, nbn, mn, an, bn, *law, i2, j as int),
            decreases neq - i,
        {
            proof {
                assert(i * w + j < neq * w) by (nonlinear_arith)
                    requires
                        i < neq,
                        j < w,
                ;
            }
            let ghost prev = a@;
            let v = (rj[i] + m - r0[i] % m) % m;
            a.set(i * w + j, v);
            proof {
                assert forall|i2: int, j2: int| 0 <= i2 < neq && 0 <= j2 < w && !(i2 == i && j2 == j) implies #[trigger] cell(a@, wn, i2, j2) == cell(prev, wn, i2, j2) by {
                    lemma_cell_apart(i2, j2, i as int, j as int, w as int);
                    assert(0 <= i2 * w + j2 < neq * w) by (nonlinear_arith)
                        requires
                            0 <= i2 < neq,
                            0 <= j2 < w,
                    ;
                }
                assert(cell(a@, wn, i as int, j as int) == v);
            }
            i = i + 1;
        }
        j = j + 1;
    }
    // Augmented column: sum_j c_j * col_j = -r0.
    let mut i: usize = 0;
    while i < neq
        invariant
            w == nv + 1,
            wn == w,
            nbn == nb,
            nv == nb * nb,
            mn == m,
            neq == r0@.len(),
            r0@ == fibre_residual(tb, nbn, mn, an, bn, *law, zero_cocycle(nbn)),
            a@.len() == neq * w,
            neq * w <= usize::MAX,
            residues(a@, m as nat),
            residues(r0@, m as nat),
            2 <= m <= 255,
            i <= neq,
            forall|i2: int, j2: int|
                0 <= i2 < neq && 0 <= j2 < nv ==> #[trigger] cell(a@, wn, i2, j2) == probed_cell(tb, nbn, mn, an, bn, *law, i2, j2),
            forall|i2: int| 0 <= i2 < i ==> #[trigger] cell(a@, wn, i2, nv as int) == probed_cell(tb, nbn, mn, an, bn, *law, i2, nv as int),
        decreases neq - i,
    {
        proof {
            assert(i * w + nv < neq * w) by (nonlinear_arith)
                requires
                    i < neq,
                    w == nv + 1,
            ;
        }
        let ghost prev = a@;
        a.set(i * w + nv, (m - r0[i] % m) % m);
        proof {
            assert forall|i2: int, j2: int| 0 <= i2 < neq && 0 <= j2 < w && !(i2 == i && j2 == nv) implies #[trigger] cell(a@, wn, i2, j2) == cell(prev, wn, i2, j2) by {
                lemma_cell_apart(i2, j2, i as int, nv as int, w as int);
                assert(0 <= i2 * w + j2 < neq * w) by (nonlinear_arith)
                    requires
                        0 <= i2 < neq,
                        0 <= j2 < w,
                ;
            }
        }
        i = i + 1;
    }
    proof {
        let a0 = probed_system(tb, nbn, mn, an, bn, *law);
        assert(a@ =~= a0) by {
            assert forall|idx: int| 0 <= idx < a@.len() implies a@[idx] == a0[idx] by {
                let (i2, j2) = (idx / (w as int), idx % (w as int));
                lemma_fundamental_div_mod(idx, w as int);
                lemma_mod_bound(idx, w as int);
                lemma_div_pos_is_pos(idx, w as int);
                assert(idx == i2 * w + j2) by (nonlinear_arith)
                    requires
                        idx == w * i2 + j2,
                ;
                assert(i2 < neq) by {
                    if i2 >= neq {
                        assert(i2 * w >= neq * w) by (nonlinear_arith)
                            requires
                                i2 >= neq,
                                w >= 0,
                        ;
                    }
                }
                assert(cell(a@, wn, i2, j2) == a@[idx]);
            }
        }
        assert(entries_below(a@, m as int)) by {
            assert forall|idx: int| 0 <= idx < a@.len() implies #[trigger] a@[idx] < m by {
                assert(residues(a@, m as nat));
            }
        }
    }
    let ghost a0 = a@;
    proof {
        assert(probes_defined(base, m, alpha, beta, *law));
        assert(flat_of(ext_table(tb, nbn, mn, an, bn, zero_cocycle(nbn)), nbn, mn, *law)) by {
            assert(zero.spec_table() == ext_table(tb, nbn, mn, an, bn, zero_cocycle(nbn)));
        }
    }
    let pivots = reduce(&mut a, w, nv, neq, m);
    if !consistent(&a, w, nv, neq, m) {
        proof {
            assert forall|x: Seq<u32>| x.len() == nb * nb implies !#[trigger] solves_probed(base, m, alpha, beta, *law, x) by {
                lemma_inconsistent(a@, wn, nv as nat, neq as nat, x, m as int);
            }
        }
        return None;
    }
    let free = free_columns(nv, &pivots);
    proof {
        lemma_increasing_len(free@, nv as nat);
    }
    let zeros: Vec<u32> = vec![0u32; free.len()];
    let particular = solve(&a, w, nv, neq, &pivots, &free, &zeros, m);
    proof {
        assert forall|q: int| 0 <= q < free@.len() implies particular@[#[trigger] free@[q] as int] == 0 by {
            assert(zeros@[q] == 0);
            lemma_small_mod(0, m as nat);
        }
        lemma_solves_reduced(a@, wn, nv as nat, neq as nat, pivots@, free@, particular@, m as int);
        assert(solves(a0, wn, nv as nat, neq as nat, particular@, m as int));
    }
    let mut basis: Vec<Vec<u32>> = Vec::new();
    let mut k: usize = 0;
    while k < free.len()
        invariant
            2 <= m <= 255,
            w == nv + 1,
            wn == w,
            nbn == nb,
            nv == nb * nb,
            mn == m,
            neq == r0@.len(),
            r0@ == fibre_residual(tb, nbn, mn, an, bn, *law, zero_cocycle(nbn)),
            a0 == probed_system(tb, nbn, mn, an, bn, *law),
            a@.len() == neq * w,
            a0.len() == neq * w,
            neq * w <= usize::MAX,
            entries_below(a@, m as int),
            pivots@.len() <= neq,
            crate::gauss::pivots_ok(pivots@, nv as nat),
            complement(free@, pivots@, nv as nat),
            crate::gauss::reduced(a@, wn, neq as nat, pivots@, nv as nat),
            crate::gauss::consistent_spec(a@, wn, nv as nat, neq as nat, m as int),
            same_solutions(a@, a0, wn, nv as nat, neq as nat, m as int),
            free@.len() <= nv,
            particular@.len() == nv,
            residues(particular@, m as nat),
            solves(a0, wn, nv as nat, neq as nat, particular@, m as int),
            k <= free@.len(),
            basis@.len() == k,
            forall|t: int|
                0 <= t < basis@.len() ==> (#[trigger] basis@[t])@.len() == nv && residues(basis@[t]@, m as nat),
            forall|t: int|
                0 <= t < basis@.len() ==> forall|i2: int|
                    0 <= i2 < neq ==> #[trigger] rdot(row(a0, wn, i2), (#[trigger] basis@[t])@, nv as nat) % (m as int) == 0,
            forall|q: int| 0 <= q < free@.len() ==> particular@[#[trigger] free@[q] as int] == 0,
            forall|t: int, q: int|
                0 <= t < basis@.len() && 0 <= q < free@.len() ==> (#[trigger] basis@[t])@[#[trigger] free@[q] as int] == if t == q {
                    1u32
                } else {
                    0u32
                },
        decreases free@.len() - k,
    {
        let mut fv: Vec<u32> = vec![0u32; free.len()];
        fv.set(k, 1);
        let sk = solve(&a, w, nv, neq, &pivots, &free, &fv, m);
        proof {
            lemma_solves_reduced(a@, wn, nv as nat, neq as nat, pivots@, free@, sk@, m as int);
            assert(solves(a0, wn, nv as nat, neq as nat, sk@, m as int));
        }
        let mut b: Vec<u32> = Vec::new();
        let mut q: usize = 0;
        while q < nv
            invariant
                2 <= m <= 255,
                sk@.len() == nv,
                particular@.len() == nv,
                forall|i2: int| 0 <= i2 < nv ==> #[trigger] sk@[i2] < m,
                residues(particular@, m as nat),
                q <= nv,
                b@.len() == q,
                residues(b@, m as nat),
                forall|q2: int| 0 <= q2 < q ==> #[trigger] b@[q2] == (sk@[q2] + m - particular@[q2]) % (m as int),
            decreases nv - q,
        {
            proof {
                assert(sk@[q as int] < m);
                assert(particular@[q as int] < m);
            }
            b.push((sk[q] + m - particular[q]) % m);
            q = q + 1;
        }
        proof {
            assert forall|q2: int| 0 <= q2 < free@.len() implies b@[#[trigger] free@[q2] as int] == if k == q2 { 1u32 } else { 0u32 } by {
                assert(sk@[free@[q2] as int] == fv@[q2] % m);
                assert(particular@[free@[q2] as int] == 0);
                lemma_small_mod(fv@[q2] as nat, m as nat);
                lemma_mod_self_0(m as int);
                lemma_mod_add_multiples_vanish(fv@[q2] as int, m as int);
            }
            assert forall|i2: int| 0 <= i2 < neq implies #[trigger] rdot(row(a0, wn, i2), b@, nv as nat) % (m as int) == 0 by {
                let ri = row(a0, wn, i2);
                assert forall|q2: int| 0 <= q2 < nv implies #[trigger] b@[q2] == (sk@[q2] + m - (1 * particular@[q2]) % (m as int)) % (m as int) by {
                    assert(particular@[q2] < m);
                    lemma_small_mod(particular@[q2] as nat, m as nat);
                }
                lemma_rdot_diff(ri, sk@, particular@, b@, nv as nat, m as int);
                assert(row_ok(ri, nv as nat, sk@, m as int));
                assert(row_ok(ri, nv as nat, particular@, m as int));
                let (ds, dp, rhs) = (rdot(ri, sk@, nv as nat), rdot(ri, particular@, nv as nat), ri[nv as int] as int);
                lemma_sub_mod_noop(ds - rhs, dp - rhs, m as int);
                lemma_small_mod(0, m as nat);
                assert((ds - rhs) - (dp - rhs) == ds - dp);
            }
        }
        basis.push(b);
        k = k + 1;
    }
    proof {
        assert(solves_probed(base, m, alpha, beta, *law, particular@));
        let sp = CocycleSpace { particular, basis, m };
        let bv = sp.basis_view();
        assert forall|t: int| 0 <= t < bv.len() implies #[trigger] bv[t] == basis@[t]@ by {
        }
        assert forall|t: int| 0 <= t < bv.len() implies (#[trigger] bv[t]).len() == nv by {
            assert(bv[t] == basis@[t]@);
        }
        assert forall|t: int, i2: int| 0 <= t < bv.len() && 0 <= i2 < neq implies #[trigger] rdot(row(a0, wn, i2), #[trigger] bv[t], nv as nat) % (m as int) == 0 by {
            assert(bv[t] == basis@[t]@);
        }
        assert forall|t: int, q: int| 0 <= t < bv.len() && 0 <= q < free@.len() implies (#[trigger] bv[t])[#[trigger] free@[q] as int] == if t == q {
            1u32
        } else {
            0u32
        } by {
            assert(bv[t] == basis@[t]@);
        }
        assert forall|coeffs: Seq<u32>| solves_probed(base, m, alpha, beta, *law, #[trigger] member_upto(particular@, bv, coeffs, m as int, basis@.len())) by {
            lemma_members_solve(a0, wn, nv as nat, neq as nat, particular@, bv, coeffs, m as int, basis@.len() as nat);
        }
        assert forall|coeffs: Seq<u32>|
            law.holds_in(
                ext_table(
                    base.table@,
                    base.n as nat,
                    m as nat,
                    alpha as nat,
                    beta as nat,
                    #[trigger] member_upto(particular@, bv, coeffs, m as int, basis@.len()),
                ),
                (base.n as nat) * (m as nat),
            ) by {
            let x = member_upto(particular@, bv, coeffs, m as int, basis@.len());
            lemma_member_upto_len(particular@, bv, coeffs, m as int, basis@.len() as nat);
            assert(solves_probed(base, m, alpha, beta, *law, x));
            crate::ext_laws::lemma_probed_solutions_satisfy(base, m, alpha, beta, *law, x);
        }
        assert forall|x: Seq<u32>| x.len() == base.n * base.n && residues(x, m as nat) && #[trigger] solves_probed(base, m, alpha, beta, *law, x)
            implies exists|coeffs: Seq<u32>| x == #[trigger] member_upto(particular@, bv, coeffs, m as int, basis@.len()) by {
            lemma_solutions_are_members(a@, a0, wn, nv as nat, neq as nat, pivots@, free@, particular@, bv, m as int, x);
            let cx = Seq::new(free@.len(), |q: int| x[free@[q] as int]);
            assert(x == member_upto(particular@, bv, cx, m as int, basis@.len()));
        }
        assert forall|c1: Seq<u32>, c2: Seq<u32>|
            c1.len() == basis@.len() && c2.len() == basis@.len() && residues(c1, m as nat) && residues(c2, m as nat)
                && #[trigger] member_upto(particular@, bv, c1, m as int, basis@.len())
                == #[trigger] member_upto(particular@, bv, c2, m as int, basis@.len()) implies c1 == c2 by {
            assert forall|kk: int| 0 <= kk < c1.len() implies c1[kk] == c2[kk] by {
                lemma_member_free_entries(particular@, bv, free@, c1, m as int, basis@.len() as nat, kk);
                lemma_member_free_entries(particular@, bv, free@, c2, m as int, basis@.len() as nat, kk);
            }
            assert(c1 =~= c2);
        }
        assert forall|t: int| 0 <= t < basis@.len() implies annihilates_probed(base, m, alpha, beta, *law, #[trigger] basis@[t]@) by {
            assert forall|i2: int| 0 <= i2 < neq implies #[trigger] rdot(row(a0, wn, i2), basis@[t]@, nv as nat) % (m as int) == 0 by {
            }
        }
    }
    Some(CocycleSpace { particular, basis, m })
}

/// Distinct cells of a flat matrix sit at distinct indices.
proof fn lemma_cell_apart(i2: int, j2: int, i: int, j: int, w: int)
    requires
        0 <= i2,
        0 <= i,
        0 <= j2 < w,
        0 <= j < w,
        !(i2 == i && j2 == j),
    ensures
        i2 * w + j2 != i * w + j,
{
    if i2 == i {
    } else if i2 < i {
        assert(i2 * w + w <= i * w) by (nonlinear_arith)
            requires
                i2 < i,
                w >= 0,
        ;
    } else {
        assert(i * w + w <= i2 * w) by (nonlinear_arith)
            requires
                i < i2,
                w >= 0,
        ;
    }
}

proof fn lemma_small_mod(x: nat, m: nat)
    requires
        x < m,
    ensures
        x % m == x,
{
    lemma_fundamental_div_mod_converse(x as int, m as int, 0, x as int);
}

/// The verdict for one (setting, target) question.
#[derive(Debug, PartialEq, Eq)]
pub enum Verdict {
    /// Every cocycle probed satisfies the target, and the target's residual
    /// is flat at each of them.
    Blocked,
    /// A cocycle under which the extension refutes the target.
    Separates(Vec<u32>),
    /// The target's residual depends on the fibre coordinate, so testing it at
    /// coordinate zero decides nothing.
    Undecided,
}

/// Probe `q` of a cocycle space: the particular solution for `q == 0`, and
/// the particular solution plus basis vector `q - 1` otherwise.
pub open spec fn probe(part: Seq<u32>, basis: Seq<Seq<u32>>, m: nat, q: int) -> Seq<u32> {
    if q == 0 {
        part
    } else {
        Seq::new(part.len(), |i: int| ((part[i] + basis[q - 1][i]) % (m as int)) as u32)
    }
}

/// Under cocycle `coc`, the target's residual at fibre zero is absent or
/// nonzero somewhere.
pub open spec fn refutes(base: Seq<u8>, nb: nat, m: nat, alpha: nat, beta: nat, coc: Seq<u32>, target: Law) -> bool {
    match residual_spec(ext_table(base, nb, m, alpha, beta, coc), nb, m, target, 0) {
        None => true,
        Some(v) => exists|c: int| 0 <= c < v.len() && v[c] != 0,
    }
}

/// Probe `q` of `sp`.
pub open spec fn probe_at(sp: &CocycleSpace, m: u32, q: int) -> Seq<u32> {
    probe(sp.particular@, sp.basis_view(), m as nat, q)
}

/// The extension with probe `q` of `sp` as cocycle refutes the target at
/// fibre zero.
pub open spec fn refuted_at(base: &FiniteMagma, m: u32, alpha: u32, beta: u32, sp: &CocycleSpace, target: Law, q: int) -> bool {
    refutes(base.table@, base.n as nat, m as nat, alpha as nat, beta as nat, probe_at(sp, m, q), target)
}

/// The target's residual is flat under probe `q` of `sp`.
pub open spec fn flat_at(base: &FiniteMagma, m: u32, alpha: u32, beta: u32, sp: &CocycleSpace, target: Law, q: int) -> bool {
    flat_of(
        ext_table(base.table@, base.n as nat, m as nat, alpha as nat, beta as nat, probe_at(sp, m, q)),
        base.n as nat,
        m as nat,
        target,
    )
}

/// Whether *every* cocycle satisfying the hypothesis also satisfies `target`.
///
/// The target's residual is affine in the cocycle and the hypothesis's
/// solution set is an affine subspace, so the restriction vanishes
/// identically exactly when it vanishes at the particular solution and at each
/// `particular + basis_i`: `dim + 1` probes. The probes read the residual at
/// fibre coordinate zero, which is faithful only when the target's residual is
/// flat in that coordinate. A nonzero residual is a genuine refutation either
/// way, so `Separates` is always sound; `Blocked` is claimed only once
/// flatness is checked, and `Undecided` is returned otherwise.
pub fn separates(base: &FiniteMagma, m: u32, alpha: u32, beta: u32, sp: &CocycleSpace, target: &Law) -> (r: Verdict)
    requires
        base.wf(),
        target.wf(),
        sp.basis@.len() < usize::MAX,
        m >= 1,
        base.n * m <= 255,
        pow(base.n as int, target.arity as nat) <= usize::MAX,
        alpha * (m - 1) + beta * (m - 1) + (m - 1) <= usize::MAX,
        sp.particular@.len() == base.n * base.n,
        residues(sp.particular@, m as nat),
        forall|k: int| 0 <= k < sp.basis@.len() ==> (#[trigger] sp.basis@[k])@.len() >= base.n * base.n,
        forall|k: int, i: int|
            0 <= k < sp.basis@.len() && 0 <= i < base.n * base.n ==> sp.particular@[i]
                + #[trigger] sp.basis@[k]@[i] <= u32::MAX,
    ensures
        match r {
            Verdict::Separates(c) => exists|q: int|
                0 <= q <= sp.basis@.len() && c@ == probe_at(sp, m, q) && refuted_at(
                    base,
                    m,
                    alpha,
                    beta,
                    sp,
                    *target,
                    q,
                ) && (forall|q2: int|
                    0 <= q2 < q ==> !#[trigger] refuted_at(base, m, alpha, beta, sp, *target, q2))
                    && !target.holds_in(
                    ext_table(base.table@, base.n as nat, m as nat, alpha as nat, beta as nat, c@),
                    (base.n as nat) * (m as nat),
                ),
            Verdict::Blocked => (forall|q: int|
                0 <= q <= sp.basis@.len() ==> !#[trigger] refuted_at(base, m, alpha, beta, sp, *target, q)
                    && flat_at(base, m, alpha, beta, sp, *target, q) && target.holds_in(
                    ext_table(base.table@, base.n as nat, m as nat, alpha as nat, beta as nat, probe_at(sp, m, q)),
                    (base.n as nat) * (m as nat),
                )) && forall|coeffs: Seq<u32>|
                target.holds_in(
                    ext_table(
                        base.table@,
                        base.n as nat,
                        m as nat,
                        alpha as nat,
                        beta as nat,
                        #[trigger] member_upto(sp.particular@, sp.basis_view(), coeffs, m as int, sp.basis@.len()),
                    ),
                    (base.n as nat) * (m as nat),
                ),
            Verdict::Undecided => (forall|q: int|
                0 <= q <= sp.basis@.len() ==> !#[trigger] refuted_at(base, m, alpha, beta, sp, *target, q))
                && exists|q: int|
                0 <= q <= sp.basis@.len() && !#[trigger] flat_at(base, m, alpha, beta, sp, *target, q),
        },
{
    let nb = base.n;
    proof {
        assert(nb * nb <= 65025) by (nonlinear_arith)
            requires
                nb <= 255,
        ;
    }
    let nv = nb * nb;
    let mut flat = true;
    let mut q: usize = 0;
    while q <= sp.basis.len()
        invariant
            base.wf(),
            target.wf(),
            sp.basis@.len() < usize::MAX,
            nb == base.n,
            nv == nb * nb,
            m >= 1,
            base.n * m <= 255,
            pow(base.n as int, target.arity as nat) <= usize::MAX,
            alpha * (m - 1) + beta * (m - 1) + (m - 1) <= usize::MAX,
            sp.particular@.len() == nv,
            residues(sp.particular@, m as nat),
            forall|k: int| 0 <= k < sp.basis@.len() ==> (#[trigger] sp.basis@[k])@.len() >= nv,
            forall|k: int, i: int|
                0 <= k < sp.basis@.len() && 0 <= i < nv ==> sp.particular@[i]
                    + #[trigger] sp.basis@[k]@[i] <= u32::MAX,
            q <= sp.basis@.len() + 1,
            forall|q2: int| 0 <= q2 < q ==> !#[trigger] refuted_at(base, m, alpha, beta, sp, *target, q2),
            flat == (forall|q2: int| 0 <= q2 < q ==> #[trigger] flat_at(base, m, alpha, beta, sp, *target, q2)),
        decreases sp.basis@.len() + 1 - q,
    {
        let c: Vec<u32> = if q == 0 {
            let c0 = sp.particular.clone();
            proof {
                assert(c0@ =~= sp.particular@);
            }
            c0
        } else {
            let b = &sp.basis[q - 1];
            let mut c1: Vec<u32> = Vec::new();
            let mut i: usize = 0;
            while i < nv
                invariant
                    m >= 1,
                    nv == sp.particular@.len(),
                    b@.len() >= nv,
                    1 <= q <= sp.basis@.len(),
                    b@ == sp.basis@[q - 1]@,
                    forall|i2: int| 0 <= i2 < nv ==> sp.particular@[i2] + b@[i2] <= u32::MAX,
                    i <= nv,
                    c1@.len() == i,
                    forall|i2: int| 0 <= i2 < i ==> #[trigger] c1@[i2] == ((sp.particular@[i2] + b@[i2]) % (m as int)) as u32,
                decreases nv - i,
            {
                c1.push((sp.particular[i] + b[i]) % m);
                i = i + 1;
            }
            proof {
                assert(sp.basis_view()[q - 1] == b@);
                assert(c1@ =~= probe_at(sp, m, q as int));
            }
            c1
        };
        proof {
            assert(c@ == probe_at(sp, m, q as int));
            assert forall|i: int| 0 <= i < c@.len() implies #[trigger] c@[i] < m by {
                if q > 0 {
                    lemma_mod_bound((sp.particular@[i] + sp.basis@[q - 1]@[i]) as int, m as int);
                }
            }
        }
        let cc = c.clone();
        proof {
            assert(cc@ =~= c@);
        }
        let e = extension_with(base, m, alpha, beta, cc);
        proof {
            assert forall|i: int| 0 <= i < nv implies alpha * (m - 1) + beta * (m - 1) + #[trigger] e.cocycle@[i] <= usize::MAX by {
                assert(e.cocycle@[i] < m);
            }
            assert(e.fits());
        }
        let ghost table = e.spec_table();
        match residual(&e, target, 0) {
            None => {
                proof {
                    lemma_residual_refutes(table, nb as nat, m as nat, *target, 0);
                }
                return Verdict::Separates(c);
            },
            Some(res) => {
                let mut nonzero = false;
                let mut k: usize = 0;
                while k < res.len()
                    invariant
                        m >= 1,
                        k <= res@.len(),
                        nonzero == (exists|t: int| 0 <= t < k && res@[t] % m != 0),
                    decreases res@.len() - k,
                {
                    if res[k] % m != 0 {
                        nonzero = true;
                    }
                    k = k + 1;
                }
                proof {
                    lemma_residual_residues(table, nb as nat, m as nat, *target, 0);
                    assert(residues(res@, m as nat));
                    assert((exists|t: int| 0 <= t < res@.len() && res@[t] % m != 0) == (exists|t: int|
                        0 <= t < res@.len() && res@[t] != 0)) by {
                        if exists|t: int| 0 <= t < res@.len() && res@[t] != 0 {
                            let t = choose|t: int| 0 <= t < res@.len() && res@[t] != 0;
                            lemma_small_mod(res@[t] as nat, m as nat);
                        }
                        if exists|t: int| 0 <= t < res@.len() && res@[t] % m != 0 {
                            let t = choose|t: int| 0 <= t < res@.len() && res@[t] % m != 0;
                            if res@[t] == 0 {
                                assert(0u32 % m == 0);
                            }
                        }
                    }
                }
                if nonzero {
                    proof {
                        lemma_residual_refutes(table, nb as nat, m as nat, *target, 0);
                    }
                    return Verdict::Separates(c);
                }
                if flat {
                    let fl = residual_is_flat(&e, target);
                    proof {
                        assert(e.spec_table() == ext_table(base.table@, base.n as nat, m as nat, alpha as nat, beta as nat, probe_at(sp, m, q as int)));
                        assert(fl == flat_at(base, m, alpha, beta, sp, *target, q as int));
                    }
                    if !fl {
                        flat = false;
                    }
                }
            },
        }
        q = q + 1;
    }
    if flat {
        proof {
            assert forall|q2: int| 0 <= q2 <= sp.basis@.len() implies target.holds_in(
                ext_table(base.table@, base.n as nat, m as nat, alpha as nat, beta as nat, probe_at(sp, m, q2)),
                (base.n as nat) * (m as nat),
            ) by {
                assert(!refuted_at(base, m, alpha, beta, sp, *target, q2));
                assert(flat_at(base, m, alpha, beta, sp, *target, q2));
                assert(probe_at(sp, m, q2).len() == base.n * base.n);
                crate::ext_laws::lemma_flat_residual_decides(
                    base.table@,
                    base.n as nat,
                    m as nat,
                    alpha as nat,
                    beta as nat,
                    probe_at(sp, m, q2),
                    *target,
                );
            }
            assert forall|q2: int|
                0 <= q2 <= sp.basis@.len() implies !#[trigger] refuted_at(base, m, alpha, beta, sp, *target, q2) && flat_at(
                base,
                m,
                alpha,
                beta,
                sp,
                *target,
                q2,
            ) by {}
            assert forall|coeffs: Seq<u32>|
                target.holds_in(
                    ext_table(
                        base.table@,
                        base.n as nat,
                        m as nat,
                        alpha as nat,
                        beta as nat,
                        #[trigger] member_upto(sp.particular@, sp.basis_view(), coeffs, m as int, sp.basis@.len()),
                    ),
                    (base.n as nat) * (m as nat),
                ) by {
                crate::ext_laws::lemma_blocked_members_satisfy(base, m, alpha, beta, sp, *target, coeffs);
            }
        }
        Verdict::Blocked
    } else {
        Verdict::Undecided
    }
}

} // verus!
