//! Twisted Cartesian powers.
//!
//! Given a magma `M` satisfying a law `E` and two endomorphisms `T, U`, the
//! twisted operation `x ◇' y := Tx ◇ Uy` satisfies `E` again provided `T, U`
//! obey the relations defining the *twisting semigroup* `Twist_E`. A Cartesian
//! power `M^k` always supplies such endomorphisms as coordinate shifts, so the
//! construction is: take a small model of `E`, raise it to a power, twist by
//! two shifts, and the result satisfies `E` while typically failing any `E'`
//! whose twisting semigroup imposes relations the shifts do not obey.
//!
//! The worked case is `E1485 ⊭ E151`: `F_2` under NAND, raised to the fifth
//! power, twisted by the left and right shifts.
//!
//! # Why this is not just a table sweep
//!
//! The twisted magma has `n^k` elements, and some laws use six variables, so
//! a sweep would need `(n^k)^6` assignments. Instead the check decomposes by
//! coordinate. Writing `σ`, `τ` for the two shifts, the value of a term at
//! coordinate `i` is
//!
//! ```text
//!     eval(Var v, i)      = x_v[i]
//!     eval(Op(l, r), i)   = eval(l, σ(i)) ◇_M eval(r, τ(i))
//! ```
//!
//! so at a fixed root coordinate the law reads at most one entry of the input
//! tuples per leaf, and the law holds in the twisted magma exactly when the
//! base identity holds at every coordinate for every assignment to those
//! entries.

use crate::finite::{
    digits_of, encode, lemma_assignment_has_index, lemma_digits_are_assignment, pow_u64,
    FiniteMagma,
};
use crate::law::{eval_term, is_assignment, lemma_eval_in_carrier, vars_below, Law, Term};
use crate::sig::Signature;
use vstd::arithmetic::div_mod::*;
use vstd::arithmetic::power::*;
use vstd::prelude::*;

verus! {

/// `(x ◇' y)[i] = base(x[sigma[i]], y[tau[i]])` on the carrier `M^k`.
#[derive(Clone, Debug)]
pub struct TwistedPower {
    pub base: FiniteMagma,
    pub k: usize,
    pub sigma: Vec<usize>,
    pub tau: Vec<usize>,
}

/// The value of `t` at coordinate `i` of the twisted power, when variable `v`
/// is the tuple `xs[v]`.
pub open spec fn teval(
    t: Term,
    i: int,
    xs: Seq<Seq<u8>>,
    table: Seq<u8>,
    n: nat,
    sigma: Seq<usize>,
    tau: Seq<usize>,
) -> u8
    decreases t,
{
    match t {
        Term::Var(v) => xs[v as int][i],
        Term::Op(l, r) => table[teval(*l, sigma[i] as int, xs, table, n, sigma, tau) * n + teval(
            *r,
            tau[i] as int,
            xs,
            table,
            n,
            sigma,
            tau,
        )],
    }
}

/// Evaluating `t` at coordinate `i` reads entry `c` of variable `v`.
pub open spec fn reaches(t: Term, i: int, v: u8, c: int, sigma: Seq<usize>, tau: Seq<usize>) -> bool
    decreases t,
{
    match t {
        Term::Var(w) => w == v && c == i,
        Term::Op(l, r) => reaches(*l, sigma[i] as int, v, c, sigma, tau) || reaches(
            *r,
            tau[i] as int,
            v,
            c,
            sigma,
            tau,
        ),
    }
}

/// The `(variable, coordinate)` slots that `t` reads at coordinate `i`,
/// appended to `acc` in order of first appearance.
pub open spec fn slots_spec(t: Term, i: int, acc: Seq<(u8, usize)>, sigma: Seq<usize>, tau: Seq<usize>) -> Seq<(u8, usize)>
    decreases t,
{
    match t {
        Term::Var(v) => if acc.contains((v, i as usize)) {
            acc
        } else {
            acc.push((v, i as usize))
        },
        Term::Op(l, r) => slots_spec(
            *r,
            tau[i] as int,
            slots_spec(*l, sigma[i] as int, acc, sigma, tau),
            sigma,
            tau,
        ),
    }
}

/// The slots a law reads at root coordinate `i`.
pub open spec fn law_slots(law: Law, i: int, sigma: Seq<usize>, tau: Seq<usize>) -> Seq<(u8, usize)> {
    slots_spec(law.rhs, i, slots_spec(law.lhs, i, Seq::empty(), sigma, tau), sigma, tau)
}

/// `xs` assigns each of `arity` variables a tuple of `k` carrier elements.
pub open spec fn tuple_assignment(xs: Seq<Seq<u8>>, arity: nat, k: nat, n: nat) -> bool {
    &&& xs.len() == arity
    &&& forall|v: int| 0 <= v < arity ==> (#[trigger] xs[v]).len() == k && forall|c: int|
        0 <= c < k ==> xs[v][c] < n
}

/// No two entries are equal.
pub open spec fn distinct<T>(s: Seq<T>) -> bool {
    forall|a: int, b: int| 0 <= a < b < s.len() ==> s[a] != s[b]
}

/// The tuples an assignment to slots names: slot entries take their value,
/// every other entry is zero.
pub open spec fn tuples_of(slots: Seq<(u8, usize)>, vals: Seq<u8>, arity: nat, k: nat) -> Seq<Seq<u8>> {
    Seq::new(
        arity,
        |v: int|
            Seq::new(
                k,
                |c: int|
                    if exists|p: int| 0 <= p < slots.len() && slots[p] == (v as u8, c as usize) {
                        vals[choose|p: int| 0 <= p < slots.len() && slots[p] == (v as u8, c as usize)]
                    } else {
                        0u8
                    },
            ),
    )
}

impl TwistedPower {
    /// The shifts are maps on the `k` coordinates over a well-formed base.
    pub open spec fn wf(&self) -> bool {
        &&& self.base.wf()
        &&& self.sigma@.len() == self.k
        &&& self.tau@.len() == self.k
        &&& forall|i: int| 0 <= i < self.k ==> #[trigger] self.sigma@[i] < self.k
        &&& forall|i: int| 0 <= i < self.k ==> #[trigger] self.tau@[i] < self.k
    }

    /// `law` holds in the twisted power: at every coordinate, for every
    /// assignment of tuples to its variables.
    pub open spec fn twisted_holds(&self, law: Law) -> bool {
        forall|xs: Seq<Seq<u8>>, i: int|
            tuple_assignment(xs, law.arity as nat, self.k as nat, self.base.n as nat) && 0 <= i
                < self.k ==> #[trigger] teval(
                law.lhs,
                i,
                xs,
                self.base.table@,
                self.base.n as nat,
                self.sigma@,
                self.tau@,
            ) == teval(law.rhs, i, xs, self.base.table@, self.base.n as nat, self.sigma@, self.tau@)
    }

    /// Every sweep fits: `n` to the number of slots at each coordinate is a
    /// `u64`.
    pub open spec fn sweepable(&self, law: Law) -> bool {
        forall|i: int|
            0 <= i < self.k ==> pow(
                self.base.n as int,
                (#[trigger] law_slots(law, i, self.sigma@, self.tau@)).len(),
            ) <= u64::MAX
    }

    /// Twist by the cyclic shifts `i -> i + s` and `i -> i + t` modulo `k`,
    /// which always gives endomorphisms of the Cartesian power.
    pub fn cyclic(base: FiniteMagma, k: usize, s: usize, t: usize) -> (r: TwistedPower)
        requires
            k == 0 || k - 1 + s <= usize::MAX,
            k == 0 || k - 1 + t <= usize::MAX,
        ensures
            r.base == base,
            r.k == k,
            r.sigma@.len() == k,
            r.tau@.len() == k,
            forall|i: int| 0 <= i < k ==> #[trigger] r.sigma@[i] == (i + s) % (k as int),
            forall|i: int| 0 <= i < k ==> #[trigger] r.tau@[i] == (i + t) % (k as int),
    {
        let mut sigma: Vec<usize> = Vec::new();
        let mut tau: Vec<usize> = Vec::new();
        let mut i: usize = 0;
        while i < k
            invariant
                k == 0 || k - 1 + s <= usize::MAX,
                k == 0 || k - 1 + t <= usize::MAX,
                i <= k,
                sigma@.len() == i,
                tau@.len() == i,
                forall|j: int| 0 <= j < i ==> #[trigger] sigma@[j] == (j + s) % (k as int),
                forall|j: int| 0 <= j < i ==> #[trigger] tau@[j] == (j + t) % (k as int),
            decreases k - i,
        {
            sigma.push((i + s) % k);
            tau.push((i + t) % k);
            i = i + 1;
        }
        TwistedPower { base, k, sigma, tau }
    }

    /// Number of elements, `n^k`.
    pub fn carrier_size(&self) -> (r: usize)
        requires
            self.k <= u32::MAX,
            pow(self.base.n as int, self.k as nat) <= usize::MAX,
        ensures
            r == pow(self.base.n as int, self.k as nat),
    {
        let n = self.base.n;
        let mut r: usize = 1;
        let mut j: usize = 0;
        proof {
            reveal(pow);
        }
        while j < self.k
            invariant
                n == self.base.n,
                j <= self.k,
                r == pow(n as int, j as nat),
                pow(n as int, self.k as nat) <= usize::MAX,
            decreases self.k - j,
        {
            proof {
                reveal(pow);
                assert(pow(n as int, (j + 1) as nat) == n * pow(n as int, j as nat));
                if n > 0 {
                    lemma_pow_increases(n as nat, (j + 1) as nat, self.k as nat);
                }
                assert(r * n == n * r) by (nonlinear_arith);
                assert(r * n <= usize::MAX) by {
                    if n > 0 {
                        assert(pow(n as int, (j + 1) as nat) <= pow(n as int, self.k as nat));
                    } else {
                        assert(r * n == 0) by (nonlinear_arith)
                            requires
                                n == 0,
                        ;
                    }
                }
            }
            r = r * n;
            j = j + 1;
        }
        r
    }
}

/// The shifts keep coordinates below `k`.
pub open spec fn maps_ok(sigma: Seq<usize>, tau: Seq<usize>, k: nat) -> bool {
    &&& sigma.len() == k
    &&& tau.len() == k
    &&& forall|i: int| 0 <= i < k ==> #[trigger] sigma[i] < k
    &&& forall|i: int| 0 <= i < k ==> #[trigger] tau[i] < k
}

/// A slot a term reads names one of its variables and a coordinate in range.
proof fn lemma_reaches_bounds(t: Term, i: int, v: u8, c: int, sigma: Seq<usize>, tau: Seq<usize>, k: nat, a: nat)
    requires
        maps_ok(sigma, tau, k),
        0 <= i < k,
        vars_below(t, a),
        reaches(t, i, v, c, sigma, tau),
    ensures
        v < a,
        0 <= c < k,
    decreases t,
{
    match t {
        Term::Var(_) => {},
        Term::Op(l, r) => {
            if reaches(*l, sigma[i] as int, v, c, sigma, tau) {
                lemma_reaches_bounds(*l, sigma[i] as int, v, c, sigma, tau, k, a);
            } else {
                lemma_reaches_bounds(*r, tau[i] as int, v, c, sigma, tau, k, a);
            }
        },
    }
}

/// What the slot list holds: it extends `acc`, stays free of repeats, holds
/// every slot the term reads, and adds nothing else.
proof fn lemma_slots(t: Term, i: int, acc: Seq<(u8, usize)>, sigma: Seq<usize>, tau: Seq<usize>, k: nat)
    requires
        maps_ok(sigma, tau, k),
        k <= usize::MAX,
        0 <= i < k,
        distinct(acc),
    ensures
        ({
            let out = slots_spec(t, i, acc, sigma, tau);
            &&& out.len() >= acc.len()
            &&& forall|p: int| 0 <= p < acc.len() ==> out[p] == acc[p]
            &&& distinct(out)
            &&& forall|v: u8, c: int| #[trigger] reaches(t, i, v, c, sigma, tau) ==> out.contains((v, c as usize))
            &&& forall|p: int|
                acc.len() <= p < out.len() ==> reaches(t, i, (#[trigger] out[p]).0, out[p].1 as int, sigma, tau)
        }),
    decreases t,
{
    match t {
        Term::Var(v) => {
            let out = slots_spec(t, i, acc, sigma, tau);
            if !acc.contains((v, i as usize)) {
                assert forall|a: int, b: int| 0 <= a < b < out.len() implies out[a] != out[b] by {
                    if b == acc.len() {
                        assert(out[a] == acc[a]);
                    }
                }
            }
            assert forall|w: u8, c: int| #[trigger] reaches(t, i, w, c, sigma, tau) implies out.contains((w, c as usize)) by {
                if !acc.contains((v, i as usize)) {
                    assert(out[acc.len() as int] == (v, i as usize));
                }
            }
            if !acc.contains((v, i as usize)) {
                assert(out == acc.push((v, i as usize)));
                assert(out[acc.len() as int] == (v, i as usize));
                assert(reaches(t, i, v, i, sigma, tau));
                assert(((i as usize) as int) == i);
                assert forall|p: int| acc.len() <= p < out.len() implies reaches(t, i, (#[trigger] out[p]).0, out[p].1 as int, sigma, tau) by {
                    assert(p == acc.len());
                }
                assert forall|p: int| 0 <= p < acc.len() implies out[p] == acc[p] by {}
            } else {
                assert(out == acc);
            }
        },
        Term::Op(l, r) => {
            let mid = slots_spec(*l, sigma[i] as int, acc, sigma, tau);
            lemma_slots(*l, sigma[i] as int, acc, sigma, tau, k);
            lemma_slots(*r, tau[i] as int, mid, sigma, tau, k);
            let out = slots_spec(t, i, acc, sigma, tau);
            assert forall|w: u8, c: int| #[trigger] reaches(t, i, w, c, sigma, tau) implies out.contains((w, c as usize)) by {
                if reaches(*l, sigma[i] as int, w, c, sigma, tau) {
                    assert(mid.contains((w, c as usize)));
                    let p = choose|p: int| 0 <= p < mid.len() && mid[p] == (w, c as usize);
                    assert(out[p] == mid[p]);
                } else {
                    assert(reaches(*r, tau[i] as int, w, c, sigma, tau));
                }
            }
            assert forall|p: int| acc.len() <= p < out.len() implies reaches(t, i, (#[trigger] out[p]).0, out[p].1 as int, sigma, tau) by {
                if p < mid.len() {
                    assert(out[p] == mid[p]);
                    assert(reaches(*l, sigma[i] as int, mid[p].0, mid[p].1 as int, sigma, tau));
                } else {
                    assert(reaches(*r, tau[i] as int, out[p].0, out[p].1 as int, sigma, tau));
                }
            }
        },
    }
}

/// The value of a term depends only on the slots it reads.
proof fn lemma_teval_agree(
    t: Term,
    i: int,
    xs: Seq<Seq<u8>>,
    ys: Seq<Seq<u8>>,
    table: Seq<u8>,
    n: nat,
    sigma: Seq<usize>,
    tau: Seq<usize>,
)
    requires
        forall|v: u8, c: int| #[trigger] reaches(t, i, v, c, sigma, tau) ==> xs[v as int][c] == ys[v as int][c],
    ensures
        teval(t, i, xs, table, n, sigma, tau) == teval(t, i, ys, table, n, sigma, tau),
    decreases t,
{
    match t {
        Term::Var(v) => {
            assert(reaches(t, i, v, i, sigma, tau));
        },
        Term::Op(l, r) => {
            assert forall|v: u8, c: int| #[trigger] reaches(*l, sigma[i] as int, v, c, sigma, tau) implies xs[v as int][c] == ys[v as int][c] by {
                assert(reaches(t, i, v, c, sigma, tau));
            }
            assert forall|v: u8, c: int| #[trigger] reaches(*r, tau[i] as int, v, c, sigma, tau) implies xs[v as int][c] == ys[v as int][c] by {
                assert(reaches(t, i, v, c, sigma, tau));
            }
            lemma_teval_agree(*l, sigma[i] as int, xs, ys, table, n, sigma, tau);
            lemma_teval_agree(*r, tau[i] as int, xs, ys, table, n, sigma, tau);
        },
    }
}

/// The tuples named by an assignment to distinct, in-range slots take the
/// assigned values at the slots and are an assignment.
proof fn lemma_tuples_of(slots: Seq<(u8, usize)>, vals: Seq<u8>, arity: nat, k: nat, n: nat)
    requires
        distinct(slots),
        vals.len() == slots.len(),
        forall|p: int| 0 <= p < vals.len() ==> #[trigger] vals[p] < n,
        forall|p: int| 0 <= p < slots.len() ==> (#[trigger] slots[p]).0 < arity && slots[p].1 < k,
        n >= 1,
    ensures
        tuple_assignment(tuples_of(slots, vals, arity, k), arity, k, n),
        forall|p: int| 0 <= p < slots.len() ==> #[trigger] tuples_of(slots, vals, arity, k)[slots[p].0 as int][slots[p].1 as int] == vals[p],
{
    let xs = tuples_of(slots, vals, arity, k);
    assert forall|v: int| 0 <= v < arity implies (#[trigger] xs[v]).len() == k && forall|c: int| 0 <= c < k ==> xs[v][c] < n by {
        assert forall|c: int| 0 <= c < k implies xs[v][c] < n by {
            if exists|p: int| 0 <= p < slots.len() && slots[p] == (v as u8, c as usize) {
                let p = choose|p: int| 0 <= p < slots.len() && slots[p] == (v as u8, c as usize);
                assert(vals[p] < n);
            }
        }
    }
    assert forall|p: int| 0 <= p < slots.len() implies #[trigger] xs[slots[p].0 as int][slots[p].1 as int] == vals[p] by {
        let v = slots[p].0 as int;
        let c = slots[p].1 as int;
        assert(slots[p] == (v as u8, c as usize));
        let q = choose|q: int| 0 <= q < slots.len() && slots[q] == (v as u8, c as usize);
        if q != p {
            if q < p {
                assert(slots[q] != slots[p]);
            } else {
                assert(slots[p] != slots[q]);
            }
        }
    }
}

/// The slots a law reads at a coordinate are distinct and name its variables
/// and in-range coordinates, and cover everything either side reads.
proof fn lemma_law_slots(law: Law, i: int, sigma: Seq<usize>, tau: Seq<usize>, k: nat)
    requires
        maps_ok(sigma, tau, k),
        k <= usize::MAX,
        0 <= i < k,
        law.wf(),
    ensures
        ({
            let sl = law_slots(law, i, sigma, tau);
            &&& distinct(sl)
            &&& forall|p: int| 0 <= p < sl.len() ==> (#[trigger] sl[p]).0 < law.arity && sl[p].1 < k
            &&& forall|v: u8, c: int| #[trigger] reaches(law.lhs, i, v, c, sigma, tau) ==> sl.contains((v, c as usize))
            &&& forall|v: u8, c: int| #[trigger] reaches(law.rhs, i, v, c, sigma, tau) ==> sl.contains((v, c as usize))
        }),
{
    let e: Seq<(u8, usize)> = Seq::empty();
    let mid = slots_spec(law.lhs, i, e, sigma, tau);
    lemma_slots(law.lhs, i, e, sigma, tau, k);
    lemma_slots(law.rhs, i, mid, sigma, tau, k);
    let sl = law_slots(law, i, sigma, tau);
    assert forall|p: int| 0 <= p < sl.len() implies (#[trigger] sl[p]).0 < law.arity && sl[p].1 < k by {
        if p < mid.len() {
            assert(sl[p] == mid[p]);
            assert(reaches(law.lhs, i, mid[p].0, mid[p].1 as int, sigma, tau));
            lemma_reaches_bounds(law.lhs, i, mid[p].0, mid[p].1 as int, sigma, tau, k, law.arity as nat);
        } else {
            lemma_reaches_bounds(law.rhs, i, sl[p].0, sl[p].1 as int, sigma, tau, k, law.arity as nat);
        }
    }
    assert forall|v: u8, c: int| #[trigger] reaches(law.lhs, i, v, c, sigma, tau) implies sl.contains((v, c as usize)) by {
        assert(mid.contains((v, c as usize)));
        let p = choose|p: int| 0 <= p < mid.len() && mid[p] == (v, c as usize);
        assert(sl[p] == mid[p]);
    }
}

impl TwistedPower {
    /// Collect the `(variable, coordinate)` slots a term reads when evaluated
    /// at root coordinate `i`.
    fn slots(&self, t: &Term, i: usize, out: &mut Vec<(u8, usize)>)
        requires
            self.wf(),
            i < self.k,
        ensures
            final(out)@ == slots_spec(*t, i as int, old(out)@, self.sigma@, self.tau@),
        decreases t,
    {
        match t {
            Term::Var(v) => {
                let mut found = false;
                let mut q: usize = 0;
                while q < out.len()
                    invariant
                        q <= out@.len(),
                        found == (exists|p: int| 0 <= p < q && out@[p] == (*v, i)),
                    decreases out@.len() - q,
                {
                    let (a, b) = out[q];
                    if a == *v && b == i {
                        found = true;
                    }
                    q = q + 1;
                }
                proof {
                    assert(found == out@.contains((*v, i)));
                }
                if !found {
                    out.push((*v, i));
                }
            },
            Term::Op(l, r) => {
                self.slots(l, self.sigma[i], out);
                self.slots(r, self.tau[i], out);
            },
        }
    }

    /// The value of `t` at coordinate `i`, reading each variable entry from
    /// the slot that holds it.
    fn eval(&self, t: &Term, i: usize, slots: &Vec<(u8, usize)>, vals: &Vec<u8>, Ghost(xs): Ghost<Seq<Seq<u8>>>) -> (r: u8)
        requires
            self.wf(),
            i < self.k,
            vals@.len() == slots@.len(),
            forall|p: int| 0 <= p < vals@.len() ==> #[trigger] vals@[p] < self.base.n,
            forall|v: u8, c: int| #[trigger] reaches(*t, i as int, v, c, self.sigma@, self.tau@) ==> slots@.contains((v, c as usize)),
            forall|p: int| 0 <= p < slots@.len() ==> #[trigger] xs[slots@[p].0 as int][slots@[p].1 as int] == vals@[p],
        ensures
            r == teval(*t, i as int, xs, self.base.table@, self.base.n as nat, self.sigma@, self.tau@),
            r < self.base.n,
        decreases t,
    {
        match t {
            Term::Var(v) => {
                proof {
                    assert(reaches(*t, i as int, *v, i as int, self.sigma@, self.tau@));
                }
                let mut q: usize = 0;
                while q < slots.len()
                    invariant
                        *t == Term::Var(*v),
                        q <= slots@.len(),
                        slots@.contains((*v, i)),
                        forall|p: int| 0 <= p < q ==> slots@[p] != (*v, i),
                        vals@.len() == slots@.len(),
                        forall|p: int| 0 <= p < vals@.len() ==> #[trigger] vals@[p] < self.base.n,
                        forall|p: int| 0 <= p < slots@.len() ==> #[trigger] xs[slots@[p].0 as int][slots@[p].1 as int] == vals@[p],
                    decreases slots@.len() - q,
                {
                    let (a, b) = slots[q];
                    if a == *v && b == i {
                        proof {
                            assert(slots@[q as int] == (*v, i));
                            assert(xs[slots@[q as int].0 as int][slots@[q as int].1 as int] == vals@[q as int]);
                            assert(teval(*t, i as int, xs, self.base.table@, self.base.n as nat, self.sigma@, self.tau@) == xs[*v as int][i as int]);
                        }
                        return vals[q];
                    }
                    q = q + 1;
                }
                proof {
                    let p = choose|p: int| 0 <= p < slots@.len() && slots@[p] == (*v, i);
                    assert(false);
                }
                0
            },
            Term::Op(l, r) => {
                proof {
                    assert forall|v: u8, c: int| #[trigger] reaches(**l, self.sigma@[i as int] as int, v, c, self.sigma@, self.tau@) implies slots@.contains((v, c as usize)) by {
                        assert(reaches(*t, i as int, v, c, self.sigma@, self.tau@));
                    }
                    assert forall|v: u8, c: int| #[trigger] reaches(**r, self.tau@[i as int] as int, v, c, self.sigma@, self.tau@) implies slots@.contains((v, c as usize)) by {
                        assert(reaches(*t, i as int, v, c, self.sigma@, self.tau@));
                    }
                }
                let a = self.eval(l, self.sigma[i], slots, vals, Ghost(xs));
                let b = self.eval(r, self.tau[i], slots, vals, Ghost(xs));
                self.base.op(a, b)
            },
        }
    }
}

/// Two tuple assignments that agree on every slot of `slots`, which holds
/// every slot `t` reads, give `t` the same value.
proof fn lemma_agree_on_slots(
    t: Term,
    i: int,
    xs: Seq<Seq<u8>>,
    ys: Seq<Seq<u8>>,
    slots: Seq<(u8, usize)>,
    table: Seq<u8>,
    n: nat,
    sigma: Seq<usize>,
    tau: Seq<usize>,
    k: nat,
    a: nat,
)
    requires
        maps_ok(sigma, tau, k),
        k <= usize::MAX,
        0 <= i < k,
        vars_below(t, a),
        forall|v: u8, c: int| #[trigger] reaches(t, i, v, c, sigma, tau) ==> slots.contains((v, c as usize)),
        forall|p: int| 0 <= p < slots.len() ==> #[trigger] xs[slots[p].0 as int][slots[p].1 as int] == ys[slots[p].0 as int][slots[p].1 as int],
    ensures
        teval(t, i, xs, table, n, sigma, tau) == teval(t, i, ys, table, n, sigma, tau),
{
    assert forall|v: u8, c: int| #[trigger] reaches(t, i, v, c, sigma, tau) implies xs[v as int][c] == ys[v as int][c] by {
        lemma_reaches_bounds(t, i, v, c, sigma, tau, k, a);
        let p = choose|p: int| 0 <= p < slots.len() && slots[p] == (v, c as usize);
        assert(xs[slots[p].0 as int][slots[p].1 as int] == ys[slots[p].0 as int][slots[p].1 as int]);
    }
    lemma_teval_agree(t, i, xs, ys, table, n, sigma, tau);
}

impl TwistedPower {
    /// Does the twisted magma satisfy this law?
    pub fn satisfies(&self, law: &Law) -> (b: bool)
        requires
            self.wf(),
            law.wf(),
            self.sweepable(*law),
        ensures
            b == self.twisted_holds(*law),
    {
        let n = self.base.n as u64;
        let k = self.k;
        let ghost arity = law.arity as nat;
        let ghost table = self.base.table@;
        let ghost nn = self.base.n as nat;
        let mut i: usize = 0;
        while i < k
            invariant
                self.wf(),
                law.wf(),
                self.sweepable(*law),
                n == self.base.n,
                k == self.k,
                arity == law.arity,
                table == self.base.table@,
                nn == self.base.n,
                i <= k,
                forall|xs: Seq<Seq<u8>>, i2: int|
                    tuple_assignment(xs, arity, k as nat, nn) && 0 <= i2 < i ==> #[trigger] teval(
                        law.lhs,
                        i2,
                        xs,
                        table,
                        nn,
                        self.sigma@,
                        self.tau@,
                    ) == teval(law.rhs, i2, xs, table, nn, self.sigma@, self.tau@),
            decreases k - i,
        {
            let mut slots: Vec<(u8, usize)> = Vec::new();
            self.slots(&law.lhs, i, &mut slots);
            self.slots(&law.rhs, i, &mut slots);
            proof {
                assert(maps_ok(self.sigma@, self.tau@, k as nat));
                lemma_law_slots(*law, i as int, self.sigma@, self.tau@, k as nat);
                assert(slots@ == law_slots(*law, i as int, self.sigma@, self.tau@));
            }
            let len = slots.len();
            let total: u64 = if n == 1 {
                1
            } else {
                proof {
                    assert(pow(n as int, len as nat) <= u64::MAX);
                    if len > u32::MAX {
                        lemma_pow_increases(n as nat, 64, len as nat);
                        vstd::arithmetic::power2::lemma2_to64();
                        lemma_pow_strictly_increases(n as nat, 1, 64);
                        assert(pow(2, 64) <= pow(n as int, 64)) by {
                            lemma_pow_le_base(2, n as nat, 64);
                        }
                        assert(pow(2, 64) == 0x10000000000000000) by {
                            vstd::arithmetic::power2::lemma_pow2(64);
                            vstd::arithmetic::power2::lemma2_to64_rest();
                        }
                    }
                }
                pow_u64(n, len as u32)
            };
            proof {
                if n == 1 {
                    lemma_pow1_any(len as nat);
                }
            }
            let mut vals: Vec<u8> = vec![0u8; len];
            let mut code: u64 = 0;
            while code < total
                invariant
                    self.wf(),
                    law.wf(),
                    n == self.base.n,
                    1 <= n <= 255,
                    k == self.k,
                    i < k,
                    arity == law.arity,
                    table == self.base.table@,
                    nn == self.base.n,
                    len == slots@.len(),
                    vals@.len() == len,
                    total == pow(n as int, len as nat),
                    slots@ == law_slots(*law, i as int, self.sigma@, self.tau@),
                    distinct(slots@),
                    forall|p: int| 0 <= p < slots@.len() ==> (#[trigger] slots@[p]).0 < law.arity && slots@[p].1 < k,
                    forall|v: u8, c: int| #[trigger] reaches(law.lhs, i as int, v, c, self.sigma@, self.tau@) ==> slots@.contains((v, c as usize)),
                    forall|v: u8, c: int| #[trigger] reaches(law.rhs, i as int, v, c, self.sigma@, self.tau@) ==> slots@.contains((v, c as usize)),
                    code <= total,
                    forall|c2: nat|
                        c2 < code ==> #[trigger] teval(
                            law.lhs,
                            i as int,
                            tuples_of(slots@, digits_of(c2, nn, len as nat), arity, k as nat),
                            table,
                            nn,
                            self.sigma@,
                            self.tau@,
                        ) == teval(
                            law.rhs,
                            i as int,
                            tuples_of(slots@, digits_of(c2, nn, len as nat), arity, k as nat),
                            table,
                            nn,
                            self.sigma@,
                            self.tau@,
                        ),
                decreases total - code,
            {
                let mut v = code;
                let mut j: usize = 0;
                proof {
                    lemma_pow0(n as int);
                }
                while j < len
                    invariant
                        1 <= n <= 255,
                        vals@.len() == len,
                        j <= len,
                        v == (code as int) / pow(n as int, j as nat),
                        forall|q: int| 0 <= q < j ==> #[trigger] vals@[q] == digits_of(code as nat, n as nat, len as nat)[q],
                    decreases len - j,
                {
                    proof {
                        lemma_pow_positive(n as int, j as nat);
                        lemma_div_denominator(code as int, pow(n as int, j as nat), n as int);
                        assert(pow(n as int, (j + 1) as nat) == n * pow(n as int, j as nat)) by {
                            reveal(pow);
                        }
                        assert(pow(n as int, j as nat) * n == n * pow(n as int, j as nat)) by (nonlinear_arith);
                        lemma_mod_bound(v as int, n as int);
                    }
                    vals.set(j, (v % n) as u8);
                    v = v / n;
                    j = j + 1;
                }
                proof {
                    assert(vals@ =~= digits_of(code as nat, n as nat, len as nat));
                    lemma_digits_are_assignment(code as nat, n as nat, len as nat);
                    lemma_tuples_of(slots@, vals@, arity, k as nat, n as nat);
                }
                let ghost xs = tuples_of(slots@, vals@, arity, k as nat);
                let l = self.eval(&law.lhs, i, &slots, &vals, Ghost(xs));
                let r = self.eval(&law.rhs, i, &slots, &vals, Ghost(xs));
                if l != r {
                    proof {
                        assert(tuple_assignment(xs, law.arity as nat, self.k as nat, self.base.n as nat));
                        assert(teval(law.lhs, i as int, xs, self.base.table@, self.base.n as nat, self.sigma@, self.tau@)
                            != teval(law.rhs, i as int, xs, self.base.table@, self.base.n as nat, self.sigma@, self.tau@));
                    }
                    return false;
                }
                code = code + 1;
            }
            proof {
                assert forall|xs: Seq<Seq<u8>>, i2: int|
                    tuple_assignment(xs, arity, k as nat, nn) && 0 <= i2 < i + 1 implies #[trigger] teval(
                        law.lhs,
                        i2,
                        xs,
                        table,
                        nn,
                        self.sigma@,
                        self.tau@,
                    ) == teval(law.rhs, i2, xs, table, nn, self.sigma@, self.tau@) by {
                    if i2 == i {
                        let vs = Seq::new(len as nat, |p: int| xs[slots@[p].0 as int][slots@[p].1 as int]);
                        assert(is_assignment(vs, len as nat, nn)) by {
                            assert forall|p: int| 0 <= p < len implies vs[p] < nn by {
                                assert(slots@[p].0 < arity && slots@[p].1 < k);
                            }
                        }
                        lemma_assignment_has_index(vs, nn, len as nat);
                        let c2 = encode(vs, nn);
                        assert(c2 < total);
                        let ys = tuples_of(slots@, digits_of(c2, nn, len as nat), arity, k as nat);
                        assert(teval(law.lhs, i as int, ys, table, nn, self.sigma@, self.tau@) == teval(law.rhs, i as int, ys, table, nn, self.sigma@, self.tau@));
                        lemma_tuples_of(slots@, vs, arity, k as nat, nn);
                        assert forall|p: int| 0 <= p < slots@.len() implies #[trigger] xs[slots@[p].0 as int][slots@[p].1 as int] == ys[slots@[p].0 as int][slots@[p].1 as int] by {
                            assert(ys[slots@[p].0 as int][slots@[p].1 as int] == vs[p]);
                        }
                        lemma_agree_on_slots(law.lhs, i as int, xs, ys, slots@, table, nn, self.sigma@, self.tau@, k as nat, arity);
                        lemma_agree_on_slots(law.rhs, i as int, xs, ys, slots@, table, nn, self.sigma@, self.tau@, k as nat, arity);
                    }
                }
            }
            i = i + 1;
        }
        true
    }

    /// Which of `laws` the twisted magma satisfies.
    pub fn signature(&self, laws: &[Law]) -> (sig: Signature)
        requires
            self.wf(),
            forall|q: int| 0 <= q < laws@.len() ==> (#[trigger] laws@[q]).wf() && self.sweepable(laws@[q]),
        ensures
            sig@.len() == laws@.len(),
            forall|q: int| 0 <= q < laws@.len() ==> #[trigger] sig@[q] == self.twisted_holds(laws@[q]),
    {
        let mut sig = Signature::zeros(laws.len());
        let mut idx: usize = 0;
        while idx < laws.len()
            invariant
                self.wf(),
                forall|q: int| 0 <= q < laws@.len() ==> (#[trigger] laws@[q]).wf() && self.sweepable(laws@[q]),
                idx <= laws@.len(),
                sig@.len() == laws@.len(),
                forall|q: int| 0 <= q < idx ==> #[trigger] sig@[q] == self.twisted_holds(laws@[q]),
                forall|q: int| idx <= q < laws@.len() ==> !#[trigger] sig@[q],
            decreases laws@.len() - idx,
        {
            if self.satisfies(&laws[idx]) {
                sig.set(idx);
            }
            idx = idx + 1;
        }
        sig
    }
}

proof fn lemma_pow1_any(e: nat)
    ensures
        pow(1, e) == 1,
    decreases e,
{
    reveal(pow);
    if e > 0 {
        lemma_pow1_any((e - 1) as nat);
    }
}

proof fn lemma_pow_le_base(a: nat, b: nat, e: nat)
    requires
        a <= b,
    ensures
        pow(a as int, e) <= pow(b as int, e),
    decreases e,
{
    reveal(pow);
    if e > 0 {
        lemma_pow_le_base(a, b, (e - 1) as nat);
        lemma_pow_nonneg(a, (e - 1) as nat);
        let pa = pow(a as int, (e - 1) as nat);
        let pb = pow(b as int, (e - 1) as nat);
        assert(a * pa <= b * pb) by (nonlinear_arith)
            requires
                a <= b,
                0 <= pa <= pb,
        ;
    }
}

proof fn lemma_pow_nonneg(a: nat, e: nat)
    ensures
        pow(a as int, e) >= 0,
    decreases e,
{
    reveal(pow);
    if e > 0 {
        lemma_pow_nonneg(a, (e - 1) as nat);
        let p = pow(a as int, (e - 1) as nat);
        assert(a * p >= 0) by (nonlinear_arith)
            requires
                p >= 0,
        ;
    }
}

/// The product of the tuples coded `x` and `y`, coordinate by coordinate.
pub open spec fn twisted_product(table: Seq<u8>, n: nat, k: nat, sigma: Seq<usize>, tau: Seq<usize>, x: nat, y: nat) -> Seq<u8> {
    let dx = digits_of(x, n, k);
    let dy = digits_of(y, n, k);
    Seq::new(k, |i: int| table[dx[sigma[i] as int] * n + dy[tau[i] as int]])
}

impl TwistedPower {
    /// The explicit multiplication table, when the carrier has at most 255
    /// elements. Elements are numbered by reading the coordinate tuple as a
    /// base-`n` numeral, least significant coordinate first.
    pub fn table(&self) -> (r: Option<FiniteMagma>)
        requires
            self.wf(),
            self.k <= u32::MAX,
            pow(self.base.n as int, self.k as nat) <= usize::MAX,
        ensures
            r is Some <==> pow(self.base.n as int, self.k as nat) <= 255,
            r matches Some(m) ==> {
                &&& m.wf()
                &&& m.n == pow(self.base.n as int, self.k as nat)
                &&& forall|x: int, y: int|
                    0 <= x < m.n && 0 <= y < m.n ==> #[trigger] m.table@[x * m.n + y] == encode(
                        twisted_product(
                            self.base.table@,
                            self.base.n as nat,
                            self.k as nat,
                            self.sigma@,
                            self.tau@,
                            x as nat,
                            y as nat,
                        ),
                        self.base.n as nat,
                    )
            },
    {
        let size = self.carrier_size();
        if size > 255 {
            return None;
        }
        let n = self.base.n;
        let k = self.k;
        proof {
            lemma_pow_positive(n as int, k as nat);
            assert(size * size <= 65025) by (nonlinear_arith)
                requires
                    size <= 255,
            ;
        }
        let ghost nn = n as nat;
        let mut table: Vec<u8> = Vec::new();
        let mut e: usize = 0;
        while e < size * size
            invariant
                self.wf(),
                n == self.base.n,
                nn == n,
                k == self.k,
                1 <= size <= 255,
                size == pow(n as int, k as nat),
                size * size <= 65025,
                e <= size * size,
                table@.len() == e,
                forall|q: int| 0 <= q < e ==> #[trigger] table@[q] as int == encode(
                    twisted_product(self.base.table@, nn, k as nat, self.sigma@, self.tau@, (q / (size as int)) as nat, (q % (size as int)) as nat),
                    nn,
                ),
                forall|q: int| 0 <= q < e ==> #[trigger] table@[q] < size,
            decreases size * size - e,
        {
            let x = e / size;
            let y = e % size;
            let xs = decode(x, n, k);
            let ys = decode(y, n, k);
            let ghost z = twisted_product(self.base.table@, nn, k as nat, self.sigma@, self.tau@, x as nat, y as nat);
            let mut code: usize = 0;
            let mut i: usize = k;
            proof {
                assert(z.subrange(k as int, k as int) =~= Seq::<u8>::empty());
                lemma_pow0(n as int);
            }
            while i > 0
                invariant
                    self.wf(),
                    n == self.base.n,
                    nn == n,
                    k == self.k,
                    i <= k,
                    xs@ == digits_of(x as nat, nn, k as nat),
                    ys@ == digits_of(y as nat, nn, k as nat),
                    z == twisted_product(self.base.table@, nn, k as nat, self.sigma@, self.tau@, x as nat, y as nat),
                    code == encode(z.subrange(i as int, k as int), nn),
                    code < pow(n as int, (k - i) as nat),
                    size == pow(n as int, k as nat),
                    size <= 255,
                decreases i,
            {
                let i1 = i - 1;
                proof {
                    lemma_digits_are_assignment(x as nat, nn, k as nat);
                    lemma_digits_are_assignment(y as nat, nn, k as nat);
                }
                let zi = self.base.op(xs[self.sigma[i1]], ys[self.tau[i1]]);
                proof {
                    let sub = z.subrange(i1 as int, k as int);
                    assert(sub.drop_first() =~= z.subrange(i as int, k as int));
                    assert(sub[0] == zi);
                    assert(encode(sub, nn) == zi + nn * code);
                    reveal(pow);
                    assert(pow(n as int, (k - i1) as nat) == n * pow(n as int, (k - i) as nat));
                    lemma_pow_increases(n as nat, (k - i1) as nat, k as nat);
                    assert(code * n + zi < n * pow(n as int, (k - i) as nat)) by (nonlinear_arith)
                        requires
                            code < pow(n as int, (k - i) as nat),
                            zi < n,
                    ;
                }
                code = code * n + zi as usize;
                i = i1;
            }
            proof {
                assert(z.subrange(0, k as int) =~= z);
                lemma_fundamental_div_mod(e as int, size as int);
            }
            table.push(code as u8);
            e = e + 1;
        }
        let m = FiniteMagma { n: size, table };
        proof {
            assert forall|x: int, y: int| 0 <= x < size && 0 <= y < size implies #[trigger] m.table@[x * size + y] == encode(
                twisted_product(self.base.table@, nn, k as nat, self.sigma@, self.tau@, x as nat, y as nat),
                nn,
            ) by {
                let q = x * size + y;
                assert(q < size * size) by (nonlinear_arith)
                    requires
                        x < size,
                        y < size,
                        q == x * size + y,
                ;
                lemma_fundamental_div_mod_converse(q, size as int, x, y);
            }
        }
        Some(m)
    }
}

/// The digits of `code` in base `n`, `k` of them, least significant first.
fn decode(code: usize, n: usize, k: usize) -> (d: Vec<u8>)
    requires
        1 <= n <= 255,
    ensures
        d@ == digits_of(code as nat, n as nat, k as nat),
{
    let mut d: Vec<u8> = Vec::new();
    let mut v = code;
    let mut j: usize = 0;
    proof {
        lemma_pow0(n as int);
    }
    while j < k
        invariant
            1 <= n <= 255,
            j <= k,
            d@.len() == j,
            v == (code as int) / pow(n as int, j as nat),
            forall|q: int| 0 <= q < j ==> #[trigger] d@[q] == digits_of(code as nat, n as nat, k as nat)[q],
        decreases k - j,
    {
        proof {
            lemma_pow_positive(n as int, j as nat);
            lemma_div_denominator(code as int, pow(n as int, j as nat), n as int);
            assert(pow(n as int, (j + 1) as nat) == n * pow(n as int, j as nat)) by {
                reveal(pow);
            }
            assert(pow(n as int, j as nat) * n == n * pow(n as int, j as nat)) by (nonlinear_arith);
            lemma_mod_bound(v as int, n as int);
        }
        d.push((v % n) as u8);
        v = v / n;
        j = j + 1;
    }
    proof {
        assert(d@ =~= digits_of(code as nat, n as nat, k as nat));
    }
    d
}

/// `F_2` under NAND, `x ◇ y = 1 - xy`: the base model of E1485.
pub fn nand_f2() -> (m: FiniteMagma)
    ensures
        m.wf(),
        m.n == 2,
        m.table@ == seq![1u8, 1, 1, 0],
{
    let m = FiniteMagma { n: 2, table: vec![1u8, 1, 1, 0] };
    proof {
        assert(m.table@ =~= seq![1u8, 1, 1, 0]);
    }
    m
}

} // verus!

verus! {

/// The tuples an assignment of codes names.
pub open spec fn tuples_named(vals: Seq<u8>, n: nat, k: nat) -> Seq<Seq<u8>> {
    Seq::new(vals.len(), |v: int| digits_of(vals[v] as nat, n, k))
}

/// Dropping the lowest digit is dividing by the base.
proof fn lemma_digits_shift(c: nat, n: nat, k: nat)
    requires
        n >= 1,
        k >= 1,
    ensures
        digits_of(c, n, k).drop_first() == digits_of(c / n, n, (k - 1) as nat),
{
    assert forall|j: int| 0 <= j < k - 1 implies #[trigger] digits_of(c, n, k).drop_first()[j] == digits_of(
        c / n,
        n,
        (k - 1) as nat,
    )[j] by {
        lemma_pow_positive(n as int, j as nat);
        reveal(pow);
        assert(pow(n as int, (j + 1) as nat) == n * pow(n as int, j as nat));
        lemma_div_denominator(c as int, n as int, pow(n as int, j as nat));
    }
    assert(digits_of(c, n, k).drop_first() =~= digits_of(c / n, n, (k - 1) as nat));
}

/// A code below `n^k` is the numeral of its own digits.
proof fn lemma_encode_of_digits(c: nat, n: nat, k: nat)
    requires
        1 <= n <= 255,
        c < pow(n as int, k),
    ensures
        encode(digits_of(c, n, k), n) == c,
    decreases k,
{
    reveal(pow);
    if k == 0 {
        assert(c == 0);
    } else {
        let d = digits_of(c, n, k);
        lemma_digits_shift(c, n, k);
        lemma_pow_positive(n as int, (k - 1) as nat);
        assert(pow(n as int, k) == n * pow(n as int, (k - 1) as nat));
        assert(c / n < pow(n as int, (k - 1) as nat)) by {
            lemma_fundamental_div_mod(c as int, n as int);
            lemma_mod_bound(c as int, n as int);
            if c / n >= pow(n as int, (k - 1) as nat) {
                assert(n * (c / n) >= n * pow(n as int, (k - 1) as nat)) by (nonlinear_arith)
                    requires
                        c / n >= pow(n as int, (k - 1) as nat),
                        n >= 1,
                ;
            }
        }
        lemma_encode_of_digits(c / n, n, (k - 1) as nat);
        assert(d[0] == c % n) by {
            assert(pow(n as int, 0) == 1);
            assert((c as int) / 1 == c);
            lemma_mod_bound(c as int, n as int);
        }
        lemma_fundamental_div_mod(c as int, n as int);
    }
}

/// At every coordinate, the table's value of a term is the coordinatewise
/// value of the term on the tuples the codes name.
proof fn lemma_eval_coords(t: Term, tw: TwistedPower, m: FiniteMagma, vals: Seq<u8>, i: int)
    requires
        tw.wf(),
        m.wf(),
        m.n == pow(tw.base.n as int, tw.k as nat),
        forall|x: int, y: int|
            0 <= x < m.n && 0 <= y < m.n ==> #[trigger] m.table@[x * m.n + y] == encode(
                twisted_product(tw.base.table@, tw.base.n as nat, tw.k as nat, tw.sigma@, tw.tau@, x as nat, y as nat),
                tw.base.n as nat,
            ),
        forall|j: int| 0 <= j < vals.len() ==> vals[j] < m.n,
        vars_below(t, vals.len()),
        0 <= i < tw.k,
    ensures
        digits_of(eval_term(t, m.table@, m.n as nat, vals) as nat, tw.base.n as nat, tw.k as nat)[i] == teval(
            t,
            i,
            tuples_named(vals, tw.base.n as nat, tw.k as nat),
            tw.base.table@,
            tw.base.n as nat,
            tw.sigma@,
            tw.tau@,
        ),
    decreases t,
{
    let n = tw.base.n as nat;
    let k = tw.k as nat;
    let big = m.n as nat;
    let xs = tuples_named(vals, n, k);
    match t {
        Term::Var(v) => {},
        Term::Op(l, r) => {
            lemma_eval_coords(*l, tw, m, vals, tw.sigma@[i] as int);
            lemma_eval_coords(*r, tw, m, vals, tw.tau@[i] as int);
            lemma_eval_in_carrier(*l, m.table@, big, vals);
            lemma_eval_in_carrier(*r, m.table@, big, vals);
            let el = eval_term(*l, m.table@, big, vals) as nat;
            let er = eval_term(*r, m.table@, big, vals) as nat;
            let tp = twisted_product(tw.base.table@, n, k, tw.sigma@, tw.tau@, el, er);
            assert(eval_term(t, m.table@, big, vals) == m.table@[(el * big + er) as int]);
            let dx = digits_of(el, n, k);
            let dy = digits_of(er, n, k);
            lemma_digits_are_assignment(el, n, k);
            lemma_digits_are_assignment(er, n, k);
            assert(is_assignment(tp, k, n)) by {
                assert forall|c: int| 0 <= c < k implies tp[c] < n by {
                    let p = dx[tw.sigma@[c] as int];
                    let q = dy[tw.tau@[c] as int];
                    assert(p < n && q < n);
                    assert(p * n + q < n * n) by (nonlinear_arith)
                        requires
                            p < n,
                            q < n,
                    ;
                }
            }
            lemma_assignment_has_index(tp, n, k);
            assert(digits_of(eval_term(t, m.table@, big, vals) as nat, n, k) == tp);
        },
    }
}

/// The twisted power's multiplication table satisfies exactly the laws the
/// coordinatewise check accepts: the coordinate decomposition loses nothing.
pub proof fn lemma_table_agrees_with_coordinates(tw: TwistedPower, m: FiniteMagma, law: Law)
    requires
        tw.wf(),
        law.wf(),
        m.wf(),
        m.n == pow(tw.base.n as int, tw.k as nat),
        forall|x: int, y: int|
            0 <= x < m.n && 0 <= y < m.n ==> #[trigger] m.table@[x * m.n + y] == encode(
                twisted_product(tw.base.table@, tw.base.n as nat, tw.k as nat, tw.sigma@, tw.tau@, x as nat, y as nat),
                tw.base.n as nat,
            ),
    ensures
        law.holds_in(m.table@, m.n as nat) <==> tw.twisted_holds(law),
{
    let n = tw.base.n as nat;
    let k = tw.k as nat;
    let big = m.n as nat;
    let a = law.arity as nat;
    let bt = tw.base.table@;
    if tw.twisted_holds(law) {
        assert forall|vals: Seq<u8>| is_assignment(vals, a, big) implies #[trigger] eval_term(
            law.lhs,
            m.table@,
            big,
            vals,
        ) == eval_term(law.rhs, m.table@, big, vals) by {
            let xs = tuples_named(vals, n, k);
            assert(tuple_assignment(xs, a, k, n)) by {
                assert forall|v: int| 0 <= v < a implies (#[trigger] xs[v]).len() == k && forall|c: int|
                    0 <= c < k ==> xs[v][c] < n by {
                    lemma_digits_are_assignment(vals[v] as nat, n, k);
                }
            }
            let el = eval_term(law.lhs, m.table@, big, vals);
            let er = eval_term(law.rhs, m.table@, big, vals);
            assert forall|i: int| 0 <= i < k implies #[trigger] digits_of(el as nat, n, k)[i] == digits_of(
                er as nat,
                n,
                k,
            )[i] by {
                lemma_eval_coords(law.lhs, tw, m, vals, i);
                lemma_eval_coords(law.rhs, tw, m, vals, i);
                assert(teval(law.lhs, i, xs, bt, n, tw.sigma@, tw.tau@) == teval(law.rhs, i, xs, bt, n, tw.sigma@, tw.tau@));
            }
            assert(digits_of(el as nat, n, k) =~= digits_of(er as nat, n, k));
            lemma_eval_in_carrier(law.lhs, m.table@, big, vals);
            lemma_eval_in_carrier(law.rhs, m.table@, big, vals);
            lemma_encode_of_digits(el as nat, n, k);
            lemma_encode_of_digits(er as nat, n, k);
        }
    }
    if law.holds_in(m.table@, big) {
        assert forall|xs: Seq<Seq<u8>>, i: int|
            tuple_assignment(xs, a, k, n) && 0 <= i < k implies #[trigger] teval(law.lhs, i, xs, bt, n, tw.sigma@, tw.tau@)
                == teval(law.rhs, i, xs, bt, n, tw.sigma@, tw.tau@) by {
            let vals = Seq::new(a, |v: int| encode(xs[v], n) as u8);
            assert forall|v: int| 0 <= v < a implies #[trigger] vals[v] < big && digits_of(vals[v] as nat, n, k) == xs[v] by {
                assert(is_assignment(xs[v], k, n));
                lemma_assignment_has_index(xs[v], n, k);
            }
            assert(is_assignment(vals, a, big));
            assert(tuples_named(vals, n, k) =~= xs);
            lemma_eval_coords(law.lhs, tw, m, vals, i);
            lemma_eval_coords(law.rhs, tw, m, vals, i);
            assert(eval_term(law.lhs, m.table@, big, vals) == eval_term(law.rhs, m.table@, big, vals));
        }
    }
}

} // verus!
