//! Linear models: `x ◇ y = a·x + b·y` over a ring.
//!
//! In a linear magma every word `w(x_1..x_n)` is itself linear,
//!
//! ```text
//!     w(x_1, ..., x_n) = Σ_i P_{w,i}(a, b) · x_i
//! ```
//!
//! where `P_{w,i}` sums one word in `{a, b}` per occurrence of `x_i`, namely
//! the root-to-leaf path to that occurrence (left = a, right = b, read
//! root-to-leaf, so the product is taken in that order and the construction
//! works verbatim in a noncommutative ring).
//!
//! Because the carrier is the whole ring and the ring is unital, setting one
//! variable to 1 and the rest to 0 shows that the law `w1 ≃ w2` holds in the
//! magma **iff** `P_{w1,i} = P_{w2,i}` in the ring for every `i`. So the
//! whole family reduces to deciding whether finitely many polynomials in the
//! coefficients vanish: no table, no carrier enumeration, and it works for
//! infinite rings where a table sweep is not available at all.
//!
//! The difference polynomials are computed once for the whole law list; an
//! instance then costs 31 ring multiplications plus a scan.

use crate::law::{depth, vars_below, Law, Term};
use crate::nc::{spec_word_index, word_index, NcPoly, MAX_DEG, N_WORDS};
use crate::sig::Signature;
use vstd::arithmetic::power2::pow2;
use vstd::prelude::*;

verus! {

/// Number of leaves of `t` that are variable `v` and sit at the end of the
/// path word `w`, when `t` itself sits at the end of the path `(len, bits)`.
pub open spec fn coef(t: Term, len: nat, bits: nat, v: nat, w: nat) -> int
    decreases t,
{
    match t {
        Term::Var(u) => if u == v && spec_word_index(len, bits) == w {
            1
        } else {
            0
        },
        Term::Op(l, r) => coef(*l, len + 1, 2 * bits, v, w) + coef(*r, len + 1, 2 * bits + 1, v, w),
    }
}

/// Number of internal nodes of `t` at the end of the path word `w`.
pub open spec fn icoef(t: Term, len: nat, bits: nat, w: nat) -> int
    decreases t,
{
    match t {
        Term::Var(_) => 0,
        Term::Op(l, r) => (if spec_word_index(len, bits) == w {
            1int
        } else {
            0
        }) + icoef(*l, len + 1, 2 * bits, w) + icoef(*r, len + 1, 2 * bits + 1, w),
    }
}

/// Number of leaves.
pub open spec fn leaves(t: Term) -> nat
    decreases t,
{
    match t {
        Term::Var(_) => 1,
        Term::Op(l, r) => leaves(*l) + leaves(*r),
    }
}

/// The nonzero entries of `c[..upto]`, as `(index, coefficient)`, ascending.
pub open spec fn sparse(c: Seq<i32>, upto: nat) -> Seq<(u8, i32)>
    decreases upto,
{
    if upto == 0 {
        Seq::empty()
    } else {
        let s = sparse(c, (upto - 1) as nat);
        if c[upto - 1] != 0 {
            s.push(((upto - 1) as u8, c[upto - 1]))
        } else {
            s
        }
    }
}

proof fn lemma_coef_bounds(t: Term, len: nat, bits: nat, v: nat, w: nat)
    ensures
        0 <= coef(t, len, bits, v, w) <= leaves(t),
        0 <= icoef(t, len, bits, w),
        icoef(t, len, bits, w) + 1 <= leaves(t),
    decreases t,
{
    match t {
        Term::Var(_) => {},
        Term::Op(l, r) => {
            lemma_coef_bounds(*l, len + 1, 2 * bits, v, w);
            lemma_coef_bounds(*r, len + 1, 2 * bits + 1, v, w);
        },
    }
}

proof fn lemma_leaves_depth(t: Term)
    ensures
        leaves(t) <= pow2(depth(t)),
    decreases t,
{
    match t {
        Term::Var(_) => {
            vstd::arithmetic::power2::lemma2_to64();
        },
        Term::Op(l, r) => {
            lemma_leaves_depth(*l);
            lemma_leaves_depth(*r);
            let d = depth(t);
            vstd::arithmetic::power2::lemma_pow2_unfold(d);
            if depth(*l) < (d - 1) as nat {
                vstd::arithmetic::power2::lemma_pow2_strictly_increases(depth(*l), (d - 1) as nat);
            }
            if depth(*r) < (d - 1) as nat {
                vstd::arithmetic::power2::lemma_pow2_strictly_increases(depth(*r), (d - 1) as nat);
            }
        },
    }
}

/// The difference polynomials of one law, one per variable.
#[derive(Clone, Debug)]
pub struct LawDiff {
    pub id: u32,
    pub arity: u8,
    /// `diffs[i] = P_{lhs,i} - P_{rhs,i}`.
    pub diffs: Vec<NcPoly>,
    /// `S_lhs - S_rhs`, where `S_w` sums the path word of every *internal*
    /// node of `w`. In an affine model `x ◇ y = ax + by + c` the constant
    /// part of a word is `S_w · c`, so the law constrains the coefficients by
    /// `(S_lhs - S_rhs) · c = 0` on top of the linear conditions.
    pub const_diff: NcPoly,
    /// `const_diff` as sparse terms.
    pub const_terms: Vec<(u8, i32)>,
    /// The same polynomials as `(word index, coefficient)` terms: a law of
    /// order 4 has a handful of path words per side against 31 dense slots,
    /// and evaluating an instance touches only the terms that exist.
    pub terms: Vec<Vec<(u8, i32)>>,
}

impl LawDiff {
    /// The difference polynomials of `law`, dense and sparse.
    pub open spec fn describes(&self, law: Law) -> bool {
        &&& self.id == law.id
        &&& self.arity == law.arity
        &&& self.diffs@.len() == law.arity
        &&& self.terms@.len() == law.arity
        &&& forall|v: int, w: int|
            0 <= v < law.arity && 0 <= w < N_WORDS ==> #[trigger] self.diffs@[v].c@[w] == coef(
                law.lhs,
                0,
                0,
                v as nat,
                w as nat,
            ) - coef(law.rhs, 0, 0, v as nat, w as nat)
        &&& forall|w: int|
            0 <= w < N_WORDS ==> #[trigger] self.const_diff.c@[w] == icoef(law.lhs, 0, 0, w as nat)
                - icoef(law.rhs, 0, 0, w as nat)
        &&& self.const_terms@ == sparse(self.const_diff.c@, 31)
        &&& forall|v: int| 0 <= v < law.arity ==> (#[trigger] self.terms@[v])@ == sparse(self.diffs@[v].c@, 31)
    }
}

/// Difference polynomials for a whole law list. Built once, reused by every
/// instance of every linear family.
pub struct LinearLaws {
    pub laws: Vec<LawDiff>,
}

/// A law the linear family can read: well formed, and no path longer than
/// `MAX_DEG` on either side.
pub open spec fn linear_law_ok(law: Law) -> bool {
    &&& law.wf()
    &&& depth(law.lhs) <= MAX_DEG
    &&& depth(law.rhs) <= MAX_DEG
}

/// No root-to-leaf path of `t` is longer than `k`.
fn depth_at_most(t: &Term, k: usize) -> (b: bool)
    ensures
        b == (depth(*t) <= k),
    decreases t,
{
    match t {
        Term::Var(_) => true,
        Term::Op(l, r) => k > 0 && depth_at_most(l, k - 1) && depth_at_most(r, k - 1),
    }
}

/// Whether the linear family can read `law`, for a well-formed law: no path
/// longer than `MAX_DEG` on either side.
pub fn linear_readable(law: &Law) -> (b: bool)
    requires
        law.wf(),
    ensures
        b == linear_law_ok(*law),
{
    depth_at_most(&law.lhs, MAX_DEG) && depth_at_most(&law.rhs, MAX_DEG)
}

/// Accumulate the path word of every leaf into `out`, and of every internal
/// node into `internal`. `len`/`bits` describe the path from the root so far.
fn collect(t: &Term, len: u32, bits: u32, out: &mut Vec<NcPoly>, internal: &mut NcPoly)
    requires
        len + depth(*t) <= MAX_DEG,
        bits < pow2(len as nat),
        vars_below(*t, old(out)@.len()),
        forall|v: int, w: int|
            0 <= v < old(out)@.len() && 0 <= w < N_WORDS ==> 0 <= #[trigger] old(out)@[v].c@[w]
                && old(out)@[v].c@[w] + leaves(*t) <= i32::MAX,
        forall|w: int|
            0 <= w < N_WORDS ==> 0 <= #[trigger] old(internal).c@[w] && old(internal).c@[w]
                + leaves(*t) <= i32::MAX,
    ensures
        final(out)@.len() == old(out)@.len(),
        forall|v: int, w: int|
            0 <= v < old(out)@.len() && 0 <= w < N_WORDS ==> #[trigger] final(out)@[v].c@[w]
                == old(out)@[v].c@[w] + coef(*t, len as nat, bits as nat, v as nat, w as nat),
        forall|w: int|
            0 <= w < N_WORDS ==> #[trigger] final(internal).c@[w] == old(internal).c@[w] + icoef(
                *t,
                len as nat,
                bits as nat,
                w as nat,
            ),
    decreases t,
{
    proof {
        vstd::arithmetic::power2::lemma2_to64();
    }
    match t {
        Term::Var(v) => {
            let vi = *v as usize;
            let mut p = out[vi];
            proof {
                assert(spec_word_index(len as nat, bits as nat) < N_WORDS);
                lemma_coef_bounds(*t, len as nat, bits as nat, *v as nat, 0);
            }
            p.add_word(len, bits, 1);
            out.set(vi, p);
            proof {
                assert forall|u: int, w: int|
                    0 <= u < old(out)@.len() && 0 <= w < N_WORDS implies #[trigger] out@[u].c@[w]
                        == old(out)@[u].c@[w] + coef(*t, len as nat, bits as nat, u as nat, w as nat) by {
                    if u == vi as int {
                        if w == spec_word_index(len as nat, bits as nat) {
                        } else {
                        }
                    }
                }
            }
        },
        Term::Op(l, r) => {
            proof {
                lemma_leaves_pos(*t);
                lemma_leaves_pos(**l);
                lemma_leaves_pos(**r);
                assert(spec_word_index(len as nat, bits as nat) < N_WORDS);
                let wi = spec_word_index(len as nat, bits as nat) as int;
                assert(0 <= old(internal).c@[wi] && old(internal).c@[wi] + leaves(*t) <= i32::MAX);
                assert(internal.c@[wi] + 1 <= i32::MAX);
            }
            let ghost i0 = *internal;
            internal.add_word(len, bits, 1);
            proof {
                assert(2 * bits < pow2((len + 1) as nat)) by {
                    vstd::arithmetic::power2::lemma_pow2_unfold((len + 1) as nat);
                }
                assert((bits << 1u32) == 2 * bits && ((bits << 1u32) | 1u32) == 2 * bits + 1) by (bit_vector)
                    requires
                        bits < 16,
                ;
                assert forall|v: int, w: int|
                    0 <= v < out@.len() && 0 <= w < N_WORDS implies 0 <= #[trigger] out@[v].c@[w]
                        && out@[v].c@[w] + leaves(**l) <= i32::MAX by {
                    assert(leaves(*t) == leaves(**l) + leaves(**r));
                }
                assert forall|w: int|
                    0 <= w < N_WORDS implies 0 <= #[trigger] internal.c@[w] && internal.c@[w]
                        + leaves(**l) <= i32::MAX by {
                    assert(leaves(*t) == leaves(**l) + leaves(**r));
                    assert(0 <= old(internal).c@[w] && old(internal).c@[w] + leaves(*t) <= i32::MAX);
                    assert(internal.c@[w] <= old(internal).c@[w] + 1);
                }
            }
            let ghost o1 = *out;
            let ghost n1 = *internal;
            collect(l, len + 1, bits << 1, out, internal);
            proof {
                assert forall|v: int, w: int|
                    0 <= v < out@.len() && 0 <= w < N_WORDS implies 0 <= #[trigger] out@[v].c@[w]
                        && out@[v].c@[w] + leaves(**r) <= i32::MAX by {
                    lemma_coef_bounds(**l, (len + 1) as nat, (2 * bits) as nat, v as nat, w as nat);
                    assert(coef(**l, (len + 1) as nat, (2 * bits) as nat, v as nat, w as nat) <= leaves(**l));
                }
                assert forall|w: int|
                    0 <= w < N_WORDS implies 0 <= #[trigger] internal.c@[w] && internal.c@[w]
                        + leaves(**r) <= i32::MAX by {
                    lemma_coef_bounds(**l, (len + 1) as nat, (2 * bits) as nat, 0, w as nat);
                    assert(0 <= old(internal).c@[w] && old(internal).c@[w] + leaves(*t) <= i32::MAX);
                    assert(n1.c@[w] <= old(internal).c@[w] + 1);
                }
            }
            collect(r, len + 1, (bits << 1) | 1, out, internal);
        },
    }
}

proof fn lemma_leaves_pos(t: Term)
    ensures
        leaves(t) >= 1,
    decreases t,
{
    match t {
        Term::Var(_) => {},
        Term::Op(l, r) => {
            lemma_leaves_pos(*l);
            lemma_leaves_pos(*r);
        },
    }
}

/// The nonzero coefficients of `p` as `(word index, coefficient)` terms.
fn sparse_terms(p: &NcPoly) -> (r: Vec<(u8, i32)>)
    ensures
        r@ == sparse(p.c@, 31),
{
    let mut r: Vec<(u8, i32)> = Vec::new();
    let mut w: usize = 0;
    while w < N_WORDS
        invariant
            w <= N_WORDS,
            r@ == sparse(p.c@, w as nat),
        decreases N_WORDS - w,
    {
        let k = p.c[w];
        if k != 0 {
            r.push((w as u8, k));
        }
        w = w + 1;
    }
    r
}

/// `n` zero polynomials.
fn zero_polys(n: usize) -> (v: Vec<NcPoly>)
    ensures
        v@.len() == n,
        forall|i: int, w: int| 0 <= i < n && 0 <= w < N_WORDS ==> #[trigger] v@[i].c@[w] == 0,
{
    let mut v: Vec<NcPoly> = Vec::new();
    let mut i: usize = 0;
    while i < n
        invariant
            i <= n,
            v@.len() == i,
            forall|q: int, w: int| 0 <= q < i && 0 <= w < N_WORDS ==> #[trigger] v@[q].c@[w] == 0,
        decreases n - i,
    {
        v.push(NcPoly::zero());
        i = i + 1;
    }
    v
}

impl LinearLaws {
    /// Difference polynomials for every law of the list.
    pub fn build(laws: &[Law]) -> (ll: LinearLaws)
        requires
            forall|i: int| 0 <= i < laws@.len() ==> linear_law_ok(#[trigger] laws@[i]),
        ensures
            ll.laws@.len() == laws@.len(),
            forall|i: int| 0 <= i < laws@.len() ==> (#[trigger] ll.laws@[i]).describes(laws@[i]),
            laws_indexed(&ll),
            const_indexed(&ll),
            terms_short(&ll),
    {
        let mut out: Vec<LawDiff> = Vec::new();
        let mut q: usize = 0;
        while q < laws.len()
            invariant
                forall|i: int| 0 <= i < laws@.len() ==> linear_law_ok(#[trigger] laws@[i]),
                q <= laws@.len(),
                out@.len() == q,
                forall|i: int| 0 <= i < q ==> (#[trigger] out@[i]).describes(laws@[i]),
            decreases laws@.len() - q,
        {
            let law = &laws[q];
            let k = law.arity as usize;
            let mut lhs = zero_polys(k);
            let mut rhs = zero_polys(k);
            let mut s_lhs = NcPoly::zero();
            let mut s_rhs = NcPoly::zero();
            proof {
                assert(linear_law_ok(*law));
                lemma_leaves_depth(law.lhs);
                lemma_leaves_depth(law.rhs);
                vstd::arithmetic::power2::lemma2_to64();
                if depth(law.lhs) < 4 {
                    vstd::arithmetic::power2::lemma_pow2_strictly_increases(depth(law.lhs), 4);
                }
                if depth(law.rhs) < 4 {
                    vstd::arithmetic::power2::lemma_pow2_strictly_increases(depth(law.rhs), 4);
                }
                vstd::arithmetic::power2::lemma2_to64();
            }
            collect(&law.lhs, 0, 0, &mut lhs, &mut s_lhs);
            collect(&law.rhs, 0, 0, &mut rhs, &mut s_rhs);
            proof {
                assert forall|w: int| 0 <= w < N_WORDS implies i32::MIN <= #[trigger] s_lhs.c@[w] - s_rhs.c@[w] <= i32::MAX by {
                    lemma_coef_bounds(law.lhs, 0, 0, 0, w as nat);
                    lemma_coef_bounds(law.rhs, 0, 0, 0, w as nat);
                }
            }
            let const_diff = s_lhs.sub(&s_rhs);
            let const_terms = sparse_terms(&const_diff);
            let mut diffs: Vec<NcPoly> = Vec::new();
            let mut terms: Vec<Vec<(u8, i32)>> = Vec::new();
            let mut v: usize = 0;
            while v < k
                invariant
                    k == law.arity,
                    lhs@.len() == k,
                    rhs@.len() == k,
                    leaves(law.lhs) <= 16,
                    leaves(law.rhs) <= 16,
                    forall|u: int, w: int|
                        0 <= u < k && 0 <= w < N_WORDS ==> #[trigger] lhs@[u].c@[w] == coef(
                            law.lhs,
                            0,
                            0,
                            u as nat,
                            w as nat,
                        ),
                    forall|u: int, w: int|
                        0 <= u < k && 0 <= w < N_WORDS ==> #[trigger] rhs@[u].c@[w] == coef(
                            law.rhs,
                            0,
                            0,
                            u as nat,
                            w as nat,
                        ),
                    v <= k,
                    diffs@.len() == v,
                    terms@.len() == v,
                    forall|u: int, w: int|
                        0 <= u < v && 0 <= w < N_WORDS ==> #[trigger] diffs@[u].c@[w] == coef(
                            law.lhs,
                            0,
                            0,
                            u as nat,
                            w as nat,
                        ) - coef(law.rhs, 0, 0, u as nat, w as nat),
                    forall|u: int| 0 <= u < v ==> (#[trigger] terms@[u])@ == sparse(diffs@[u].c@, 31),
                decreases k - v,
            {
                proof {
                    assert forall|w: int| 0 <= w < N_WORDS implies i32::MIN <= #[trigger] lhs@[v as int].c@[w] - rhs@[v as int].c@[w] <= i32::MAX by {
                        lemma_coef_bounds(law.lhs, 0, 0, v as nat, w as nat);
                        lemma_coef_bounds(law.rhs, 0, 0, v as nat, w as nat);
                    }
                }
                let d = lhs[v].sub(&rhs[v]);
                let t = sparse_terms(&d);
                diffs.push(d);
                terms.push(t);
                v = v + 1;
            }
            let ld = LawDiff { id: law.id, arity: law.arity, diffs, const_diff, const_terms, terms };
            proof {
                assert(ld.describes(*law));
            }
            out.push(ld);
            q = q + 1;
        }
        let ll = LinearLaws { laws: out };
        proof {
            assert forall|i: int, v: int, q: int|
                0 <= i < ll.laws@.len() && 0 <= v < ll.laws@[i].terms@.len() && 0 <= q < ll.laws@[i].terms@[v]@.len()
                    implies (#[trigger] ll.laws@[i].terms@[v]@[q]).0 < N_WORDS by {
                assert(ll.laws@[i].describes(laws@[i]));
                lemma_sparse_bounds(ll.laws@[i].diffs@[v].c@, 31);
            }
            assert forall|i: int, q: int|
                0 <= i < ll.laws@.len() && 0 <= q < ll.laws@[i].const_terms@.len()
                    implies (#[trigger] ll.laws@[i].const_terms@[q]).0 < N_WORDS by {
                assert(ll.laws@[i].describes(laws@[i]));
                lemma_sparse_bounds(ll.laws@[i].const_diff.c@, 31);
            }
            assert forall|i: int, v: int|
                0 <= i < ll.laws@.len() && 0 <= v < ll.laws@[i].terms@.len() implies (#[trigger] ll.laws@[i].terms@[v])@.len()
                    <= N_WORDS by {
                assert(ll.laws@[i].describes(laws@[i]));
                lemma_sparse_bounds(ll.laws@[i].diffs@[v].c@, 31);
            }
            assert forall|i: int| 0 <= i < ll.laws@.len() implies (#[trigger] ll.laws@[i]).const_terms@.len() <= N_WORDS by {
                assert(ll.laws@[i].describes(laws@[i]));
                lemma_sparse_bounds(ll.laws@[i].const_diff.c@, 31);
            }
        }
        ll
    }

    /// Number of laws.
    pub fn n_laws(&self) -> (n: usize)
        ensures
            n == self.laws@.len(),
    {
        self.laws.len()
    }
}

proof fn lemma_sparse_bounds(c: Seq<i32>, upto: nat)
    ensures
        forall|q: int| 0 <= q < sparse(c, upto).len() ==> (#[trigger] sparse(c, upto)[q]).0 < upto,
        sparse(c, upto).len() <= upto,
    decreases upto,
{
    if upto > 0 {
        lemma_sparse_bounds(c, (upto - 1) as nat);
        let prev = sparse(c, (upto - 1) as nat);
        assert forall|q: int| 0 <= q < sparse(c, upto).len() implies (#[trigger] sparse(c, upto)[q]).0 < upto by {
            if q < prev.len() {
                assert(sparse(c, upto)[q] == prev[q]);
            } else {
                assert(sparse(c, upto)[q] == ((upto - 1) as u8, c[upto - 1]));
            }
        }
    }
}

/// A unital ring, described by operations on an element type. Dispatch is on
/// the ring rather than the element so a runtime-chosen modulus or matrix
/// size costs nothing per operation.
///
/// Elements are modelled as sequences of integers (`view_of`), and each
/// operation is stated over the ring's spec functions on those models;
/// `ring_ok` says the ring's own parameters are usable, and the `*_fits`
/// predicates say an operation stays within the machine representation.
pub trait RingOps: Sized {
    type Elem;

    spec fn view_of(&self, x: Self::Elem) -> Seq<int>;

    spec fn ring_ok(&self) -> bool;

    spec fn spec_zero(&self) -> Seq<int>;

    spec fn spec_one(&self) -> Seq<int>;

    spec fn spec_add(&self, x: Seq<int>, y: Seq<int>) -> Seq<int>;

    spec fn spec_mul(&self, x: Seq<int>, y: Seq<int>) -> Seq<int>;

    /// `acc + k * x`.
    spec fn spec_scale_add(&self, acc: Seq<int>, k: int, x: Seq<int>) -> Seq<int>;

    spec fn spec_is_zero(&self, x: Seq<int>) -> bool;

    spec fn add_fits(&self, x: Seq<int>, y: Seq<int>) -> bool;

    spec fn mul_fits(&self, x: Seq<int>, y: Seq<int>) -> bool;

    spec fn scale_fits(&self, acc: Seq<int>, k: int, x: Seq<int>) -> bool;

    fn zero(&self) -> (r: Self::Elem)
        requires
            self.ring_ok(),
        ensures
            self.view_of(r) == self.spec_zero(),
    ;

    fn one(&self) -> (r: Self::Elem)
        requires
            self.ring_ok(),
        ensures
            self.view_of(r) == self.spec_one(),
    ;

    fn add_assign(&self, x: &mut Self::Elem, y: &Self::Elem)
        requires
            self.ring_ok(),
            self.add_fits(self.view_of(*old(x)), self.view_of(*y)),
        ensures
            self.view_of(*final(x)) == self.spec_add(self.view_of(*old(x)), self.view_of(*y)),
    ;

    fn mul(&self, x: &Self::Elem, y: &Self::Elem) -> (r: Self::Elem)
        requires
            self.ring_ok(),
            self.mul_fits(self.view_of(*x), self.view_of(*y)),
        ensures
            self.view_of(r) == self.spec_mul(self.view_of(*x), self.view_of(*y)),
    ;

    /// `k` copies of `x`, for integer `k` of either sign.
    fn scale_add_assign(&self, acc: &mut Self::Elem, k: i32, x: &Self::Elem)
        requires
            self.ring_ok(),
            self.scale_fits(self.view_of(*old(acc)), k as int, self.view_of(*x)),
        ensures
            self.view_of(*final(acc)) == self.spec_scale_add(self.view_of(*old(acc)), k as int, self.view_of(*x)),
    ;

    fn is_zero(&self, x: &Self::Elem) -> (b: bool)
        requires
            self.ring_ok(),
        ensures
            b == self.spec_is_zero(self.view_of(*x)),
    ;

    /// The two elements are the same element.
    fn same(&self, x: &Self::Elem, y: &Self::Elem) -> (b: bool)
        ensures
            b == (self.view_of(*x) == self.view_of(*y)),
    ;

    /// Cardinality of the carrier, when finite.
    spec fn finite_card(&self) -> Option<nat>;

    /// Cardinality of the carrier, when finite. Used to decide whether an
    /// instance can be cross-checked against the finite engine. Rings that
    /// keep this default have an infinite carrier.
    fn carrier_size(&self) -> (r: Option<usize>)
        requires
            self.ring_ok(),
        ensures
            r matches Some(s) ==> self.finite_card() == Some(s as nat),
        default_ensures
            r is None,
    {
        None
    }

    fn name(&self) -> String;
}

/// The value of word `idx` in `{a, b}`, built by appending one letter at a
/// time so the product is taken root-to-leaf: the children of word `p` are
/// `2p + 1` (append `a`) and `2p + 2` (append `b`).
pub open spec fn word_val<R: RingOps>(ring: &R, a: Seq<int>, b: Seq<int>, idx: nat) -> Seq<int>
    decreases idx,
{
    if idx == 0 {
        ring.spec_one()
    } else {
        let p = ((idx - 1) / 2) as nat;
        if idx % 2 == 1 {
            ring.spec_mul(word_val(ring, a, b, p), a)
        } else {
            ring.spec_mul(word_val(ring, a, b, p), b)
        }
    }
}

/// The product that builds word `idx` from its parent fits.
pub open spec fn step_fits<R: RingOps>(ring: &R, a: Seq<int>, b: Seq<int>, idx: nat) -> bool {
    ring.mul_fits(
        word_val(ring, a, b, ((idx - 1) / 2) as nat),
        if idx % 2 == 1 {
            a
        } else {
            b
        },
    )
}

/// Every product taken while building the word values fits.
pub open spec fn words_fit<R: RingOps>(ring: &R, a: Seq<int>, b: Seq<int>) -> bool {
    forall|idx: nat| 1 <= idx < N_WORDS ==> #[trigger] step_fits(ring, a, b, idx)
}

/// The word values, all 31 of them.
pub open spec fn words_spec<R: RingOps>(ring: &R, a: Seq<int>, b: Seq<int>) -> Seq<Seq<int>> {
    Seq::new(31, |i: int| word_val(ring, a, b, i as nat))
}

/// `Σ k · words[w]` over the first `n` terms `(w, k)`, accumulated from zero.
pub open spec fn comb<R: RingOps>(ring: &R, t: Seq<(u8, i32)>, words: Seq<Seq<int>>, n: nat) -> Seq<int>
    decreases n,
{
    if n == 0 {
        ring.spec_zero()
    } else {
        ring.spec_scale_add(comb(ring, t, words, (n - 1) as nat), t[n - 1].1 as int, words[t[n - 1].0 as int])
    }
}

/// Every step of `comb` fits.
pub open spec fn comb_fits<R: RingOps>(ring: &R, t: Seq<(u8, i32)>, words: Seq<Seq<int>>) -> bool {
    forall|q: nat|
        q < t.len() ==> #[trigger] ring.scale_fits(comb(ring, t, words, q), t[q as int].1 as int, words[t[q as int].0 as int])
}

/// The polynomial terms `t` vanish at the word values.
pub open spec fn terms_vanish<R: RingOps>(ring: &R, t: Seq<(u8, i32)>, words: Seq<Seq<int>>) -> bool {
    ring.spec_is_zero(comb(ring, t, words, t.len()))
}

/// Every difference polynomial of a law vanishes: the law holds in the
/// linear magma with these word values.
pub open spec fn law_vanishes<R: RingOps>(ring: &R, terms: Seq<Vec<(u8, i32)>>, words: Seq<Seq<int>>) -> bool {
    forall|v: int| 0 <= v < terms.len() ==> terms_vanish(ring, (#[trigger] terms[v])@, words)
}

/// The sums a law's check evaluates fit, up to the first term that fails.
pub open spec fn law_fits<R: RingOps>(ring: &R, terms: Seq<Vec<(u8, i32)>>, words: Seq<Seq<int>>) -> bool {
    forall|v: int|
        0 <= v < terms.len() && (forall|u: int| 0 <= u < v ==> terms_vanish(ring, (#[trigger] terms[u])@, words))
            ==> comb_fits(ring, (#[trigger] terms[v])@, words)
}

/// Values of all 31 words in `{a, b}`, built by appending one letter at a
/// time so the product is taken root-to-leaf.
pub fn word_values<R: RingOps>(ring: &R, a: &R::Elem, b: &R::Elem) -> (w: Vec<R::Elem>)
    requires
        ring.ring_ok(),
        words_fit(ring, ring.view_of(*a), ring.view_of(*b)),
    ensures
        w@.len() == N_WORDS,
        forall|i: int| 0 <= i < N_WORDS ==> #[trigger] ring.view_of(w@[i]) == words_spec(ring, ring.view_of(*a), ring.view_of(*b))[i],
{
    let ghost va = ring.view_of(*a);
    let ghost vb = ring.view_of(*b);
    let mut w: Vec<R::Elem> = Vec::new();
    w.push(ring.one());
    let mut idx: usize = 1;
    while idx < N_WORDS
        invariant
            ring.ring_ok(),
            va == ring.view_of(*a),
            vb == ring.view_of(*b),
            words_fit(ring, va, vb),
            1 <= idx <= N_WORDS,
            w@.len() == idx,
            forall|q: int| 0 <= q < idx ==> #[trigger] ring.view_of(w@[q]) == word_val(ring, va, vb, q as nat),
        decreases N_WORDS - idx,
    {
        let p = (idx - 1) / 2;
        proof {
            assert(step_fits(ring, va, vb, idx as nat));
            assert(ring.view_of(w@[p as int]) == word_val(ring, va, vb, p as nat));
        }
        let v = if idx % 2 == 1 {
            ring.mul(&w[p], a)
        } else {
            ring.mul(&w[p], b)
        };
        w.push(v);
        idx = idx + 1;
    }
    w
}

fn terms_are_zero<R: RingOps>(ring: &R, t: &[(u8, i32)], words: &Vec<R::Elem>, Ghost(ws): Ghost<Seq<Seq<int>>>, acc: &mut R::Elem) -> (r: bool)
    requires
        ring.ring_ok(),
        words@.len() == ws.len(),
        forall|i: int| 0 <= i < ws.len() ==> #[trigger] ring.view_of(words@[i]) == ws[i],
        forall|q: int| 0 <= q < t@.len() ==> (#[trigger] t@[q]).0 < words@.len(),
        comb_fits(ring, t@, ws),
    ensures
        r == terms_vanish(ring, t@, ws),
        ring.view_of(*final(acc)) == comb(ring, t@, ws, t@.len()),
{
    *acc = ring.zero();
    let mut q: usize = 0;
    while q < t.len()
        invariant
            ring.ring_ok(),
            words@.len() == ws.len(),
            forall|i: int| 0 <= i < ws.len() ==> #[trigger] ring.view_of(words@[i]) == ws[i],
            forall|q2: int| 0 <= q2 < t@.len() ==> (#[trigger] t@[q2]).0 < words@.len(),
            comb_fits(ring, t@, ws),
            q <= t@.len(),
            ring.view_of(*acc) == comb(ring, t@, ws, q as nat),
        decreases t@.len() - q,
    {
        let (wi, k) = t[q];
        proof {
            assert(ring.scale_fits(comb(ring, t@, ws, q as nat), t@[q as int].1 as int, ws[t@[q as int].0 as int]));
            assert(ring.view_of(words@[wi as int]) == ws[wi as int]);
        }
        ring.scale_add_assign(acc, k, &words[wi as usize]);
        q = q + 1;
    }
    ring.is_zero(acc)
}

/// A linear magma: a ring plus the two coefficients.
pub struct LinearModel<R: RingOps> {
    pub ring: R,
    pub a: R::Elem,
    pub b: R::Elem,
}

/// The law list is what `LinearLaws::build` produces: sparse terms index the
/// 31 words.
pub open spec fn laws_indexed(ll: &LinearLaws) -> bool {
    forall|i: int, v: int, q: int|
        0 <= i < ll.laws@.len() && 0 <= v < ll.laws@[i].terms@.len() && 0 <= q < ll.laws@[i].terms@[v]@.len()
            ==> (#[trigger] ll.laws@[i].terms@[v]@[q]).0 < N_WORDS
}

/// Every sparse polynomial of the list has at most one term per word.
pub open spec fn terms_short(ll: &LinearLaws) -> bool {
    &&& forall|i: int, v: int|
        0 <= i < ll.laws@.len() && 0 <= v < ll.laws@[i].terms@.len() ==> (#[trigger] ll.laws@[i].terms@[v])@.len()
            <= N_WORDS
    &&& forall|i: int| 0 <= i < ll.laws@.len() ==> (#[trigger] ll.laws@[i]).const_terms@.len() <= N_WORDS
}

/// The constant terms index the 31 words.
pub open spec fn const_indexed(ll: &LinearLaws) -> bool {
    forall|i: int, q: int|
        0 <= i < ll.laws@.len() && 0 <= q < ll.laws@[i].const_terms@.len()
            ==> (#[trigger] ll.laws@[i].const_terms@[q]).0 < N_WORDS
}

impl<R: RingOps> LinearModel<R> {
    pub fn new(ring: R, a: R::Elem, b: R::Elem) -> (m: Self)
        ensures
            m.ring == ring,
            m.a == a,
            m.b == b,
    {
        LinearModel { ring, a, b }
    }

    /// The word values of this model.
    pub open spec fn words(&self) -> Seq<Seq<int>> {
        words_spec(&self.ring, self.ring.view_of(self.a), self.ring.view_of(self.b))
    }

    /// Which laws this linear magma satisfies: those whose difference
    /// polynomials all vanish at `(a, b)`.
    pub fn signature(&self, ll: &LinearLaws) -> (sig: Signature)
        requires
            self.ring.ring_ok(),
            words_fit(&self.ring, self.ring.view_of(self.a), self.ring.view_of(self.b)),
            laws_indexed(ll),
            forall|i: int| 0 <= i < ll.laws@.len() ==> law_fits(&self.ring, (#[trigger] ll.laws@[i]).terms@, self.words()),
        ensures
            sig@.len() == ll.laws@.len(),
            forall|i: int| 0 <= i < ll.laws@.len() ==> #[trigger] sig@[i] == law_vanishes(
                &self.ring,
                ll.laws@[i].terms@,
                self.words(),
            ),
    {
        let words = word_values(&self.ring, &self.a, &self.b);
        let ghost ws = self.words();
        proof {
            assert(ws.len() == 31);
        }
        let mut sig = Signature::zeros(ll.n_laws());
        let mut acc = self.ring.zero();
        let mut i: usize = 0;
        while i < ll.laws.len()
            invariant
                self.ring.ring_ok(),
                words@.len() == ws.len(),
                forall|q: int| 0 <= q < ws.len() ==> #[trigger] self.ring.view_of(words@[q]) == ws[q],
                ws == self.words(),
                laws_indexed(ll),
                forall|i2: int| 0 <= i2 < ll.laws@.len() ==> law_fits(&self.ring, (#[trigger] ll.laws@[i2]).terms@, ws),
                i <= ll.laws@.len(),
                sig@.len() == ll.laws@.len(),
                forall|i2: int| 0 <= i2 < i ==> #[trigger] sig@[i2] == law_vanishes(&self.ring, ll.laws@[i2].terms@, ws),
                forall|i2: int| i <= i2 < ll.laws@.len() ==> !#[trigger] sig@[i2],
            decreases ll.laws@.len() - i,
        {
            let law = &ll.laws[i];
            let mut all = true;
            let mut v: usize = 0;
            while all && v < law.terms.len()
                invariant
                    self.ring.ring_ok(),
                    words@.len() == ws.len(),
                    forall|q: int| 0 <= q < ws.len() ==> #[trigger] self.ring.view_of(words@[q]) == ws[q],
                    words@.len() == N_WORDS,
                    laws_indexed(ll),
                    i < ll.laws@.len(),
                    *law == ll.laws@[i as int],
                    law_fits(&self.ring, law.terms@, ws),
                    v <= law.terms@.len(),
                    forall|u: int| 0 <= u < v ==> terms_vanish(&self.ring, (#[trigger] law.terms@[u])@, ws),
                    !all ==> v < law.terms@.len() && !terms_vanish(&self.ring, law.terms@[v as int]@, ws),
                decreases law.terms@.len() - v + if all { 1int } else { 0int },
            {
                proof {
                    assert(comb_fits(&self.ring, law.terms@[v as int]@, ws));
                    assert forall|q: int| 0 <= q < law.terms@[v as int]@.len() implies (#[trigger] law.terms@[v as int]@[q]).0 < words@.len() by {
                        assert(ll.laws@[i as int].terms@[v as int]@[q].0 < N_WORDS);
                    }
                }
                let z = terms_are_zero(&self.ring, law.terms[v].as_slice(), &words, Ghost(ws), &mut acc);
                if z {
                    v = v + 1;
                } else {
                    all = false;
                }
            }
            if all {
                sig.set(i);
            }
            i = i + 1;
        }
        sig
    }
}

/// An affine magma `x ◇ y = a·x + b·y + c`. The linear conditions are
/// unchanged; the constant contributes exactly one more,
/// `(S_lhs - S_rhs)·c = 0`, which is why affine costs almost nothing on top.
pub struct AffineModel<R: RingOps> {
    pub ring: R,
    pub a: R::Elem,
    pub b: R::Elem,
    pub c: R::Elem,
}

impl<R: RingOps> AffineModel<R> {
    pub fn new(ring: R, a: R::Elem, b: R::Elem, c: R::Elem) -> (m: Self)
        ensures
            m.ring == ring,
            m.a == a,
            m.b == b,
            m.c == c,
    {
        AffineModel { ring, a, b, c }
    }

    /// The word values of this model.
    pub open spec fn words(&self) -> Seq<Seq<int>> {
        words_spec(&self.ring, self.ring.view_of(self.a), self.ring.view_of(self.b))
    }

    /// The constant condition of law `i`: `(S_lhs - S_rhs)` at the word
    /// values, times `c`, vanishes.
    pub open spec fn const_vanishes(&self, d: LawDiff, ws: Seq<Seq<int>>) -> bool {
        self.ring.spec_is_zero(self.ring.spec_mul(comb(&self.ring, d.const_terms@, ws, d.const_terms@.len()), self.ring.view_of(self.c)))
    }

    /// The constant condition of a law fits, once its linear conditions hold.
    pub open spec fn const_fits(&self, d: LawDiff, ws: Seq<Seq<int>>) -> bool {
        law_vanishes(&self.ring, d.terms@, ws) ==> comb_fits(&self.ring, d.const_terms@, ws)
            && self.ring.mul_fits(comb(&self.ring, d.const_terms@, ws, d.const_terms@.len()), self.ring.view_of(self.c))
    }

    /// Which laws this affine magma satisfies.
    pub fn signature(&self, ll: &LinearLaws) -> (sig: Signature)
        requires
            self.ring.ring_ok(),
            words_fit(&self.ring, self.ring.view_of(self.a), self.ring.view_of(self.b)),
            laws_indexed(ll),
            const_indexed(ll),
            forall|i: int| 0 <= i < ll.laws@.len() ==> law_fits(&self.ring, (#[trigger] ll.laws@[i]).terms@, self.words()),
            forall|i: int| 0 <= i < ll.laws@.len() ==> self.const_fits(#[trigger] ll.laws@[i], self.words()),
        ensures
            sig@.len() == ll.laws@.len(),
            forall|i: int| 0 <= i < ll.laws@.len() ==> #[trigger] sig@[i] == (law_vanishes(
                &self.ring,
                ll.laws@[i].terms@,
                self.words(),
            ) && self.const_vanishes(ll.laws@[i], self.words())),
    {
        let words = word_values(&self.ring, &self.a, &self.b);
        let ghost ws = self.words();
        proof {
            assert(ws.len() == 31);
        }
        let mut sig = Signature::zeros(ll.n_laws());
        let mut acc = self.ring.zero();
        let mut i: usize = 0;
        while i < ll.laws.len()
            invariant
                self.ring.ring_ok(),
                words@.len() == ws.len(),
                forall|q: int| 0 <= q < ws.len() ==> #[trigger] self.ring.view_of(words@[q]) == ws[q],
                ws == self.words(),
                laws_indexed(ll),
                const_indexed(ll),
                forall|i2: int| 0 <= i2 < ll.laws@.len() ==> law_fits(&self.ring, (#[trigger] ll.laws@[i2]).terms@, ws),
                forall|i2: int| 0 <= i2 < ll.laws@.len() ==> self.const_fits(#[trigger] ll.laws@[i2], ws),
                i <= ll.laws@.len(),
                sig@.len() == ll.laws@.len(),
                forall|i2: int| 0 <= i2 < i ==> #[trigger] sig@[i2] == (law_vanishes(&self.ring, ll.laws@[i2].terms@, ws)
                    && self.const_vanishes(ll.laws@[i2], ws)),
                forall|i2: int| i <= i2 < ll.laws@.len() ==> !#[trigger] sig@[i2],
            decreases ll.laws@.len() - i,
        {
            let law = &ll.laws[i];
            let mut all = true;
            let mut v: usize = 0;
            while all && v < law.terms.len()
                invariant
                    self.ring.ring_ok(),
                    words@.len() == ws.len(),
                    forall|q: int| 0 <= q < ws.len() ==> #[trigger] self.ring.view_of(words@[q]) == ws[q],
                    words@.len() == N_WORDS,
                    laws_indexed(ll),
                    i < ll.laws@.len(),
                    *law == ll.laws@[i as int],
                    law_fits(&self.ring, law.terms@, ws),
                    v <= law.terms@.len(),
                    forall|u: int| 0 <= u < v ==> terms_vanish(&self.ring, (#[trigger] law.terms@[u])@, ws),
                    !all ==> v < law.terms@.len() && !terms_vanish(&self.ring, law.terms@[v as int]@, ws),
                decreases law.terms@.len() - v + if all { 1int } else { 0int },
            {
                proof {
                    assert(comb_fits(&self.ring, law.terms@[v as int]@, ws));
                    assert forall|q: int| 0 <= q < law.terms@[v as int]@.len() implies (#[trigger] law.terms@[v as int]@[q]).0 < words@.len() by {
                        assert(ll.laws@[i as int].terms@[v as int]@[q].0 < N_WORDS);
                    }
                }
                let z = terms_are_zero(&self.ring, law.terms[v].as_slice(), &words, Ghost(ws), &mut acc);
                if z {
                    v = v + 1;
                } else {
                    all = false;
                }
            }
            if all {
                proof {
                    assert(v == law.terms@.len());
                    assert(law_vanishes(&self.ring, law.terms@, ws));
                    assert(self.const_fits(*law, ws));
                    assert forall|q: int| 0 <= q < law.const_terms@.len() implies (#[trigger] law.const_terms@[q]).0 < words@.len() by {
                        assert(ll.laws@[i as int].const_terms@[q].0 < N_WORDS);
                    }
                }
                let _ = terms_are_zero(&self.ring, law.const_terms.as_slice(), &words, Ghost(ws), &mut acc);
                let shifted = self.ring.mul(&acc, &self.c);
                if self.ring.is_zero(&shifted) {
                    sig.set(i);
                }
            }
            i = i + 1;
        }
        sig
    }
}

} // verus!

verus! {

/// `a·x + b·y` over the ring's models.
pub open spec fn lin_value<R: RingOps>(ring: &R, a: Seq<int>, b: Seq<int>, x: Seq<int>, y: Seq<int>) -> Seq<int> {
    ring.spec_add(ring.spec_mul(a, x), ring.spec_mul(b, y))
}

/// Some element has the value `v`.
pub open spec fn listed<R: RingOps>(ring: &R, es: Seq<R::Elem>, v: Seq<int>) -> bool {
    exists|k: int| 0 <= k < es.len() && ring.view_of(es[k]) == v
}

/// Every product `a·x + b·y` of two elements is again one of them.
pub open spec fn products_listed<R: RingOps>(ring: &R, a: Seq<int>, b: Seq<int>, es: Seq<R::Elem>) -> bool {
    forall|i: int, j: int|
        0 <= i < es.len() && 0 <= j < es.len() ==> #[trigger] listed(
            ring,
            es,
            lin_value(ring, a, b, ring.view_of(es[i]), ring.view_of(es[j])),
        )
}

/// Every product `a·x + b·y` of two elements fits.
pub open spec fn products_fit<R: RingOps>(ring: &R, a: Seq<int>, b: Seq<int>, es: Seq<R::Elem>) -> bool {
    &&& forall|i: int| 0 <= i < es.len() ==> #[trigger] ring.mul_fits(a, ring.view_of(es[i])) && ring.mul_fits(b, ring.view_of(es[i]))
    &&& forall|i: int, j: int|
        0 <= i < es.len() && 0 <= j < es.len() ==> #[trigger] ring.add_fits(
            ring.spec_mul(a, ring.view_of(es[i])),
            ring.spec_mul(b, ring.view_of(es[j])),
        )
}

/// Entry `k` of a table over `elements` names the first element equal to
/// `v`.
pub open spec fn names_first<R: RingOps>(ring: &R, elements: Seq<R::Elem>, v: Seq<int>, k: int) -> bool {
    &&& 0 <= k < elements.len()
    &&& ring.view_of(elements[k]) == v
    &&& forall|q: int| 0 <= q < k ==> ring.view_of(#[trigger] elements[q]) != v
}

/// The position of the first element equal to `v`, which the caller knows
/// to be among `elements`.
fn position_of_value<R: RingOps>(ring: &R, elements: &[R::Elem], v: &R::Elem) -> (k: usize)
    requires
        listed(ring, elements@, ring.view_of(*v)),
    ensures
        names_first(ring, elements@, ring.view_of(*v), k as int),
{
    let n = elements.len();
    let mut k: usize = 0;
    while k < n && !ring.same(&elements[k], v)
        invariant
            n == elements@.len(),
            k <= n,
            forall|q: int| 0 <= q < k ==> ring.view_of(#[trigger] elements@[q]) != ring.view_of(*v),
        decreases n - k,
    {
        k = k + 1;
    }
    proof {
        if k == n {
            let q = choose|q: int| 0 <= q < elements@.len() && ring.view_of(elements@[q]) == ring.view_of(*v);
            assert(ring.view_of(elements@[q]) != ring.view_of(*v));
        }
    }
    k
}

proof fn lemma_cell_index(i: int, j: int, n: int)
    requires
        0 <= i < n,
        0 <= j < n,
    ensures
        0 <= i * n + j < n * n,
        (i * n + j) / n == i,
        (i * n + j) % n == j,
{
    assert(0 <= i * n + j < n * n) by (nonlinear_arith)
        requires
            0 <= i < n,
            0 <= j < n,
    ;
    vstd::arithmetic::div_mod::lemma_fundamental_div_mod_converse(i * n + j, n, i, j);
}

impl<R: RingOps> LinearModel<R> {
    /// The multiplication table over an enumerated carrier: entry `i * n +
    /// j` names the first element equal to `a·x_i + b·x_j`. This is what
    /// makes the tier cross-checkable: the same instance decided
    /// symbolically and by exhaustive sweep must agree bit for bit.
    pub fn table(&self, elements: &[R::Elem]) -> (t: Vec<u8>)
        requires
            self.ring.ring_ok(),
            elements@.len() <= 256,
            products_fit(&self.ring, self.ring.view_of(self.a), self.ring.view_of(self.b), elements@),
            products_listed(&self.ring, self.ring.view_of(self.a), self.ring.view_of(self.b), elements@),
        ensures
            t@.len() == elements@.len() * elements@.len(),
            forall|i: int, j: int| 0 <= i < elements@.len() && 0 <= j < elements@.len() ==> names_first(
                &self.ring,
                elements@,
                lin_value(
                    &self.ring,
                    self.ring.view_of(self.a),
                    self.ring.view_of(self.b),
                    self.ring.view_of(elements@[i]),
                    self.ring.view_of(elements@[j]),
                ),
                #[trigger] t@[i * elements@.len() + j] as int,
            ),
    {
        let n = elements.len();
        let ghost va = self.ring.view_of(self.a);
        let ghost vb = self.ring.view_of(self.b);
        let ghost es = elements@;
        let mut t: Vec<u8> = Vec::new();
        let mut i: usize = 0;
        while i < n
            invariant
                self.ring.ring_ok(),
                n == es.len() <= 256,
                es == elements@,
                va == self.ring.view_of(self.a),
                vb == self.ring.view_of(self.b),
                i <= n,
                t@.len() == i * n,
                products_fit(&self.ring, va, vb, es),
                products_listed(&self.ring, va, vb, es),
                forall|q: int| 0 <= q < t@.len() ==> names_first(
                    &self.ring,
                    es,
                    lin_value(&self.ring, va, vb, self.ring.view_of(es[q / (n as int)]), self.ring.view_of(es[q % (n as int)])),
                    #[trigger] t@[q] as int,
                ),
            decreases n - i,
        {
            let mut j: usize = 0;
            while j < n
                invariant
                    self.ring.ring_ok(),
                    n == es.len() <= 256,
                    es == elements@,
                    va == self.ring.view_of(self.a),
                    vb == self.ring.view_of(self.b),
                    i < n,
                    j <= n,
                    t@.len() == i * n + j,
                    products_fit(&self.ring, va, vb, es),
                    products_listed(&self.ring, va, vb, es),
                    forall|q: int| 0 <= q < t@.len() ==> names_first(
                        &self.ring,
                        es,
                        lin_value(&self.ring, va, vb, self.ring.view_of(es[q / (n as int)]), self.ring.view_of(es[q % (n as int)])),
                        #[trigger] t@[q] as int,
                    ),
                decreases n - j,
            {
                proof {
                    assert(self.ring.mul_fits(va, self.ring.view_of(es[i as int])));
                    assert(self.ring.mul_fits(va, self.ring.view_of(es[j as int])));
                    assert(self.ring.mul_fits(vb, self.ring.view_of(es[j as int])));
                    assert(self.ring.add_fits(self.ring.spec_mul(va, self.ring.view_of(es[i as int])), self.ring.spec_mul(vb, self.ring.view_of(es[j as int]))));
                }
                let mut v = self.ring.mul(&self.a, &elements[i]);
                let by = self.ring.mul(&self.b, &elements[j]);
                self.ring.add_assign(&mut v, &by);
                proof {
                    let target = lin_value(&self.ring, va, vb, self.ring.view_of(es[i as int]), self.ring.view_of(es[j as int]));
                    assert(self.ring.view_of(v) == target);
                    assert(listed(&self.ring, es, target));
                }
                let k = position_of_value(&self.ring, elements, &v);
                let ghost before = t@;
                t.push(k as u8);
                proof {
                    lemma_cell_index(i as int, j as int, n as int);
                    assert forall|q: int| 0 <= q < t@.len() implies names_first(
                        &self.ring,
                        es,
                        lin_value(&self.ring, va, vb, self.ring.view_of(es[q / (n as int)]), self.ring.view_of(es[q % (n as int)])),
                        #[trigger] t@[q] as int,
                    ) by {
                        if q < before.len() {
                            assert(t@[q] == before[q]);
                        } else {
                            assert(q == i * n + j);
                        }
                    }
                }
                j = j + 1;
            }
            proof {
                assert((i + 1) * n == i * n + n) by (nonlinear_arith);
            }
            i = i + 1;
        }
        proof {
            assert forall|i2: int, j2: int| 0 <= i2 < n && 0 <= j2 < n implies names_first(
                &self.ring,
                es,
                lin_value(&self.ring, va, vb, self.ring.view_of(es[i2]), self.ring.view_of(es[j2])),
                #[trigger] t@[i2 * (n as int) + j2] as int,
            ) by {
                lemma_cell_index(i2, j2, n as int);
            }
        }
        t
    }
}

} // verus!

verus! {

/// `a·x + b·y + c` over the ring's models.
pub open spec fn aff_value<R: RingOps>(ring: &R, a: Seq<int>, b: Seq<int>, c: Seq<int>, x: Seq<int>, y: Seq<int>) -> Seq<int> {
    ring.spec_add(lin_value(ring, a, b, x, y), c)
}

/// Every value `a·x + b·y + c` of two elements is again one of them.
pub open spec fn affine_listed<R: RingOps>(ring: &R, a: Seq<int>, b: Seq<int>, c: Seq<int>, es: Seq<R::Elem>) -> bool {
    forall|i: int, j: int|
        0 <= i < es.len() && 0 <= j < es.len() ==> #[trigger] listed(
            ring,
            es,
            aff_value(ring, a, b, c, ring.view_of(es[i]), ring.view_of(es[j])),
        )
}

/// Every value `a·x + b·y + c` of two elements fits.
pub open spec fn affine_fit<R: RingOps>(ring: &R, a: Seq<int>, b: Seq<int>, c: Seq<int>, es: Seq<R::Elem>) -> bool {
    &&& products_fit(ring, a, b, es)
    &&& forall|i: int, j: int|
        0 <= i < es.len() && 0 <= j < es.len() ==> #[trigger] ring.add_fits(
            lin_value(ring, a, b, ring.view_of(es[i]), ring.view_of(es[j])),
            c,
        )
}

impl<R: RingOps> AffineModel<R> {
    /// The multiplication table over an enumerated carrier: entry `i * n +
    /// j` names the first element equal to `a·x_i + b·x_j + c`.
    pub fn table(&self, elements: &[R::Elem]) -> (t: Vec<u8>)
        requires
            self.ring.ring_ok(),
            elements@.len() <= 256,
            affine_fit(&self.ring, self.ring.view_of(self.a), self.ring.view_of(self.b), self.ring.view_of(self.c), elements@),
            affine_listed(&self.ring, self.ring.view_of(self.a), self.ring.view_of(self.b), self.ring.view_of(self.c), elements@),
        ensures
            t@.len() == elements@.len() * elements@.len(),
            forall|i: int, j: int| 0 <= i < elements@.len() && 0 <= j < elements@.len() ==> names_first(
                &self.ring,
                elements@,
                aff_value(
                    &self.ring,
                    self.ring.view_of(self.a),
                    self.ring.view_of(self.b),
                    self.ring.view_of(self.c),
                    self.ring.view_of(elements@[i]),
                    self.ring.view_of(elements@[j]),
                ),
                #[trigger] t@[i * elements@.len() + j] as int,
            ),
    {
        let n = elements.len();
        let ghost va = self.ring.view_of(self.a);
        let ghost vb = self.ring.view_of(self.b);
        let ghost vc = self.ring.view_of(self.c);
        let ghost es = elements@;
        let mut t: Vec<u8> = Vec::new();
        let mut i: usize = 0;
        while i < n
            invariant
                self.ring.ring_ok(),
                n == es.len() <= 256,
                es == elements@,
                va == self.ring.view_of(self.a),
                vb == self.ring.view_of(self.b),
                vc == self.ring.view_of(self.c),
                i <= n,
                t@.len() == i * n,
                affine_fit(&self.ring, va, vb, vc, es),
                affine_listed(&self.ring, va, vb, vc, es),
                forall|q: int| 0 <= q < t@.len() ==> names_first(
                    &self.ring,
                    es,
                    aff_value(&self.ring, va, vb, vc, self.ring.view_of(es[q / (n as int)]), self.ring.view_of(es[q % (n as int)])),
                    #[trigger] t@[q] as int,
                ),
            decreases n - i,
        {
            let mut j: usize = 0;
            while j < n
                invariant
                    self.ring.ring_ok(),
                    n == es.len() <= 256,
                    es == elements@,
                    va == self.ring.view_of(self.a),
                    vb == self.ring.view_of(self.b),
                    vc == self.ring.view_of(self.c),
                    i < n,
                    j <= n,
                    t@.len() == i * n + j,
                    affine_fit(&self.ring, va, vb, vc, es),
                    affine_listed(&self.ring, va, vb, vc, es),
                    forall|q: int| 0 <= q < t@.len() ==> names_first(
                        &self.ring,
                        es,
                        aff_value(&self.ring, va, vb, vc, self.ring.view_of(es[q / (n as int)]), self.ring.view_of(es[q % (n as int)])),
                        #[trigger] t@[q] as int,
                    ),
                decreases n - j,
            {
                proof {
                    assert(self.ring.mul_fits(va, self.ring.view_of(es[i as int])));
                    assert(self.ring.mul_fits(va, self.ring.view_of(es[j as int])));
                    assert(self.ring.mul_fits(vb, self.ring.view_of(es[j as int])));
                    assert(self.ring.add_fits(self.ring.spec_mul(va, self.ring.view_of(es[i as int])), self.ring.spec_mul(vb, self.ring.view_of(es[j as int]))));
                    assert(self.ring.add_fits(lin_value(&self.ring, va, vb, self.ring.view_of(es[i as int]), self.ring.view_of(es[j as int])), vc));
                }
                let mut v = self.ring.mul(&self.a, &elements[i]);
                let by = self.ring.mul(&self.b, &elements[j]);
                self.ring.add_assign(&mut v, &by);
                self.ring.add_assign(&mut v, &self.c);
                proof {
                    let target = aff_value(&self.ring, va, vb, vc, self.ring.view_of(es[i as int]), self.ring.view_of(es[j as int]));
                    assert(self.ring.view_of(v) == target);
                    assert(listed(&self.ring, es, target));
                }
                let k = position_of_value(&self.ring, elements, &v);
                let ghost before = t@;
                t.push(k as u8);
                proof {
                    lemma_cell_index(i as int, j as int, n as int);
                    assert forall|q: int| 0 <= q < t@.len() implies names_first(
                        &self.ring,
                        es,
                        aff_value(&self.ring, va, vb, vc, self.ring.view_of(es[q / (n as int)]), self.ring.view_of(es[q % (n as int)])),
                        #[trigger] t@[q] as int,
                    ) by {
                        if q < before.len() {
                            assert(t@[q] == before[q]);
                        } else {
                            assert(q == i * n + j);
                        }
                    }
                }
                j = j + 1;
            }
            proof {
                assert((i + 1) * n == i * n + n) by (nonlinear_arith);
            }
            i = i + 1;
        }
        proof {
            assert forall|i2: int, j2: int| 0 <= i2 < n && 0 <= j2 < n implies names_first(
                &self.ring,
                es,
                aff_value(&self.ring, va, vb, vc, self.ring.view_of(es[i2]), self.ring.view_of(es[j2])),
                #[trigger] t@[i2 * (n as int) + j2] as int,
            ) by {
                lemma_cell_index(i2, j2, n as int);
            }
        }
        t
    }
}

} // verus!
