//! Finite-magma signature engine.
//!
//! For a magma of size `n`, the signature is computed by sweeping variable
//! assignments against the shared subterm DAG. Refuting a law costs one bad
//! assignment; confirming it costs the full sweep, so the sweep visits
//! assignments in a stride order rather than lexicographic order, which
//! surfaces violations early for the many laws whose counterexamples cluster
//! at low-index assignments.

use crate::dag::{
    arity_rule, covered_by, dag_eval, dag_law_holds, has_bucket, nodes_wf, strictly_increasing,
    Dag, DagLaw, EvalPlan, Node, MAX_VARS,
};
use crate::coverage::{row_words_for, GraphCoverage};
use crate::law::{is_assignment, Law};
use crate::nt::{coprime, gcd, lemma_coprime_pow, lemma_stride_reaches};
use crate::sig::{count_true, lemma_count_true_all, lemma_count_true_clear, lemma_count_true_zero, Signature};
use vstd::arithmetic::div_mod::*;
use vstd::arithmetic::mul::*;
use vstd::arithmetic::power::*;
use vstd::prelude::*;

verus! {

/// A finite magma with carrier `{0, ..., n-1}` and `table[x * n + y] = x ◇ y`.
#[derive(PartialEq, Eq, Hash, Debug)]
pub struct FiniteMagma {
    pub n: usize,
    pub table: Vec<u8>,
}

/// Why a table was rejected.
#[derive(Debug)]
pub struct BadTable(pub String);

/// The table is a magma on `0..n`: a carrier of 1 to 255 elements, `n * n`
/// entries, each in the carrier.
pub open spec fn table_ok(n: nat, table: Seq<u8>) -> bool {
    &&& 1 <= n <= 255
    &&& table.len() == n * n
    &&& forall|i: int| 0 <= i < table.len() ==> table[i] < n
}

/// The carrier-size complaint.
fn msg_carrier(n: usize) -> (r: String)
    ensures
        r@ == "carrier size "@ + crate::problems::decimal(n as nat) + " out of range 1..=255"@,
{
    let mut out: Vec<char> = Vec::new();
    crate::problems::push_str(&mut out, "carrier size ");
    crate::problems::push_decimal(n as u64, &mut out);
    crate::problems::push_str(&mut out, " out of range 1..=255");
    crate::problems::string_of(out)
}

/// The table-length complaint.
fn msg_entries(len: usize, want: usize) -> (r: String)
    ensures
        r@ == "table has "@ + crate::problems::decimal(len as nat) + " entries, expected "@ + crate::problems::decimal(
            want as nat,
        ),
{
    let mut out: Vec<char> = Vec::new();
    crate::problems::push_str(&mut out, "table has ");
    crate::problems::push_decimal(len as u64, &mut out);
    crate::problems::push_str(&mut out, " entries, expected ");
    crate::problems::push_decimal(want as u64, &mut out);
    crate::problems::string_of(out)
}

/// The out-of-carrier complaint.
fn msg_entry(bad: u8, n: usize) -> (r: String)
    ensures
        r@ == "entry "@ + crate::problems::decimal(bad as nat) + " outside carrier of size "@ + crate::problems::decimal(
            n as nat,
        ),
{
    let mut out: Vec<char> = Vec::new();
    crate::problems::push_str(&mut out, "entry ");
    crate::problems::push_decimal(bad as u64, &mut out);
    crate::problems::push_str(&mut out, " outside carrier of size ");
    crate::problems::push_decimal(n as u64, &mut out);
    crate::problems::string_of(out)
}

/// The ragged-row complaint.
fn msg_row(len: usize, n: usize) -> (r: String)
    ensures
        r@ == "row of length "@ + crate::problems::decimal(len as nat) + " in a "@ + crate::problems::decimal(n as nat)
            + "-element table"@,
{
    let mut out: Vec<char> = Vec::new();
    crate::problems::push_str(&mut out, "row of length ");
    crate::problems::push_decimal(len as u64, &mut out);
    crate::problems::push_str(&mut out, " in a ");
    crate::problems::push_decimal(n as u64, &mut out);
    crate::problems::push_str(&mut out, "-element table");
    crate::problems::string_of(out)
}

impl FiniteMagma {
    pub open spec fn wf(&self) -> bool {
        table_ok(self.n as nat, self.table@)
    }

    /// The magma satisfies `law`.
    pub open spec fn satisfies(&self, law: &Law) -> bool {
        law.holds_in(self.table@, self.n as nat)
    }

    /// Validate a table.
    pub fn new(n: usize, table: Vec<u8>) -> (r: Result<FiniteMagma, BadTable>)
        ensures
            r is Ok <==> table_ok(n as nat, table@),
            r matches Ok(m) ==> m.n == n && m.table@ == table@,
            (n == 0 || n > 255) ==> (r matches Err(e) && e.0@ == "carrier size "@ + crate::problems::decimal(n as nat)
                + " out of range 1..=255"@),
            1 <= n <= 255 && table@.len() != n * n ==> (r matches Err(e) && e.0@ == "table has "@
                + crate::problems::decimal(table@.len()) + " entries, expected "@ + crate::problems::decimal((n * n) as nat)),
            1 <= n <= 255 && table@.len() == n * n && !table_ok(n as nat, table@) ==> (r matches Err(e) && exists|j: int|
                0 <= j < table@.len() && table@[j] >= n && (forall|q: int| 0 <= q < j ==> table@[q] < n) && e.0@ == "entry "@
                    + crate::problems::decimal(#[trigger] table@[j] as nat) + " outside carrier of size "@
                    + crate::problems::decimal(n as nat)),
    {
        if n == 0 || n > 255 {
            return Err(BadTable(msg_carrier(n)));
        }
        proof {
            assert(n * n <= 255 * 255) by (nonlinear_arith)
                requires
                    n <= 255,
            ;
        }
        if table.len() != n * n {
            return Err(BadTable(msg_entries(table.len(), n * n)));
        }
        let mut i: usize = 0;
        while i < table.len()
            invariant
                i <= table@.len(),
                1 <= n <= 255,
                table@.len() == n * n,
                forall|j: int| 0 <= j < i ==> table@[j] < n,
            decreases table@.len() - i,
        {
            if table[i] as usize >= n {
                return Err(BadTable(msg_entry(table[i], n)));
            }
            i = i + 1;
        }
        Ok(FiniteMagma { n, table })
    }

    /// Build from a row-major nested list, the form used by the ETP data
    /// files (`Table [[0, 0], [1, 0]]`).
    pub fn from_rows(rows: &[Vec<u8>]) -> (r: Result<FiniteMagma, BadTable>)
        ensures
            r is Ok <==> rows_ok(row_views(rows@)),
            r matches Ok(m) ==> m.n == rows@.len() && m.table@ == flatten_rows(row_views(rows@)),
    {
        let n = rows.len();
        let ghost views = row_views(rows@);
        let mut table: Vec<u8> = Vec::new();
        let mut i: usize = 0;
        while i < n
            invariant
                n == rows@.len(),
                views == row_views(rows@),
                i <= n,
                forall|q: int| 0 <= q < i ==> (#[trigger] views[q]).len() == n,
                table@ == flatten_rows(views.take(i as int)),
            decreases n - i,
        {
            let r = &rows[i];
            if r.len() != n {
                proof {
                    assert(views[i as int] == r@);
                }
                return Err(BadTable(msg_row(r.len(), n)));
            }
            proof {
                assert(views.take(i + 1).drop_last() =~= views.take(i as int));
                assert(views.take(i + 1).last() == r@);
            }
            table.extend_from_slice(r.as_slice());
            i = i + 1;
        }
        proof {
            assert(views.take(n as int) =~= views);
        }
        FiniteMagma::new(n, table)
    }

    /// `x ◇ y`.
    pub fn op(&self, x: u8, y: u8) -> (r: u8)
        requires
            self.wf(),
            x < self.n,
            y < self.n,
        ensures
            r == self.table@[x * self.n + y],
            r < self.n,
    {
        proof {
            assert(x * self.n + y < self.n * self.n && self.n * self.n <= 65025) by (nonlinear_arith)
                requires
                    x < self.n,
                    y < self.n,
                    self.n <= 255,
            ;
        }
        self.table[x as usize * self.n + y as usize]
    }
}

impl Clone for FiniteMagma {
    fn clone(&self) -> (r: Self)
        ensures
            r.n == self.n,
            r.table@ == self.table@,
    {
        FiniteMagma { n: self.n, table: self.table.clone() }
    }
}

/// The contents of a list of rows.
pub open spec fn row_views(rows: Seq<Vec<u8>>) -> Seq<Seq<u8>> {
    rows.map_values(|r: Vec<u8>| r@)
}

/// The rows of a nested table, concatenated.
pub open spec fn flatten_rows(rows: Seq<Seq<u8>>) -> Seq<u8>
    decreases rows.len(),
{
    if rows.len() == 0 {
        Seq::empty()
    } else {
        flatten_rows(rows.drop_last()) + rows.last()
    }
}

/// Square rows that form a valid table.
pub open spec fn rows_ok(rows: Seq<Seq<u8>>) -> bool {
    &&& forall|i: int| 0 <= i < rows.len() ==> (#[trigger] rows[i]).len() == rows.len()
    &&& table_ok(rows.len(), flatten_rows(rows))
}

/// `b^e` on machine integers; the caller guarantees it fits.
pub fn pow_u64(b: u64, e: u32) -> (r: u64)
    requires
        pow(b as int, e as nat) <= u64::MAX,
    ensures
        r == pow(b as int, e as nat),
{
    let mut r: u64 = 1;
    let mut i: u32 = 0;
    proof {
        reveal(pow);
    }
    while i < e
        invariant
            i <= e,
            r == pow(b as int, i as nat),
            pow(b as int, e as nat) <= u64::MAX,
        decreases e - i,
    {
        proof {
            reveal(pow);
            assert(pow(b as int, (i + 1) as nat) == b * pow(b as int, i as nat));
            if b > 0 {
                lemma_pow_increases(b as nat, (i + 1) as nat, e as nat);
            }
            assert(r * b == b * r) by (nonlinear_arith);
        }
        r = r * b;
        i = i + 1;
    }
    r
}

/// The assignment that index `idx` names: variable `j` gets the `j`th
/// base-`n` digit of `idx`, least significant first.
pub open spec fn digits_of(idx: nat, n: nat, k: nat) -> Seq<u8> {
    Seq::new(k, |j: int| (((idx as int) / pow(n as int, j as nat)) % (n as int)) as u8)
}

/// The index of an assignment, its entries read as base-`n` digits.
pub open spec fn encode(vals: Seq<u8>, n: nat) -> nat
    decreases vals.len(),
{
    if vals.len() == 0 {
        0
    } else {
        (vals[0] + n * encode(vals.drop_first(), n)) as nat
    }
}

pub(crate) proof fn lemma_encode_bound(vals: Seq<u8>, n: nat)
    requires
        n >= 1,
        forall|j: int| 0 <= j < vals.len() ==> vals[j] < n,
    ensures
        encode(vals, n) < pow(n as int, vals.len()),
    decreases vals.len(),
{
    reveal(pow);
    if vals.len() > 0 {
        let rest = vals.drop_first();
        lemma_encode_bound(rest, n);
        let e = encode(rest, n);
        let p = pow(n as int, rest.len());
        assert(pow(n as int, vals.len()) == n * p);
        assert(vals[0] + n * e < n * p) by (nonlinear_arith)
            requires
                vals[0] < n,
                e < p,
                e >= 0,
        ;
    }
}

pub(crate) proof fn lemma_encode_digits(vals: Seq<u8>, n: nat, j: nat)
    requires
        n >= 1,
        forall|q: int| 0 <= q < vals.len() ==> vals[q] < n,
        j < vals.len(),
    ensures
        ((encode(vals, n) as int) / pow(n as int, j)) % (n as int) == vals[j as int],
    decreases j,
{
    reveal(pow);
    let rest = vals.drop_first();
    let e = encode(rest, n);
    assert(encode(vals, n) == e * n + vals[0]) by (nonlinear_arith)
        requires
            encode(vals, n) == vals[0] + n * e,
    ;
    lemma_fundamental_div_mod_converse(encode(vals, n) as int, n as int, e as int, vals[0] as int);
    if j == 0 {
        assert(pow(n as int, 0) == 1);
    } else {
        lemma_pow_positive(n as int, (j - 1) as nat);
        assert(pow(n as int, j) == n * pow(n as int, (j - 1) as nat));
        lemma_div_denominator(encode(vals, n) as int, n as int, pow(n as int, (j - 1) as nat));
        lemma_encode_digits(rest, n, (j - 1) as nat);
    }
}

/// Every assignment is named by some index below `n^k`.
pub proof fn lemma_assignment_has_index(vals: Seq<u8>, n: nat, k: nat)
    requires
        n >= 1,
        is_assignment(vals, k, n),
    ensures
        encode(vals, n) < pow(n as int, k),
        digits_of(encode(vals, n), n, k) == vals,
{
    lemma_encode_bound(vals, n);
    assert forall|j: int| 0 <= j < k implies #[trigger] digits_of(encode(vals, n), n, k)[j]
        == vals[j] by {
        lemma_encode_digits(vals, n, j as nat);
    }
    assert(digits_of(encode(vals, n), n, k) =~= vals);
}

/// The assignment an index names is an assignment.
pub proof fn lemma_digits_are_assignment(idx: nat, n: nat, k: nat)
    requires
        n >= 1,
    ensures
        is_assignment(digits_of(idx, n, k), k, n),
{
    assert forall|j: int| 0 <= j < k implies #[trigger] digits_of(idx, n, k)[j] < n by {
        lemma_pow_positive(n as int, j as nat);
        lemma_div_pos_is_pos(idx as int, pow(n as int, j as nat));
        lemma_mod_bound((idx as int) / pow(n as int, j as nat), n as int);
    }
}

/// A node of arity at most `vals.len()` evaluates into the carrier.
pub proof fn lemma_dag_eval_in_carrier(
    nodes: Seq<Node>,
    arity: Seq<u8>,
    i: int,
    table: Seq<u8>,
    n: nat,
    vals: Seq<u8>,
)
    requires
        nodes_wf(nodes, arity),
        0 <= i < nodes.len(),
        arity[i] <= vals.len(),
        table_ok(n, table),
        forall|j: int| 0 <= j < vals.len() ==> vals[j] < n,
    ensures
        dag_eval(nodes, i, table, n, vals) < n,
    decreases i,
{
    assert(arity_rule(nodes, arity, i));
    match nodes[i] {
        Node::Var(v) => {},
        Node::Op(a, b) => {
            if i < MAX_VARS {
                assert(nodes[i] == Node::Var(i as u8));
            }
            lemma_dag_eval_in_carrier(nodes, arity, a as int, table, n, vals);
            lemma_dag_eval_in_carrier(nodes, arity, b as int, table, n, vals);
            let x = dag_eval(nodes, a as int, table, n, vals);
            let y = dag_eval(nodes, b as int, table, n, vals);
            assert(x * n + y < n * n) by (nonlinear_arith)
                requires
                    x < n,
                    y < n,
            ;
        },
    }
}


/// Both sides of the law agree under the assignment.
pub open spec fn agrees(nodes: Seq<Node>, law: DagLaw, table: Seq<u8>, n: nat, vals: Seq<u8>) -> bool {
    dag_eval(nodes, law.lhs as int, table, n, vals) == dag_eval(nodes, law.rhs as int, table, n, vals)
}

/// How many of the listed laws are still live.
pub open spec fn count_live(laws: Seq<u32>, live: Seq<bool>) -> nat {
    count_true(laws.map_values(|l: u32| live[l as int]))
}

proof fn lemma_count_live_all(laws: Seq<u32>, live: Seq<bool>)
    requires
        forall|j: int| 0 <= j < laws.len() ==> live[#[trigger] laws[j] as int],
    ensures
        count_live(laws, live) == laws.len(),
{
    lemma_count_true_all(laws.map_values(|l: u32| live[l as int]));
}

proof fn lemma_count_live_zero(laws: Seq<u32>, live: Seq<bool>, j: int)
    requires
        count_live(laws, live) == 0,
        0 <= j < laws.len(),
    ensures
        !live[laws[j] as int],
{
    lemma_count_true_zero(laws.map_values(|l: u32| live[l as int]), j);
}

proof fn lemma_count_live_clear(laws: Seq<u32>, live: Seq<bool>, j: int)
    requires
        strictly_increasing(laws),
        0 <= j < laws.len(),
        forall|i: int| 0 <= i < laws.len() ==> 0 <= #[trigger] laws[i] < live.len(),
        live[laws[j] as int],
    ensures
        count_live(laws, live.update(laws[j] as int, false)) + 1 == count_live(laws, live),
{
    let a = laws.map_values(|l: u32| live[l as int]);
    let b = laws.map_values(|l: u32| live.update(laws[j] as int, false)[l as int]);
    assert forall|i: int| 0 <= i < laws.len() implies b[i] == a.update(j, false)[i] by {
        if i != j {
            if i < j {
                assert(laws[i] < laws[j]);
            } else {
                assert(laws[j] < laws[i]);
            }
        }
    }
    assert(b =~= a.update(j, false));
    lemma_count_true_clear(a, j);
}

/// A starting stride near `total` times the golden ratio's fractional part,
/// computed in 64-bit fixed point.
fn golden_start(total: u64) -> (s: u64)
    requires
        total >= 1,
    ensures
        s < total,
        s == (total * 0x9E37_79B9_7F4A_7C15int) / 0x1_0000_0000_0000_0000int,
{
    let c: u128 = 0x9E37_79B9_7F4A_7C15u128;
    let x = total as u128 * c;
    let s = x / 0x1_0000_0000_0000_0000u128;
    proof {
        assert(x < (total as int) * 0x1_0000_0000_0000_0000int) by (nonlinear_arith)
            requires
                x == total * c,
                c < 0x1_0000_0000_0000_0000int,
                total >= 1,
        ;
        lemma_div_by_multiple_is_strongly_ordered_helper(x as int, total as int);
    }
    s as u64
}

proof fn lemma_div_by_multiple_is_strongly_ordered_helper(x: int, total: int)
    requires
        0 <= x < total * 0x1_0000_0000_0000_0000int,
        total >= 1,
    ensures
        x / 0x1_0000_0000_0000_0000int < total,
{
    lemma_fundamental_div_mod(x, 0x1_0000_0000_0000_0000int);
    lemma_mod_bound(x, 0x1_0000_0000_0000_0000int);
    let q = x / 0x1_0000_0000_0000_0000int;
    if q >= total {
        assert(0x1_0000_0000_0000_0000int * q >= 0x1_0000_0000_0000_0000int * total) by (nonlinear_arith)
            requires
                q >= total,
        ;
    }
}

/// A stride that walks all of `0..total` in an order uncorrelated with the
/// carrier's numbering. Any value coprime to `n` is coprime to `n^k` and so
/// generates the additive group; the golden-ratio starting point is
/// deterministic, which keeps runs reproducible without a seed.
fn coprime_stride(total: u64, n: u64) -> (s: u64)
    requires
        total >= 1,
        n >= 1,
    ensures
        1 <= s <= total,
        coprime(s as int, n as int),
{
    proof {
        assert(1 * 1 + (n as int) * 0 == 1);
    }
    if total <= 2 {
        return 1;
    }
    let mut s = golden_start(total);
    if s == 0 {
        s = 1;
    }
    while gcd(s, n) != 1
        invariant
            1 <= s < total,
            coprime(1, n as int),
        decreases total - s,
    {
        s = s + 1;
        if s >= total {
            return 1;
        }
    }
    s
}

/// `b^e` on 128-bit integers; the caller guarantees it fits.
pub fn pow_u128(b: u128, e: u32) -> (r: u128)
    requires
        pow(b as int, e as nat) <= u128::MAX,
    ensures
        r == pow(b as int, e as nat),
{
    let mut r: u128 = 1;
    let mut i: u32 = 0;
    proof {
        reveal(pow);
    }
    while i < e
        invariant
            i <= e,
            r == pow(b as int, i as nat),
            pow(b as int, e as nat) <= u128::MAX,
        decreases e - i,
    {
        proof {
            reveal(pow);
            assert(pow(b as int, (i + 1) as nat) == b * pow(b as int, i as nat));
            if b > 0 {
                lemma_pow_increases(b as nat, (i + 1) as nat, e as nat);
            }
            assert(r * b == b * r) by (nonlinear_arith);
        }
        r = r * b;
        i = i + 1;
    }
    r
}

proof fn lemma_pow_nonneg(b: int, e: nat)
    requires
        b >= 0,
    ensures
        pow(b, e) >= 0,
    decreases e,
{
    reveal(pow);
    if e > 0 {
        lemma_pow_nonneg(b, (e - 1) as nat);
        lemma_mul_nonnegative(b, pow(b, (e - 1) as nat));
    }
}

proof fn lemma_cost_from_mono(plan: &EvalPlan, q: int, n: nat)
    requires
        0 <= q,
    ensures
        cost_from(plan, q, n) <= cost_from(plan, 0, n),
    decreases q,
{
    if q > 0 {
        lemma_cost_from_mono(plan, q - 1, n);
        if q - 1 < plan.buckets@.len() {
            lemma_pow_nonneg(n as int, plan.buckets@[q - 1].arity as nat);
            lemma_mul_nonnegative(
                pow(n as int, plan.buckets@[q - 1].arity as nat),
                plan.buckets@[q - 1].order@.len() as int,
            );
        }
    }
}

/// Reusable scratch space, so a survey over many magmas allocates once.
pub struct Scratch {
    vals: Vec<u8>,
    live: Vec<bool>,
    digits: Vec<u8>,
}

impl Scratch {
    /// Sized for `dag`.
    pub closed spec fn fits(&self, dag: &Dag) -> bool {
        &&& self.vals@.len() == dag.nodes@.len()
        &&& self.live@.len() == dag.laws@.len()
        &&& self.digits@.len() == MAX_VARS
    }

    pub fn new(dag: &Dag) -> (s: Scratch)
        ensures
            s.fits(dag),
    {
        Scratch {
            vals: vec![0u8; dag.nodes.len()],
            live: vec![false; dag.laws.len()],
            digits: vec![0u8; MAX_VARS],
        }
    }
}

pub struct Engine {
    pub dag: Dag,
    pub plan: EvalPlan,
}

/// Number of DAG node evaluations the buckets from `q` on cost for a magma
/// of size `n`, ignoring early exit.
pub open spec fn cost_from(plan: &EvalPlan, q: int, n: nat) -> nat
    decreases plan.buckets@.len() - q,
{
    if q < 0 || q >= plan.buckets@.len() {
        0
    } else {
        (pow(n as int, plan.buckets@[q].arity as nat) * plan.buckets@[q].order@.len()) as nat
            + cost_from(plan, q + 1, n)
    }
}

/// Every law of the DAG can be swept exhaustively on a carrier of size
/// `n`: `n^arity` assignments fit in 32 bits.
pub open spec fn sweepable(dag: &Dag, n: nat) -> bool {
    forall|l: int|
        0 <= l < dag.laws@.len() ==> pow(n as int, (#[trigger] dag.laws@[l]).arity as nat)
            <= u32::MAX
}

impl Engine {
    pub open spec fn wf(&self) -> bool {
        self.dag.wf() && self.dag.plan_ok(&self.plan)
    }

    /// Law `l` of the engine's list holds in `m`.
    pub open spec fn law_holds(&self, l: int, m: &FiniteMagma) -> bool {
        dag_law_holds(self.dag.nodes@, self.dag.laws@[l], m.table@, m.n as nat)
    }

    pub fn new(dag: Dag) -> (e: Engine)
        requires
            dag.wf(),
        ensures
            e.wf(),
            e.dag == dag,
    {
        let plan = EvalPlan::build(&dag);
        Engine { dag, plan }
    }

    pub fn n_laws(&self) -> (r: usize)
        ensures
            r == self.dag.laws@.len(),
    {
        self.dag.n_laws()
    }

    /// Number of DAG node evaluations an exhaustive signature costs, as an
    /// upper bound ignoring early exit. Callers use this to decide whether a
    /// magma is small enough to sweep.
    pub fn cost(&self, n: usize) -> (r: u128)
        requires
            cost_from(&self.plan, 0, n as nat) <= u128::MAX,
            forall|q: int|
                0 <= q < self.plan.buckets@.len() ==> pow(
                    n as int,
                    (#[trigger] self.plan.buckets@[q]).arity as nat,
                ) <= u128::MAX,
        ensures
            r == cost_from(&self.plan, 0, n as nat),
    {
        let nb = self.plan.buckets.len();
        let mut total: u128 = 0;
        let mut q: usize = nb;
        while q > 0
            invariant
                q <= nb,
                nb == self.plan.buckets@.len(),
                total == cost_from(&self.plan, q as int, n as nat),
                cost_from(&self.plan, 0, n as nat) <= u128::MAX,
                forall|q: int|
                    0 <= q < self.plan.buckets@.len() ==> pow(
                        n as int,
                        (#[trigger] self.plan.buckets@[q]).arity as nat,
                    ) <= u128::MAX,
            decreases q,
        {
            q = q - 1;
            let b = &self.plan.buckets[q];
            proof {
                lemma_cost_from_mono(&self.plan, q as int, n as nat);
                lemma_pow_nonneg(n as int, b.arity as nat);
                assert(pow(n as int, b.arity as nat) * b.order@.len() >= 0) by (nonlinear_arith)
                    requires
                        pow(n as int, b.arity as nat) >= 0,
                ;
                assert(pow(n as int, b.arity as nat) <= u128::MAX);
            }
            let p = pow_u128(n as u128, b.arity as u32);
            let c = p * (b.order.len() as u128);
            total = total + c;
        }
        total
    }

    pub fn signature(&self, m: &FiniteMagma) -> (sig: Signature)
        requires
            self.wf(),
            m.wf(),
            sweepable(&self.dag, m.n as nat),
        ensures
            sig@.len() == self.dag.laws@.len(),
            forall|l: int| 0 <= l < sig@.len() ==> sig@[l] == self.law_holds(l, m),
    {
        let mut scratch = Scratch::new(&self.dag);
        self.signature_with(m, &mut scratch)
    }

    /// The full signature of `m`: bit `l` is set exactly when law `l` holds
    /// in `m`.
    pub fn signature_with(&self, m: &FiniteMagma, s: &mut Scratch) -> (sig: Signature)
        requires
            self.wf(),
            m.wf(),
            old(s).fits(&self.dag),
            sweepable(&self.dag, m.n as nat),
        ensures
            final(s).fits(&self.dag),
            sig@.len() == self.dag.laws@.len(),
            forall|l: int| 0 <= l < sig@.len() ==> sig@[l] == self.law_holds(l, m),
    {
        let n = m.n;
        let mut sig = Signature::zeros(self.dag.laws.len());
        let nb = self.plan.buckets.len();
        let mut bi: usize = 0;
        while bi < nb
            invariant
                self.wf(),
                m.wf(),
                n == m.n,
                nb == self.plan.buckets@.len(),
                bi <= nb,
                s.fits(&self.dag),
                sweepable(&self.dag, m.n as nat),
                sig@.len() == self.dag.laws@.len(),
                forall|l: int|
                    0 <= l < sig@.len() ==> #[trigger] sig@[l] == (has_bucket(
                        self.plan.buckets@.take(bi as int),
                        self.dag.laws@[l].arity,
                    ) && self.law_holds(l, m)),
            decreases nb - bi,
        {
            let ghost sig0 = sig@;
            proof {
                assert forall|l: int|
                    0 <= l < sig@.len() && (#[trigger] self.dag.laws@[l]).arity
                        == self.plan.buckets@[bi as int].arity implies !sig@[l] by {
                    let pre = self.plan.buckets@.take(bi as int);
                    if has_bucket(pre, self.dag.laws@[l].arity) {
                        let q = choose|q: int| 0 <= q < pre.len() && (#[trigger] pre[q]).arity
                            == self.dag.laws@[l].arity;
                        assert(self.plan.buckets@[q].arity < self.plan.buckets@[bi as int].arity);
                    }
                }
            }
            self.sweep_bucket(m, s, bi, &mut sig);
            proof {
                let b = self.plan.buckets@[bi as int];
                assert forall|l: int| 0 <= l < sig@.len() implies #[trigger] sig@[l] == (has_bucket(
                    self.plan.buckets@.take(bi + 1),
                    self.dag.laws@[l].arity,
                ) && self.law_holds(l, m)) by {
                    let a = self.dag.laws@[l].arity;
                    let pre = self.plan.buckets@.take(bi as int);
                    let post = self.plan.buckets@.take(bi + 1);
                    if has_bucket(pre, a) {
                        let q = choose|q: int| 0 <= q < pre.len() && (#[trigger] pre[q]).arity == a;
                        assert(post[q] == pre[q]);
                    }
                    if has_bucket(post, a) {
                        let q = choose|q: int| 0 <= q < post.len() && (#[trigger] post[q]).arity
                            == a;
                        if q < bi {
                            assert(post[q] == pre[q]);
                        }
                    }
                    if a == b.arity {
                        assert(post[bi as int] == b);
                        assert(has_bucket(post, a));
                        assert(self.plan.buckets@[bi as int].arity == a);
                        // Earlier buckets have smaller arity.
                        if has_bucket(pre, a) {
                            let q = choose|q: int| 0 <= q < pre.len() && (#[trigger] pre[q]).arity
                                == a;
                            assert(self.plan.buckets@[q].arity < self.plan.buckets@[bi as int].arity);
                        }
                    }
                }
            }
            bi = bi + 1;
        }
        proof {
            assert(self.plan.buckets@.take(nb as int) =~= self.plan.buckets@);
            assert forall|l: int| 0 <= l < sig@.len() implies #[trigger] sig@[l] == self.law_holds(
                l,
                m,
            ) by {
                assert(has_bucket(self.plan.buckets@, self.dag.laws@[l].arity));
            }
        }
        sig
    }


    /// Write the digits of `idx` into the scratch and into the first `k`
    /// variable slots.
    fn load_digits(&self, m: &FiniteMagma, s: &mut Scratch, idx: u64, k: u8)
        requires
            self.wf(),
            m.wf(),
            old(s).fits(&self.dag),
            1 <= k <= MAX_VARS,
        ensures
            final(s).fits(&self.dag),
            final(s).live@ == old(s).live@,
            forall|v: int| 0 <= v < k ==> final(s).vals@[v] == digits_of(idx as nat, m.n as nat, k as nat)[v],
            forall|j: int| k <= j < final(s).vals@.len() ==> final(s).vals@[j] == old(s).vals@[j],
    {
        let n = m.n as u64;
        let mut rem = idx;
        let mut j: usize = 0;
        proof {
            reveal(pow);
        }
        while j < k as usize
            invariant
                self.wf(),
                s.fits(&self.dag),
                s.live@ == old(s).live@,
                s.vals@ == old(s).vals@,
                1 <= n <= 255,
                n == m.n,
                j <= k <= MAX_VARS,
                rem == (idx as int) / pow(n as int, j as nat),
                forall|q: int| 0 <= q < j ==> s.digits@[q] == digits_of(idx as nat, n as nat, k as nat)[q],
            decreases k - j,
        {
            proof {
                lemma_pow_positive(n as int, j as nat);
                lemma_div_denominator(idx as int, pow(n as int, j as nat), n as int);
                assert(pow(n as int, (j + 1) as nat) == n * pow(n as int, j as nat)) by {
                    reveal(pow);
                }
                assert(pow(n as int, j as nat) * n == n * pow(n as int, j as nat)) by (nonlinear_arith);
            }
            s.digits.set(j, (rem % n) as u8);
            rem = rem / n;
            j = j + 1;
        }
        let mut j: usize = 0;
        while j < k as usize
            invariant
                self.wf(),
                s.fits(&self.dag),
                s.live@ == old(s).live@,
                j <= k <= MAX_VARS,
                forall|q: int| 0 <= q < k ==> s.digits@[q] == digits_of(idx as nat, m.n as nat, k as nat)[q],
                forall|q: int| 0 <= q < j ==> s.vals@[q] == digits_of(idx as nat, m.n as nat, k as nat)[q],
                forall|q: int| k <= q < s.vals@.len() ==> s.vals@[q] == old(s).vals@[q],
            decreases k - j,
        {
            let d = s.digits[j];
            s.vals.set(j, d);
            j = j + 1;
        }
    }

    #[verifier::loop_isolation(false)]
    /// Evaluate the bucket's nodes in order under the assignment held in the
    /// first `k` variable slots.
    fn eval_order(&self, m: &FiniteMagma, s: &mut Scratch, bi: usize, asg: Ghost<Seq<u8>>)
        requires
            self.wf(),
            m.wf(),
            old(s).fits(&self.dag),
            bi < self.plan.buckets@.len(),
            is_assignment(asg@, self.plan.buckets@[bi as int].arity as nat, m.n as nat),
            forall|v: int|
                0 <= v < self.plan.buckets@[bi as int].arity ==> old(s).vals@[v] == asg@[v],
        ensures
            final(s).fits(&self.dag),
            final(s).live@ == old(s).live@,
            forall|v: int|
                0 <= v < self.plan.buckets@[bi as int].arity ==> final(s).vals@[v] == asg@[v],
            forall|q: int|
                0 <= q < self.plan.buckets@[bi as int].order@.len() ==> final(s).vals@[
                    #[trigger] self.plan.buckets@[bi as int].order@[q] as int] == dag_eval(
                    self.dag.nodes@,
                    self.plan.buckets@[bi as int].order@[q] as int,
                    m.table@,
                    m.n as nat,
                    asg@,
                ),
    {
        let bucket = &self.plan.buckets[bi];
        let ghost k = bucket.arity;
        let ghost nodes = self.dag.nodes@;
        let ghost arity = self.dag.arity@;
        let n = m.n;
        proof {
            assert(self.dag.bucket_ok(&self.plan.buckets@[bi as int]));
        }
        let mut p: usize = 0;
        while p < bucket.order.len()
            invariant
                self.wf(),
                m.wf(),
                n == m.n,
                bucket == self.plan.buckets@[bi as int],
                self.dag.bucket_ok(bucket),
                k == bucket.arity,
                nodes == self.dag.nodes@,
                arity == self.dag.arity@,
                is_assignment(asg@, k as nat, n as nat),
                s.fits(&self.dag),
                s.live@ == old(s).live@,
                p <= bucket.order@.len(),
                forall|v: int| 0 <= v < k ==> s.vals@[v] == asg@[v],
                forall|q: int|
                    0 <= q < p ==> s.vals@[#[trigger] bucket.order@[q] as int] == dag_eval(
                        nodes,
                        bucket.order@[q] as int,
                        m.table@,
                        n as nat,
                        asg@,
                    ),
            decreases bucket.order@.len() - p,
        {
            let nid = bucket.order[p] as usize;
            proof {
                assert(MAX_VARS <= nid < nodes.len());
                assert(nodes[nid as int] matches Node::Op(a, b) && a < nid && b < nid);
                assert(arity_rule(nodes, arity, nid as int));
            }
            match self.dag.nodes[nid] {
                Node::Op(a, b) => {
                    proof {
                        assert(covered_by(bucket.order@, a) && covered_by(bucket.order@, b));
                        assert(arity[a as int] <= k && arity[b as int] <= k);
                        assert forall|c: u32| c == a || c == b implies s.vals@[c as int] == dag_eval(
                            nodes,
                            c as int,
                            m.table@,
                            n as nat,
                            asg@,
                        ) by {
                            if c < MAX_VARS {
                                assert(nodes[c as int] == Node::Var(c as u8));
                                assert(arity_rule(nodes, arity, c as int));
                            } else {
                                let q = choose|q: int| 0 <= q < bucket.order@.len() && bucket.order@[q] == c;
                                if q >= p {
                                    if q > p {
                                        assert(bucket.order@[p as int] < bucket.order@[q]);
                                    }
                                    assert(false);
                                }
                            }
                        }
                        lemma_dag_eval_in_carrier(nodes, arity, a as int, m.table@, n as nat, asg@);
                        lemma_dag_eval_in_carrier(nodes, arity, b as int, m.table@, n as nat, asg@);
                    }
                    let x = s.vals[a as usize] as usize;
                    let y = s.vals[b as usize] as usize;
                    proof {
                        assert(x * n + y < n * n && n * n <= 65025) by (nonlinear_arith)
                            requires
                                x < n,
                                y < n,
                                n <= 255,
                        ;
                    }
                    let v = m.table[x * n + y];
                    let ghost before = s.vals@;
                    s.vals.set(nid, v);
                    proof {
                        assert forall|q: int| 0 <= q < p + 1 implies s.vals@[
                            #[trigger] bucket.order@[q] as int] == dag_eval(
                            nodes,
                            bucket.order@[q] as int,
                            m.table@,
                            n as nat,
                            asg@,
                        ) by {
                            if q < p {
                                assert(bucket.order@[q] < bucket.order@[p as int]);
                                assert(s.vals@[bucket.order@[q] as int] == before[bucket.order@[q] as int]);
                            }
                        }
                    }
                },
                Node::Var(_) => {
                    proof {
                        assert(false);
                    }
                },
            }
            p = p + 1;
        }
    }

    /// Retire every live law of the bucket whose two sides disagree under the
    /// assignment just evaluated.
    #[verifier::loop_isolation(false)]
    fn refute(
        &self,
        m: &FiniteMagma,
        s: &mut Scratch,
        bi: usize,
        asg: Ghost<Seq<u8>>,
        n_live: &mut usize,
    )
        requires
            self.wf(),
            m.wf(),
            old(s).fits(&self.dag),
            bi < self.plan.buckets@.len(),
            is_assignment(asg@, self.plan.buckets@[bi as int].arity as nat, m.n as nat),
            forall|v: int|
                0 <= v < self.plan.buckets@[bi as int].arity ==> old(s).vals@[v] == asg@[v],
            forall|q: int|
                0 <= q < self.plan.buckets@[bi as int].order@.len() ==> old(s).vals@[
                    #[trigger] self.plan.buckets@[bi as int].order@[q] as int] == dag_eval(
                    self.dag.nodes@,
                    self.plan.buckets@[bi as int].order@[q] as int,
                    m.table@,
                    m.n as nat,
                    asg@,
                ),
            *old(n_live) == count_live(self.plan.buckets@[bi as int].laws@, old(s).live@),
        ensures
            final(s).fits(&self.dag),
            *final(n_live) == count_live(self.plan.buckets@[bi as int].laws@, final(s).live@),
            forall|j: int|
                0 <= j < self.plan.buckets@[bi as int].laws@.len() ==> #[trigger] final(s).live@[
                    self.plan.buckets@[bi as int].laws@[j] as int] == (old(s).live@[
                    self.plan.buckets@[bi as int].laws@[j] as int] && agrees(
                    self.dag.nodes@,
                    self.dag.laws@[self.plan.buckets@[bi as int].laws@[j] as int],
                    m.table@,
                    m.n as nat,
                    asg@,
                )),
    {
        let bucket = &self.plan.buckets[bi];
        let ghost k = bucket.arity;
        let ghost nodes = self.dag.nodes@;
        let ghost arity = self.dag.arity@;
        let ghost blaws = bucket.laws@;
        proof {
            assert(self.dag.bucket_ok(&self.plan.buckets@[bi as int]));
        }
        let mut q: usize = 0;
        while q < bucket.laws.len()
            invariant
                self.wf(),
                m.wf(),
                bucket == self.plan.buckets@[bi as int],
                self.dag.bucket_ok(bucket),
                k == bucket.arity,
                blaws == bucket.laws@,
                nodes == self.dag.nodes@,
                arity == self.dag.arity@,
                s.fits(&self.dag),
                s.vals@ == old(s).vals@,
                q <= blaws.len(),
                *n_live == count_live(blaws, s.live@),
                forall|j: int|
                    0 <= j < q ==> #[trigger] s.live@[blaws[j] as int] == (old(s).live@[blaws[j] as int]
                        && agrees(nodes, self.dag.laws@[blaws[j] as int], m.table@, m.n as nat, asg@)),
                forall|j: int| q <= j < blaws.len() ==> #[trigger] s.live@[blaws[j] as int] == old(s).live@[blaws[j] as int],
            decreases blaws.len() - q,
        {
            let li = bucket.laws[q] as usize;
            if s.live[li] {
                let law = self.dag.laws[li];
                proof {
                    assert(law.arity == k);
                    assert(self.dag.laws@[li as int] == law);
                    assert(self.dag.laws@[blaws[q as int] as int] == law);
                    assert forall|c: u32| c == law.lhs || c == law.rhs implies s.vals@[c as int] == dag_eval(
                        nodes,
                        c as int,
                        m.table@,
                        m.n as nat,
                        asg@,
                    ) by {
                        assert(covered_by(bucket.order@, c));
                        if c < MAX_VARS {
                            assert(nodes[c as int] == Node::Var(c as u8));
                            assert(arity_rule(nodes, arity, c as int));
                            assert(arity[c as int] <= k);
                            assert(old(s).vals@[c as int] == asg@[c as int]);
                        } else {
                            let p = choose|p: int| 0 <= p < bucket.order@.len() && bucket.order@[p] == c;
                            assert(self.plan.buckets@[bi as int].order@[p] == c);
                            assert(s.vals@[bucket.order@[p] as int] == dag_eval(
                                nodes,
                                bucket.order@[p] as int,
                                m.table@,
                                m.n as nat,
                                asg@,
                            ));
                        }
                    }
                }
                if s.vals[law.lhs as usize] != s.vals[law.rhs as usize] {
                    proof {
                        lemma_count_live_clear(blaws, s.live@, q as int);
                    }
                    let ghost before = s.live@;
                    s.live.set(li, false);
                    *n_live = *n_live - 1;
                    proof {
                        assert forall|j: int| 0 <= j < blaws.len() && j != q implies blaws[j] != blaws[q as int] by {
                            if j < q {
                                assert(blaws[j] < blaws[q as int]);
                            } else {
                                assert(blaws[q as int] < blaws[j]);
                            }
                        }
                    }
                }
            }
            q = q + 1;
        }
    }

    /// Sweep every assignment for the laws of bucket `bi` and record which
    /// of them survive.
    fn sweep_bucket(&self, m: &FiniteMagma, s: &mut Scratch, bi: usize, sig: &mut Signature)
        requires
            self.wf(),
            m.wf(),
            old(s).fits(&self.dag),
            bi < self.plan.buckets@.len(),
            sweepable(&self.dag, m.n as nat),
            old(sig)@.len() == self.dag.laws@.len(),
            forall|l: int|
                0 <= l < old(sig)@.len() && (#[trigger] self.dag.laws@[l]).arity
                    == self.plan.buckets@[bi as int].arity ==> !old(sig)@[l],
        ensures
            final(s).fits(&self.dag),
            final(sig)@.len() == self.dag.laws@.len(),
            forall|l: int|
                0 <= l < final(sig)@.len() ==> #[trigger] final(sig)@[l] == if self.dag.laws@[l].arity
                    == self.plan.buckets@[bi as int].arity {
                    self.law_holds(l, m)
                } else {
                    old(sig)@[l]
                },
    {
        let ghost nodes = self.dag.nodes@;
        let ghost laws = self.dag.laws@;
        let ghost table = m.table@;
        let n = m.n;
        let bucket = &self.plan.buckets[bi];
        let k = bucket.arity;
        let ghost blaws = bucket.laws@;
        proof {
            assert(self.dag.bucket_ok(&self.plan.buckets@[bi as int]));
            assert(bucket.laws@.len() > 0 ==> pow(n as int, k as nat) <= u32::MAX) by {
                if bucket.laws@.len() > 0 {
                    assert(laws[bucket.laws@[0] as int].arity == k);
                }
            }
        }
        if bucket.laws.len() == 0 {
            proof {
                assert forall|l: int| 0 <= l < sig@.len() implies #[trigger] sig@[l] == if laws[l].arity
                    == k {
                    self.law_holds(l, m)
                } else {
                    old(sig)@[l]
                } by {
                    if laws[l].arity == k {
                        assert(blaws.contains(l as u32));
                    }
                }
            }
            return;
        }
        proof {
            lemma_pow_positive(n as int, k as nat);
        }
        let total: u64 = pow_u64(n as u64, k as u32);
        let mut q: usize = 0;
        while q < bucket.laws.len()
            invariant
                s.fits(&self.dag),
                self.dag.bucket_ok(bucket),
                bi < self.plan.buckets@.len(),
                bucket == self.plan.buckets@[bi as int],
                k == bucket.arity,
                blaws == bucket.laws@,
                total == pow(n as int, k as nat),
                total <= u32::MAX,
                total >= 1,
                q <= bucket.laws@.len(),
                forall|j: int| 0 <= j < q ==> s.live@[#[trigger] bucket.laws@[j] as int],
            decreases bucket.laws@.len() - q,
        {
            let li = bucket.laws[q] as usize;
            s.live.set(li, true);
            q = q + 1;
        }
        let mut n_live = bucket.laws.len();
        proof {
            lemma_count_live_all(blaws, s.live@);
        }
        let stride = coprime_stride(total, n as u64);
        proof {
            lemma_coprime_pow(stride as int, n as int, k as nat);
        }
        let mut acc: u64 = 0;
        let mut t: u64 = 0;
        proof {
            lemma_small_mod(0, total as nat);
            assert(0 * stride == 0);
        }
        while t < total
            invariant_except_break
                s.fits(&self.dag),
                self.wf(),
                m.wf(),
                n == m.n,
                bi < self.plan.buckets@.len(),
                bucket == self.plan.buckets@[bi as int],
                self.dag.bucket_ok(bucket),
                k == bucket.arity,
                blaws == bucket.laws@,
                nodes == self.dag.nodes@,
                laws == self.dag.laws@,
                table == m.table@,
                total == pow(n as int, k as nat),
                total <= u32::MAX,
                total >= 1,
                1 <= stride <= total,
                coprime(stride as int, total as int),
                t <= total,
                acc == (t * stride) % (total as int),
                n_live == count_live(blaws, s.live@),
                forall|j: int|
                    0 <= j < blaws.len() && #[trigger] s.live@[blaws[j] as int] ==> forall|t2: int|
                        0 <= t2 < t ==> agrees(
                            nodes,
                            laws[blaws[j] as int],
                            table,
                            n as nat,
                            #[trigger] digits_of(
                                ((t2 * stride) % (total as int)) as nat,
                                n as nat,
                                k as nat,
                            ),
                        ),
                forall|j: int|
                    0 <= j < blaws.len() && !#[trigger] s.live@[blaws[j] as int] ==> !dag_law_holds(
                        nodes,
                        laws[blaws[j] as int],
                        table,
                        n as nat,
                    ),
            ensures
                s.fits(&self.dag),
                t <= total,
                n_live == count_live(blaws, s.live@),
                n_live == 0 || t == total,
                forall|j: int|
                    0 <= j < blaws.len() && #[trigger] s.live@[blaws[j] as int] ==> forall|t2: int|
                        0 <= t2 < t ==> agrees(
                            nodes,
                            laws[blaws[j] as int],
                            table,
                            n as nat,
                            #[trigger] digits_of(
                                ((t2 * stride) % (total as int)) as nat,
                                n as nat,
                                k as nat,
                            ),
                        ),
                forall|j: int|
                    0 <= j < blaws.len() && !#[trigger] s.live@[blaws[j] as int] ==> !dag_law_holds(
                        nodes,
                        laws[blaws[j] as int],
                        table,
                        n as nat,
                    ),
            decreases total - t,
        {
            let idx = acc;
            proof {
                vstd::arithmetic::div_mod::lemma_mod_bound((t * stride) as int, total as int);
                assert(((t + 1) * stride) % (total as int) == if acc + stride >= total {
                    acc + stride - total
                } else {
                    acc + stride
                }) by {
                    assert((t + 1) * stride == t * stride + stride) by (nonlinear_arith);
                    let q = (t * stride) / (total as int);
                    lemma_fundamental_div_mod((t * stride) as int, total as int);
                    assert(t * stride == q * total + acc) by (nonlinear_arith)
                        requires
                            t * stride == total * q + acc,
                    ;
                    if acc + stride >= total {
                        assert((t + 1) * stride == (q + 1) * total + (acc + stride - total)) by (nonlinear_arith)
                            requires
                                (t + 1) * stride == t * stride + stride,
                                t * stride == q * total + acc,
                        ;
                        lemma_fundamental_div_mod_converse(
                            ((t + 1) * stride) as int,
                            total as int,
                            q + 1,
                            acc + stride - total,
                        );
                    } else {
                        lemma_fundamental_div_mod_converse(
                            ((t + 1) * stride) as int,
                            total as int,
                            q,
                            acc + stride,
                        );
                    }
                }
            }
            acc = acc + stride;
            if acc >= total {
                acc = acc - total;
            }
            let ghost asg = digits_of(idx as nat, n as nat, k as nat);
            self.load_digits(m, s, idx, k);
            proof {
                lemma_digits_are_assignment(idx as nat, n as nat, k as nat);
            }
            self.eval_order(m, s, bi, Ghost(asg));
            let ghost live0 = s.live@;
            self.refute(m, s, bi, Ghost(asg), &mut n_live);
            proof {
                assert forall|j: int| 0 <= j < blaws.len() && #[trigger] s.live@[blaws[j] as int]
                    implies forall|t2: int|
                    0 <= t2 < t + 1 ==> agrees(
                        nodes,
                        laws[blaws[j] as int],
                        table,
                        n as nat,
                        #[trigger] digits_of(
                            ((t2 * stride) % (total as int)) as nat,
                            n as nat,
                            k as nat,
                        ),
                    ) by {
                    assert(live0[blaws[j] as int]);
                }
                assert forall|j: int| 0 <= j < blaws.len() && !#[trigger] s.live@[blaws[j] as int]
                    implies !dag_law_holds(nodes, laws[blaws[j] as int], table, n as nat) by {
                    if live0[blaws[j] as int] {
                        assert(!agrees(nodes, laws[blaws[j] as int], table, n as nat, asg));
                        assert(laws[blaws[j] as int].arity == k);
                    }
                }
            }
            t = t + 1;
            if n_live == 0 {
                break;
            }
        }
        proof {
            assert forall|j: int| 0 <= j < blaws.len() implies #[trigger] s.live@[blaws[j] as int]
                == dag_law_holds(nodes, laws[blaws[j] as int], table, n as nat) by {
                let lw = laws[blaws[j] as int];
                assert(lw.arity == k);
                if s.live@[blaws[j] as int] {
                    if n_live == 0 {
                        lemma_count_live_zero(blaws, s.live@, j);
                    }
                    assert(t == total);
                    assert forall|vals: Seq<u8>| is_assignment(
                        vals,
                        lw.arity as nat,
                        n as nat,
                    ) implies #[trigger] dag_eval(nodes, lw.lhs as int, table, n as nat, vals)
                        == dag_eval(nodes, lw.rhs as int, table, n as nat, vals) by {
                        lemma_assignment_has_index(vals, n as nat, k as nat);
                        let idx = encode(vals, n as nat);
                        lemma_stride_reaches(stride as int, total as int, idx as int);
                        let t2 = choose|t2: int|
                            0 <= t2 < total && #[trigger] ((t2 * stride) % (total as int)) == idx;
                        assert(agrees(
                            nodes,
                            lw,
                            table,
                            n as nat,
                            digits_of(((t2 * stride) % (total as int)) as nat, n as nat, k as nat),
                        ));
                    }
                }
            }
        }
        let mut q: usize = 0;
        while q < bucket.laws.len()
            invariant
                s.fits(&self.dag),
                self.dag.bucket_ok(bucket),
                blaws == bucket.laws@,
                k == bucket.arity,
                q <= blaws.len(),
                sig@.len() == laws.len(),
                laws == self.dag.laws@,
                nodes == self.dag.nodes@,
                table == m.table@,
                n == m.n,
                old(sig)@.len() == laws.len(),
                forall|l: int|
                    0 <= l < old(sig)@.len() && (#[trigger] laws[l]).arity == k ==> !old(sig)@[l],
                forall|j: int|
                    q <= j < blaws.len() ==> #[trigger] s.live@[blaws[j] as int] == dag_law_holds(
                        nodes,
                        laws[blaws[j] as int],
                        table,
                        n as nat,
                    ),
                forall|l: int|
                    0 <= l < sig@.len() ==> #[trigger] sig@[l] == if laws[l].arity == k && exists|
                        j: int,
                    | 0 <= j < q && blaws[j] == l {
                        dag_law_holds(nodes, laws[l], table, n as nat)
                    } else {
                        old(sig)@[l]
                    },
            decreases blaws.len() - q,
        {
            let li = bucket.laws[q] as usize;
            let ghost sig0 = sig@;
            proof {
                assert(laws[li as int].arity == k);
            }
            if s.live[li] {
                sig.set(li);
                s.live.set(li, false);
                proof {
                    assert forall|j: int| q < j < blaws.len() implies blaws[j] != li by {
                        assert(blaws[q as int] < blaws[j]);
                    }
                }
            }
            proof {
                assert forall|l: int| 0 <= l < sig@.len() implies #[trigger] sig@[l] == if laws[l].arity
                    == k && exists|j: int| 0 <= j < q + 1 && blaws[j] == l {
                    dag_law_holds(nodes, laws[l], table, n as nat)
                } else {
                    old(sig)@[l]
                } by {
                    if l == li {
                        assert(blaws[q as int] == l);
                        assert forall|j: int| 0 <= j < q implies blaws[j] != l by {
                            assert(blaws[j] < blaws[q as int]);
                        }
                        assert(sig0[l] == old(sig)@[l]);
                    } else {
                        assert(sig@[l] == sig0[l]);
                        if exists|j: int| 0 <= j < q + 1 && blaws[j] == l {
                            let j = choose|j: int| 0 <= j < q + 1 && blaws[j] == l;
                            assert(j != q);
                        }
                    }
                }
            }
            q = q + 1;
        }
        proof {
            assert forall|l: int| 0 <= l < sig@.len() implies #[trigger] sig@[l] == if laws[l].arity
                == k {
                self.law_holds(l, m)
            } else {
                old(sig)@[l]
            } by {
                if laws[l].arity == k {
                    assert(blaws.contains(l as u32));
                    let j = choose|j: int| 0 <= j < blaws.len() && blaws[j] == l as u32;
                    assert(0 <= j < q && blaws[j] == l);
                    assert(sig@[l] == dag_law_holds(nodes, laws[l], table, n as nat));
                    assert(self.law_holds(l, m) == dag_law_holds(nodes, laws[l], table, n as nat));
                } else {
                    assert(sig@[l] == old(sig)@[l]);
                }
            }
        }
    }
}

} // verus!

verus! {

/// The engine's verdict on a DAG law is the verdict on the law it
/// represents: a law holds in a magma, read off the shared DAG, exactly when
/// it holds read off its own two terms.
pub proof fn lemma_dag_law_holds_iff(
    dag: &Dag,
    laws: Seq<Law>,
    i: int,
    table: Seq<u8>,
    n: nat,
)
    requires
        dag.wf(),
        crate::dag::represents(dag.nodes@, dag.laws@, laws),
        0 <= i < laws.len(),
    ensures
        dag_law_holds(dag.nodes@, dag.laws@[i], table, n) == laws[i].holds_in(table, n),
{
    let dl = dag.laws@[i];
    let law = laws[i];
    assert forall|vals: Seq<u8>| is_assignment(vals, law.arity as nat, n) implies (dag_eval(
        dag.nodes@,
        dl.lhs as int,
        table,
        n,
        vals,
    ) == crate::law::eval_term(law.lhs, table, n, vals) && dag_eval(
        dag.nodes@,
        dl.rhs as int,
        table,
        n,
        vals,
    ) == crate::law::eval_term(law.rhs, table, n, vals)) by {
        crate::dag::lemma_node_is_eval(dag.nodes@, dag.arity@, dl.lhs as int, law.lhs, table, n, vals);
        crate::dag::lemma_node_is_eval(dag.nodes@, dag.arity@, dl.rhs as int, law.rhs, table, n, vals);
    }
    if dag_law_holds(dag.nodes@, dl, table, n) {
        assert forall|vals: Seq<u8>| is_assignment(vals, law.arity as nat, n) implies #[trigger] crate::law::eval_term(
            law.lhs,
            table,
            n,
            vals,
        ) == crate::law::eval_term(law.rhs, table, n, vals) by {
            assert(dag_eval(dag.nodes@, dl.lhs as int, table, n, vals) == dag_eval(
                dag.nodes@,
                dl.rhs as int,
                table,
                n,
                vals,
            ));
        }
    }
    if law.holds_in(table, n) {
        assert forall|vals: Seq<u8>| is_assignment(vals, dl.arity as nat, n) implies #[trigger] dag_eval(
            dag.nodes@,
            dl.lhs as int,
            table,
            n,
            vals,
        ) == dag_eval(dag.nodes@, dl.rhs as int, table, n, vals) by {
            assert(crate::law::eval_term(law.lhs, table, n, vals) == crate::law::eval_term(
                law.rhs,
                table,
                n,
                vals,
            ));
        }
    }
}

/// The engine decides satisfaction: for an engine built over the DAG of a
/// law list, bit `i` of a magma's signature is set exactly when the magma
/// satisfies law `i` of the list.
pub proof fn lemma_signature_decides_laws(
    e: &Engine,
    laws: Seq<Law>,
    m: &FiniteMagma,
    sig: Seq<bool>,
    i: int,
)
    requires
        e.wf(),
        crate::dag::represents(e.dag.nodes@, e.dag.laws@, laws),
        sig.len() == e.dag.laws@.len(),
        forall|l: int| 0 <= l < sig.len() ==> sig[l] == e.law_holds(l, m),
        0 <= i < laws.len(),
    ensures
        sig[i] == m.satisfies(&laws[i]),
{
    lemma_dag_law_holds_iff(&e.dag, laws, i, m.table@, m.n as nat);
}

} // verus!

verus! {

/// Isomorphism handling for the exhaustive sweep.
///
/// Brute-force canonical form is `n!` per table and dies past roughly
/// `n = 9`, so this is only used at the sizes where exhaustive enumeration
/// is affordable in the first place. Above the cap, the corpus is
/// deduplicated on the signature instead, which is coarser than isomorphism
/// but is exactly the equivalence coverage cares about: two magmas with the
/// same signature discharge the same separations.
pub const EXACT_ISO_CAP: usize = 6;

/// `s` with positions `i` and `j` exchanged.
pub open spec fn swap_at(s: Seq<u8>, i: int, j: int) -> Seq<u8> {
    s.update(i, s[j]).update(j, s[i])
}

/// The sequences the recursive generator emits from `cur`, positions below
/// `k` fixed: for each `i` from `k` on, swap `i` into place `k` and recurse.
pub open spec fn gen_perms(cur: Seq<u8>, k: nat) -> Seq<Seq<u8>>
    decreases cur.len() - k, cur.len() - k + 1,
{
    if k >= cur.len() {
        seq![cur]
    } else {
        gen_block(cur, k, k)
    }
}

/// The part of `gen_perms(cur, k)` that starts with the swap of `i` into
/// place `k`.
pub open spec fn gen_block(cur: Seq<u8>, k: nat, i: nat) -> Seq<Seq<u8>>
    decreases cur.len() - k, cur.len() - i,
{
    if k < cur.len() && i < cur.len() {
        gen_perms(swap_at(cur, k as int, i as int), k + 1) + gen_block(cur, k, i + 1)
    } else {
        Seq::empty()
    }
}

/// `p` lists `0..n` in some order.
pub open spec fn is_permutation(p: Seq<u8>, n: nat) -> bool {
    &&& p.len() == n
    &&& p.no_duplicates()
    &&& forall|x: int| 0 <= x < n ==> #[trigger] p[x] < n
    &&& forall|a: u8| a < n ==> #[trigger] p.contains(a)
}

proof fn lemma_swap_permutation(s: Seq<u8>, n: nat, i: int, j: int)
    requires
        is_permutation(s, n),
        0 <= i < n,
        0 <= j < n,
    ensures
        is_permutation(swap_at(s, i, j), n),
        forall|q: int| 0 <= q < n && q != i && q != j ==> #[trigger] swap_at(s, i, j)[q] == s[q],
        swap_at(s, i, j)[i] == s[j],
{
    let t = swap_at(s, i, j);
    assert forall|a: u8| a < n implies #[trigger] t.contains(a) by {
        assert(s.contains(a));
        let x = choose|x: int| 0 <= x < s.len() && s[x] == a;
        if x == i {
            assert(t[j] == a);
        } else if x == j {
            assert(t[i] == a);
        } else {
            assert(t[x] == a);
        }
    }
}

/// Every sequence the generator emits is a permutation that keeps the fixed
/// prefix, and there are `(n - k)!` of them.
proof fn lemma_gen_perms(cur: Seq<u8>, n: nat, k: nat)
    requires
        is_permutation(cur, n),
        k <= n,
    ensures
        gen_perms(cur, k).len() == crate::transinv::factorial_spec((n - k) as nat),
        forall|q: int| 0 <= q < gen_perms(cur, k).len() ==> is_permutation(#[trigger] gen_perms(cur, k)[q], n),
        forall|q: int, x: int| #![trigger gen_perms(cur, k)[q][x]] 0 <= q < gen_perms(cur, k).len() && 0 <= x < k ==> gen_perms(cur, k)[q][x] == cur[x],
        gen_perms(cur, k).no_duplicates(),
    decreases n - k, n - k + 1,
{
    if k < n {
        lemma_gen_block(cur, n, k, k);
    }
}

proof fn lemma_gen_block(cur: Seq<u8>, n: nat, k: nat, i: nat)
    requires
        is_permutation(cur, n),
        k < n,
        k <= i <= n,
    ensures
        gen_block(cur, k, i).len() == (n - i) * crate::transinv::factorial_spec((n - k - 1) as nat),
        forall|q: int| 0 <= q < gen_block(cur, k, i).len() ==> is_permutation(#[trigger] gen_block(cur, k, i)[q], n),
        forall|q: int, x: int| #![trigger gen_block(cur, k, i)[q][x]] 0 <= q < gen_block(cur, k, i).len() && 0 <= x < k ==> gen_block(cur, k, i)[q][x] == cur[x],
        forall|q: int| 0 <= q < gen_block(cur, k, i).len() ==> exists|j: int| i <= j < n && (#[trigger] gen_block(cur, k, i)[q])[k as int] == cur[j],
        gen_block(cur, k, i).no_duplicates(),
    decreases n - k, n - i,
{
    if i < n {
        let s = swap_at(cur, k as int, i as int);
        lemma_swap_permutation(cur, n, k as int, i as int);
        lemma_gen_perms(s, n, k + 1);
        lemma_gen_block(cur, n, k, i + 1);
        let a = gen_perms(s, k + 1);
        let b = gen_block(cur, k, i + 1);
        let g = gen_block(cur, k, i);
        assert(g == a + b);
        let f = crate::transinv::factorial_spec((n - k - 1) as nat);
        assert((n - i) * f == f + (n - (i + 1)) * f) by (nonlinear_arith)
            requires
                i < n,
        ;
        assert forall|q: int| 0 <= q < g.len() implies is_permutation(#[trigger] g[q], n) by {
            if q < a.len() {
                assert(g[q] == a[q]);
            } else {
                assert(g[q] == b[q - a.len()]);
            }
        }
        assert forall|q: int, x: int| #![trigger g[q][x]] 0 <= q < g.len() && 0 <= x < k implies g[q][x] == cur[x] by {
            if q < a.len() {
                assert(g[q] == a[q]);
                assert(a[q][x] == s[x]);
            } else {
                assert(g[q] == b[q - a.len()]);
            }
        }
        assert forall|q: int| 0 <= q < g.len() implies exists|j: int| i <= j < n && (#[trigger] g[q])[k as int] == cur[j] by {
            if q < a.len() {
                assert(g[q] == a[q]);
                assert(a[q][k as int] == s[k as int]);
                assert(g[q][k as int] == cur[i as int]);
            } else {
                assert(g[q] == b[q - a.len()]);
                let j = choose|j: int| i + 1 <= j < n && (#[trigger] b[q - a.len()])[k as int] == cur[j];
                assert(g[q][k as int] == cur[j]);
            }
        }
        assert forall|p: int, q: int| 0 <= p < g.len() && 0 <= q < g.len() && p != q implies g[p] != g[q] by {
            if p < a.len() && q < a.len() {
                assert(g[p] == a[p] && g[q] == a[q]);
            } else if p >= a.len() && q >= a.len() {
                assert(g[p] == b[p - a.len()] && g[q] == b[q - a.len()]);
            } else {
                let (pa, qb) = if p < a.len() {
                    (p, q)
                } else {
                    (q, p)
                };
                assert(g[pa] == a[pa]);
                assert(g[qb] == b[qb - a.len()]);
                assert(a[pa][k as int] == s[k as int]);
                let j = choose|j: int| i + 1 <= j < n && (#[trigger] b[qb - a.len()])[k as int] == cur[j];
                assert(g[pa][k as int] == cur[i as int]);
                assert(g[qb][k as int] == cur[j]);
                assert(cur[i as int] != cur[j]);
            }
        }
    } else {
        assert(gen_block(cur, k, i) =~= Seq::<Seq<u8>>::empty());
    }
}

/// Emit `gen_perms(cur, k)`, leaving `cur` as it was.
fn permute(cur: &mut Vec<u8>, k: usize, out: &mut Vec<Vec<u8>>)
    requires
        k <= old(cur)@.len(),
    ensures
        final(cur)@ == old(cur)@,
        row_views(final(out)@) == row_views(old(out)@) + gen_perms(old(cur)@, k as nat),
    decreases old(cur)@.len() - k, old(cur)@.len() - k + 1,
{
    let len = cur.len();
    if k == len {
        let c = cur.clone();
        proof {
            assert(c@ =~= cur@);
        }
        let ghost before = out@;
        out.push(c);
        proof {
            assert(row_views(out@) =~= row_views(before) + seq![cur@]);
        }
        return;
    }
    let ghost cur0 = cur@;
    let ghost out0 = row_views(out@);
    let mut i = k;
    proof {
        assert(out0 + gen_block(cur0, k as nat, k as nat) == row_views(out@) + gen_block(cur0, k as nat, k as nat));
    }
    while i < len
        invariant
            k < len == cur0.len(),
            cur0 == old(cur)@,
            k <= i <= len,
            cur@ == cur0,
            out0 + gen_block(cur0, k as nat, k as nat) == row_views(out@) + gen_block(cur0, k as nat, i as nat),
        decreases len - i,
    {
        let a = cur[k];
        let b = cur[i];
        cur.set(k, b);
        cur.set(i, a);
        proof {
            assert(cur@ =~= swap_at(cur0, k as int, i as int));
        }
        let ghost mid = row_views(out@);
        permute(cur, k + 1, out);
        let a2 = cur[k];
        let b2 = cur[i];
        cur.set(k, b2);
        cur.set(i, a2);
        proof {
            assert(cur@ =~= cur0);
            let blk = gen_perms(swap_at(cur0, k as int, i as int), (k + 1) as nat);
            assert(gen_block(cur0, k as nat, i as nat) == blk + gen_block(cur0, k as nat, (i + 1) as nat));
            assert(mid + (blk + gen_block(cur0, k as nat, (i + 1) as nat)) =~= (mid + blk) + gen_block(cur0, k as nat, (i + 1) as nat));
        }
        i = i + 1;
    }
    proof {
        assert(gen_block(cur0, k as nat, len as nat) =~= Seq::<Seq<u8>>::empty());
        assert(row_views(out@) + Seq::<Seq<u8>>::empty() =~= row_views(out@));
        assert(gen_perms(cur0, k as nat) == gen_block(cur0, k as nat, k as nat));
    }
}

/// All permutations of `0..n`, as a flat `n! x n` table, each listed once.
pub fn permutations(n: usize) -> (out: Vec<Vec<u8>>)
    requires
        crate::transinv::factorial_spec(n as nat) <= usize::MAX,
    ensures
        out@.len() == crate::transinv::factorial_spec(n as nat),
        forall|q: int| 0 <= q < out@.len() ==> is_permutation((#[trigger] out@[q])@, n as nat),
        row_views(out@).no_duplicates(),
        row_views(out@) == gen_perms(crate::transinv::iota(n as nat), 0),
{
    proof {
        lemma_small_factorial_bound(n as nat);
    }
    let mut out: Vec<Vec<u8>> = Vec::new();
    let mut cur: Vec<u8> = Vec::new();
    let mut v: usize = 0;
    while v < n
        invariant
            v <= n <= 20,
            cur@ == crate::transinv::iota(v as nat),
        decreases n - v,
    {
        cur.push(v as u8);
        proof {
            assert(cur@ =~= crate::transinv::iota((v + 1) as nat));
        }
        v = v + 1;
    }
    let ghost start = cur@;
    proof {
        assert(row_views(out@) =~= Seq::<Seq<u8>>::empty());
        assert forall|a: u8| a < n implies #[trigger] start.contains(a) by {
            assert(start[a as int] == a);
        }
        lemma_gen_perms(start, n as nat, 0);
    }
    permute(&mut cur, 0, &mut out);
    proof {
        let g = gen_perms(start, 0);
        assert(row_views(out@) =~= g);
        assert forall|q: int| 0 <= q < out@.len() implies is_permutation((#[trigger] out@[q])@, n as nat) by {
            assert(row_views(out@)[q] == out@[q]@);
        }
    }
    out
}

/// `n! <= usize::MAX` keeps `n` small.
proof fn lemma_small_factorial_bound(n: nat)
    requires
        crate::transinv::factorial_spec(n) <= usize::MAX,
    ensures
        n <= 20,
{
    if n > 20 {
        lemma_factorial_grows(21, n);
        assert(crate::transinv::factorial_spec(0) == 1);
        assert(crate::transinv::factorial_spec(1) == 1);
        assert(crate::transinv::factorial_spec(2) == 2);
        assert(crate::transinv::factorial_spec(3) == 6);
        assert(crate::transinv::factorial_spec(4) == 24);
        assert(crate::transinv::factorial_spec(5) == 120);
        assert(crate::transinv::factorial_spec(6) == 720);
        assert(crate::transinv::factorial_spec(7) == 5040);
        assert(crate::transinv::factorial_spec(8) == 40320);
        assert(crate::transinv::factorial_spec(9) == 362880);
        assert(crate::transinv::factorial_spec(10) == 3628800);
        assert(crate::transinv::factorial_spec(11) == 39916800);
        assert(crate::transinv::factorial_spec(12) == 479001600);
        assert(crate::transinv::factorial_spec(13) == 6227020800);
        assert(crate::transinv::factorial_spec(14) == 87178291200);
        assert(crate::transinv::factorial_spec(15) == 1307674368000);
        assert(crate::transinv::factorial_spec(16) == 20922789888000);
        assert(crate::transinv::factorial_spec(17) == 355687428096000);
        assert(crate::transinv::factorial_spec(18) == 6402373705728000);
        assert(crate::transinv::factorial_spec(19) == 121645100408832000);
        assert(crate::transinv::factorial_spec(20) == 2432902008176640000);
        assert(crate::transinv::factorial_spec(21) == 51090942171709440000);
    }
}

proof fn lemma_factorial_grows(a: nat, b: nat)
    requires
        a <= b,
    ensures
        crate::transinv::factorial_spec(a) <= crate::transinv::factorial_spec(b),
    decreases b,
{
    if a < b {
        lemma_factorial_grows(a, (b - 1) as nat);
        let f = crate::transinv::factorial_spec((b - 1) as nat);
        assert(b * f >= f) by (nonlinear_arith)
            requires
                b >= 1,
                f >= 0,
        ;
    }
}

} // verus!

verus! {

/// The position `x` that `p` sends to `a`.
pub open spec fn preimage(p: Seq<u8>, a: int) -> int {
    choose|x: int| 0 <= x < p.len() && p[x] == a
}

/// `t` relabelled by the permutation `p`: `x ◇ y = z` becomes
/// `p(x) ◇ p(y) = p(z)`, so entry `p(x) * n + p(y)` is `p(t[x * n + y])`.
pub open spec fn relabel(t: Seq<u8>, p: Seq<u8>, n: nat) -> Seq<u8> {
    Seq::new(
        n * n,
        |idx: int| p[t[preimage(p, idx / (n as int)) * n + preimage(p, idx % (n as int))] as int],
    )
}

/// `p` is the identity.
pub open spec fn is_identity(p: Seq<u8>) -> bool {
    forall|i: int| 0 <= i < p.len() ==> p[i] == i
}

/// Lexicographic order on byte strings, as slices compare.
pub open spec fn lex_less(a: Seq<u8>, b: Seq<u8>) -> bool {
    ||| exists|i: int| 0 <= i < a.len() && i < b.len() && a.take(i) == b.take(i) && #[trigger] a[i] < b[i]
    ||| a.len() < b.len() && a == b.take(a.len() as int)
}

/// `table` is no larger than any relabelling of it: the lexicographically
/// smallest member of its isomorphism class, among the relabellings `perms`.
pub open spec fn canonical_among(table: Seq<u8>, n: nat, perms: Seq<Vec<u8>>) -> bool {
    forall|q: int| 0 <= q < perms.len() ==> is_identity(#[trigger] perms[q]@) || !lex_less(
        relabel(table, perms[q]@, n),
        table,
    )
}

proof fn lemma_cell(a: int, b: int, n: int)
    requires
        0 <= a < n,
        0 <= b < n,
    ensures
        0 <= a * n + b < n * n,
        (a * n + b) / n == a,
        (a * n + b) % n == b,
{
    assert(0 <= a * n + b < n * n) by (nonlinear_arith)
        requires
            0 <= a < n,
            0 <= b < n,
    ;
    lemma_fundamental_div_mod_converse(a * n + b, n, a, b);
}

/// Is `table` the lexicographically smallest member of its isomorphism class?
///
/// Comparing against every permutation costs `n! * n^2` byte operations,
/// which at `n = 4` is some four hundred, two orders of magnitude cheaper
/// than computing a signature, so filtering first turns a 4.3-billion-table
/// sweep into a 179-million-table one.
pub fn is_canonical(table: &[u8], n: usize, perms: &[Vec<u8>], buf: &mut [u8]) -> (b: bool)
    requires
        n <= EXACT_ISO_CAP,
        table@.len() >= n * n,
        old(buf)@.len() >= n * n,
        forall|i: int| 0 <= i < n * n ==> table@[i] < n,
        forall|q: int| 0 <= q < perms@.len() ==> is_permutation((#[trigger] perms@[q])@, n as nat),
    ensures
        b == canonical_among(table@.take((n * n) as int), n as nat, perms@),
        final(buf)@.len() == old(buf)@.len(),
{
    proof {
        assert(n * n <= 36) by (nonlinear_arith)
            requires
                n <= 6,
        ;
    }
    let nn = n * n;
    let ghost t = table@.take(nn as int);
    let mut q: usize = 0;
    while q < perms.len()
        invariant
            n <= EXACT_ISO_CAP,
            nn == n * n,
            t == table@.take(nn as int),
            table@.len() >= nn,
            buf@.len() >= nn,
            buf@.len() == old(buf)@.len(),
            forall|i: int| 0 <= i < nn ==> table@[i] < n,
            forall|r: int| 0 <= r < perms@.len() ==> is_permutation((#[trigger] perms@[r])@, n as nat),
            q <= perms@.len(),
            forall|r: int| 0 <= r < q ==> is_identity(#[trigger] perms@[r]@) || !lex_less(
                relabel(t, perms@[r]@, n as nat),
                t,
            ),
        decreases perms@.len() - q,
    {
        let p = &perms[q];
        proof {
            assert(is_permutation(perms@[q as int]@, n as nat));
        }
        let mut ident = true;
        let mut i: usize = 0;
        while i < p.len()
            invariant
                i <= p@.len(),
                ident == forall|k: int| 0 <= k < i ==> p@[k] == k,
            decreases p@.len() - i,
        {
            if p[i] as usize != i {
                ident = false;
            }
            i = i + 1;
        }
        if !ident {
            let mut x: usize = 0;
            while x < n
                invariant
                    n <= EXACT_ISO_CAP,
                    nn == n * n,
                    x <= n,
                    table@.len() >= nn,
                    buf@.len() >= nn,
                    buf@.len() == old(buf)@.len(),
                    forall|i: int| 0 <= i < nn ==> table@[i] < n,
                    is_permutation(p@, n as nat),
                    forall|a: int, c: int| #![trigger buf@[p@[a] * n + p@[c]]]
                        0 <= a < x && 0 <= c < n ==> buf@[p@[a] * n + p@[c]] == p@[table@[a * n + c] as int],
                decreases n - x,
            {
                let mut y: usize = 0;
                while y < n
                    invariant
                        n <= EXACT_ISO_CAP,
                        nn == n * n,
                        x < n,
                        y <= n,
                        table@.len() >= nn,
                        buf@.len() >= nn,
                        buf@.len() == old(buf)@.len(),
                        forall|i: int| 0 <= i < nn ==> table@[i] < n,
                        is_permutation(p@, n as nat),
                        forall|a: int, c: int| #![trigger buf@[p@[a] * n + p@[c]]]
                            (0 <= a < x && 0 <= c < n) || (a == x && 0 <= c < y) ==> buf@[p@[a] * n + p@[c]]
                                == p@[table@[a * n + c] as int],
                    decreases n - y,
                {
                    let px = p[x] as usize;
                    let py = p[y] as usize;
                    proof {
                        lemma_cell(x as int, y as int, n as int);
                        lemma_cell(px as int, py as int, n as int);
                    }
                    let v = table[x * n + y] as usize;
                    let pos = px * n + py;
                    let ghost before = buf@;
                    buf[pos] = p[v];
                    proof {
                        assert forall|a: int, c: int| #![trigger buf@[p@[a] * n + p@[c]]]
                            (0 <= a < x && 0 <= c < n) || (a == x && 0 <= c < y + 1) implies buf@[p@[a] * n
                            + p@[c]] == p@[table@[a * n + c] as int] by {
                            if a != x || c != y {
                                lemma_cell(p@[a] as int, p@[c] as int, n as int);
                                lemma_cell(a, c, n as int);
                                if p@[a] * n + p@[c] == pos {
                                    assert(p@[a] == px && p@[c] == py);
                                    assert(p@[a] == p@[x as int]);
                                    assert(p@[c] == p@[y as int]);
                                }
                                assert(buf@[p@[a] * n + p@[c]] == before[p@[a] * n + p@[c]]);
                            }
                        }
                    }
                    y = y + 1;
                }
                x = x + 1;
            }
            let ghost rl = relabel(t, p@, n as nat);
            proof {
                assert forall|idx: int| 0 <= idx < nn implies buf@[idx] == #[trigger] rl[idx] by {
                    let a = idx / (n as int);
                    let c = idx % (n as int);
                    assert(0 <= a < n && 0 <= c < n) by {
                        lemma_fundamental_div_mod(idx, n as int);
                        if a >= n {
                            assert(n * a >= n * n) by (nonlinear_arith)
                                requires
                                    a >= n,
                                    n > 0,
                            ;
                        }
                    }
                    assert(p@.contains(a as u8));
                    assert(p@.contains(c as u8));
                    let xa = preimage(p@, a);
                    let xc = preimage(p@, c);
                    lemma_cell(xa, xc, n as int);
                    lemma_fundamental_div_mod(idx, n as int);
                    assert(p@[xa] * n + p@[xc] == idx);
                    assert(t[xa * n + xc] == table@[xa * n + xc]);
                }
            }
            let mut k: usize = 0;
            let mut less = false;
            let mut differ = false;
            while k < nn && !differ
                invariant
                    nn == n * n,
                    k <= nn,
                    buf@.len() >= nn,
                    table@.len() >= nn,
                    t == table@.take(nn as int),
                    rl.len() == nn,
                    forall|idx: int| 0 <= idx < nn ==> buf@[idx] == #[trigger] rl[idx],
                    !differ ==> !less && forall|j: int| 0 <= j < k ==> rl[j] == t[j],
                    differ ==> 0 < k && (forall|j: int| 0 <= j < k - 1 ==> rl[j] == t[j]) && rl[k - 1]
                        != t[k - 1] && (less <==> rl[k - 1] < t[k - 1]),
                decreases nn - k,
            {
                if buf[k] != table[k] {
                    differ = true;
                    less = buf[k] < table[k];
                }
                k = k + 1;
            }
            proof {
                if differ {
                    let d = k - 1;
                    assert(rl.take(d) =~= t.take(d));
                    if !less {
                        assert forall|i: int| 0 <= i < rl.len() && i < t.len() && rl.take(i) == t.take(i)
                            implies !(#[trigger] rl[i] < t[i]) by {
                            if i < d {
                                assert(rl[i] == t[i]);
                            } else if i > d {
                                assert(rl.take(i)[d] == t.take(i)[d]);
                            }
                        }
                    }
                } else {
                    assert(rl =~= t);
                }
            }
            if less {
                proof {
                    let d = k - 1;
                    assert(rl.take(d) =~= t.take(d));
                    assert(rl[d] < t[d]);
                    assert(lex_less(rl, t));
                    assert(p@ == perms@[q as int]@);
                    assert(!is_identity(perms@[q as int]@));
                }
                return false;
            }
        }
        q = q + 1;
    }
    true
}

} // verus!

verus! {

/// Write the base-`n` digits of `code` into `table`, least significant
/// first: table number `code` of the exhaustive sweep over `n`-element
/// magmas.
pub fn fill_digits(code: u64, n: usize, table: &mut [u8])
    requires
        1 <= n <= 256,
    ensures
        final(table)@ == digits_of(code as nat, n as nat, old(table)@.len()),
{
    let len = table.len();
    let mut v: u64 = code;
    let mut i: usize = 0;
    proof {
        reveal(pow);
    }
    while i < len
        invariant
            1 <= n <= 256,
            len == table@.len(),
            i <= len,
            v == (code as int) / pow(n as int, i as nat),
            forall|j: int| 0 <= j < i ==> table@[j] == #[trigger] digits_of(code as nat, n as nat, len as nat)[j],
        decreases len - i,
    {
        proof {
            lemma_pow_positive(n as int, i as nat);
            lemma_div_denominator(code as int, pow(n as int, i as nat), n as int);
            reveal(pow);
            assert(pow(n as int, (i + 1) as nat) == n * pow(n as int, i as nat));
            lemma_mul_is_commutative(n as int, pow(n as int, i as nat));
        }
        table[i] = (v % (n as u64)) as u8;
        v = v / (n as u64);
        i = i + 1;
    }
    proof {
        assert(table@ =~= digits_of(code as nat, n as nat, len as nat));
    }
}

} // verus!

verus! {

/// The table of the exhaustive sweep that `code` names: its first `n²`
/// base-`n` digits.
pub open spec fn code_table(code: nat, n: nat) -> Seq<u8> {
    digits_of(code, n, n * n)
}

/// Table `code` is the canonical representative of its isomorphism class.
pub open spec fn code_canonical(code: nat, n: nat, perms: Seq<Vec<u8>>) -> bool {
    canonical_among(code_table(code, n), n, perms)
}

/// Law `l` of the engine holds in table `code`.
pub open spec fn code_holds(e: &Engine, code: nat, n: nat, l: int) -> bool {
    dag_law_holds(e.dag.nodes@, e.dag.laws@[l], code_table(code, n), n)
}

/// Table `code` satisfies some law of the engine and refutes another.
pub open spec fn code_separates(e: &Engine, code: nat, n: nat) -> bool {
    &&& exists|l: int| 0 <= l < e.dag.laws@.len() && #[trigger] code_holds(e, code, n, l)
    &&& exists|l: int| 0 <= l < e.dag.laws@.len() && !#[trigger] code_holds(e, code, n, l)
}

/// Some canonical, separating table with code in `lo..hi` satisfies law `i`
/// and refutes law `j`.
pub open spec fn sweep_discharges(e: &Engine, n: nat, perms: Seq<Vec<u8>>, lo: nat, hi: nat, i: int, j: int) -> bool {
    exists|code: nat|
        lo <= code < hi && code_canonical(code, n, perms) && code_separates(e, code, n) && #[trigger] code_holds(
            e,
            code,
            n,
            i,
        ) && !code_holds(e, code, n, j)
}

/// How many codes in `lo..hi` name canonical tables.
pub open spec fn canonical_count(n: nat, perms: Seq<Vec<u8>>, lo: nat, hi: nat) -> nat
    decreases hi,
{
    if hi <= lo {
        0
    } else {
        canonical_count(n, perms, lo, (hi - 1) as nat) + if code_canonical((hi - 1) as nat, n, perms) {
            1nat
        } else {
            0nat
        }
    }
}

/// How many codes in `lo..hi` name canonical tables that separate.
pub open spec fn separating_count(e: &Engine, n: nat, perms: Seq<Vec<u8>>, lo: nat, hi: nat) -> nat
    decreases hi,
{
    if hi <= lo {
        0
    } else {
        separating_count(e, n, perms, lo, (hi - 1) as nat) + if code_canonical((hi - 1) as nat, n, perms)
            && code_separates(e, (hi - 1) as nat, n) {
            1nat
        } else {
            0nat
        }
    }
}

/// `n^k <= b^k` for `n <= b`.
pub(crate) proof fn lemma_pow_base_le(n: nat, b: nat, k: nat)
    requires
        n <= b,
    ensures
        0 <= pow(n as int, k) <= pow(b as int, k),
    decreases k,
{
    reveal(pow);
    if k > 0 {
        lemma_pow_base_le(n, b, (k - 1) as nat);
        assert(n * pow(n as int, (k - 1) as nat) <= b * pow(b as int, (k - 1) as nat)) by (nonlinear_arith)
            requires
                n <= b,
                0 <= pow(n as int, (k - 1) as nat) <= pow(b as int, (k - 1) as nat),
        ;
        assert(0 <= n * pow(n as int, (k - 1) as nat)) by (nonlinear_arith)
            requires
                0 <= pow(n as int, (k - 1) as nat),
        ;
    }
}

/// `20^k <= 20^7` for `k <= 7`.
proof fn lemma_pow20_upto(k: nat)
    requires
        k <= 7,
    ensures
        pow(20, k) <= 1280000000,
{
    reveal_with_fuel(pow, 8);
    assert(pow(20, 0) == 1);
    assert(pow(20, 1) == 20);
    assert(pow(20, 2) == 400);
    assert(pow(20, 3) == 8000);
    assert(pow(20, 4) == 160000);
    assert(pow(20, 5) == 3200000);
    assert(pow(20, 6) == 64000000);
    assert(pow(20, 7) == 1280000000);
}

/// Every law of a well-formed engine can be swept over up to 20 elements:
/// it has at most seven variables, and `20^7` fits in a `u32`.
pub proof fn lemma_sweepable_upto_20(e: &Engine, n: nat)
    requires
        e.wf(),
        n <= 20,
    ensures
        sweepable(&e.dag, n),
{
    assert forall|l: int| 0 <= l < e.dag.laws@.len() implies pow(n as int, (#[trigger] e.dag.laws@[l]).arity as nat)
        <= u32::MAX by {
        lemma_pow_base_le(n, 20, e.dag.laws@[l].arity as nat);
        lemma_pow20_upto(e.dag.laws@[l].arity as nat);
    }
}

/// Which laws of the engine hold in `table` over `n` elements.
pub open spec fn table_sig(e: &Engine, table: Seq<u8>, n: nat) -> Seq<bool> {
    Seq::new(e.dag.laws@.len(), |l: int| dag_law_holds(e.dag.nodes@, e.dag.laws@[l], table, n))
}

/// The target pairs, as law positions, that `m` discharges.
pub fn pairs_hit(e: &Engine, m: &FiniteMagma, s: &mut Scratch, pairs: &Vec<(usize, usize)>) -> (got: Vec<usize>)
    requires
        e.wf(),
        m.wf(),
        old(s).fits(&e.dag),
        m.n <= 20,
        forall|k: int| 0 <= k < pairs@.len() ==> (#[trigger] pairs@[k]).0 < e.dag.laws@.len() && pairs@[k].1 < e.dag.laws@.len(),
    ensures
        final(s).fits(&e.dag),
        got@ == crate::graph::discharged_spec(table_sig(e, m.table@, m.n as nat), pairs@),
{
    proof {
        lemma_sweepable_upto_20(e, m.n as nat);
    }
    let sig = e.signature_with(m, s);
    proof {
        assert(sig@ =~= table_sig(e, m.table@, m.n as nat)) by {
            assert forall|l: int| 0 <= l < sig@.len() implies sig@[l] == table_sig(e, m.table@, m.n as nat)[l] by {
                assert(sig@[l] == e.law_holds(l, m));
            }
        }
    }
    crate::graph::discharged(&sig, pairs.as_slice())
}

/// Sweep the tables with codes `lo..hi` over `n` elements: each canonical one
/// gets its signature, and each separating one is folded into `acc`. Returns
/// how many separate and how many are canonical.
pub fn sweep_chunk(
    e: &Engine,
    n: usize,
    perms: &Vec<Vec<u8>>,
    lo: u64,
    hi: u64,
    s: &mut Scratch,
    acc: &mut GraphCoverage,
) -> (r: (u64, u64))
    requires
        e.wf(),
        old(s).fits(&e.dag),
        1 <= n <= EXACT_ISO_CAP,
        lo <= hi,
        forall|q: int| 0 <= q < perms@.len() ==> is_permutation((#[trigger] perms@[q])@, n as nat),
        old(acc).size() == e.dag.laws@.len(),
    ensures
        final(s).fits(&e.dag),
        final(acc).size() == old(acc).size(),
        final(acc).spec_bits().len() == old(acc).spec_bits().len(),
        forall|i: int, j: int|
            0 <= i < old(acc).size() && 0 <= j < row_words_for(old(acc).size()) * 64 ==> #[trigger] final(acc).covers(i, j)
                == (old(acc).covers(i, j) || (j < old(acc).size() && sweep_discharges(
                e,
                n as nat,
                perms@,
                lo as nat,
                hi as nat,
                i,
                j,
            ))),
        r.0 == separating_count(e, n as nat, perms@, lo as nat, hi as nat),
        r.1 == canonical_count(n as nat, perms@, lo as nat, hi as nat),
{
    proof {
        assert(n * n <= 36) by (nonlinear_arith)
            requires
                n <= 6,
        ;
    }
    let nn = n * n;
    let mut table: Vec<u8> = vec![0u8; nn];
    let mut buf: Vec<u8> = vec![0u8; nn];
    let mut sep: u64 = 0;
    let mut canon: u64 = 0;
    let mut code: u64 = lo;
    let ghost a0 = *acc;
    let ghost size = old(acc).size();
    proof {
        lemma_sweepable_upto_20(e, n as nat);
    }
    while code < hi
        invariant
            e.wf(),
            s.fits(&e.dag),
            1 <= n <= EXACT_ISO_CAP,
            nn == n * n,
            lo <= code <= hi,
            table@.len() == nn,
            buf@.len() == nn,
            sweepable(&e.dag, n as nat),
            forall|q: int| 0 <= q < perms@.len() ==> is_permutation((#[trigger] perms@[q])@, n as nat),
            size == a0.size(),
            acc.size() == size,
            size == e.dag.laws@.len(),
            acc.spec_bits().len() == a0.spec_bits().len(),
            forall|i: int, j: int|
                0 <= i < size && 0 <= j < row_words_for(size) * 64 ==> #[trigger] acc.covers(i, j) == (a0.covers(i, j) || (j
                    < size && sweep_discharges(e, n as nat, perms@, lo as nat, code as nat, i, j))),
            sep == separating_count(e, n as nat, perms@, lo as nat, code as nat),
            canon == canonical_count(n as nat, perms@, lo as nat, code as nat),
            sep <= code - lo,
            canon <= code - lo,
        decreases hi - code,
    {
        fill_digits(code, n, &mut table);
        proof {
            lemma_digits_are_assignment(code as nat, n as nat, nn as nat);
            assert(table@ == code_table(code as nat, n as nat));
            assert(table@.take((n * n) as int) =~= table@);
        }
        let ghost c = code as nat;
        let ghost ac = *acc;
        let canonical = is_canonical(&table, n, perms, &mut buf);
        if canonical {
            canon = canon + 1;
            let m = match FiniteMagma::new(n, table.clone()) {
                Ok(m) => m,
                Err(_) => {
                    proof {
                        assert(table_ok(n as nat, table@));
                    }
                    return (sep, canon);
                },
            };
            let sig = e.signature_with(&m, s);
            let separating = sig.is_separating();
            proof {
                assert forall|l: int| 0 <= l < size implies #[trigger] sig@[l] == code_holds(e, c, n as nat, l) by {
                    assert(sig@[l] == e.law_holds(l, &m));
                }
                if separating {
                    let i = choose|i: int| 0 <= i < sig@.len() && sig@[i];
                    let j = choose|j: int| 0 <= j < sig@.len() && !sig@[j];
                    assert(code_holds(e, c, n as nat, i));
                    assert(!code_holds(e, c, n as nat, j));
                    assert(code_separates(e, c, n as nat));
                } else if code_separates(e, c, n as nat) {
                    let i = choose|l: int| 0 <= l < e.dag.laws@.len() && #[trigger] code_holds(e, c, n as nat, l);
                    let j = choose|l: int| 0 <= l < e.dag.laws@.len() && !#[trigger] code_holds(e, c, n as nat, l);
                    assert(sig@[i]);
                    assert(!sig@[j]);
                }
            }
            if separating {
                sep = sep + 1;
                acc.add(&sig);
            }
            proof {
                assert forall|i: int, j: int| 0 <= i < size && 0 <= j < row_words_for(size) * 64 implies #[trigger] acc.covers(i, j)
                    == (a0.covers(i, j) || (j < size && sweep_discharges(e, n as nat, perms@, lo as nat, (c + 1) as nat, i, j))) by {
                    assert(ac.covers(i, j) == (a0.covers(i, j) || (j < size && sweep_discharges(e, n as nat, perms@, lo as nat, c, i, j))));
                    if j < size && sweep_discharges(e, n as nat, perms@, lo as nat, (c + 1) as nat, i, j) && !sweep_discharges(
                        e,
                        n as nat,
                        perms@,
                        lo as nat,
                        c,
                        i,
                        j,
                    ) {
                        let w = choose|w: nat|
                            lo <= w < c + 1 && code_canonical(w, n as nat, perms@) && code_separates(e, w, n as nat)
                                && #[trigger] code_holds(e, w, n as nat, i) && !code_holds(e, w, n as nat, j);
                        assert(w == c);
                    }
                    if separating && j < size && sig@[i] && !sig@[j] {
                        assert(code_holds(e, c, n as nat, i));
                        assert(sweep_discharges(e, n as nat, perms@, lo as nat, (c + 1) as nat, i, j));
                    }
                }
            }
        } else {
            proof {
                assert forall|i: int, j: int| 0 <= i < size && 0 <= j < row_words_for(size) * 64 implies #[trigger] acc.covers(i, j)
                    == (a0.covers(i, j) || (j < size && sweep_discharges(e, n as nat, perms@, lo as nat, (c + 1) as nat, i, j))) by {
                    if j < size && sweep_discharges(e, n as nat, perms@, lo as nat, (c + 1) as nat, i, j) && !sweep_discharges(
                        e,
                        n as nat,
                        perms@,
                        lo as nat,
                        c,
                        i,
                        j,
                    ) {
                        let w = choose|w: nat|
                            lo <= w < c + 1 && code_canonical(w, n as nat, perms@) && code_separates(e, w, n as nat)
                                && #[trigger] code_holds(e, w, n as nat, i) && !code_holds(e, w, n as nat, j);
                        assert(w == c);
                    }
                }
            }
        }
        proof {
            assert(canonical == code_canonical(c, n as nat, perms@));
        }
        code = code + 1;
    }
    (sep, canon)
}

} // verus!
