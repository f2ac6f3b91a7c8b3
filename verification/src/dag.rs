//! One shared subterm DAG across a whole law list.
//!
//! The laws contain a few thousand distinct subterms between them, so
//! evaluating each law independently re-does most of the work. Instead every
//! subterm is hash-consed once, evaluation walks the DAG bottom-up per
//! variable assignment, and a law becomes a comparison of two node values.
//!
//! The DAG is a flat array of `(op, lhs, rhs)` triples interpreted at
//! runtime, so the law list stays a runtime input.

use crate::law::{
    eval_term, is_assignment, lemma_vars_below_mono, spec_max_var, spec_ops, vars_below, Law, Term,
};
use rustc_hash::{FxBuildHasher, FxHashMap};
use vstd::prelude::*;

verus! {

/// The maximum number of distinct variables in a law of order at most 4:
/// four operations give at most six leaves.
pub const MAX_VARS: usize = 7;

#[derive(Clone, Copy, PartialEq, Eq, Structural, Hash, Debug)]
pub enum Node {
    Var(u8),
    /// Indices of the two operands. Both are strictly less than this node's
    /// own index, so ascending node order is a topological order.
    Op(u32, u32),
}

#[derive(Clone, Copy, Debug)]
pub struct DagLaw {
    /// ETP equation id, 1-based.
    pub id: u32,
    pub lhs: u32,
    pub rhs: u32,
    pub arity: u8,
}

pub struct Dag {
    pub nodes: Vec<Node>,
    /// `arity[i]` is one more than the largest variable index below node `i`.
    pub arity: Vec<u8>,
    pub laws: Vec<DagLaw>,
}

/// The `arity` entry a node must carry, given the entries of its operands.
pub open spec fn arity_rule(nodes: Seq<Node>, arity: Seq<u8>, i: int) -> bool {
    match nodes[i] {
        Node::Var(v) => arity[i] == v + 1,
        Node::Op(a, b) => arity[i] == if arity[a as int] >= arity[b as int] {
            arity[a as int]
        } else {
            arity[b as int]
        },
    }
}

/// The node table alone is well formed: the variable nodes come first, in
/// order, every later node is an application of strictly earlier nodes, and
/// the arity column is consistent.
pub open spec fn nodes_wf(nodes: Seq<Node>, arity: Seq<u8>) -> bool {
    &&& nodes.len() == arity.len()
    &&& MAX_VARS <= nodes.len() <= u32::MAX
    &&& forall|v: int| 0 <= v < MAX_VARS ==> nodes[v] == Node::Var(v as u8)
    &&& forall|i: int|
        MAX_VARS <= i < nodes.len() ==> (#[trigger] nodes[i] matches Node::Op(a, b) && a < i && b
            < i)
    &&& forall|i: int| 0 <= i < nodes.len() ==> #[trigger] arity_rule(nodes, arity, i)
}

/// Value of node `i` in the magma `(table, n)` under the assignment `vals`.
pub open spec fn dag_eval(nodes: Seq<Node>, i: int, table: Seq<u8>, n: nat, vals: Seq<u8>) -> u8
    decreases i,
{
    if i < 0 || i >= nodes.len() {
        0
    } else {
        match nodes[i] {
            Node::Var(v) => vals[v as int],
            Node::Op(a, b) => if 0 <= a < i && 0 <= b < i {
                table[dag_eval(nodes, a as int, table, n, vals) * n + dag_eval(
                    nodes,
                    b as int,
                    table,
                    n,
                    vals,
                )]
            } else {
                0
            },
        }
    }
}

/// Node `i` is the term `t`, shared structure and all.
pub open spec fn node_is(nodes: Seq<Node>, i: int, t: Term) -> bool
    decreases t,
{
    0 <= i < nodes.len() && match t {
        Term::Var(v) => nodes[i] == Node::Var(v),
        Term::Op(l, r) => match nodes[i] {
            Node::Op(a, b) => node_is(nodes, a as int, *l) && node_is(nodes, b as int, *r),
            Node::Var(_) => false,
        },
    }
}

/// A law holds in the magma `(table, n)` when read off the DAG.
pub open spec fn dag_law_holds(nodes: Seq<Node>, law: DagLaw, table: Seq<u8>, n: nat) -> bool {
    forall|vals: Seq<u8>|
        is_assignment(vals, law.arity as nat, n) ==> #[trigger] dag_eval(
            nodes,
            law.lhs as int,
            table,
            n,
            vals,
        ) == dag_eval(nodes, law.rhs as int, table, n, vals)
}

/// A node that is a term evaluates as the term does.
pub proof fn lemma_node_is_eval(
    nodes: Seq<Node>,
    arity: Seq<u8>,
    i: int,
    t: Term,
    table: Seq<u8>,
    n: nat,
    vals: Seq<u8>,
)
    requires
        nodes_wf(nodes, arity),
        node_is(nodes, i, t),
    ensures
        dag_eval(nodes, i, table, n, vals) == eval_term(t, table, n, vals),
    decreases t,
{
    match t {
        Term::Var(v) => {},
        Term::Op(l, r) => {
            if let Node::Op(a, b) = nodes[i] {
                if i < MAX_VARS {
                    assert(nodes[i] == Node::Var(i as u8));
                }
                assert(a < i && b < i);
                lemma_node_is_eval(nodes, arity, a as int, *l, table, n, vals);
                lemma_node_is_eval(nodes, arity, b as int, *r, table, n, vals);
            }
        },
    }
}

/// A node that is a term carries the term's arity.
pub proof fn lemma_node_is_arity(nodes: Seq<Node>, arity: Seq<u8>, i: int, t: Term)
    requires
        nodes_wf(nodes, arity),
        node_is(nodes, i, t),
    ensures
        arity[i] == spec_max_var(t) + 1,
    decreases t,
{
    assert(arity_rule(nodes, arity, i));
    match t {
        Term::Var(v) => {},
        Term::Op(l, r) => {
            if let Node::Op(a, b) = nodes[i] {
                lemma_node_is_arity(nodes, arity, a as int, *l);
                lemma_node_is_arity(nodes, arity, b as int, *r);
            }
        },
    }
}

/// `node_is` survives appending nodes.
pub proof fn lemma_node_is_extend(nodes: Seq<Node>, more: Seq<Node>, i: int, t: Term)
    requires
        node_is(nodes, i, t),
        nodes.len() <= more.len(),
        forall|j: int| 0 <= j < nodes.len() ==> more[j] == nodes[j],
    ensures
        node_is(more, i, t),
    decreases t,
{
    match t {
        Term::Var(v) => {},
        Term::Op(l, r) => {
            if let Node::Op(a, b) = nodes[i] {
                lemma_node_is_extend(nodes, more, a as int, *l);
                lemma_node_is_extend(nodes, more, b as int, *r);
            }
        },
    }
}

pub proof fn lemma_max_var_below(t: Term, k: nat)
    requires
        vars_below(t, k),
    ensures
        spec_max_var(t) < k,
    decreases t,
{
    match t {
        Term::Var(v) => {},
        Term::Op(l, r) => {
            lemma_max_var_below(*l, k);
            lemma_max_var_below(*r, k);
        },
    }
}

/// The hash-consing key of a node: variables below `2^64`, applications at
/// or above it, with the two operand indices side by side.
pub open spec fn node_key(n: Node) -> u128 {
    match n {
        Node::Var(v) => v as u128,
        Node::Op(a, b) => (0x1_0000_0000_0000_0000u128 + (a as u128) * 0x1_0000_0000u128 + (
        b as u128)) as u128,
    }
}

proof fn lemma_node_key_injective(x: Node, y: Node)
    requires
        node_key(x) == node_key(y),
    ensures
        x == y,
{
    match (x, y) {
        (Node::Op(a1, b1), Node::Op(a2, b2)) => {
            vstd::arithmetic::div_mod::lemma_fundamental_div_mod_converse(
                (a1 as int) * 0x1_0000_0000 + b1 as int,
                0x1_0000_0000,
                a1 as int,
                b1 as int,
            );
            vstd::arithmetic::div_mod::lemma_fundamental_div_mod_converse(
                (a2 as int) * 0x1_0000_0000 + b2 as int,
                0x1_0000_0000,
                a2 as int,
                b2 as int,
            );
        },
        _ => {},
    }
}

fn key_of(n: Node) -> (k: u128)
    ensures
        k == node_key(n),
{
    match n {
        Node::Var(v) => v as u128,
        Node::Op(a, b) => 0x1_0000_0000_0000_0000u128 + (a as u128) * 0x1_0000_0000u128 + (
        b as u128),
    }
}

#[verifier::external_type_specification]
#[verifier::external_body]
pub struct ExFxBuildHasher(FxBuildHasher);

/// `FxHashMap::default()`: the map starts empty.
#[verifier::external_body]
fn fx_map_new() -> (r: FxHashMap<u128, u32>)
    ensures
        r@.dom() =~= Set::empty(),
{
    FxHashMap::default()
}

/// `HashMap::get` on an `FxHashMap`: the stored value for the key, if any.
#[verifier::external_body]
fn fx_map_get(m: &FxHashMap<u128, u32>, k: u128) -> (r: Option<u32>)
    ensures
        r == if m@.contains_key(k) {
            Some(m@[k])
        } else {
            None::<u32>
        },
{
    m.get(&k).copied()
}

/// `HashMap::insert` on an `FxHashMap`: the key now maps to the value.
#[verifier::external_body]
fn fx_map_insert(m: &mut FxHashMap<u128, u32>, k: u128, v: u32)
    ensures
        final(m)@ == old(m)@.insert(k, v),
{
    m.insert(k, v);
}

/// Every interned key names the node stored at its index.
pub open spec fn interned_ok(m: Map<u128, u32>, nodes: Seq<Node>) -> bool {
    forall|k: u128|
        #[trigger] m.contains_key(k) ==> m[k] < nodes.len() && node_key(nodes[m[k] as int]) == k
}

/// Every node is interned, under its own index.
pub open spec fn all_interned(m: Map<u128, u32>, nodes: Seq<Node>) -> bool {
    forall|j: int| 0 <= j < nodes.len() ==> #[trigger] m.contains_key(node_key(nodes[j])) && m[node_key(nodes[j])] == j
}

/// No node occurs twice: each subterm is interned once.
pub open spec fn nodes_distinct(nodes: Seq<Node>) -> bool {
    forall|i: int, j: int| 0 <= i < j < nodes.len() ==> #[trigger] nodes[i] != #[trigger] nodes[j]
}

proof fn lemma_all_interned_distinct(m: Map<u128, u32>, nodes: Seq<Node>)
    requires
        all_interned(m, nodes),
    ensures
        nodes_distinct(nodes),
{
    assert forall|i: int, j: int| 0 <= i < j < nodes.len() implies #[trigger] nodes[i] != #[trigger] nodes[j] by {
        assert(m.contains_key(node_key(nodes[i])));
        assert(m.contains_key(node_key(nodes[j])));
    }
}

/// Every variable node is interned.
pub open spec fn vars_interned(m: Map<u128, u32>) -> bool {
    forall|v: u128| 0 <= v < MAX_VARS ==> #[trigger] m.contains_key(v)
}

/// Total number of applications in a law list.
pub open spec fn total_ops(laws: Seq<Law>) -> nat
    decreases laws.len(),
{
    if laws.len() == 0 {
        0
    } else {
        total_ops(laws.drop_last()) + spec_ops(laws.last().lhs) + spec_ops(laws.last().rhs)
    }
}

/// The DAG represents the law list: law `i` of the DAG has the id and arity
/// of law `i` of the list, and its two roots are the two sides.
pub open spec fn represents(dag_nodes: Seq<Node>, dag_laws: Seq<DagLaw>, laws: Seq<Law>) -> bool {
    &&& dag_laws.len() == laws.len()
    &&& forall|i: int|
        0 <= i < laws.len() ==> {
            &&& (#[trigger] dag_laws[i]).id == laws[i].id
            &&& dag_laws[i].arity == laws[i].arity
            &&& node_is(dag_nodes, dag_laws[i].lhs as int, laws[i].lhs)
            &&& node_is(dag_nodes, dag_laws[i].rhs as int, laws[i].rhs)
        }
}

impl Dag {
    /// The DAG is well formed: a valid node table, and every law has two
    /// roots in it whose variables are among the law's.
    pub open spec fn wf(&self) -> bool {
        &&& nodes_wf(self.nodes@, self.arity@)
        &&& self.laws@.len() <= u32::MAX
        &&& forall|l: int|
            0 <= l < self.laws@.len() ==> {
                let law = #[trigger] self.laws@[l];
                &&& law.lhs < self.nodes@.len()
                &&& law.rhs < self.nodes@.len()
                &&& 1 <= law.arity <= MAX_VARS
                &&& self.arity@[law.lhs as int] <= law.arity
                &&& self.arity@[law.rhs as int] <= law.arity
            }
    }

    /// Intern every subterm of every law.
    pub fn build(laws: &[Law]) -> (dag: Dag)
        requires
            forall|i: int| 0 <= i < laws@.len() ==> (#[trigger] laws@[i]).wf(),
            MAX_VARS + total_ops(laws@) <= u32::MAX,
            laws@.len() <= u32::MAX,
        ensures
            dag.wf(),
            represents(dag.nodes@, dag.laws@, laws@),
            nodes_distinct(dag.nodes@),
    {
        let mut dag = Dag { nodes: Vec::new(), arity: Vec::new(), laws: Vec::with_capacity(laws.len()) };
        let mut interned = fx_map_new();

        // Variable nodes occupy indices 0..MAX_VARS so that `vals[v]` is the
        // value of variable `v` with no indirection.
        let mut v: u8 = 0;
        while v < MAX_VARS as u8
            invariant
                v <= MAX_VARS,
                dag.nodes@.len() == v,
                dag.arity@.len() == v,
                dag.laws@.len() == 0,
                forall|w: int| 0 <= w < v ==> dag.nodes@[w] == Node::Var(w as u8),
                forall|w: int| 0 <= w < v ==> dag.arity@[w] == w + 1,
                interned_ok(interned@, dag.nodes@),
                all_interned(interned@, dag.nodes@),
                forall|w: u128| 0 <= w < v ==> #[trigger] interned@.contains_key(w),
                forall|w: u128| #[trigger] interned@.contains_key(w) ==> w < v,
            decreases MAX_VARS - v,
        {
            let ghost n0 = dag.nodes@;
            dag.nodes.push(Node::Var(v));
            dag.arity.push(v + 1);
            fx_map_insert(&mut interned, key_of(Node::Var(v)), v as u32);
            proof {
                assert forall|j: int| 0 <= j < dag.nodes@.len() implies #[trigger] interned@.contains_key(node_key(dag.nodes@[j]))
                    && interned@[node_key(dag.nodes@[j])] == j by {
                    if j < v {
                        assert(dag.nodes@[j] == n0[j]);
                        assert(node_key(n0[j]) == j as u128);
                    }
                }
            }
            v = v + 1;
        }
        proof {
            assert forall|i: int| 0 <= i < dag.nodes@.len() implies #[trigger] arity_rule(
                dag.nodes@,
                dag.arity@,
                i,
            ) by {}
        }

        let mut k: usize = 0;
        while k < laws.len()
            invariant
                forall|i: int| 0 <= i < laws@.len() ==> (#[trigger] laws@[i]).wf(),
                MAX_VARS + total_ops(laws@) <= u32::MAX,
                laws@.len() <= u32::MAX,
                k <= laws@.len(),
                nodes_wf(dag.nodes@, dag.arity@),
                dag.nodes@.len() <= MAX_VARS + total_ops(laws@.take(k as int)),
                interned_ok(interned@, dag.nodes@),
                all_interned(interned@, dag.nodes@),
                vars_interned(interned@),
                represents(dag.nodes@, dag.laws@, laws@.take(k as int)),
                dag.wf(),
            decreases laws@.len() - k,
        {
            let law = &laws[k];
            proof {
                lemma_total_ops_prefix(laws@, k + 1);
                assert(laws@.take(k + 1).drop_last() =~= laws@.take(k as int));
                assert(laws@.take(k + 1).last() == laws@[k as int]);
            }
            let ghost before = dag.nodes@;
            proof {
                lemma_vars_below_mono(law.lhs, law.arity as nat, MAX_VARS as nat);
                lemma_vars_below_mono(law.rhs, law.arity as nat, MAX_VARS as nat);
            }
            let lhs = dag.intern(&law.lhs, &mut interned);
            let ghost mid = dag.nodes@;
            let rhs = dag.intern(&law.rhs, &mut interned);
            proof {
                lemma_node_is_extend(mid, dag.nodes@, lhs as int, law.lhs);
                lemma_node_is_arity(dag.nodes@, dag.arity@, lhs as int, law.lhs);
                lemma_node_is_arity(dag.nodes@, dag.arity@, rhs as int, law.rhs);
                lemma_max_var_below(law.lhs, law.arity as nat);
                lemma_max_var_below(law.rhs, law.arity as nat);
                assert forall|i: int| 0 <= i < k implies node_is(
                    dag.nodes@,
                    (#[trigger] dag.laws@[i]).lhs as int,
                    laws@[i].lhs,
                ) && node_is(dag.nodes@, dag.laws@[i].rhs as int, laws@[i].rhs) by {
                    assert(laws@.take(k as int)[i] == laws@[i]);
                    lemma_node_is_extend(before, dag.nodes@, dag.laws@[i].lhs as int, laws@[i].lhs);
                    lemma_node_is_extend(before, dag.nodes@, dag.laws@[i].rhs as int, laws@[i].rhs);
                }
            }
            dag.laws.push(DagLaw { id: law.id, lhs, rhs, arity: law.arity });
            proof {
                assert forall|i: int| 0 <= i < k + 1 implies {
                    &&& (#[trigger] dag.laws@[i]).id == laws@.take(k + 1)[i].id
                    &&& dag.laws@[i].arity == laws@.take(k + 1)[i].arity
                    &&& node_is(dag.nodes@, dag.laws@[i].lhs as int, laws@.take(k + 1)[i].lhs)
                    &&& node_is(dag.nodes@, dag.laws@[i].rhs as int, laws@.take(k + 1)[i].rhs)
                } by {
                    if i < k {
                        assert(laws@.take(k as int)[i] == laws@[i]);
                    }
                }
            }
            k = k + 1;
        }
        proof {
            assert(laws@.take(k as int) =~= laws@);
            lemma_all_interned_distinct(interned@, dag.nodes@);
        }
        dag
    }

    /// Intern `t` and return its index. The node table only grows.
    fn intern(&mut self, t: &Term, interned: &mut FxHashMap<u128, u32>) -> (idx: u32)
        requires
            nodes_wf(old(self).nodes@, old(self).arity@),
            interned_ok(old(interned)@, old(self).nodes@),
            all_interned(old(interned)@, old(self).nodes@),
            vars_interned(old(interned)@),
            vars_below(*t, MAX_VARS as nat),
            old(self).nodes@.len() + spec_ops(*t) <= u32::MAX,
        ensures
            nodes_wf(final(self).nodes@, final(self).arity@),
            interned_ok(final(interned)@, final(self).nodes@),
            all_interned(final(interned)@, final(self).nodes@),
            vars_interned(final(interned)@),
            final(self).nodes@.len() <= old(self).nodes@.len() + spec_ops(*t),
            old(self).nodes@.len() <= final(self).nodes@.len(),
            forall|j: int|
                0 <= j < old(self).nodes@.len() ==> final(self).nodes@[j] == old(self).nodes@[j]
                    && final(self).arity@[j] == old(self).arity@[j],
            final(self).laws@ == old(self).laws@,
            node_is(final(self).nodes@, idx as int, *t),
        decreases t,
    {
        let node = match t {
            Term::Var(v) => Node::Var(*v),
            Term::Op(l, r) => {
                let ghost n0 = self.nodes@;
                let li = self.intern(l, interned);
                let ghost n1 = self.nodes@;
                let ri = self.intern(r, interned);
                proof {
                    lemma_node_is_extend(n1, self.nodes@, li as int, **l);
                }
                Node::Op(li, ri)
            },
        };
        let key = key_of(node);
        match fx_map_get(interned, key) {
            Some(i) => {
                proof {
                    lemma_node_key_injective(self.nodes@[i as int], node);
                }
                return i;
            },
            None => {},
        }
        let ghost old_nodes = self.nodes@;
        let ghost old_arity = self.arity@;
        let ghost old_interned = interned@;
        let arity = match node {
            Node::Var(v) => v + 1,
            Node::Op(l, r) => {
                let a = self.arity[l as usize];
                let b = self.arity[r as usize];
                if a >= b {
                    a
                } else {
                    b
                }
            },
        };
        let idx = self.nodes.len() as u32;
        self.nodes.push(node);
        self.arity.push(arity);
        fx_map_insert(interned, key, idx);
        proof {
            match node {
                Node::Var(v) => {
                    // A variable node not yet interned would sit past the
                    // first six, which the table forbids.
                    assert(false) by {
                        assert(old(interned)@.contains_key(v as u128));
                    }
                },
                Node::Op(a, b) => {},
            }
            assert forall|i: int| 0 <= i < self.nodes@.len() implies #[trigger] arity_rule(
                self.nodes@,
                self.arity@,
                i,
            ) by {
                if i < old_nodes.len() {
                    assert(arity_rule(old_nodes, old_arity, i));
                    assert(self.nodes@[i] == old_nodes[i]);
                    if i >= MAX_VARS {
                        assert(old_nodes[i] matches Node::Op(a, b) && a < i && b < i);
                    }
                }
            }
            assert forall|k: u128| #[trigger] interned@.contains_key(k) implies interned@[k]
                < self.nodes@.len() && node_key(self.nodes@[interned@[k] as int]) == k by {}
            assert forall|j: int| 0 <= j < self.nodes@.len() implies #[trigger] interned@.contains_key(node_key(self.nodes@[j]))
                && interned@[node_key(self.nodes@[j])] == j by {
                if j < old_nodes.len() {
                    assert(self.nodes@[j] == old_nodes[j]);
                    assert(old_interned.contains_key(node_key(old_nodes[j])));
                    assert(node_key(old_nodes[j]) != key);
                }
            }
            if let Term::Op(l, r) = t {
                if let Node::Op(a, b) = node {
                    lemma_node_is_extend(old_nodes, self.nodes@, a as int, **l);
                    lemma_node_is_extend(old_nodes, self.nodes@, b as int, **r);
                }
            }
        }
        idx
    }

    pub fn n_laws(&self) -> (r: usize)
        ensures
            r == self.laws@.len(),
    {
        self.laws.len()
    }

    /// Number of interned nodes that are applications rather than variables.
    pub fn n_op_nodes(&self) -> (r: usize)
        requires
            self.wf(),
        ensures
            r == self.nodes@.len() - MAX_VARS,
    {
        self.nodes.len() - MAX_VARS
    }
}


/// Laws grouped by how many variables they use, with the sub-DAG each group
/// needs. A law of arity `k` is refuted or confirmed by sweeping `n^k`
/// assignments, so grouping saves the factor `n^(6-k)` that a single
/// six-variable sweep would waste on the laws using fewer variables.
pub struct Bucket {
    pub arity: u8,
    /// Application nodes reachable from this bucket's laws, in ascending
    /// index order, which is a valid evaluation order.
    pub order: Vec<u32>,
    /// Indices into `Dag::laws`.
    pub laws: Vec<u32>,
}

pub struct EvalPlan {
    pub buckets: Vec<Bucket>,
    pub n_laws: usize,
}

pub open spec fn strictly_increasing(s: Seq<u32>) -> bool {
    forall|i: int, j: int| 0 <= i < j < s.len() ==> s[i] < s[j]
}

/// Some bucket has arity `a`.
pub open spec fn has_bucket(buckets: Seq<Bucket>, a: u8) -> bool {
    exists|q: int| 0 <= q < buckets.len() && (#[trigger] buckets[q]).arity == a
}

/// Node `x` is a variable, or is evaluated by `order`.
pub open spec fn covered_by(order: Seq<u32>, x: u32) -> bool {
    x < MAX_VARS || order.contains(x)
}

/// Node `x` is a variable, or belongs to `s`.
pub open spec fn covered_set(s: Set<u32>, x: u32) -> bool {
    x < MAX_VARS || s.contains(x)
}

/// Every entry of `xs` is covered by `s`.
pub open spec fn all_covered(s: Set<u32>, xs: Seq<u32>) -> bool {
    forall|j: int| 0 <= j < xs.len() ==> covered_set(s, #[trigger] xs[j])
}

/// Every marked node is covered by `s`.
pub open spec fn marks_covered(s: Set<u32>, marked: Seq<bool>) -> bool {
    forall|i: int| 0 <= i < marked.len() && #[trigger] marked[i] ==> covered_set(s, i as u32)
}

impl Dag {
    /// `s` covers the roots of the laws `laws` and, for each application
    /// node it holds, both operands: any set of nodes from which those laws
    /// can be evaluated.
    pub open spec fn closed_over(&self, laws: Seq<u32>, s: Set<u32>) -> bool {
        &&& forall|q: int|
            0 <= q < laws.len() ==> covered_set(s, self.laws@[#[trigger] laws[q] as int].lhs) && covered_set(
                s,
                self.laws@[laws[q] as int].rhs,
            )
        &&& forall|x: u32|
            #[trigger] s.contains(x) && MAX_VARS <= x < self.nodes@.len() ==> match self.nodes@[x as int] {
                Node::Op(a, b) => covered_set(s, a) && covered_set(s, b),
                Node::Var(_) => true,
            }
    }

    /// Bucket `b` holds exactly the laws of its arity, ascending, and at
    /// least one; its `order` lists, ascending, application nodes of at most
    /// that arity that are closed under taking operands and contain every
    /// law root, and nothing else: every node it lists lies in each set
    /// that covers the roots and is closed under taking operands, so it
    /// holds exactly the nodes reachable from the roots.
    pub open spec fn bucket_ok(&self, b: &Bucket) -> bool {
        &&& 1 <= b.arity <= MAX_VARS
        &&& b.laws@.len() > 0
        &&& forall|s: Set<u32>|
            #[trigger] self.closed_over(b.laws@, s) ==> forall|q: int|
                0 <= q < b.order@.len() ==> s.contains(#[trigger] b.order@[q])
        &&& strictly_increasing(b.laws@)
        &&& forall|q: int|
            0 <= q < b.laws@.len() ==> #[trigger] b.laws@[q] < self.laws@.len()
                && self.laws@[b.laws@[q] as int].arity == b.arity
        &&& forall|l: int|
            0 <= l < self.laws@.len() && (#[trigger] self.laws@[l]).arity == b.arity
                ==> b.laws@.contains(l as u32)
        &&& strictly_increasing(b.order@)
        &&& forall|q: int|
            0 <= q < b.order@.len() ==> MAX_VARS <= #[trigger] b.order@[q] < self.nodes@.len()
                && self.arity@[b.order@[q] as int] <= b.arity && match self.nodes@[b.order@[q] as int] {
                Node::Op(x, y) => covered_by(b.order@, x) && covered_by(b.order@, y),
                Node::Var(_) => true,
            }
        &&& forall|q: int|
            0 <= q < b.laws@.len() ==> covered_by(
                b.order@,
                self.laws@[#[trigger] b.laws@[q] as int].lhs,
            ) && covered_by(b.order@, self.laws@[b.laws@[q] as int].rhs)
    }

    /// The plan covers this DAG: its buckets are valid, by increasing arity,
    /// and every law falls in one.
    pub open spec fn plan_ok(&self, plan: &EvalPlan) -> bool {
        &&& plan.n_laws == self.laws@.len()
        &&& forall|q: int| 0 <= q < plan.buckets@.len() ==> self.bucket_ok(&#[trigger] plan.buckets@[q])
        &&& forall|q1: int, q2: int|
            0 <= q1 < q2 < plan.buckets@.len() ==> plan.buckets@[q1].arity < plan.buckets@[q2].arity
        &&& forall|l: int|
            0 <= l < self.laws@.len() ==> has_bucket(plan.buckets@, (#[trigger] self.laws@[l]).arity)
    }
}

/// How many entries of `s` are `false`.
pub open spec fn count_unmarked(s: Seq<bool>) -> nat
    decreases s.len(),
{
    if s.len() == 0 {
        0
    } else {
        count_unmarked(s.drop_last()) + if s.last() {
            0nat
        } else {
            1nat
        }
    }
}

proof fn lemma_count_unmarked_mark(s: Seq<bool>, i: int)
    requires
        0 <= i < s.len(),
        !s[i],
    ensures
        count_unmarked(s.update(i, true)) + 1 == count_unmarked(s),
    decreases s.len(),
{
    if i == s.len() - 1 {
        assert(s.update(i, true).drop_last() =~= s.drop_last());
    } else {
        assert(s.update(i, true).drop_last() =~= s.drop_last().update(i, true));
        lemma_count_unmarked_mark(s.drop_last(), i);
    }
}

impl EvalPlan {
    pub fn build(dag: &Dag) -> (plan: EvalPlan)
        requires
            dag.wf(),
        ensures
            dag.plan_ok(&plan),
    {
        let mut buckets: Vec<Bucket> = Vec::new();
        let mut k: u8 = 1;
        while k <= MAX_VARS as u8
            invariant
                dag.wf(),
                1 <= k <= MAX_VARS + 1,
                forall|q: int| 0 <= q < buckets@.len() ==> dag.bucket_ok(&#[trigger] buckets@[q]),
                forall|q: int| 0 <= q < buckets@.len() ==> (#[trigger] buckets@[q]).arity < k,
                forall|q1: int, q2: int|
                    0 <= q1 < q2 < buckets@.len() ==> buckets@[q1].arity < buckets@[q2].arity,
                forall|l: int|
                    0 <= l < dag.laws@.len() && (#[trigger] dag.laws@[l]).arity < k ==> has_bucket(
                        buckets@,
                        dag.laws@[l].arity,
                    ),
            decreases MAX_VARS + 1 - k,
        {
            let mut laws: Vec<u32> = Vec::new();
            let mut li: usize = 0;
            while li < dag.laws.len()
                invariant
                    dag.wf(),
                    li <= dag.laws@.len(),
                    strictly_increasing(laws@),
                    forall|q: int|
                        0 <= q < laws@.len() ==> #[trigger] laws@[q] < li
                            && dag.laws@[laws@[q] as int].arity == k,
                    forall|l: int|
                        0 <= l < li && (#[trigger] dag.laws@[l]).arity == k ==> laws@.contains(
                            l as u32,
                        ),
                decreases dag.laws@.len() - li,
            {
                if dag.laws[li].arity == k {
                    let ghost before = laws@;
                    laws.push(li as u32);
                    proof {
                        assert forall|l: int|
                            0 <= l < li + 1 && (#[trigger] dag.laws@[l]).arity
                                == k implies laws@.contains(l as u32) by {
                            if l < li {
                                let q = choose|q: int| 0 <= q < before.len() && before[q] == l as u32;
                                assert(laws@[q] == l as u32);
                            } else {
                                assert(laws@[laws@.len() - 1] == l as u32);
                            }
                        }
                    }
                }
                li = li + 1;
            }
            if laws.len() == 0 {
                proof {
                    assert forall|l: int|
                        0 <= l < dag.laws@.len() && (#[trigger] dag.laws@[l]).arity < k
                            + 1 implies has_bucket(buckets@, dag.laws@[l].arity) by {
                        if dag.laws@[l].arity == k {
                            assert(laws@.contains(l as u32));
                        }
                    }
                }
                k = k + 1;
                continue;
            }
            let n_nodes = dag.nodes.len();
            let mut needed: Vec<bool> = vec![false; n_nodes];
            let mut stack: Vec<u32> = Vec::new();
            let mut q: usize = 0;
            while q < laws.len()
                invariant
                    dag.wf(),
                    n_nodes == dag.nodes@.len(),
                    needed@.len() == n_nodes,
                    forall|i: int| 0 <= i < n_nodes ==> !needed@[i],
                    0 <= q <= laws@.len(),
                    forall|j: int|
                        0 <= j < laws@.len() ==> #[trigger] laws@[j] < dag.laws@.len()
                            && dag.laws@[laws@[j] as int].arity == k,
                    forall|j: int|
                        0 <= j < stack@.len() ==> #[trigger] stack@[j] < n_nodes
                            && dag.arity@[stack@[j] as int] <= k,
                    forall|j: int|
                        0 <= j < q ==> stack@.contains(dag.laws@[#[trigger] laws@[j] as int].lhs)
                            && stack@.contains(dag.laws@[laws@[j] as int].rhs),
                    forall|s: Set<u32>| #[trigger] dag.closed_over(laws@, s) ==> all_covered(s, stack@),
                decreases laws@.len() - q,
            {
                let l = dag.laws[laws[q] as usize];
                let ghost s0 = stack@;
                stack.push(l.lhs);
                stack.push(l.rhs);
                proof {
                    assert forall|s: Set<u32>| #[trigger] dag.closed_over(laws@, s) implies all_covered(s, stack@) by {
                        assert(all_covered(s, s0));
                        assert(covered_set(s, dag.laws@[laws@[q as int] as int].lhs));
                        assert forall|j: int| 0 <= j < stack@.len() implies covered_set(s, #[trigger] stack@[j]) by {
                            if j < s0.len() {
                                assert(stack@[j] == s0[j]);
                            }
                        }
                    }
                    assert(stack@[stack@.len() - 2] == l.lhs);
                    assert(stack@[stack@.len() - 1] == l.rhs);
                    assert forall|j: int| 0 <= j < q + 1 implies stack@.contains(
                        dag.laws@[#[trigger] laws@[j] as int].lhs,
                    ) && stack@.contains(dag.laws@[laws@[j] as int].rhs) by {
                        if j < q {
                            let a = choose|a: int|
                                0 <= a < s0.len() && s0[a] == dag.laws@[laws@[j] as int].lhs;
                            assert(stack@[a] == s0[a]);
                            let b = choose|b: int|
                                0 <= b < s0.len() && s0[b] == dag.laws@[laws@[j] as int].rhs;
                            assert(stack@[b] == s0[b]);
                        }
                    }
                }
                q = q + 1;
            }
            while stack.len() > 0
                invariant
                    dag.wf(),
                    n_nodes == dag.nodes@.len(),
                    needed@.len() == n_nodes,
                    forall|j: int|
                        0 <= j < laws@.len() ==> #[trigger] laws@[j] < dag.laws@.len()
                            && dag.laws@[laws@[j] as int].arity == k,
                    forall|j: int|
                        0 <= j < stack@.len() ==> #[trigger] stack@[j] < n_nodes
                            && dag.arity@[stack@[j] as int] <= k,
                    forall|i: int|
                        0 <= i < n_nodes && #[trigger] needed@[i] ==> dag.arity@[i] <= k
                            && match dag.nodes@[i] {
                            Node::Op(a, b) => (needed@[a as int] || stack@.contains(a)) && (
                            needed@[b as int] || stack@.contains(b)),
                            Node::Var(_) => true,
                        },
                    forall|j: int|
                        0 <= j < laws@.len() ==> {
                            let lw = dag.laws@[#[trigger] laws@[j] as int];
                            &&& (needed@[lw.lhs as int] || stack@.contains(lw.lhs))
                            &&& (needed@[lw.rhs as int] || stack@.contains(lw.rhs))
                        },
                    forall|s: Set<u32>|
                        #[trigger] dag.closed_over(laws@, s) ==> all_covered(s, stack@) && marks_covered(s, needed@),
                decreases count_unmarked(needed@), stack@.len(),
            {
                let ghost s0 = stack@;
                let ghost m0 = needed@;
                let n = stack.pop().unwrap();
                proof {
                    assert(stack@ =~= s0.drop_last());
                    assert(n == s0.last());
                }
                // Anything the old stack held besides the popped entry is
                // still on it.
                if needed[n as usize] {
                    proof {
                        assert forall|c: u32| s0.contains(c) && c != n implies stack@.contains(c) by {
                            let a = choose|a: int| 0 <= a < s0.len() && s0[a] == c;
                            assert(a < s0.len() - 1);
                            assert(stack@[a] == c);
                        }
                    }
                    proof {
                        assert forall|s: Set<u32>| #[trigger] dag.closed_over(laws@, s) implies all_covered(s, stack@)
                            && marks_covered(s, needed@) by {
                            assert(all_covered(s, s0));
                            assert forall|j: int| 0 <= j < stack@.len() implies covered_set(s, #[trigger] stack@[j]) by {
                                assert(stack@[j] == s0[j]);
                            }
                        }
                    }
                    continue;
                }
                needed.set(n as usize, true);
                proof {
                    lemma_count_unmarked_mark(m0, n as int);
                    assert(arity_rule(dag.nodes@, dag.arity@, n as int));
                }
                let ghost s1 = stack@;
                match dag.nodes[n as usize] {
                    Node::Op(a, b) => {
                        proof {
                            if (n as int) < MAX_VARS {
                                assert(dag.nodes@[n as int] == Node::Var(n as u8));
                            }
                        }
                        stack.push(a);
                        stack.push(b);
                        proof {
                            assert(stack@[stack@.len() - 2] == a);
                            assert(stack@[stack@.len() - 1] == b);
                        }
                    },
                    Node::Var(_) => {},
                }
                proof {
                    assert forall|c: u32| s0.contains(c) && c != n implies stack@.contains(c) by {
                        let i = choose|i: int| 0 <= i < s0.len() && s0[i] == c;
                        assert(i < s0.len() - 1);
                        assert(s1[i] == c);
                        assert(stack@[i] == c);
                    }
                    assert forall|s: Set<u32>| #[trigger] dag.closed_over(laws@, s) implies all_covered(s, stack@)
                        && marks_covered(s, needed@) by {
                        assert(all_covered(s, s0));
                        assert(marks_covered(s, m0));
                        assert(covered_set(s, s0[s0.len() - 1]));
                        assert(covered_set(s, n));
                        if let Node::Op(a, b) = dag.nodes@[n as int] {
                            if (n as int) >= MAX_VARS {
                                assert(s.contains(n));
                                assert(covered_set(s, a) && covered_set(s, b));
                            } else {
                                assert(dag.nodes@[n as int] == Node::Var(n as u8));
                            }
                        }
                        assert forall|j: int| 0 <= j < stack@.len() implies covered_set(s, #[trigger] stack@[j]) by {
                            if j < s1.len() {
                                assert(stack@[j] == s0[j]);
                            }
                        }
                        assert forall|i: int| 0 <= i < needed@.len() && #[trigger] needed@[i] implies covered_set(
                            s,
                            i as u32,
                        ) by {
                            if i != n {
                                assert(m0[i]);
                            }
                        }
                    }
                }
            }
            let mut order: Vec<u32> = Vec::new();
            let mut i: usize = MAX_VARS;
            while i < n_nodes
                invariant
                    dag.wf(),
                    n_nodes == dag.nodes@.len(),
                    needed@.len() == n_nodes,
                    MAX_VARS <= i <= n_nodes,
                    strictly_increasing(order@),
                    forall|j: int|
                        0 <= j < order@.len() ==> MAX_VARS <= #[trigger] order@[j] < i
                            && needed@[order@[j] as int],
                    forall|j: int|
                        MAX_VARS <= j < i && #[trigger] needed@[j] ==> order@.contains(j as u32),
                    forall|s: Set<u32>| #[trigger] dag.closed_over(laws@, s) ==> marks_covered(s, needed@),
                decreases n_nodes - i,
            {
                if needed[i] {
                    let ghost before = order@;
                    order.push(i as u32);
                    proof {
                        assert forall|j: int|
                            MAX_VARS <= j < i + 1 && #[trigger] needed@[j] implies order@.contains(
                                j as u32,
                            ) by {
                            if j < i {
                                let q = choose|q: int| 0 <= q < before.len() && before[q] == j as u32;
                                assert(order@[q] == j as u32);
                            } else {
                                assert(order@[order@.len() - 1] == j as u32);
                            }
                        }
                    }
                }
                i = i + 1;
            }
            let bucket = Bucket { arity: k, order, laws };
            proof {
                assert forall|q: int| 0 <= q < bucket.order@.len() implies {
                    &&& MAX_VARS <= #[trigger] bucket.order@[q] < dag.nodes@.len()
                    &&& dag.arity@[bucket.order@[q] as int] <= bucket.arity
                    &&& match dag.nodes@[bucket.order@[q] as int] {
                        Node::Op(x, y) => covered_by(bucket.order@, x) && covered_by(
                            bucket.order@,
                            y,
                        ),
                        Node::Var(_) => true,
                    }
                } by {
                    let o = bucket.order@[q] as int;
                    assert(needed@[o]);
                    if let Node::Op(x, y) = dag.nodes@[o] {
                        assert(x < o && y < o);
                        if x >= MAX_VARS {
                            assert(needed@[x as int]);
                        }
                        if y >= MAX_VARS {
                            assert(needed@[y as int]);
                        }
                    }
                }
                assert forall|s: Set<u32>| #[trigger] dag.closed_over(bucket.laws@, s) implies forall|q: int|
                    0 <= q < bucket.order@.len() ==> s.contains(#[trigger] bucket.order@[q]) by {
                    assert(marks_covered(s, needed@));
                    assert forall|q: int| 0 <= q < bucket.order@.len() implies s.contains(#[trigger] bucket.order@[q]) by {
                        let o = bucket.order@[q] as int;
                        assert(needed@[o]);
                        assert(covered_set(s, o as u32));
                    }
                }
                assert forall|q: int| 0 <= q < bucket.laws@.len() implies covered_by(
                    bucket.order@,
                    dag.laws@[#[trigger] bucket.laws@[q] as int].lhs,
                ) && covered_by(bucket.order@, dag.laws@[bucket.laws@[q] as int].rhs) by {
                    let lw = dag.laws@[bucket.laws@[q] as int];
                    assert(needed@[lw.lhs as int]);
                    assert(needed@[lw.rhs as int]);
                }
            }
            let ghost b0 = buckets@;
            buckets.push(bucket);
            proof {
                assert forall|l: int|
                    0 <= l < dag.laws@.len() && (#[trigger] dag.laws@[l]).arity < k
                        + 1 implies has_bucket(buckets@, dag.laws@[l].arity) by {
                    if dag.laws@[l].arity == k {
                        assert(buckets@[buckets@.len() - 1].arity == k);
                        assert(has_bucket(buckets@, dag.laws@[l].arity));
                    } else {
                        let q = choose|q: int|
                            0 <= q < b0.len() && (#[trigger] b0[q]).arity == dag.laws@[l].arity;
                        assert(buckets@[q] == b0[q]);
                        assert(has_bucket(buckets@, dag.laws@[l].arity));
                    }
                }
            }
            k = k + 1;
        }
        proof {
            assert forall|l: int| 0 <= l < dag.laws@.len() implies has_bucket(
                buckets@,
                (#[trigger] dag.laws@[l]).arity,
            ) by {
                assert(dag.laws@[l].arity < k);
            }
        }
        let plan = EvalPlan { buckets, n_laws: dag.laws.len() };
        assert(plan.n_laws == dag.laws@.len());
        assert(forall|q: int| 0 <= q < plan.buckets@.len() ==> dag.bucket_ok(&#[trigger] plan.buckets@[q]));
        assert(forall|q1: int, q2: int|
            0 <= q1 < q2 < plan.buckets@.len() ==> plan.buckets@[q1].arity < plan.buckets@[q2].arity);
        plan
    }
}

proof fn lemma_total_ops_prefix(laws: Seq<Law>, k: int)
    requires
        0 <= k <= laws.len(),
    ensures
        total_ops(laws.take(k)) <= total_ops(laws),
    decreases laws.len(),
{
    if k < laws.len() {
        assert(laws.drop_last().take(k) =~= laws.take(k));
        lemma_total_ops_prefix(laws.drop_last(), k);
    } else {
        assert(laws.take(k) =~= laws);
    }
}

} // verus!
