//! The construction corpus: one row of the coverage matrix per *instance*.
//!
//! Coverage is defined over an explicit parameter grid, not over a family. A
//! linear model with free coefficients is an unbounded parametrised set, so
//! "the coverage of the linear family" has no value. Every grid is finite,
//! stated in the output, and every total is reported against it.

use crate::linear::{
    law_vanishes,
    comb, comb_fits, const_indexed, law_fits, laws_indexed, step_fits, word_val, words_fit, words_spec,
    terms_short, AffineModel, LinearLaws, LinearModel, RingOps,
};
use crate::nc::N_WORDS;
use crate::quadratic::code_digit;
use crate::problems::{decimal, push_decimal, push_str, string_of};
use crate::rings::{emod, in_i128, ints_u64, unit_vec, trim, FreeComm, FreeNc, Integers, MatFp, OneSidedInverse, PolyZ, Zmod};
use crate::sig::Signature;
use rustc_hash::FxHashSet;
use vstd::arithmetic::power::pow;
use vstd::prelude::*;

verus! {

#[derive(Clone, Copy, PartialEq, Eq, Structural, Debug)]
pub enum Carrier {
    Finite(usize),
    Infinite,
}

impl Carrier {
    /// Whether a table sweep is a practical alternative to deciding this
    /// instance symbolically. Some laws use six variables, so a sweep costs
    /// `n^6` assignments; at `n = 16` that is 16.7 million and takes seconds,
    /// at `n = 81` it is 2.8e11 and takes years.
    pub fn table_checkable(&self) -> (b: bool)
        ensures
            b == (*self matches Carrier::Finite(n) && n <= 16),
    {
        match self {
            Carrier::Finite(n) => *n <= 16,
            Carrier::Infinite => false,
        }
    }
}

#[derive(Debug)]
pub struct Instance {
    pub family: &'static str,
    pub params: String,
    pub carrier: Carrier,
    pub sig: Signature,
}

/// One line of the stated grid, for the output header.
#[derive(Clone, Debug)]
pub struct GridSpec {
    pub family: &'static str,
    pub description: String,
    pub enumerated: usize,
    pub distinct: usize,
}

#[derive(Debug)]
pub struct Corpus {
    pub instances: Vec<Instance>,
    pub grid: Vec<GridSpec>,
}

impl Corpus {
    /// An empty corpus.
    pub fn new() -> (c: Corpus)
        ensures
            c.instances@.len() == 0,
            c.grid@.len() == 0,
            rows_distinct(c.instances@),
    {
        Corpus { instances: Vec::new(), grid: Vec::new() }
    }
}

impl Default for Corpus {
    fn default() -> (c: Corpus)
        ensures
            c.instances@.len() == 0,
            c.grid@.len() == 0,
            rows_distinct(c.instances@),
    {
        Corpus::new()
    }
}

/// The word vectors an `FxHashSet` holds, by value.
pub uninterp spec fn word_set(s: FxHashSet<Vec<u64>>) -> Set<Seq<u64>>;

/// `FxHashSet::default()`: the set starts empty.
#[verifier::external_body]
fn word_set_new() -> (r: FxHashSet<Vec<u64>>)
    ensures
        word_set(r) =~= Set::empty(),
{
    FxHashSet::default()
}

/// `HashSet::insert` on an `FxHashSet`: the value is now held, and the call
/// reports whether it was absent before. Two vectors are the same element
/// exactly when their entries are equal.
#[verifier::external_body]
fn word_set_insert(s: &mut FxHashSet<Vec<u64>>, v: Vec<u64>) -> (r: bool)
    ensures
        r == !word_set(*old(s)).contains(v@),
        word_set(*final(s)) == word_set(*old(s)).insert(v@),
{
    s.insert(v)
}

/// The signature satisfies some law and refutes some law.
pub open spec fn separating(s: Seq<bool>) -> bool {
    (exists|i: int| 0 <= i < s.len() && s[i]) && (exists|j: int| 0 <= j < s.len() && !s[j])
}

/// The packed words of every instance.
pub open spec fn words_of(instances: Seq<Instance>) -> Set<Seq<u64>> {
    Set::new(|w: Seq<u64>| exists|i: int| 0 <= i < instances.len() && instances[i].sig.spec_words() == w)
}

/// The words of the separating items among the first `n`.
pub open spec fn family_words(items: Seq<(String, Carrier, Signature)>, n: int) -> Set<Seq<u64>> {
    Set::new(|w: Seq<u64>| exists|p: int| 0 <= p < n && separating(#[trigger] items[p].2@) && items[p].2.spec_words() == w)
}

/// Item `q` of a family is kept: it separates, and no instance already in the
/// corpus, nor any earlier separating item of the family, has its words.
pub open spec fn kept(prior: Set<Seq<u64>>, items: Seq<(String, Carrier, Signature)>, q: int) -> bool {
    &&& separating(items[q].2@)
    &&& !prior.contains(items[q].2.spec_words())
    &&& forall|p: int|
        0 <= p < q && separating(#[trigger] items[p].2@) ==> items[p].2.spec_words() != items[q].2.spec_words()
}

/// The positions of the kept items among the first `n`, ascending.
pub open spec fn kept_indices(prior: Set<Seq<u64>>, items: Seq<(String, Carrier, Signature)>, n: nat) -> Seq<int>
    decreases n,
{
    if n == 0 {
        Seq::empty()
    } else {
        let s = kept_indices(prior, items, (n - 1) as nat);
        if kept(prior, items, n - 1) {
            s.push(n - 1)
        } else {
            s
        }
    }
}

proof fn lemma_kept_indices_bound(prior: Set<Seq<u64>>, items: Seq<(String, Carrier, Signature)>, n: nat)
    ensures
        kept_indices(prior, items, n).len() <= n,
        forall|k: int| 0 <= k < kept_indices(prior, items, n).len() ==> 0 <= #[trigger] kept_indices(prior, items, n)[k] < n,
    decreases n,
{
    if n > 0 {
        lemma_kept_indices_bound(prior, items, (n - 1) as nat);
    }
}

/// Every row separates, and no two rows share their words.
pub open spec fn rows_distinct(instances: Seq<Instance>) -> bool {
    &&& forall|i: int| 0 <= i < instances.len() ==> separating(#[trigger] instances[i].sig@)
    &&& forall|i: int, j: int|
        0 <= i < j < instances.len() ==> #[trigger] instances[i].sig.spec_words() != #[trigger] instances[j].sig.spec_words()
}

/// The instances one family adds to a corpus that already holds `prior`:
/// its kept items, in order, labelled with the family.
pub open spec fn family_instances(prior: Seq<Instance>, family: &'static str, items: Seq<(String, Carrier, Signature)>) -> Seq<Instance> {
    let ks = kept_indices(words_of(prior), items, items.len());
    Seq::new(ks.len(), |k: int| Instance { family, params: items[ks[k]].0, carrier: items[ks[k]].1, sig: items[ks[k]].2 })
}

/// The instances of a corpus built by adding the first `k` families, in
/// order, each family's generated rows in `rows`.
pub open spec fn corpus_after(families: Seq<&'static str>, rows: Seq<Seq<(String, Carrier, Signature)>>, k: nat) -> Seq<Instance>
    decreases k,
{
    if k == 0 {
        Seq::empty()
    } else {
        let p = corpus_after(families, rows, (k - 1) as nat);
        p + family_instances(p, families[k - 1], rows[k - 1])
    }
}

/// How many rows family `k` keeps on top of the families before it.
pub open spec fn kept_count(families: Seq<&'static str>, rows: Seq<Seq<(String, Carrier, Signature)>>, k: nat) -> nat {
    kept_indices(words_of(corpus_after(families, rows, k)), rows[k as int], rows[k as int].len()).len()
}

proof fn lemma_kept_indices_kept(prior: Set<Seq<u64>>, items: Seq<(String, Carrier, Signature)>, n: nat)
    ensures
        forall|k: int| 0 <= k < kept_indices(prior, items, n).len() ==> kept(prior, items, #[trigger] kept_indices(prior, items, n)[k]),
        forall|k1: int, k2: int|
            0 <= k1 < k2 < kept_indices(prior, items, n).len() ==> #[trigger] kept_indices(prior, items, n)[k1] < #[trigger] kept_indices(prior, items, n)[k2],
    decreases n,
{
    if n > 0 {
        lemma_kept_indices_kept(prior, items, (n - 1) as nat);
        lemma_kept_indices_bound(prior, items, (n - 1) as nat);
    }
}

impl Corpus {
    /// Add every instance of one family, keeping only those whose signature
    /// separates something and is new. Identical signatures are identical
    /// rows of the coverage matrix, so deduplicating on the signature
    /// subsumes deduplicating up to isomorphism.
    pub fn add_family(&mut self, family: &'static str, description: String, it: Vec<(String, Carrier, Signature)>)
        requires
            old(self).instances@.len() + it@.len() <= usize::MAX,
            old(self).grid@.len() < usize::MAX,
        ensures
            final(self).instances@.len() <= old(self).instances@.len() + it@.len(),
            ({
                let ks = kept_indices(words_of(old(self).instances@), it@, it@.len());
                &&& final(self).instances@.len() == old(self).instances@.len() + ks.len()
                &&& forall|i: int| 0 <= i < old(self).instances@.len() ==> #[trigger] final(self).instances@[i] == old(self).instances@[i]
                &&& forall|k: int|
                    0 <= k < ks.len() ==> {
                        let inst = #[trigger] final(self).instances@[old(self).instances@.len() + k];
                        &&& inst.family == family
                        &&& inst.params == it@[ks[k]].0
                        &&& inst.carrier == it@[ks[k]].1
                        &&& inst.sig == it@[ks[k]].2
                    }
                &&& final(self).grid@ == old(self).grid@.push(
                    GridSpec { family, description, enumerated: it@.len() as usize, distinct: ks.len() as usize },
                )
            }),
            final(self).instances@ == old(self).instances@ + family_instances(old(self).instances@, family, it@),
            rows_distinct(old(self).instances@) ==> rows_distinct(final(self).instances@),
    {
        let ghost prior = words_of(self.instances@);
        let ghost items = it@;
        let ghost n0 = self.instances@.len();
        let mut seen = word_set_new();
        let mut i: usize = 0;
        while i < self.instances.len()
            invariant
                i <= self.instances@.len(),
                prior == words_of(self.instances@),
                word_set(seen) == Set::new(|w: Seq<u64>| exists|j: int| 0 <= j < i && self.instances@[j].sig.spec_words() == w),
            decreases self.instances@.len() - i,
        {
            let w = vstd::slice::slice_to_vec(self.instances[i].sig.words());
            let ghost before = word_set(seen);
            let _ = word_set_insert(&mut seen, w);
            proof {
                assert(word_set(seen) =~= Set::new(|x: Seq<u64>| exists|j: int| 0 <= j < i + 1 && self.instances@[j].sig.spec_words() == x)) by {
                    assert forall|x: Seq<u64>| word_set(seen).contains(x) implies exists|j: int| 0 <= j < i + 1 && self.instances@[j].sig.spec_words() == x by {
                        if x != self.instances@[i as int].sig.spec_words() {
                            assert(before.contains(x));
                        }
                    }
                }
            }
            i = i + 1;
        }
        proof {
            assert(word_set(seen) =~= prior);
        }
        // Reverse the items, so that popping yields them in order.
        let mut it = it;
        let mut rev: Vec<(String, Carrier, Signature)> = Vec::new();
        while it.len() > 0
            invariant
                it@.len() + rev@.len() == items.len(),
                forall|q: int| 0 <= q < it@.len() ==> #[trigger] it@[q] == items[q],
                forall|k: int| 0 <= k < rev@.len() ==> #[trigger] rev@[k] == items[items.len() - 1 - k],
            decreases it@.len(),
        {
            let item = it.pop().unwrap();
            rev.push(item);
        }
        let total = rev.len();
        let mut enumerated: usize = 0;
        let mut distinct: usize = 0;
        while rev.len() > 0
            invariant
                total == items.len(),
                rev@.len() + enumerated == total,
                forall|k: int| 0 <= k < rev@.len() ==> #[trigger] rev@[k] == items[items.len() - 1 - k],
                n0 + total <= usize::MAX,
                self.grid@ == old(self).grid@,
                self.instances@.len() == n0 + distinct,
                n0 == old(self).instances@.len(),
                forall|j: int| 0 <= j < n0 ==> #[trigger] self.instances@[j] == old(self).instances@[j],
                prior == words_of(old(self).instances@),
                distinct == kept_indices(prior, items, enumerated as nat).len(),
                forall|k: int|
                    0 <= k < distinct ==> {
                        let inst = #[trigger] self.instances@[n0 + k];
                        let ks = kept_indices(prior, items, enumerated as nat);
                        &&& inst.family == family
                        &&& inst.params == items[ks[k]].0
                        &&& inst.carrier == items[ks[k]].1
                        &&& inst.sig == items[ks[k]].2
                    },
                word_set(seen) == prior.union(family_words(items, enumerated as int)),
            decreases rev@.len(),
        {
            let ghost q = enumerated as int;
            let item = rev.pop().unwrap();
            proof {
                assert(item == items[q]);
                lemma_kept_indices_bound(prior, items, enumerated as nat);
            }
            let (params, carrier, sig) = item;
            enumerated = enumerated + 1;
            let ghost ks_old = kept_indices(prior, items, q as nat);
            if !sig.is_separating() {
                proof {
                    assert(!kept(prior, items, q));
                    assert(kept_indices(prior, items, enumerated as nat) == ks_old);
                    assert(family_words(items, enumerated as int) =~= family_words(items, q)) by {
                        assert forall|w: Seq<u64>| #[trigger] family_words(items, enumerated as int).contains(w)
                            implies family_words(items, q).contains(w) by {
                            let p = choose|p: int| 0 <= p < enumerated && separating(#[trigger] items[p].2@) && items[p].2.spec_words() == w;
                            assert(p != q);
                        }
                    }
                }
                continue;
            }
            let w = vstd::slice::slice_to_vec(sig.words());
            let ghost before = word_set(seen);
            let fresh = word_set_insert(&mut seen, w);
            proof {
                assert(fresh == kept(prior, items, q)) by {
                    if fresh {
                        assert forall|p: int| 0 <= p < q && separating(#[trigger] items[p].2@) implies items[p].2.spec_words() != items[q].2.spec_words() by {
                            if items[p].2.spec_words() == items[q].2.spec_words() {
                                assert(family_words(items, q).contains(items[q].2.spec_words()));
                                assert(before.contains(items[q].2.spec_words()));
                            }
                        }
                    } else {
                        assert(before.contains(items[q].2.spec_words()));
                        if !prior.contains(items[q].2.spec_words()) {
                            assert(family_words(items, q).contains(items[q].2.spec_words()));
                            let p = choose|p: int| 0 <= p < q && separating(#[trigger] items[p].2@) && items[p].2.spec_words() == items[q].2.spec_words();
                        }
                    }
                }
                assert(word_set(seen) =~= prior.union(family_words(items, enumerated as int))) by {
                    assert forall|x: Seq<u64>| #[trigger] word_set(seen).contains(x) implies prior.union(family_words(items, enumerated as int)).contains(x) by {
                        if x == items[q].2.spec_words() {
                            assert(separating(items[q].2@));
                            assert(family_words(items, enumerated as int).contains(x));
                        } else {
                            assert(before.contains(x));
                            if !prior.contains(x) {
                                assert(family_words(items, q).contains(x));
                                let p = choose|p: int| 0 <= p < q && separating(#[trigger] items[p].2@) && items[p].2.spec_words() == x;
                                assert(family_words(items, enumerated as int).contains(x));
                            }
                        }
                    }
                    assert forall|x: Seq<u64>| #[trigger] prior.union(family_words(items, enumerated as int)).contains(x)
                        implies word_set(seen).contains(x) by {
                        if !prior.contains(x) {
                            let p = choose|p: int| 0 <= p < enumerated && separating(#[trigger] items[p].2@) && items[p].2.spec_words() == x;
                            if p < q {
                                assert(family_words(items, q).contains(x));
                                assert(before.contains(x));
                            }
                        }
                    }
                }
            }
            if fresh {
                distinct = distinct + 1;
                self.instances.push(Instance { family, params, carrier, sig });
                proof {
                    assert(kept_indices(prior, items, enumerated as nat) == ks_old.push(q));
                }
            } else {
                proof {
                    assert(kept_indices(prior, items, enumerated as nat) == ks_old);
                }
            }
        }
        proof {
            lemma_kept_indices_bound(prior, items, items.len());
            lemma_kept_indices_kept(prior, items, items.len());
            let ks = kept_indices(prior, items, items.len());
            let fin = self.instances@;
            assert(fin =~= old(self).instances@ + family_instances(old(self).instances@, family, items)) by {
                assert forall|i: int| n0 <= i < fin.len() implies #[trigger] fin[i] == family_instances(old(self).instances@, family, items)[i - n0] by {
                    let k = i - n0;
                    assert(fin[n0 + k].sig == items[ks[k]].2);
                }
            }
            if rows_distinct(old(self).instances@) {
                assert forall|i: int| 0 <= i < fin.len() implies separating(#[trigger] fin[i].sig@) by {
                    if i >= n0 {
                        let k = i - n0;
                        assert(fin[n0 + k].sig == items[ks[k]].2);
                        assert(kept(prior, items, ks[k]));
                    } else {
                        assert(fin[i] == old(self).instances@[i]);
                    }
                }
                assert forall|i: int, j: int| 0 <= i < j < fin.len() implies #[trigger] fin[i].sig.spec_words() != #[trigger] fin[j].sig.spec_words() by {
                    if j >= n0 {
                        let kj = j - n0;
                        let qj = ks[kj];
                        assert(fin[n0 + kj].sig == items[qj].2);
                        assert(kept(prior, items, qj));
                        if i < n0 {
                            assert(fin[i] == old(self).instances@[i]);
                            assert(prior.contains(old(self).instances@[i].sig.spec_words()));
                        } else {
                            let ki = i - n0;
                            let qi = ks[ki];
                            assert(fin[n0 + ki].sig == items[qi].2);
                            assert(qi < qj);
                            assert(kept(prior, items, qi));
                        }
                    } else {
                        assert(fin[i] == old(self).instances@[i]);
                        assert(fin[j] == old(self).instances@[j]);
                    }
                }
            }
        }
        self.grid.push(GridSpec { family, description, enumerated, distinct });
    }
}

/// Upper bound on the modulus swept for `Z/m` linear models.
pub const ZMOD_MAX: u64 = 32;

/// Upper bound on the modulus swept for affine models, whose grid is cubic
/// in the modulus rather than quadratic.
pub const AFFINE_ZMOD_MAX: u64 = 20;

/// Coefficients swept for linear models over `Z`.
pub const INT_RANGE: i128 = 6;

/// Coefficient range for each of `c0`, `c1` in `c0 + c1 t` over `Z[t]`.
pub const POLY_RANGE: i128 = 2;

/// One row of a family before deduplication.
pub type Row = (String, Carrier, Signature);

/// The label `m=.. a=.. b=..` of a `Z/m` linear instance.
pub open spec fn mab_label(m: nat, a: nat, b: nat) -> Seq<char> {
    seq!['m', '='] + decimal(m) + seq![' ', 'a', '='] + decimal(a) + seq![' ', 'b', '='] + decimal(b)
}

/// The label `m=.. a=.. b=.. c=..` of a `Z/m` affine instance.
pub open spec fn mabc_label(m: nat, a: nat, b: nat, c: nat) -> Seq<char> {
    mab_label(m, a, b) + seq![' ', 'c', '='] + decimal(c)
}

/// An integer in decimal, with a minus sign when negative.
pub open spec fn signed_decimal(v: int) -> Seq<char> {
    if v < 0 {
        seq!['-'] + decimal((-v) as nat)
    } else {
        decimal(v as nat)
    }
}

/// The entries of a list in decimal, separated by `, `.
pub open spec fn list_items(v: Seq<int>) -> Seq<char>
    decreases v.len(),
{
    if v.len() == 0 {
        Seq::empty()
    } else if v.len() == 1 {
        decimal(v[0] as nat)
    } else {
        list_items(v.drop_last()) + seq![',', ' '] + decimal(v.last() as nat)
    }
}

/// A list of naturals as `{:?}` shows it: `[1, 0, 0, 1]`.
pub open spec fn list_text(v: Seq<int>) -> Seq<char> {
    seq!['['] + list_items(v) + seq![']']
}

/// Append `v` in decimal, with a minus sign when negative.
fn push_signed(v: i128, out: &mut Vec<char>)
    requires
        -0xffff_ffff_ffff_ffff <= v <= 0xffff_ffff_ffff_ffff,
    ensures
        final(out)@ == old(out)@ + signed_decimal(v as int),
{
    if v < 0 {
        out.push('-');
        push_decimal((-v) as u64, out);
        proof {
            assert(final(out)@ =~= old(out)@ + signed_decimal(v as int));
        }
    } else {
        push_decimal(v as u64, out);
    }
}

/// Append the entries of `v` as `{:?}` shows them: `[1, 0, 0, 1]`.
fn push_list(v: &Vec<u64>, out: &mut Vec<char>)
    ensures
        final(out)@ == old(out)@ + list_text(ints_u64(v@)),
{
    let ghost s = ints_u64(v@);
    out.push('[');
    let ghost head = out@;
    let mut i: usize = 0;
    while i < v.len()
        invariant
            s == ints_u64(v@),
            i <= v@.len(),
            head == old(out)@.push('['),
            out@ == head + list_items(s.take(i as int)),
        decreases v@.len() - i,
    {
        if i > 0 {
            out.push(',');
            out.push(' ');
        }
        push_decimal(v[i], out);
        proof {
            let t = s.take(i + 1);
            assert(t.drop_last() =~= s.take(i as int));
            assert(t.last() == v@[i as int] as int);
            assert(out@ =~= head + list_items(t));
        }
        i = i + 1;
    }
    out.push(']');
    proof {
        assert(s.take(v@.len() as int) =~= s);
        assert(final(out)@ =~= old(out)@ + list_text(s));
    }
}

/// The label `m=.. a=.. b=..` of a `Z/m` linear instance.
fn fmt_mab(m: u64, a: u64, b: u64) -> (r: String)
    ensures
        r@ == mab_label(m as nat, a as nat, b as nat),
{
    let mut out: Vec<char> = Vec::new();
    out.push('m');
    out.push('=');
    push_decimal(m, &mut out);
    out.push(' ');
    out.push('a');
    out.push('=');
    push_decimal(a, &mut out);
    out.push(' ');
    out.push('b');
    out.push('=');
    push_decimal(b, &mut out);
    proof {
        assert(out@ =~= mab_label(m as nat, a as nat, b as nat));
    }
    string_of(out)
}

/// The label `m=.. a=.. b=.. c=..` of a `Z/m` affine instance.
fn fmt_mabc(m: u64, a: u64, b: u64, c: u64) -> (r: String)
    ensures
        r@ == mabc_label(m as nat, a as nat, b as nat, c as nat),
{
    let mut out: Vec<char> = Vec::new();
    out.push('m');
    out.push('=');
    push_decimal(m, &mut out);
    out.push(' ');
    out.push('a');
    out.push('=');
    push_decimal(a, &mut out);
    out.push(' ');
    out.push('b');
    out.push('=');
    push_decimal(b, &mut out);
    out.push(' ');
    out.push('c');
    out.push('=');
    push_decimal(c, &mut out);
    proof {
        assert(out@ =~= mabc_label(m as nat, a as nat, b as nat, c as nat));
    }
    string_of(out)
}

/// The label `a=.. b=..` of a `Z` instance.
fn fmt_ab(a: i128, b: i128) -> (r: String)
    requires
        -6 <= a <= 6,
        -6 <= b <= 6,
    ensures
        r@ == "a="@ + signed_decimal(a as int) + " b="@ + signed_decimal(b as int),
{
    let mut out: Vec<char> = Vec::new();
    push_str(&mut out, "a=");
    push_signed(a, &mut out);
    push_str(&mut out, " b=");
    push_signed(b, &mut out);
    string_of(out)
}

/// The label `a=.. b=.. c=..` of an affine `Z` instance.
fn fmt_abc(a: i128, b: i128, c: i128) -> (r: String)
    requires
        -6 <= a <= 6,
        -6 <= b <= 6,
        -6 <= c <= 6,
    ensures
        r@ == "a="@ + signed_decimal(a as int) + " b="@ + signed_decimal(b as int) + " c="@ + signed_decimal(c as int),
{
    let mut out: Vec<char> = Vec::new();
    push_str(&mut out, "a=");
    push_signed(a, &mut out);
    push_str(&mut out, " b=");
    push_signed(b, &mut out);
    push_str(&mut out, " c=");
    push_signed(c, &mut out);
    string_of(out)
}

/// The label `a=..+..t b=..+..t` of a `Z[t]` instance.
fn fmt_poly(a0: i128, a1: i128, b0: i128, b1: i128) -> (r: String)
    requires
        -2 <= a0 <= 2,
        -2 <= a1 <= 2,
        -2 <= b0 <= 2,
        -2 <= b1 <= 2,
    ensures
        r@ == "a="@ + signed_decimal(a0 as int) + "+"@ + signed_decimal(a1 as int) + "t b="@ + signed_decimal(b0 as int)
            + "+"@ + signed_decimal(b1 as int) + "t"@,
{
    let mut out: Vec<char> = Vec::new();
    push_str(&mut out, "a=");
    push_signed(a0, &mut out);
    push_str(&mut out, "+");
    push_signed(a1, &mut out);
    push_str(&mut out, "t b=");
    push_signed(b0, &mut out);
    push_str(&mut out, "+");
    push_signed(b1, &mut out);
    push_str(&mut out, "t");
    string_of(out)
}

/// The label `a=[..] b=[..]` of a matrix instance.
fn fmt_mat(a: &Vec<u64>, b: &Vec<u64>) -> (r: String)
    ensures
        r@ == "a="@ + list_text(ints_u64(a@)) + " b="@ + list_text(ints_u64(b@)),
{
    let mut out: Vec<char> = Vec::new();
    push_str(&mut out, "a=");
    push_list(a, &mut out);
    push_str(&mut out, " b=");
    push_list(b, &mut out);
    string_of(out)
}

/// The label `a=[..] b=[..] c=[..]` of an affine matrix instance.
fn fmt_mat_c(a: &Vec<u64>, b: &Vec<u64>, c: &Vec<u64>) -> (r: String)
    ensures
        r@ == "a="@ + list_text(ints_u64(a@)) + " b="@ + list_text(ints_u64(b@)) + " c="@ + list_text(ints_u64(c@)),
{
    let mut out: Vec<char> = Vec::new();
    push_str(&mut out, "a=");
    push_list(a, &mut out);
    push_str(&mut out, " b=");
    push_list(b, &mut out);
    push_str(&mut out, " c=");
    push_list(c, &mut out);
    string_of(out)
}

/// The `Z/m` grid's description.
fn desc_zmod(max: u64) -> (r: String)
    ensures
        r@ == "x \u{25c7} y = ax + by over Z/m, m = 2.."@ + decimal(max as nat) + ", all (a,b) in (Z/m)^2"@,
{
    let mut out: Vec<char> = Vec::new();
    push_str(&mut out, "x \u{25c7} y = ax + by over Z/m, m = 2..");
    push_decimal(max, &mut out);
    push_str(&mut out, ", all (a,b) in (Z/m)^2");
    string_of(out)
}

/// The affine `Z/m` grid's description.
fn desc_affine_zmod(max: u64) -> (r: String)
    ensures
        r@ == "x \u{25c7} y = ax + by + c over Z/m, m = 2.."@ + decimal(max as nat) + ", all (a,b,c) in (Z/m)^3"@,
{
    let mut out: Vec<char> = Vec::new();
    push_str(&mut out, "x \u{25c7} y = ax + by + c over Z/m, m = 2..");
    push_decimal(max, &mut out);
    push_str(&mut out, ", all (a,b,c) in (Z/m)^3");
    string_of(out)
}

/// The `Z` grid's description.
fn desc_int(r: i128) -> (s: String)
    requires
        0 <= r <= 6,
    ensures
        s@ == "x \u{25c7} y = ax + by over Z, a,b in [-"@ + signed_decimal(r as int) + ","@ + signed_decimal(r as int) + "]"@,
{
    let mut out: Vec<char> = Vec::new();
    push_str(&mut out, "x \u{25c7} y = ax + by over Z, a,b in [-");
    push_signed(r, &mut out);
    push_str(&mut out, ",");
    push_signed(r, &mut out);
    push_str(&mut out, "]");
    string_of(out)
}

/// The affine `Z` grid's description.
fn desc_affine_int(r: i128) -> (s: String)
    requires
        0 <= r <= 6,
    ensures
        s@ == "x \u{25c7} y = ax + by + c over Z, a,b,c in [-"@ + signed_decimal(r as int) + ","@ + signed_decimal(r as int)
            + "], c != 0"@,
{
    let mut out: Vec<char> = Vec::new();
    push_str(&mut out, "x \u{25c7} y = ax + by + c over Z, a,b,c in [-");
    push_signed(r, &mut out);
    push_str(&mut out, ",");
    push_signed(r, &mut out);
    push_str(&mut out, "], c != 0");
    string_of(out)
}

/// The `Z[t]` grid's description.
fn desc_poly(r: i128) -> (s: String)
    requires
        0 <= r <= 6,
    ensures
        s@ == "x \u{25c7} y = ax + by over Z[t], a,b = c0 + c1 t with c0,c1 in [-"@ + signed_decimal(r as int) + ","@
            + signed_decimal(r as int) + "]"@,
{
    let mut out: Vec<char> = Vec::new();
    push_str(&mut out, "x \u{25c7} y = ax + by over Z[t], a,b = c0 + c1 t with c0,c1 in [-");
    push_signed(r, &mut out);
    push_str(&mut out, ",");
    push_signed(r, &mut out);
    push_str(&mut out, "]");
    string_of(out)
}

/// A matrix grid's description.
fn desc_mat(p: u64, size: usize) -> (r: String)
    ensures
        r@ == "x \u{25c7} y = ax + by over M_2(F_"@ + decimal(p as nat) + "), all (a,b); carrier has "@ + decimal(size as nat)
            + " elements"@,
{
    let mut out: Vec<char> = Vec::new();
    push_str(&mut out, "x \u{25c7} y = ax + by over M_2(F_");
    push_decimal(p, &mut out);
    push_str(&mut out, "), all (a,b); carrier has ");
    push_decimal(size as u64, &mut out);
    push_str(&mut out, " elements");
    string_of(out)
}

/// The model's words fit in `Z/m`.
proof fn lemma_zmod_word(r: Zmod, a: int, b: int, idx: nat)
    requires
        1 <= r.m <= 96,
        0 <= a < r.m,
        0 <= b < r.m,
    ensures
        word_val(&r, seq![a], seq![b], idx).len() == 1,
        0 <= word_val(&r, seq![a], seq![b], idx)[0] < r.m,
    decreases idx,
{
    if idx > 0 {
        let p = ((idx - 1) / 2) as nat;
        lemma_zmod_word(r, a, b, p);
        let w = word_val(&r, seq![a], seq![b], p)[0];
        vstd::arithmetic::div_mod::lemma_mod_bound(w * a, r.m as int);
        vstd::arithmetic::div_mod::lemma_mod_bound(w * b, r.m as int);
    } else {
        vstd::arithmetic::div_mod::lemma_mod_bound(1, r.m as int);
    }
}

/// Linear combinations of residues mod `m` stay residues, and every step fits.
proof fn lemma_zmod_comb(r: Zmod, t: Seq<(u8, i32)>, ws: Seq<Seq<int>>, n: nat)
    requires
        1 <= r.m <= 96,
        n <= t.len(),
        forall|q: int| 0 <= q < t.len() ==> (#[trigger] t[q]).0 < ws.len(),
        forall|w: int| 0 <= w < ws.len() ==> (#[trigger] ws[w]).len() == 1 && 0 <= ws[w][0] < r.m,
    ensures
        comb(&r, t, ws, n).len() == 1,
        0 <= comb(&r, t, ws, n)[0] < r.m,
        forall|q: nat| q < n ==> #[trigger] r.scale_fits(comb(&r, t, ws, q), t[q as int].1 as int, ws[t[q as int].0 as int]),
    decreases n,
{
    if n > 0 {
        lemma_zmod_comb(r, t, ws, (n - 1) as nat);
        let acc = comb(&r, t, ws, (n - 1) as nat)[0];
        let k = t[n - 1].1 as int;
        let x = ws[t[n - 1].0 as int][0];
        let e = emod(k, r.m as int);
        vstd::arithmetic::div_mod::lemma_mod_bound(k, r.m as int);
        assert(acc + e * x <= u64::MAX) by (nonlinear_arith)
            requires
                0 <= acc < 96,
                0 <= e < 96,
                0 <= x < 96,
        ;
        assert(0 <= acc + e * x) by (nonlinear_arith)
            requires
                0 <= acc,
                0 <= e,
                0 <= x,
        ;
        vstd::arithmetic::div_mod::lemma_mod_bound(acc + e * x, r.m as int);
    }
}

/// A `Z/m` model with residue coefficients can always be evaluated.
proof fn lemma_zmod_fits(r: Zmod, a: u64, b: u64, ll: &LinearLaws)
    requires
        2 <= r.m <= 96,
        a < r.m,
        b < r.m,
        laws_indexed(ll),
    ensures
        words_fit(&r, r.view_of(a), r.view_of(b)),
        forall|i: int| 0 <= i < ll.laws@.len() ==> law_fits(&r, (#[trigger] ll.laws@[i]).terms@, words_spec(&r, r.view_of(a), r.view_of(b))),
        forall|w: int| 0 <= w < 31 ==> (#[trigger] words_spec(&r, r.view_of(a), r.view_of(b))[w]).len() == 1
            && 0 <= words_spec(&r, r.view_of(a), r.view_of(b))[w][0] < r.m,
{
    let va = seq![a as int];
    let vb = seq![b as int];
    assert(r.view_of(a) == va);
    assert(r.view_of(b) == vb);
    assert forall|idx: nat| 1 <= idx < 31 implies #[trigger] step_fits(&r, va, vb, idx) by {
        let p = ((idx - 1) / 2) as nat;
        lemma_zmod_word(r, a as int, b as int, p);
        let w = word_val(&r, va, vb, p)[0];
        assert(w * a <= u64::MAX && w * b <= u64::MAX) by (nonlinear_arith)
            requires
                0 <= w < 96,
                a < 96,
                b < 96,
        ;
    }
    let ws = words_spec(&r, va, vb);
    assert forall|w: int| 0 <= w < 31 implies (#[trigger] ws[w]).len() == 1 && 0 <= ws[w][0] < r.m by {
        lemma_zmod_word(r, a as int, b as int, w as nat);
    }
    assert forall|i: int| 0 <= i < ll.laws@.len() implies law_fits(&r, (#[trigger] ll.laws@[i]).terms@, ws) by {
        let terms = ll.laws@[i].terms@;
        assert forall|v: int| 0 <= v < terms.len() implies comb_fits(&r, (#[trigger] terms[v])@, ws) by {
            let t = terms[v]@;
            assert forall|q: int| 0 <= q < t.len() implies (#[trigger] t[q]).0 < ws.len() by {
                assert(ll.laws@[i].terms@[v]@[q].0 < 31);
            }
            lemma_zmod_comb(r, t, ws, t.len());
        }
    }
}

/// Where the block of `Z/m` rows starts: `Σ_{2 <= j < m} j²`.
pub open spec fn zmod_offset(m: nat) -> nat
    decreases m,
{
    if m <= 2 {
        0
    } else {
        zmod_offset((m - 1) as nat) + ((m - 1) * (m - 1)) as nat
    }
}

/// The position of the row for `(m, a, b)`.
pub open spec fn zmod_index(m: nat, a: nat, b: nat) -> int {
    (zmod_offset(m) + a * m + b) as int
}

/// Which laws the linear magma `ax + by` over `Z/m` satisfies, by its
/// difference polynomials.
pub open spec fn zmod_bits(m: nat, a: nat, b: nat, ll: &LinearLaws) -> Seq<bool> {
    let r = Zmod { m: m as u64 };
    Seq::new(
        ll.laws@.len(),
        |i: int| law_vanishes(&r, ll.laws@[i].terms@, words_spec(&r, seq![a as int], seq![b as int])),
    )
}

/// The row of the linear model `(m, a, b)` over `Z/m`.
pub open spec fn zmod_row_ok(row: Row, m: nat, a: nat, b: nat, ll: &LinearLaws) -> bool {
    &&& row.0@ == mab_label(m, a, b)
    &&& row.1 == Carrier::Finite(m as usize)
    &&& row.2@ == zmod_bits(m, a, b, ll)
}

proof fn lemma_zmod_offset_grows(m1: nat, m2: nat)
    requires
        m1 <= m2,
    ensures
        zmod_offset(m1) <= zmod_offset(m2),
    decreases m2,
{
    if m2 > m1 {
        lemma_zmod_offset_grows(m1, (m2 - 1) as nat);
    }
}

proof fn lemma_zmod_offset_bound(m: nat)
    requires
        2 <= m <= 33,
    ensures
        zmod_offset(m) <= (m - 2) * 32 * 32,
    decreases m,
{
    if m > 2 {
        lemma_zmod_offset_bound((m - 1) as nat);
        assert((m - 1) * (m - 1) <= 32 * 32) by (nonlinear_arith)
            requires
                m <= 33,
                m >= 3,
        ;
    }
}

/// Rows of earlier blocks lie below the block of `m`.
proof fn lemma_zmod_index_below(m2: nat, a2: nat, b2: nat, m: nat)
    requires
        2 <= m2 < m,
        a2 < m2,
        b2 < m2,
    ensures
        zmod_index(m2, a2, b2) < zmod_offset(m),
        0 <= zmod_index(m2, a2, b2),
{
    assert(a2 * m2 + b2 < m2 * m2) by (nonlinear_arith)
        requires
            a2 < m2,
            b2 < m2,
    ;
    lemma_zmod_offset_grows(m2 + 1, m);
}

/// Every linear model over `Z/m` for `m` in `2..=ZMOD_MAX`, in the order
/// `(m, a, b)`.
#[verifier::spinoff_prover]
fn zmod_rows(ll: &LinearLaws) -> (rows: Vec<Row>)
    requires
        laws_indexed(ll),
    ensures
        rows@.len() <= 32 * 32 * 32,
        rows@.len() == zmod_offset(ZMOD_MAX as nat + 1),
        forall|m: nat, a: nat, b: nat|
            2 <= m <= ZMOD_MAX && a < m && b < m ==> zmod_row_ok(#[trigger] rows@[zmod_index(m, a, b)], m, a, b, ll),
{
    let mut rows: Vec<Row> = Vec::new();
    let mut m: u64 = 2;
    while m <= ZMOD_MAX
        invariant
            laws_indexed(ll),
            2 <= m <= ZMOD_MAX + 1,
            rows@.len() == zmod_offset(m as nat),
            forall|m2: nat, a2: nat, b2: nat|
                2 <= m2 < m && a2 < m2 && b2 < m2 ==> zmod_row_ok(#[trigger] rows@[zmod_index(m2, a2, b2)], m2, a2, b2, ll),
        decreases ZMOD_MAX + 1 - m,
    {
        let mut a: u64 = 0;
        while a < m
            invariant
                laws_indexed(ll),
                2 <= m <= ZMOD_MAX,
                a <= m,
                rows@.len() == zmod_offset(m as nat) + a * m,
                forall|m2: nat, a2: nat, b2: nat|
                    2 <= m2 < m && a2 < m2 && b2 < m2 ==> zmod_row_ok(#[trigger] rows@[zmod_index(m2, a2, b2)], m2, a2, b2, ll),
                forall|a2: nat, b2: nat|
                    a2 < a && b2 < m ==> zmod_row_ok(#[trigger] rows@[zmod_index(m as nat, a2, b2)], m as nat, a2, b2, ll),
            decreases m - a,
        {
            let mut b: u64 = 0;
            while b < m
                invariant
                    laws_indexed(ll),
                    2 <= m <= ZMOD_MAX,
                    a < m,
                    b <= m,
                    rows@.len() == zmod_offset(m as nat) + a * m + b,
                    forall|m2: nat, a2: nat, b2: nat|
                        2 <= m2 < m && a2 < m2 && b2 < m2 ==> zmod_row_ok(#[trigger] rows@[zmod_index(m2, a2, b2)], m2, a2, b2, ll),
                    forall|a2: nat, b2: nat|
                        a2 < a && b2 < m ==> zmod_row_ok(#[trigger] rows@[zmod_index(m as nat, a2, b2)], m as nat, a2, b2, ll),
                    forall|b2: nat| b2 < b ==> zmod_row_ok(#[trigger] rows@[zmod_index(m as nat, a as nat, b2)], m as nat, a as nat, b2, ll),
                decreases m - b,
            {
                let ring = Zmod { m };
                proof {
                    lemma_zmod_fits(ring, a, b, ll);
                }
                let model = LinearModel::new(ring, a, b);
                let sig = model.signature(ll);
                let label = fmt_mab(m, a, b);
                let ghost before = rows@;
                rows.push((label, Carrier::Finite(m as usize), sig));
                proof {
                    assert(sig@ =~= zmod_bits(m as nat, a as nat, b as nat, ll));
                    let mn = m as nat;
                    assert forall|m2: nat, a2: nat, b2: nat|
                        2 <= m2 < m && a2 < m2 && b2 < m2 implies zmod_row_ok(#[trigger] rows@[zmod_index(m2, a2, b2)], m2, a2, b2, ll) by {
                        lemma_zmod_index_below(m2, a2, b2, mn);
                        assert(rows@[zmod_index(m2, a2, b2)] == before[zmod_index(m2, a2, b2)]);
                    }
                    assert forall|a2: nat, b2: nat|
                        a2 < a && b2 < m implies zmod_row_ok(#[trigger] rows@[zmod_index(mn, a2, b2)], mn, a2, b2, ll) by {
                        assert(a2 * mn + b2 < a * mn) by (nonlinear_arith)
                            requires
                                a2 < a,
                                b2 < mn,
                        ;
                        assert(rows@[zmod_index(mn, a2, b2)] == before[zmod_index(mn, a2, b2)]);
                    }
                    assert forall|b2: nat| b2 < b + 1 implies zmod_row_ok(#[trigger] rows@[zmod_index(mn, a as nat, b2)], mn, a as nat, b2, ll) by {
                        if b2 < b {
                            assert(rows@[zmod_index(mn, a as nat, b2)] == before[zmod_index(mn, a as nat, b2)]);
                        }
                    }
                }
                b = b + 1;
            }
            proof {
                assert((a + 1) * m == a * m + m) by (nonlinear_arith);
                assert forall|a2: nat, b2: nat|
                    a2 < a + 1 && b2 < m implies zmod_row_ok(#[trigger] rows@[zmod_index(m as nat, a2, b2)], m as nat, a2, b2, ll) by {
                    if a2 == a {
                        assert(rows@[zmod_index(m as nat, a as nat, b2)] == rows@[zmod_index(m as nat, a2, b2)]);
                    }
                }
            }
            a = a + 1;
        }
        proof {
            assert(zmod_offset((m + 1) as nat) == zmod_offset(m as nat) + m * m);
        }
        m = m + 1;
    }
    proof {
        lemma_zmod_offset_bound(33);
    }
    rows
}

/// The affine constant condition of a `Z/m` model with residue
/// coefficients can always be evaluated.
proof fn lemma_zmod_affine_fits(r: Zmod, a: u64, b: u64, c: u64, ll: &LinearLaws)
    requires
        2 <= r.m <= 96,
        a < r.m,
        b < r.m,
        c < r.m,
        laws_indexed(ll),
        const_indexed(ll),
    ensures
        words_fit(&r, r.view_of(a), r.view_of(b)),
        forall|i: int| 0 <= i < ll.laws@.len() ==> law_fits(&r, (#[trigger] ll.laws@[i]).terms@, words_spec(&r, r.view_of(a), r.view_of(b))),
        forall|i: int| 0 <= i < ll.laws@.len() ==> (AffineModel { ring: r, a, b, c }).const_fits(#[trigger] ll.laws@[i], words_spec(&r, r.view_of(a), r.view_of(b))),
{
    lemma_zmod_fits(r, a, b, ll);
    let ws = words_spec(&r, r.view_of(a), r.view_of(b));
    let model = AffineModel { ring: r, a, b, c };
    assert forall|i: int| 0 <= i < ll.laws@.len() implies model.const_fits(#[trigger] ll.laws@[i], ws) by {
        let t = ll.laws@[i].const_terms@;
        assert forall|q: int| 0 <= q < t.len() implies (#[trigger] t[q]).0 < ws.len() by {
            assert(ll.laws@[i].const_terms@[q].0 < 31);
        }
        lemma_zmod_comb(r, t, ws, t.len());
        let v = comb(&r, t, ws, t.len())[0];
        assert(v * c <= u64::MAX) by (nonlinear_arith)
            requires
                0 <= v < 96,
                c < 96,
        ;
    }
}

/// Where the block of affine `Z/m` rows starts: `Σ_{2 <= j < m} j²(j-1)`.
pub open spec fn affine_offset(m: nat) -> nat
    decreases m,
{
    if m <= 2 {
        0
    } else {
        affine_offset((m - 1) as nat) + ((m - 1) * (m - 1) * (m - 2)) as nat
    }
}

/// The position of the row for `(m, a, b, c)`.
pub open spec fn affine_index(m: nat, a: nat, b: nat, c: nat) -> int {
    (affine_offset(m) + (a * m + b) * (m - 1) + (c - 1)) as int
}

/// Which laws the affine magma `ax + by + c` over `Z/m` satisfies, by its
/// difference polynomials and its constant condition.
pub open spec fn affine_zmod_bits(m: nat, a: nat, b: nat, c: nat, ll: &LinearLaws) -> Seq<bool> {
    let r = Zmod { m: m as u64 };
    let model = AffineModel { ring: r, a: a as u64, b: b as u64, c: c as u64 };
    Seq::new(
        ll.laws@.len(),
        |i: int| law_vanishes(&r, ll.laws@[i].terms@, model.words()) && model.const_vanishes(ll.laws@[i], model.words()),
    )
}

/// The row of the affine model `(m, a, b, c)` over `Z/m`.
pub open spec fn affine_zmod_row_ok(row: Row, m: nat, a: nat, b: nat, c: nat, ll: &LinearLaws) -> bool {
    &&& row.0@ == mabc_label(m, a, b, c)
    &&& row.1 == Carrier::Finite(m as usize)
    &&& row.2@ == affine_zmod_bits(m, a, b, c, ll)
}

proof fn lemma_affine_offset_grows(m1: nat, m2: nat)
    requires
        m1 <= m2,
    ensures
        affine_offset(m1) <= affine_offset(m2),
    decreases m2,
{
    if m2 > m1 {
        lemma_affine_offset_grows(m1, (m2 - 1) as nat);
    }
}

proof fn lemma_affine_offset_bound(m: nat)
    requires
        2 <= m <= 21,
    ensures
        affine_offset(m) <= (m - 2) * 20 * 20 * 20,
    decreases m,
{
    if m > 2 {
        lemma_affine_offset_bound((m - 1) as nat);
        assert((m - 1) * (m - 1) * (m - 2) <= 20 * 20 * 20) by (nonlinear_arith)
            requires
                m <= 21,
                m >= 3,
        ;
    }
}

/// Rows of earlier blocks lie below the block of `m`.
proof fn lemma_affine_index_below(m2: nat, a2: nat, b2: nat, c2: nat, m: nat)
    requires
        2 <= m2 < m,
        a2 < m2,
        b2 < m2,
        1 <= c2 < m2,
    ensures
        0 <= affine_index(m2, a2, b2, c2) < affine_offset(m),
{
    assert((a2 * m2 + b2) * (m2 - 1) + (c2 - 1) < m2 * m2 * (m2 - 1)) by (nonlinear_arith)
        requires
            a2 < m2,
            b2 < m2,
            1 <= c2 < m2,
    ;
    assert(affine_offset(m2 + 1) == affine_offset(m2) + m2 * m2 * (m2 - 1));
    lemma_affine_offset_grows(m2 + 1, m);
}

/// Every affine model over `Z/m` for `m` in `2..=AFFINE_ZMOD_MAX`, with a
/// nonzero constant, in the order `(m, a, b, c)`.
#[verifier::spinoff_prover]
fn affine_zmod_rows(ll: &LinearLaws) -> (rows: Vec<Row>)
    requires
        laws_indexed(ll),
        const_indexed(ll),
    ensures
        rows@.len() <= 20 * 20 * 20 * 20,
        rows@.len() == affine_offset(AFFINE_ZMOD_MAX as nat + 1),
        forall|m: nat, a: nat, b: nat, c: nat|
            2 <= m <= AFFINE_ZMOD_MAX && a < m && b < m && 1 <= c < m ==> affine_zmod_row_ok(
                #[trigger] rows@[affine_index(m, a, b, c)],
                m,
                a,
                b,
                c,
                ll,
            ),
{
    let mut rows: Vec<Row> = Vec::new();
    let mut m: u64 = 2;
    while m <= AFFINE_ZMOD_MAX
        invariant
            laws_indexed(ll),
            const_indexed(ll),
            2 <= m <= AFFINE_ZMOD_MAX + 1,
            rows@.len() == affine_offset(m as nat),
            forall|m2: nat, a2: nat, b2: nat, c2: nat|
                2 <= m2 < m && a2 < m2 && b2 < m2 && 1 <= c2 < m2 ==> affine_zmod_row_ok(
                    #[trigger] rows@[affine_index(m2, a2, b2, c2)],
                    m2,
                    a2,
                    b2,
                    c2,
                    ll,
                ),
        decreases AFFINE_ZMOD_MAX + 1 - m,
    {
        let mut a: u64 = 0;
        proof {
            assert((a * m) * (m - 1) == 0) by (nonlinear_arith)
                requires
                    a == 0,
            ;
        }
        while a < m
            invariant
                laws_indexed(ll),
                const_indexed(ll),
                2 <= m <= AFFINE_ZMOD_MAX,
                a <= m,
                rows@.len() == affine_offset(m as nat) + (a * m) * (m - 1),
                forall|m2: nat, a2: nat, b2: nat, c2: nat|
                    2 <= m2 < m && a2 < m2 && b2 < m2 && 1 <= c2 < m2 ==> affine_zmod_row_ok(
                        #[trigger] rows@[affine_index(m2, a2, b2, c2)],
                        m2,
                        a2,
                        b2,
                        c2,
                        ll,
                    ),
                forall|a2: nat, b2: nat, c2: nat|
                    a2 < a && b2 < m && 1 <= c2 < m ==> affine_zmod_row_ok(
                        #[trigger] rows@[affine_index(m as nat, a2, b2, c2)],
                        m as nat,
                        a2,
                        b2,
                        c2,
                        ll,
                    ),
            decreases m - a,
        {
            let mut b: u64 = 0;
            while b < m
                invariant
                    laws_indexed(ll),
                    const_indexed(ll),
                    2 <= m <= AFFINE_ZMOD_MAX,
                    a < m,
                    b <= m,
                    rows@.len() == affine_offset(m as nat) + (a * m + b) * (m - 1),
                    forall|m2: nat, a2: nat, b2: nat, c2: nat|
                        2 <= m2 < m && a2 < m2 && b2 < m2 && 1 <= c2 < m2 ==> affine_zmod_row_ok(
                            #[trigger] rows@[affine_index(m2, a2, b2, c2)],
                            m2,
                            a2,
                            b2,
                            c2,
                            ll,
                        ),
                    forall|a2: nat, b2: nat, c2: nat|
                        a2 < a && b2 < m && 1 <= c2 < m ==> affine_zmod_row_ok(
                            #[trigger] rows@[affine_index(m as nat, a2, b2, c2)],
                            m as nat,
                            a2,
                            b2,
                            c2,
                            ll,
                        ),
                    forall|b2: nat, c2: nat|
                        b2 < b && 1 <= c2 < m ==> affine_zmod_row_ok(
                            #[trigger] rows@[affine_index(m as nat, a as nat, b2, c2)],
                            m as nat,
                            a as nat,
                            b2,
                            c2,
                            ll,
                        ),
                decreases m - b,
            {
                let mut cc: u64 = 1;
                while cc < m
                    invariant
                        laws_indexed(ll),
                        const_indexed(ll),
                        2 <= m <= AFFINE_ZMOD_MAX,
                        a < m,
                        b < m,
                        1 <= cc <= m,
                        rows@.len() == affine_offset(m as nat) + (a * m + b) * (m - 1) + (cc - 1),
                        forall|m2: nat, a2: nat, b2: nat, c2: nat|
                            2 <= m2 < m && a2 < m2 && b2 < m2 && 1 <= c2 < m2 ==> affine_zmod_row_ok(
                                #[trigger] rows@[affine_index(m2, a2, b2, c2)],
                                m2,
                                a2,
                                b2,
                                c2,
                                ll,
                            ),
                        forall|a2: nat, b2: nat, c2: nat|
                            a2 < a && b2 < m && 1 <= c2 < m ==> affine_zmod_row_ok(
                                #[trigger] rows@[affine_index(m as nat, a2, b2, c2)],
                                m as nat,
                                a2,
                                b2,
                                c2,
                                ll,
                            ),
                        forall|b2: nat, c2: nat|
                            b2 < b && 1 <= c2 < m ==> affine_zmod_row_ok(
                                #[trigger] rows@[affine_index(m as nat, a as nat, b2, c2)],
                                m as nat,
                                a as nat,
                                b2,
                                c2,
                                ll,
                            ),
                        forall|c2: nat|
                            1 <= c2 < cc ==> affine_zmod_row_ok(
                                #[trigger] rows@[affine_index(m as nat, a as nat, b as nat, c2)],
                                m as nat,
                                a as nat,
                                b as nat,
                                c2,
                                ll,
                            ),
                    decreases m - cc,
                {
                    let ring = Zmod { m };
                    proof {
                        lemma_zmod_affine_fits(ring, a, b, cc, ll);
                    }
                    let model = AffineModel::new(ring, a, b, cc);
                    let sig = model.signature(ll);
                    let label = fmt_mabc(m, a, b, cc);
                    let ghost before = rows@;
                    rows.push((label, Carrier::Finite(m as usize), sig));
                    proof {
                        let mn = m as nat;
                        let (an, bn) = (a as nat, b as nat);
                        assert(sig@ =~= affine_zmod_bits(mn, an, bn, cc as nat, ll));
                        assert forall|m2: nat, a2: nat, b2: nat, c2: nat|
                            2 <= m2 < m && a2 < m2 && b2 < m2 && 1 <= c2 < m2 implies affine_zmod_row_ok(
                            #[trigger] rows@[affine_index(m2, a2, b2, c2)],
                            m2,
                            a2,
                            b2,
                            c2,
                            ll,
                        ) by {
                            lemma_affine_index_below(m2, a2, b2, c2, mn);
                            assert(rows@[affine_index(m2, a2, b2, c2)] == before[affine_index(m2, a2, b2, c2)]);
                        }
                        assert forall|a2: nat, b2: nat, c2: nat|
                            a2 < a && b2 < m && 1 <= c2 < m implies affine_zmod_row_ok(
                            #[trigger] rows@[affine_index(mn, a2, b2, c2)],
                            mn,
                            a2,
                            b2,
                            c2,
                            ll,
                        ) by {
                            assert((a2 * mn + b2) * (mn - 1) + (c2 - 1) < (an * mn) * (mn - 1)) by (nonlinear_arith)
                                requires
                                    a2 < an,
                                    b2 < mn,
                                    1 <= c2 < mn,
                            ;
                            assert((an * mn) * (mn - 1) <= (an * mn + bn) * (mn - 1)) by (nonlinear_arith)
                                requires
                                    mn >= 1,
                            ;
                            assert(affine_index(mn, a2, b2, c2) < before.len());
                            assert(rows@[affine_index(mn, a2, b2, c2)] == before[affine_index(mn, a2, b2, c2)]);
                        }
                        assert forall|b2: nat, c2: nat|
                            b2 < b && 1 <= c2 < m implies affine_zmod_row_ok(
                            #[trigger] rows@[affine_index(mn, an, b2, c2)],
                            mn,
                            an,
                            b2,
                            c2,
                            ll,
                        ) by {
                            assert((an * mn + b2) * (mn - 1) + (c2 - 1) < (an * mn + bn) * (mn - 1)) by (nonlinear_arith)
                                requires
                                    b2 < bn,
                                    1 <= c2 < mn,
                            ;
                            assert(affine_index(mn, an, b2, c2) < before.len());
                            assert(rows@[affine_index(mn, an, b2, c2)] == before[affine_index(mn, an, b2, c2)]);
                        }
                        assert forall|c2: nat| 1 <= c2 < cc + 1 implies affine_zmod_row_ok(
                            #[trigger] rows@[affine_index(mn, an, bn, c2)],
                            mn,
                            an,
                            bn,
                            c2,
                            ll,
                        ) by {
                            if c2 < cc {
                                assert(rows@[affine_index(mn, an, bn, c2)] == before[affine_index(mn, an, bn, c2)]);
                            }
                        }
                    }
                    cc = cc + 1;
                }
                proof {
                    assert((a * m + b) * (m - 1) + (m - 1) == (a * m + (b + 1)) * (m - 1)) by (nonlinear_arith);
                    assert forall|b2: nat, c2: nat|
                        b2 < b + 1 && 1 <= c2 < m implies affine_zmod_row_ok(
                        #[trigger] rows@[affine_index(m as nat, a as nat, b2, c2)],
                        m as nat,
                        a as nat,
                        b2,
                        c2,
                        ll,
                    ) by {
                        if b2 == b {
                            assert(rows@[affine_index(m as nat, a as nat, b as nat, c2)] == rows@[affine_index(m as nat, a as nat, b2, c2)]);
                        }
                    }
                }
                b = b + 1;
            }
            proof {
                assert((a * m + m) * (m - 1) == ((a + 1) * m) * (m - 1)) by (nonlinear_arith);
                assert forall|a2: nat, b2: nat, c2: nat|
                    a2 < a + 1 && b2 < m && 1 <= c2 < m implies affine_zmod_row_ok(
                    #[trigger] rows@[affine_index(m as nat, a2, b2, c2)],
                    m as nat,
                    a2,
                    b2,
                    c2,
                    ll,
                ) by {
                    if a2 == a {
                        assert(rows@[affine_index(m as nat, a as nat, b2, c2)] == rows@[affine_index(m as nat, a2, b2, c2)]);
                    }
                }
            }
            a = a + 1;
        }
        proof {
            assert(affine_offset((m + 1) as nat) == affine_offset(m as nat) + (m * m) * (m - 1)) by (nonlinear_arith)
                requires
                    affine_offset((m + 1) as nat) == affine_offset(m as nat) + m * m * (m - 1),
            ;
        }
        m = m + 1;
    }
    proof {
        lemma_affine_offset_bound(21);
    }
    rows
}

/// The linear signature over `ring` at `(a, b)` can be computed without
/// overflow: the word values and every sum a law's check takes fit.
pub open spec fn linear_fits<R: RingOps>(ring: &R, a: Seq<int>, b: Seq<int>, ll: &LinearLaws) -> bool {
    &&& words_fit(ring, a, b)
    &&& forall|i: int| 0 <= i < ll.laws@.len() ==> law_fits(ring, (#[trigger] ll.laws@[i]).terms@, words_spec(ring, a, b))
}

/// The integer grid can be evaluated within `i128`: linear models with
/// coefficients in `[-INT_RANGE, INT_RANGE]`, and their affine versions with
/// a nonzero constant in the same range.
pub open spec fn int_grid_fits(ll: &LinearLaws) -> bool {
    &&& forall|a: i128, b: i128| -6 <= a <= 6 && -6 <= b <= 6 ==> #[trigger] int_linear_ok(a, b, ll)
    &&& forall|a: i128, b: i128, c: i128|
        -6 <= a <= 6 && -6 <= b <= 6 && -6 <= c <= 6 ==> #[trigger] int_affine_ok(a, b, c, ll)
}

/// The linear model over `Z` at `(a, b)` fits.
pub open spec fn int_linear_ok(a: i128, b: i128, ll: &LinearLaws) -> bool {
    linear_fits(&Integers, seq![a as int], seq![b as int], ll)
}

/// The linear model over `Z[t]` at `(a0 + a1 t, b0 + b1 t)` fits.
pub open spec fn poly_linear_ok(a0: i128, a1: i128, b0: i128, b1: i128, ll: &LinearLaws) -> bool {
    linear_fits(&PolyZ, trim(seq![a0 as int, a1 as int]), trim(seq![b0 as int, b1 as int]), ll)
}

/// The affine constant conditions over `Z` at `(a, b, c)` fit.
pub open spec fn int_affine_ok(a: i128, b: i128, c: i128, ll: &LinearLaws) -> bool {
    forall|i: int| 0 <= i < ll.laws@.len() ==> (AffineModel { ring: Integers, a, b, c }).const_fits(
        #[trigger] ll.laws@[i],
        words_spec(&Integers, seq![a as int], seq![b as int]),
    )
}

/// The `Z[t]` grid can be evaluated within `i128`.
pub open spec fn poly_grid_fits(ll: &LinearLaws) -> bool {
    forall|a0: i128, a1: i128, b0: i128, b1: i128|
        -2 <= a0 <= 2 && -2 <= a1 <= 2 && -2 <= b0 <= 2 && -2 <= b1 <= 2 ==> #[trigger] poly_linear_ok(a0, a1, b0, b1, ll)
}

/// The generic rings can be evaluated at their generators within `i128`,
/// and no product leaves the degree bound.
pub open spec fn generic_fits(ll: &LinearLaws) -> bool {
    &&& linear_fits(&FreeComm, unit_vec(15, 1), unit_vec(15, 2), ll)
    &&& linear_fits(&FreeNc, unit_vec(31, 1), unit_vec(31, 2), ll)
    &&& linear_fits(&OneSidedInverse, unit_vec(15, 1), unit_vec(15, 2), ll)
}

/// Which laws the linear magma `ax + by` over a ring satisfies, by its
/// difference polynomials at the coefficients' values `va`, `vb`.
pub open spec fn ring_bits<R: RingOps>(ring: &R, va: Seq<int>, vb: Seq<int>, ll: &LinearLaws) -> Seq<bool> {
    Seq::new(ll.laws@.len(), |i: int| law_vanishes(ring, ll.laws@[i].terms@, words_spec(ring, va, vb)))
}

/// Row `j` of the `Z` grid is the model `a = j / 13 - 6`, `b = j % 13 - 6`.
pub open spec fn int_row_ok(row: Row, j: int, ll: &LinearLaws) -> bool {
    &&& row.0@ == "a="@ + signed_decimal(j / 13 - 6) + " b="@ + signed_decimal(j % 13 - 6)
    &&& row.1 == Carrier::Infinite
    &&& row.2@ == ring_bits(&Integers, seq![j / 13 - 6], seq![j % 13 - 6], ll)
}

/// Row `j` of the `Z[t]` grid is `a = c0 + c1 t`, `b = c2 + c3 t`, the
/// `c`s being the base-5 digits of `j`, most significant first, less 2.
pub open spec fn poly_row_ok(row: Row, j: int, ll: &LinearLaws) -> bool {
    let (d0, d1, d2, d3) = (j % 5, (j / 5) % 5, ((j / 5) / 5) % 5, ((j / 5) / 5) / 5);
    &&& row.0@ == "a="@ + signed_decimal(d3 - 2) + "+"@ + signed_decimal(d2 - 2) + "t b="@ + signed_decimal(d1 - 2) + "+"@
        + signed_decimal(d0 - 2) + "t"@
    &&& row.1 == Carrier::Infinite
    &&& row.2@ == ring_bits(&PolyZ, trim(seq![d3 - 2, d2 - 2]), trim(seq![d1 - 2, d0 - 2]), ll)
}

/// Linear models over `Z` with both coefficients in `[-INT_RANGE, INT_RANGE]`.
fn int_rows(ll: &LinearLaws) -> (rows: Vec<Row>)
    requires
        laws_indexed(ll),
        int_grid_fits(ll),
    ensures
        rows@.len() == 13 * 13,
        forall|j: int| 0 <= j < 13 * 13 ==> int_row_ok(#[trigger] rows@[j], j, ll),
{
    let mut rows: Vec<Row> = Vec::new();
    let mut a: i128 = -INT_RANGE;
    while a <= INT_RANGE
        invariant
            laws_indexed(ll),
            int_grid_fits(ll),
            -6 <= a <= 7,
            rows@.len() == (a + 6) * 13,
            forall|j: int| 0 <= j < rows@.len() ==> int_row_ok(#[trigger] rows@[j], j, ll),
        decreases 7 - a,
    {
        let mut b: i128 = -INT_RANGE;
        while b <= INT_RANGE
            invariant
                laws_indexed(ll),
                int_grid_fits(ll),
                -6 <= a <= 6,
                -6 <= b <= 7,
                rows@.len() == (a + 6) * 13 + (b + 6),
                forall|j: int| 0 <= j < rows@.len() ==> int_row_ok(#[trigger] rows@[j], j, ll),
            decreases 7 - b,
        {
            proof {
                assert(int_linear_ok(a, b, ll));
            }
            let model = LinearModel::new(Integers, a, b);
            let sig = model.signature(ll);
            let ghost before = rows@;
            rows.push((fmt_ab(a, b), Carrier::Infinite, sig));
            proof {
                let j = (a + 6) * 13 + (b + 6);
                vstd::arithmetic::div_mod::lemma_fundamental_div_mod_converse(j, 13, a + 6, b + 6);
                assert(sig@ =~= ring_bits(&Integers, seq![j / 13 - 6], seq![j % 13 - 6], ll));
                assert forall|q: int| 0 <= q < rows@.len() implies int_row_ok(#[trigger] rows@[q], q, ll) by {
                    if q < before.len() {
                        assert(rows@[q] == before[q]);
                    }
                }
            }
            b = b + 1;
        }
        a = a + 1;
    }
    rows
}

/// a nonzero constant.
/// Which laws an affine magma satisfies: those whose difference polynomials
/// vanish and whose constant condition holds.
pub open spec fn affine_bits<R: RingOps>(model: AffineModel<R>, ll: &LinearLaws) -> Seq<bool> {
    Seq::new(
        ll.laws@.len(),
        |i: int| law_vanishes(&model.ring, ll.laws@[i].terms@, model.words()) && model.const_vanishes(ll.laws@[i], model.words()),
    )
}

/// Row `q` of the affine `Z` grid: `a = q / 156 - 6`, `b = (q % 156) / 12 - 6`,
/// and `c` the `(q % 12)`-th of the twelve nonzero values in `[-6, 6]`.
pub open spec fn affine_int_row_ok(row: Row, q: int, ll: &LinearLaws) -> bool {
    let (a, b, ci) = (q / 156 - 6, (q % 156) / 12 - 6, q % 12);
    let c = if ci < 6 {
        ci - 6
    } else {
        ci - 5
    };
    &&& row.0@ == "a="@ + signed_decimal(a) + " b="@ + signed_decimal(b) + " c="@ + signed_decimal(c)
    &&& row.1 == Carrier::Infinite
    &&& row.2@ == affine_bits(AffineModel { ring: Integers, a: a as i128, b: b as i128, c: c as i128 }, ll)
}

fn affine_int_rows(ll: &LinearLaws) -> (rows: Vec<Row>)
    requires
        laws_indexed(ll),
        const_indexed(ll),
        int_grid_fits(ll),
    ensures
        rows@.len() == 13 * 13 * 12,
        forall|q: int| 0 <= q < 13 * 13 * 12 ==> affine_int_row_ok(#[trigger] rows@[q], q, ll),
{
    let mut rows: Vec<Row> = Vec::new();
    let mut a: i128 = -INT_RANGE;
    while a <= INT_RANGE
        invariant
            laws_indexed(ll),
            const_indexed(ll),
            int_grid_fits(ll),
            -6 <= a <= 7,
            rows@.len() == (a + 6) * 13 * 12,
            forall|q: int| 0 <= q < rows@.len() ==> affine_int_row_ok(#[trigger] rows@[q], q, ll),
        decreases 7 - a,
    {
        let mut b: i128 = -INT_RANGE;
        while b <= INT_RANGE
            invariant
                laws_indexed(ll),
                const_indexed(ll),
                int_grid_fits(ll),
                -6 <= a <= 6,
                -6 <= b <= 7,
                rows@.len() == (a + 6) * 13 * 12 + (b + 6) * 12,
                forall|q: int| 0 <= q < rows@.len() ==> affine_int_row_ok(#[trigger] rows@[q], q, ll),
            decreases 7 - b,
        {
            let mut cc: i128 = -INT_RANGE;
            while cc <= INT_RANGE
                invariant
                    laws_indexed(ll),
                    const_indexed(ll),
                    int_grid_fits(ll),
                    -6 <= a <= 6,
                    -6 <= b <= 6,
                    -6 <= cc <= 7,
                    rows@.len() == (a + 6) * 13 * 12 + (b + 6) * 12 + if cc <= 0 { cc + 6 } else { cc + 5 },
                    forall|q: int| 0 <= q < rows@.len() ==> affine_int_row_ok(#[trigger] rows@[q], q, ll),
                decreases 7 - cc,
            {
                if cc != 0 {
                    proof {
                        assert(int_linear_ok(a, b, ll));
                        assert(int_affine_ok(a, b, cc, ll));
                    }
                    let model = AffineModel::new(Integers, a, b, cc);
                    let sig = model.signature(ll);
                    let ghost before = rows@;
                    rows.push((fmt_abc(a, b, cc), Carrier::Infinite, sig));
                    proof {
                        let ci: int = if cc <= 0 { cc + 6 } else { cc + 5 };
                        let q = (a + 6) * 13 * 12 + (b + 6) * 12 + ci;
                        let r = (b + 6) * 12 + ci;
                        assert(q == (a + 6) * 156 + r);
                        vstd::arithmetic::div_mod::lemma_fundamental_div_mod_converse(q, 156, a + 6, r);
                        vstd::arithmetic::div_mod::lemma_fundamental_div_mod_converse(r, 12, b + 6, ci);
                        vstd::arithmetic::div_mod::lemma_fundamental_div_mod_converse(q, 12, (a + 6) * 13 + (b + 6), ci);
                        assert(sig@ =~= affine_bits(AffineModel { ring: Integers, a, b, c: cc }, ll));
                        assert forall|q2: int| 0 <= q2 < rows@.len() implies affine_int_row_ok(#[trigger] rows@[q2], q2, ll) by {
                            if q2 < before.len() {
                                assert(rows@[q2] == before[q2]);
                            }
                        }
                    }
                }
                cc = cc + 1;
            }
            b = b + 1;
        }
        a = a + 1;
    }
    rows
}

/// Linear models over `Z[t]` with `a = a0 + a1 t`, `b = b0 + b1 t`, every
/// coefficient in `[-POLY_RANGE, POLY_RANGE]`.
fn poly_rows(ll: &LinearLaws) -> (rows: Vec<Row>)
    requires
        laws_indexed(ll),
        poly_grid_fits(ll),
    ensures
        rows@.len() == 5 * 5 * 5 * 5,
        forall|j: int| 0 <= j < 5 * 5 * 5 * 5 ==> poly_row_ok(#[trigger] rows@[j], j, ll),
{
    let mut rows: Vec<Row> = Vec::new();
    let mut a0: i128 = -POLY_RANGE;
    while a0 <= POLY_RANGE
        invariant
            laws_indexed(ll),
            poly_grid_fits(ll),
            -2 <= a0 <= 3,
            rows@.len() == (a0 + 2) * 125,
            forall|j: int| 0 <= j < rows@.len() ==> poly_row_ok(#[trigger] rows@[j], j, ll),
        decreases 3 - a0,
    {
        let mut a1: i128 = -POLY_RANGE;
        while a1 <= POLY_RANGE
            invariant
                laws_indexed(ll),
                poly_grid_fits(ll),
                -2 <= a0 <= 2,
                -2 <= a1 <= 3,
                rows@.len() == (a0 + 2) * 125 + (a1 + 2) * 25,
                forall|j: int| 0 <= j < rows@.len() ==> poly_row_ok(#[trigger] rows@[j], j, ll),
            decreases 3 - a1,
        {
            let mut b0: i128 = -POLY_RANGE;
            while b0 <= POLY_RANGE
                invariant
                    laws_indexed(ll),
                    poly_grid_fits(ll),
                    -2 <= a0 <= 2,
                    -2 <= a1 <= 2,
                    -2 <= b0 <= 3,
                    rows@.len() == (a0 + 2) * 125 + (a1 + 2) * 25 + (b0 + 2) * 5,
                    forall|j: int| 0 <= j < rows@.len() ==> poly_row_ok(#[trigger] rows@[j], j, ll),
                decreases 3 - b0,
            {
                let mut b1: i128 = -POLY_RANGE;
                while b1 <= POLY_RANGE
                    invariant
                        laws_indexed(ll),
                        poly_grid_fits(ll),
                        -2 <= a0 <= 2,
                        -2 <= a1 <= 2,
                        -2 <= b0 <= 2,
                        -2 <= b1 <= 3,
                        rows@.len() == (a0 + 2) * 125 + (a1 + 2) * 25 + (b0 + 2) * 5 + (b1 + 2),
                        forall|j: int| 0 <= j < rows@.len() ==> poly_row_ok(#[trigger] rows@[j], j, ll),
                    decreases 3 - b1,
                {
                    let a = PolyZ::lin(a0, a1);
                    let b = PolyZ::lin(b0, b1);
                    proof {
                        assert(poly_linear_ok(a0, a1, b0, b1, ll));
                    }
                    let model = LinearModel::new(PolyZ, a, b);
                    let sig = model.signature(ll);
                    let ghost before = rows@;
                    rows.push((fmt_poly(a0, a1, b0, b1), Carrier::Infinite, sig));
                    proof {
                        let j = (a0 + 2) * 125 + (a1 + 2) * 25 + (b0 + 2) * 5 + (b1 + 2);
                        let q1 = (a0 + 2) * 25 + (a1 + 2) * 5 + (b0 + 2);
                        let q2 = (a0 + 2) * 5 + (a1 + 2);
                        vstd::arithmetic::div_mod::lemma_fundamental_div_mod_converse(j, 5, q1, b1 + 2);
                        vstd::arithmetic::div_mod::lemma_fundamental_div_mod_converse(q1, 5, q2, b0 + 2);
                        vstd::arithmetic::div_mod::lemma_fundamental_div_mod_converse(q2, 5, a0 + 2, a1 + 2);
                        assert(sig@ =~= ring_bits(&PolyZ, trim(seq![a0 as int, a1 as int]), trim(seq![b0 as int, b1 as int]), ll));
                        assert forall|q: int| 0 <= q < rows@.len() implies poly_row_ok(#[trigger] rows@[q], q, ll) by {
                            if q < before.len() {
                                assert(rows@[q] == before[q]);
                            }
                        }
                    }
                    b1 = b1 + 1;
                }
                b0 = b0 + 1;
            }
            a1 = a1 + 1;
        }
        a0 = a0 + 1;
    }
    rows
}

/// Every `k x k` matrix over `Z/p`, entries row-major, matrix number `code`
/// having entry `j` equal to digit `j` of `code` in base `p`.
pub fn enumerate_matrices(p: u64, k: usize) -> (all: Vec<Vec<u64>>)
    requires
        k * k <= u32::MAX,
        pow(p as int, (k * k) as nat) <= usize::MAX,
    ensures
        all@.len() == pow(p as int, (k * k) as nat),
        forall|code: int|
            0 <= code < all@.len() ==> (#[trigger] all@[code])@.len() == k * k && forall|j: int|
                0 <= j < k * k ==> all@[code]@[j] == code_digit(code as nat, p as nat, j as nat),
{
    let cells = k * k;
    let mut total: usize = 1;
    let mut e: usize = 0;
    proof {
        vstd::arithmetic::power::lemma_pow0(p as int);
    }
    while e < cells
        invariant
            cells == k * k,
            e <= cells,
            total == pow(p as int, e as nat),
            pow(p as int, cells as nat) <= usize::MAX,
        decreases cells - e,
    {
        proof {
            assert(pow(p as int, (e + 1) as nat) == p * pow(p as int, e as nat)) by {
                reveal(pow);
            }
            if p > 0 {
                vstd::arithmetic::power::lemma_pow_increases(p as nat, (e + 1) as nat, cells as nat);
                vstd::arithmetic::power::lemma_pow_increases(p as nat, 1, cells as nat);
                vstd::arithmetic::power::lemma_pow1(p as int);
            }
            assert(p <= usize::MAX);
            assert(total * p == p * total) by (nonlinear_arith);
            assert(p * total <= usize::MAX) by {
                if p == 0 {
                    assert(p * total == 0) by (nonlinear_arith)
                        requires
                            p == 0,
                    ;
                }
            }
        }
        total = total * (p as usize);
        e = e + 1;
    }
    let mut all: Vec<Vec<u64>> = Vec::new();
    let mut code: usize = 0;
    proof {
        if p == 0 && cells > 0 {
            lemma_pow_zero_base(cells as nat);
        }
    }
    while code < total
        invariant
            cells == k * k,
            total == pow(p as int, cells as nat),
            code <= total,
            all@.len() == code,
            p > 0 || cells == 0 || total == 0,
            forall|c: int|
                0 <= c < code ==> (#[trigger] all@[c])@.len() == cells && forall|j: int|
                    0 <= j < cells ==> all@[c]@[j] == code_digit(c as nat, p as nat, j as nat),
        decreases total - code,
    {
        let mut m: Vec<u64> = Vec::new();
        let mut v = code as u64;
        let mut j: usize = 0;
        while j < cells
            invariant
                cells == k * k,
                j <= cells,
                p > 0 || cells == 0,
                m@.len() == j,
                forall|j2: nat| #[trigger] code_digit(v as nat, p as nat, j2) == code_digit(code as nat, p as nat, (j2 + j) as nat),
                forall|j2: int| 0 <= j2 < j ==> #[trigger] m@[j2] == code_digit(code as nat, p as nat, j2 as nat),
            decreases cells - j,
        {
            proof {
                assert forall|j2: nat| #[trigger] code_digit((v / p) as nat, p as nat, j2) == code_digit(code as nat, p as nat, (j2 + j + 1) as nat) by {
                    assert(code_digit(v as nat, p as nat, j2 + 1) == code_digit((v as nat) / (p as nat), p as nat, j2));
                    assert(code_digit(v as nat, p as nat, j2 + 1) == code_digit(code as nat, p as nat, (j2 + 1 + j) as nat));
                }
                assert(code_digit(v as nat, p as nat, 0) == code_digit(code as nat, p as nat, j as nat));
            }
            m.push(v % p);
            v = v / p;
            j = j + 1;
        }
        all.push(m);
        code = code + 1;
    }
    proof {
        if p == 0 && cells > 0 {
            assert(pow(0, cells as nat) == 0) by {
                reveal(pow);
            }
        }
    }
    all
}

proof fn lemma_pow4(p: int)
    ensures
        pow(p, 4) == p * p * p * p,
{
    reveal_with_fuel(pow, 5);
    assert(p * (p * (p * (p * 1))) == p * p * p * p) by (nonlinear_arith);
}

proof fn lemma_pow_zero_base(n: nat)
    requires
        n >= 1,
    ensures
        pow(0, n) == 0,
{
    reveal(pow);
}

/// A `2 x 2` matrix of residues mod `p`.
pub open spec fn residue_mat(x: Seq<int>, p: int) -> bool {
    x.len() == 4 && forall|q: int| 0 <= q < 4 ==> 0 <= #[trigger] x[q] < p
}

/// The word values of a matrix model over `F_p` are matrices of residues.
proof fn lemma_mat_word(r: MatFp, a: Seq<int>, b: Seq<int>, idx: nat)
    requires
        1 <= r.p <= 3,
        r.k == 2,
        a.len() == 4,
        b.len() == 4,
        forall|q: int| 0 <= q < 4 ==> 0 <= #[trigger] a[q] < r.p,
        forall|q: int| 0 <= q < 4 ==> 0 <= #[trigger] b[q] < r.p,
    ensures
        word_val(&r, a, b, idx).len() == 4,
        forall|q: int| 0 <= q < 4 ==> 0 <= #[trigger] word_val(&r, a, b, idx)[q] < r.p,
    decreases idx,
{
    if idx > 0 {
        let p = ((idx - 1) / 2) as nat;
        lemma_mat_word(r, a, b, p);
        let w = word_val(&r, a, b, idx);
        assert forall|q: int| 0 <= q < 4 implies 0 <= #[trigger] w[q] < r.p by {
            let x = word_val(&r, a, b, p);
            if idx % 2 == 1 {
                vstd::arithmetic::div_mod::lemma_mod_bound(crate::rings::mat_sum(x, a, 2, q / 2, q % 2, 2), r.p as int);
            } else {
                vstd::arithmetic::div_mod::lemma_mod_bound(crate::rings::mat_sum(x, b, 2, q / 2, q % 2, 2), r.p as int);
            }
        }
    } else {
        vstd::arithmetic::div_mod::lemma_mod_bound(1, r.p as int);
    }
}

/// Linear combinations of residue matrices stay residue matrices, and every
/// step fits.
proof fn lemma_mat_comb(r: MatFp, t: Seq<(u8, i32)>, ws: Seq<Seq<int>>, n: nat)
    requires
        1 <= r.p <= 3,
        r.k == 2,
        n <= t.len(),
        forall|q: int| 0 <= q < t.len() ==> (#[trigger] t[q]).0 < ws.len(),
        forall|w: int| 0 <= w < ws.len() ==> residue_mat(#[trigger] ws[w], r.p as int),
    ensures
        comb(&r, t, ws, n).len() == 4,
        forall|q: int| 0 <= q < 4 ==> 0 <= #[trigger] comb(&r, t, ws, n)[q] < r.p,
        forall|q: nat| q < n ==> #[trigger] r.scale_fits(comb(&r, t, ws, q), t[q as int].1 as int, ws[t[q as int].0 as int]),
    decreases n,
{
    if n > 0 {
        lemma_mat_comb(r, t, ws, (n - 1) as nat);
        let acc = comb(&r, t, ws, (n - 1) as nat);
        let k = t[n - 1].1 as int;
        let x = ws[t[n - 1].0 as int];
        let e = emod(k, r.p as int);
        vstd::arithmetic::div_mod::lemma_mod_bound(k, r.p as int);
        assert forall|q: int| 0 <= q < acc.len() implies #[trigger] acc[q] + e * x[q] <= u64::MAX by {
            assert(acc[q] + e * x[q] <= 16) by (nonlinear_arith)
                requires
                    0 <= acc[q] < 4,
                    0 <= e < 4,
                    0 <= x[q] < 4,
            ;
        }
        let c = comb(&r, t, ws, n);
        assert forall|q: int| 0 <= q < 4 implies 0 <= #[trigger] c[q] < r.p by {
            vstd::arithmetic::div_mod::lemma_mod_bound(acc[q] + e * x[q], r.p as int);
        }
    }
}

/// A matrix model with residue coefficients can always be evaluated.
proof fn lemma_mat_fits(r: MatFp, a: Seq<int>, b: Seq<int>, ll: &LinearLaws)
    requires
        1 <= r.p <= 3,
        r.k == 2,
        a.len() == 4,
        b.len() == 4,
        forall|q: int| 0 <= q < 4 ==> 0 <= #[trigger] a[q] < r.p,
        forall|q: int| 0 <= q < 4 ==> 0 <= #[trigger] b[q] < r.p,
        laws_indexed(ll),
    ensures
        linear_fits(&r, a, b, ll),
        forall|w: int| 0 <= w < 31 ==> residue_mat(#[trigger] words_spec(&r, a, b)[w], r.p as int),
{
    assert forall|idx: nat| 1 <= idx < 31 implies #[trigger] step_fits(&r, a, b, idx) by {
        let p = ((idx - 1) / 2) as nat;
        lemma_mat_word(r, a, b, p);
        let w = word_val(&r, a, b, p);
        assert forall|q: int, s: int| 0 <= q < 4 && 0 <= s < 4 implies #[trigger] w[q] * #[trigger] a[s] + r.p - 1 <= u64::MAX by {
            assert(w[q] * a[s] <= 9) by (nonlinear_arith)
                requires
                    0 <= w[q] < 3,
                    0 <= a[s] < 3,
            ;
        }
        assert forall|q: int, s: int| 0 <= q < 4 && 0 <= s < 4 implies #[trigger] w[q] * #[trigger] b[s] + r.p - 1 <= u64::MAX by {
            assert(w[q] * b[s] <= 9) by (nonlinear_arith)
                requires
                    0 <= w[q] < 3,
                    0 <= b[s] < 3,
            ;
        }
    }
    let ws = words_spec(&r, a, b);
    assert forall|w: int| 0 <= w < 31 implies residue_mat(#[trigger] ws[w], r.p as int) by {
        lemma_mat_word(r, a, b, w as nat);
    }
    assert forall|i: int| 0 <= i < ll.laws@.len() implies law_fits(&r, (#[trigger] ll.laws@[i]).terms@, ws) by {
        let terms = ll.laws@[i].terms@;
        assert forall|v: int| 0 <= v < terms.len() implies comb_fits(&r, (#[trigger] terms[v])@, ws) by {
            let t = terms[v]@;
            assert forall|q: int| 0 <= q < t.len() implies (#[trigger] t[q]).0 < ws.len() by {
                assert(ll.laws@[i].terms@[v]@[q].0 < 31);
            }
            lemma_mat_comb(r, t, ws, t.len());
        }
    }
}

/// Every linear model over `M_2(F_p)`, in the order of `enumerate_matrices`.
/// The matrix whose entries, row-major, are the base-`p` digits of `code`.
pub open spec fn mat_of_code(code: nat, p: nat) -> Seq<int> {
    Seq::new(4, |j: int| code_digit(code, p, j as nat) as int)
}

/// Row `q` of the `M_2(F_p)` grid is `a` the matrix of `q / p^4`, `b` that
/// of `q % p^4`.
pub open spec fn mat_row_ok(row: Row, q: int, p: nat, ll: &LinearLaws) -> bool {
    let size = pow(p as int, 4);
    &&& row.0@ == "a="@ + list_text(mat_of_code((q / size) as nat, p)) + " b="@ + list_text(mat_of_code((q % size) as nat, p))
    &&& row.1 == Carrier::Finite(size as usize)
    &&& row.2@ == ring_bits(&MatFp { p: p as u64, k: 2 }, mat_of_code((q / size) as nat, p), mat_of_code((q % size) as nat, p), ll)
}

fn matrix_rows(ll: &LinearLaws, p: u64) -> (rows: Vec<Row>)
    requires
        2 <= p <= 3,
        laws_indexed(ll),
    ensures
        rows@.len() == pow(p as int, 4) * pow(p as int, 4),
        forall|q: int| 0 <= q < rows@.len() ==> mat_row_ok(#[trigger] rows@[q], q, p as nat, ll),
{
    proof {
        lemma_pow4(p as int);
        assert(p * p * p * p <= 81) by (nonlinear_arith)
            requires
                2 <= p <= 3,
        ;
    }
    let all = enumerate_matrices(p, 2);
    let size = (p * p * p * p) as usize;
    let mut rows: Vec<Row> = Vec::new();
    let mut i: usize = 0;
    while i < all.len()
        invariant
            2 <= p <= 3,
            laws_indexed(ll),
            all@.len() == size,
            size == pow(p as int, 4),
            size <= 81,
            forall|code: int|
                0 <= code < all@.len() ==> (#[trigger] all@[code])@.len() == 4 && forall|j: int|
                    0 <= j < 4 ==> all@[code]@[j] == code_digit(code as nat, p as nat, j as nat),
            i <= size,
            rows@.len() == i * size,
            forall|q: int| 0 <= q < rows@.len() ==> mat_row_ok(#[trigger] rows@[q], q, p as nat, ll),
        decreases size - i,
    {
        let mut j: usize = 0;
        while j < all.len()
            invariant
                2 <= p <= 3,
                laws_indexed(ll),
                all@.len() == size,
                size == pow(p as int, 4),
                size <= 81,
                forall|code: int|
                    0 <= code < all@.len() ==> (#[trigger] all@[code])@.len() == 4 && forall|j2: int|
                        0 <= j2 < 4 ==> all@[code]@[j2] == code_digit(code as nat, p as nat, j2 as nat),
                i < size,
                j <= size,
                rows@.len() == i * size + j,
                forall|q: int| 0 <= q < rows@.len() ==> mat_row_ok(#[trigger] rows@[q], q, p as nat, ll),
            decreases size - j,
        {
            let a = all[i].clone();
            let b = all[j].clone();
            proof {
                assert(a@ =~= all@[i as int]@);
                assert(b@ =~= all@[j as int]@);
                assert forall|q: int| 0 <= q < 4 implies 0 <= #[trigger] ints_u64(a@)[q] < p by {
                    crate::quadratic::lemma_code_digit_bound(i as nat, p as nat, q as nat);
                }
                assert forall|q: int| 0 <= q < 4 implies 0 <= #[trigger] ints_u64(b@)[q] < p by {
                    crate::quadratic::lemma_code_digit_bound(j as nat, p as nat, q as nat);
                }
                lemma_mat_fits(MatFp { p, k: 2 }, ints_u64(a@), ints_u64(b@), ll);
                assert(pow(p as int, 4) <= usize::MAX);
            }
            let params = fmt_mat(&a, &b);
            let model = LinearModel::new(MatFp { p, k: 2 }, a, b);
            let sig = model.signature(ll);
            let ghost before = rows@;
            rows.push((params, Carrier::Finite(size), sig));
            proof {
                let q = i * size + j;
                vstd::arithmetic::div_mod::lemma_fundamental_div_mod_converse(q as int, size as int, i as int, j as int);
                assert(ints_u64(a@) =~= mat_of_code(i as nat, p as nat));
                assert(ints_u64(b@) =~= mat_of_code(j as nat, p as nat));
                assert(sig@ =~= ring_bits(&MatFp { p, k: 2 }, mat_of_code(i as nat, p as nat), mat_of_code(j as nat, p as nat), ll));
                assert forall|q2: int| 0 <= q2 < rows@.len() implies mat_row_ok(#[trigger] rows@[q2], q2, p as nat, ll) by {
                    if q2 < before.len() {
                        assert(rows@[q2] == before[q2]);
                    }
                }
            }
            j = j + 1;
        }
        proof {
            assert(i * size + size == (i + 1) * size) by (nonlinear_arith);
        }
        i = i + 1;
    }
    rows
}

/// The affine constant condition of a matrix model with residue
/// coefficients can always be evaluated.
proof fn lemma_mat_affine_fits(r: MatFp, a: Vec<u64>, b: Vec<u64>, c: Vec<u64>, ll: &LinearLaws)
    requires
        1 <= r.p <= 3,
        r.k == 2,
        residue_mat(ints_u64(a@), r.p as int),
        residue_mat(ints_u64(b@), r.p as int),
        residue_mat(ints_u64(c@), r.p as int),
        laws_indexed(ll),
        const_indexed(ll),
    ensures
        linear_fits(&r, ints_u64(a@), ints_u64(b@), ll),
        forall|i: int| 0 <= i < ll.laws@.len() ==> (AffineModel { ring: r, a, b, c }).const_fits(#[trigger] ll.laws@[i], words_spec(&r, ints_u64(a@), ints_u64(b@))),
{
    let va = ints_u64(a@);
    let vb = ints_u64(b@);
    let vc = ints_u64(c@);
    assert forall|q: int| 0 <= q < 4 implies 0 <= #[trigger] va[q] < r.p by {}
    assert forall|q: int| 0 <= q < 4 implies 0 <= #[trigger] vb[q] < r.p by {}
    lemma_mat_fits(r, va, vb, ll);
    let ws = words_spec(&r, va, vb);
    let model = AffineModel { ring: r, a, b, c };
    assert forall|i: int| 0 <= i < ll.laws@.len() implies model.const_fits(#[trigger] ll.laws@[i], ws) by {
        let t = ll.laws@[i].const_terms@;
        assert forall|q: int| 0 <= q < t.len() implies (#[trigger] t[q]).0 < ws.len() by {
            assert(ll.laws@[i].const_terms@[q].0 < 31);
        }
        lemma_mat_comb(r, t, ws, t.len());
        let x = comb(&r, t, ws, t.len());
        assert forall|q: int, s: int| 0 <= q < 4 && 0 <= s < 4 implies #[trigger] x[q] * #[trigger] vc[s] + r.p - 1 <= u64::MAX by {
            assert(x[q] * vc[s] <= 9) by (nonlinear_arith)
                requires
                    0 <= x[q] < 3,
                    0 <= vc[s] < 3,
            ;
        }
    }
}

/// Affine models over `M_2(F_2)` with a nonzero constant.
#[verifier::spinoff_prover]
/// Which laws the affine magma `ax + by + c` over a ring satisfies, at the
/// coefficients' values `va`, `vb`, `vc`: its difference polynomials vanish
/// at the word values and its constant condition, times `c`, is zero.
pub open spec fn affine_view_bits<R: RingOps>(ring: &R, va: Seq<int>, vb: Seq<int>, vc: Seq<int>, ll: &LinearLaws) -> Seq<bool> {
    let ws = words_spec(ring, va, vb);
    Seq::new(
        ll.laws@.len(),
        |i: int|
            law_vanishes(ring, ll.laws@[i].terms@, ws) && ring.spec_is_zero(
                ring.spec_mul(comb(ring, ll.laws@[i].const_terms@, ws, ll.laws@[i].const_terms@.len()), vc),
            ),
    )
}

/// Row `q` of the affine `M_2(F_2)` grid: `a` the matrix of `q / 240`, `b`
/// that of `(q % 240) / 15`, `c` that of `q % 15 + 1`.
pub open spec fn affine_mat_row_ok(row: Row, q: int, ll: &LinearLaws) -> bool {
    let (i, j, k) = (q / 240, (q % 240) / 15, q % 15 + 1);
    let (ma, mb, mc) = (mat_of_code(i as nat, 2), mat_of_code(j as nat, 2), mat_of_code(k as nat, 2));
    &&& row.0@ == "a="@ + list_text(ma) + " b="@ + list_text(mb) + " c="@ + list_text(mc)
    &&& row.1 == Carrier::Finite(16)
    &&& row.2@ == affine_view_bits(&MatFp { p: 2, k: 2 }, ma, mb, mc, ll)
}

fn affine_matrix_rows(ll: &LinearLaws) -> (rows: Vec<Row>)
    requires
        laws_indexed(ll),
        const_indexed(ll),
    ensures
        rows@.len() == 16 * 16 * 15,
        forall|q: int| 0 <= q < 16 * 16 * 15 ==> affine_mat_row_ok(#[trigger] rows@[q], q, ll),
{
    proof {
        lemma_pow4(2);
    }
    let all = enumerate_matrices(2, 2);
    let mut rows: Vec<Row> = Vec::new();
    let mut i: usize = 0;
    while i < all.len()
        invariant
            laws_indexed(ll),
            const_indexed(ll),
            pow(2int, 4) == 16,
            all@.len() == 16,
            forall|code: int|
                0 <= code < all@.len() ==> (#[trigger] all@[code])@.len() == 4 && forall|j: int|
                    0 <= j < 4 ==> all@[code]@[j] == code_digit(code as nat, 2, j as nat),
            i <= 16,
            rows@.len() == i * 16 * 15,
            forall|q2: int| 0 <= q2 < rows@.len() ==> affine_mat_row_ok(#[trigger] rows@[q2], q2, ll),
        decreases 16 - i,
    {
        let mut j: usize = 0;
        while j < all.len()
            invariant
                laws_indexed(ll),
                const_indexed(ll),
                pow(2int, 4) == 16,
                all@.len() == 16,
                forall|code: int|
                    0 <= code < all@.len() ==> (#[trigger] all@[code])@.len() == 4 && forall|j2: int|
                        0 <= j2 < 4 ==> all@[code]@[j2] == code_digit(code as nat, 2, j2 as nat),
                i < 16,
                j <= 16,
                rows@.len() == i * 16 * 15 + j * 15,
                forall|q2: int| 0 <= q2 < rows@.len() ==> affine_mat_row_ok(#[trigger] rows@[q2], q2, ll),
            decreases 16 - j,
        {
            let mut q: usize = 1;
            while q < all.len()
                invariant
                    laws_indexed(ll),
                    const_indexed(ll),
                    pow(2int, 4) == 16,
                    all@.len() == 16,
                    forall|code: int|
                        0 <= code < all@.len() ==> (#[trigger] all@[code])@.len() == 4 && forall|j2: int|
                            0 <= j2 < 4 ==> all@[code]@[j2] == code_digit(code as nat, 2, j2 as nat),
                    i < 16,
                    j < 16,
                    1 <= q <= 16,
                    rows@.len() == i * 16 * 15 + j * 15 + (q - 1),
                    forall|q2: int| 0 <= q2 < rows@.len() ==> affine_mat_row_ok(#[trigger] rows@[q2], q2, ll),
                decreases 16 - q,
            {
                let a = all[i].clone();
                let b = all[j].clone();
                let cc = all[q].clone();
                proof {
                    assert(a@ =~= all@[i as int]@);
                    assert(b@ =~= all@[j as int]@);
                    assert(cc@ =~= all@[q as int]@);
                    assert forall|s: int| 0 <= s < 4 implies 0 <= #[trigger] ints_u64(a@)[s] < 2 by {
                        crate::quadratic::lemma_code_digit_bound(i as nat, 2, s as nat);
                    }
                    assert forall|s: int| 0 <= s < 4 implies 0 <= #[trigger] ints_u64(b@)[s] < 2 by {
                        crate::quadratic::lemma_code_digit_bound(j as nat, 2, s as nat);
                    }
                    assert forall|s: int| 0 <= s < 4 implies 0 <= #[trigger] ints_u64(cc@)[s] < 2 by {
                        crate::quadratic::lemma_code_digit_bound(q as nat, 2, s as nat);
                    }
                    lemma_mat_affine_fits(MatFp { p: 2, k: 2 }, a, b, cc, ll);
                }
                proof {
                    assert(pow(2int, (2 * 2) as nat) == 16);
                    assert(MatFp { p: 2, k: 2 }.ring_ok());
                }
                let params = fmt_mat_c(&a, &b, &cc);
                let model = AffineModel::new(MatFp { p: 2, k: 2 }, a, b, cc);
                let sig = model.signature(ll);
                let ghost before = rows@;
                rows.push((params, Carrier::Finite(16), sig));
                proof {
                    let idx = i * 240 + j * 15 + (q - 1);
                    let r = j * 15 + (q - 1);
                    vstd::arithmetic::div_mod::lemma_fundamental_div_mod_converse(idx as int, 240, i as int, r as int);
                    vstd::arithmetic::div_mod::lemma_fundamental_div_mod_converse(r as int, 15, j as int, (q - 1) as int);
                    vstd::arithmetic::div_mod::lemma_fundamental_div_mod_converse(idx as int, 15, (i * 16 + j) as int, (q - 1) as int);
                    assert(ints_u64(a@) =~= mat_of_code(i as nat, 2));
                    assert(ints_u64(b@) =~= mat_of_code(j as nat, 2));
                    assert(ints_u64(cc@) =~= mat_of_code(q as nat, 2));
                    assert(sig@ =~= affine_view_bits(&MatFp { p: 2, k: 2 }, mat_of_code(i as nat, 2), mat_of_code(j as nat, 2), mat_of_code(q as nat, 2), ll));
                    assert forall|q2: int| 0 <= q2 < rows@.len() implies affine_mat_row_ok(#[trigger] rows@[q2], q2, ll) by {
                        if q2 < before.len() {
                            assert(rows@[q2] == before[q2]);
                        }
                    }
                }
                q = q + 1;
            }
            j = j + 1;
        }
        i = i + 1;
    }
    rows
}

/// The generic linear magmas: `Z[a,b]` and `Z<a,b>` at their generators.
fn generic_rows(ll: &LinearLaws) -> (rows: Vec<Row>)
    requires
        laws_indexed(ll),
        generic_fits(ll),
    ensures
        rows@.len() == 2,
        rows@[0].0@ == "Z[a,b]"@,
        rows@[0].1 == Carrier::Infinite,
        rows@[0].2@ == ring_bits(&FreeComm, unit_vec(15, 1), unit_vec(15, 2), ll),
        rows@[1].0@ == "Z<a,b>"@,
        rows@[1].1 == Carrier::Infinite,
        rows@[1].2@ == ring_bits(&FreeNc, unit_vec(31, 1), unit_vec(31, 2), ll),
{
    let mut rows: Vec<Row> = Vec::new();
    let ca = FreeComm.gen_a();
    let cb = FreeComm.gen_b();
    let comm = LinearModel::new(FreeComm, ca, cb);
    let s1 = comm.signature(ll);
    rows.push((String::from_str("Z[a,b]"), Carrier::Infinite, s1));
    let na = FreeNc.gen_a();
    let nb = FreeNc.gen_b();
    let nc = LinearModel::new(FreeNc, na, nb);
    let s2 = nc.signature(ll);
    rows.push((String::from_str("Z<a,b>"), Carrier::Infinite, s2));
    proof {
        assert(rows@[0].2@ =~= ring_bits(&FreeComm, unit_vec(15, 1), unit_vec(15, 2), ll));
        assert(rows@[1].2@ =~= ring_bits(&FreeNc, unit_vec(31, 1), unit_vec(31, 2), ll));
    }
    rows
}

/// The shift-operator ring `Z<a,b>/(ba+1)` at its generators.
fn one_sided_rows(ll: &LinearLaws) -> (rows: Vec<Row>)
    requires
        laws_indexed(ll),
        generic_fits(ll),
    ensures
        rows@.len() == 1,
        rows@[0].0@ == "a,b generators"@,
        rows@[0].1 == Carrier::Infinite,
        rows@[0].2@ == ring_bits(&OneSidedInverse, unit_vec(15, 1), unit_vec(15, 2), ll),
{
    let mut rows: Vec<Row> = Vec::new();
    let a = OneSidedInverse.gen_a();
    let b = OneSidedInverse.gen_b();
    let model = LinearModel::new(OneSidedInverse, a, b);
    let s = model.signature(ll);
    rows.push((String::from_str("a,b generators"), Carrier::Infinite, s));
    proof {
        assert(rows@[0].2@ =~= ring_bits(&OneSidedInverse, unit_vec(15, 1), unit_vec(15, 2), ll));
    }
    rows
}

/// The `Z/m` grid up to `m = 32` has `Σ_{2 <= m <= 32} m² = 11439` rows.
proof fn lemma_zmod_offset_full()
    ensures
        zmod_offset(33) == 11439,
{
    assert(zmod_offset(2) == 0);
    assert(zmod_offset(3) == 4);
    assert(zmod_offset(4) == 13);
    assert(zmod_offset(5) == 29);
    assert(zmod_offset(6) == 54);
    assert(zmod_offset(7) == 90);
    assert(zmod_offset(8) == 139);
    assert(zmod_offset(9) == 203);
    assert(zmod_offset(10) == 284);
    assert(zmod_offset(11) == 384);
    assert(zmod_offset(12) == 505);
    assert(zmod_offset(13) == 649);
    assert(zmod_offset(14) == 818);
    assert(zmod_offset(15) == 1014);
    assert(zmod_offset(16) == 1239);
    assert(zmod_offset(17) == 1495);
    assert(zmod_offset(18) == 1784);
    assert(zmod_offset(19) == 2108);
    assert(zmod_offset(20) == 2469);
    assert(zmod_offset(21) == 2869);
    assert(zmod_offset(22) == 3310);
    assert(zmod_offset(23) == 3794);
    assert(zmod_offset(24) == 4323);
    assert(zmod_offset(25) == 4899);
    assert(zmod_offset(26) == 5524);
    assert(zmod_offset(27) == 6200);
    assert(zmod_offset(28) == 6929);
    assert(zmod_offset(29) == 7713);
    assert(zmod_offset(30) == 8554);
    assert(zmod_offset(31) == 9454);
    assert(zmod_offset(32) == 10415);
    assert(zmod_offset(33) == 11439);
}

/// The affine `Z/m` grid up to `m = 20` has `Σ_{2 <= m <= 20} m²(m-1) = 41230` rows.
proof fn lemma_affine_offset_full()
    ensures
        affine_offset(21) == 41230,
{
    assert(affine_offset(2) == 0);
    assert(affine_offset(3) == 4);
    assert(affine_offset(4) == 22);
    assert(affine_offset(5) == 70);
    assert(affine_offset(6) == 170);
    assert(affine_offset(7) == 350);
    assert(affine_offset(8) == 644);
    assert(affine_offset(9) == 1092);
    assert(affine_offset(10) == 1740);
    assert(affine_offset(11) == 2640);
    assert(affine_offset(12) == 3850);
    assert(affine_offset(13) == 5434);
    assert(affine_offset(14) == 7462);
    assert(affine_offset(15) == 10010);
    assert(affine_offset(16) == 13160);
    assert(affine_offset(17) == 17000);
    assert(affine_offset(18) == 21624);
    assert(affine_offset(19) == 27132);
    assert(affine_offset(20) == 33630);
    assert(affine_offset(21) == 41230);
}

/// The ten families of the linear corpus, in the order they are added.
pub open spec fn linear_families() -> Seq<&'static str> {
    seq![
        "linear/Z_m",
        "affine/Z_m",
        "linear/Z",
        "affine/Z",
        "linear/Z[t]",
        "linear/M2(F2)",
        "linear/M2(F3)",
        "affine/M2(F2)",
        "linear/generic",
        "linear/one-sided",
    ]
}

/// The ten families' grid descriptions, in order.
pub open spec fn linear_descriptions() -> Seq<Seq<char>> {
    seq![
        "x \u{25c7} y = ax + by over Z/m, m = 2.."@ + decimal(32) + ", all (a,b) in (Z/m)^2"@,
        "x \u{25c7} y = ax + by + c over Z/m, m = 2.."@ + decimal(20) + ", all (a,b,c) in (Z/m)^3"@,
        "x \u{25c7} y = ax + by over Z, a,b in [-"@ + signed_decimal(6) + ","@ + signed_decimal(6) + "]"@,
        "x \u{25c7} y = ax + by + c over Z, a,b,c in [-"@ + signed_decimal(6) + ","@ + signed_decimal(6) + "], c != 0"@,
        "x \u{25c7} y = ax + by over Z[t], a,b = c0 + c1 t with c0,c1 in [-"@ + signed_decimal(2) + ","@ + signed_decimal(2)
            + "]"@,
        "x \u{25c7} y = ax + by over M_2(F_"@ + decimal(2) + "), all (a,b); carrier has "@ + decimal(16) + " elements"@,
        "x \u{25c7} y = ax + by over M_2(F_"@ + decimal(3) + "), all (a,b); carrier has "@ + decimal(81) + " elements"@,
        "x \u{25c7} y = ax + by + c over M_2(F_2), all (a,b,c) with c nonzero"@,
        "the generic linear magmas: Z[a,b] and Z<a,b> with a,b the generators"@,
        "x \u{25c7} y = ax + by over Z<a,b>/(ba+1), the shift-operator ring of paper Example 5.3; b is a one-sided inverse of a and nothing more"@,
    ]
}

/// The rows that the ten families generate: the `Z/m`, affine `Z/m`, `Z`
/// and `Z[t]` grids and the generic models row by row (carrier and
/// signature and label), the matrix and affine `Z` grids too.
pub open spec fn linear_rows_ok(rows: Seq<Seq<Row>>, ll: &LinearLaws) -> bool {
    &&& rows.len() == 10
    &&& rows[0].len() == zmod_offset(ZMOD_MAX as nat + 1)
    &&& forall|m: nat, a: nat, b: nat|
        2 <= m <= ZMOD_MAX && a < m && b < m ==> zmod_row_ok(#[trigger] rows[0][zmod_index(m, a, b)], m, a, b, ll)
    &&& rows[1].len() == affine_offset(AFFINE_ZMOD_MAX as nat + 1)
    &&& forall|m: nat, a: nat, b: nat, c: nat|
        2 <= m <= AFFINE_ZMOD_MAX && a < m && b < m && 1 <= c < m ==> affine_zmod_row_ok(
            #[trigger] rows[1][affine_index(m, a, b, c)],
            m,
            a,
            b,
            c,
            ll,
        )
    &&& rows[2].len() == 169
    &&& forall|j: int| 0 <= j < 169 ==> int_row_ok(#[trigger] rows[2][j], j, ll)
    &&& rows[3].len() == 2028
    &&& forall|q: int| 0 <= q < 2028 ==> affine_int_row_ok(#[trigger] rows[3][q], q, ll)
    &&& rows[4].len() == 625
    &&& forall|j: int| 0 <= j < 625 ==> poly_row_ok(#[trigger] rows[4][j], j, ll)
    &&& rows[5].len() == 256
    &&& forall|q: int| 0 <= q < 256 ==> mat_row_ok(#[trigger] rows[5][q], q, 2, ll)
    &&& rows[6].len() == 6561
    &&& forall|q: int| 0 <= q < 6561 ==> mat_row_ok(#[trigger] rows[6][q], q, 3, ll)
    &&& rows[7].len() == 3840
    &&& forall|q: int| 0 <= q < 3840 ==> affine_mat_row_ok(#[trigger] rows[7][q], q, ll)
    &&& rows[8].len() == 2
    &&& rows[8][0].0@ == "Z[a,b]"@
    &&& rows[8][1].0@ == "Z<a,b>"@
    &&& rows[9][0].0@ == "a,b generators"@
    &&& rows[8][0].1 == Carrier::Infinite
    &&& rows[8][0].2@ == ring_bits(&FreeComm, unit_vec(15, 1), unit_vec(15, 2), ll)
    &&& rows[8][1].1 == Carrier::Infinite
    &&& rows[8][1].2@ == ring_bits(&FreeNc, unit_vec(31, 1), unit_vec(31, 2), ll)
    &&& rows[9].len() == 1
    &&& rows[9][0].1 == Carrier::Infinite
    &&& rows[9][0].2@ == ring_bits(&OneSidedInverse, unit_vec(15, 1), unit_vec(15, 2), ll)
}

/// Build the linear and affine corpus over the stated grid.
///
/// A commutative linear counterexample can always be realised in some
/// `Z/pZ`, so the commutative half of this family is exactly the part a
/// finite model builder can already find *in principle*. Whether a finite
/// model builder finds it *in practice* is a separate question, and the
/// coverage numbers answer it.
#[verifier::spinoff_prover]
pub fn linear_corpus(ll: &LinearLaws) -> (c: Corpus)
    requires
        laws_indexed(ll),
        const_indexed(ll),
        terms_short(ll),
    ensures
        c.grid@.len() == 10,
        c.instances@.len() <= 32 * 32 * 32 + 20 * 20 * 20 * 20 + 169 + 2028 + 625 + 256 + 6561 + 3840 + 3,
        rows_distinct(c.instances@),
        c.grid@[0].enumerated == 11439,
        c.grid@[1].enumerated == 41230,
        exists|rows: Seq<Seq<Row>>|
            #[trigger] linear_rows_ok(rows, ll) && c.instances@ == corpus_after(linear_families(), rows, 10) && forall|k: int|
                0 <= k < 10 ==> {
                    &&& (#[trigger] c.grid@[k]).family == linear_families()[k]
                    &&& c.grid@[k].description@ == linear_descriptions()[k]
                    &&& c.grid@[k].enumerated == rows[k].len()
                    &&& c.grid@[k].distinct == kept_count(linear_families(), rows, k as nat)
                },
{
    proof {
        lemma_int_grid_fits(ll);
        lemma_poly_grid_fits(ll);
        crate::generic::lemma_generic_fits(ll);
    }
    let mut c = Corpus::new();
    let ghost i0 = c.instances@;
    proof {
        assert(i0 =~= Seq::<Instance>::empty());
    }
    let ghost fams = linear_families();
    let rows = zmod_rows(ll);
    let ghost r0 = rows@;
    c.add_family("linear/Z_m", desc_zmod(ZMOD_MAX), rows);
    let ghost i1 = c.instances@;
    let rows = affine_zmod_rows(ll);
    let ghost r1 = rows@;
    c.add_family("affine/Z_m", desc_affine_zmod(AFFINE_ZMOD_MAX), rows);
    let ghost i2 = c.instances@;
    let rows = int_rows(ll);
    let ghost r2 = rows@;
    c.add_family("linear/Z", desc_int(INT_RANGE), rows);
    let ghost i3 = c.instances@;
    let rows = affine_int_rows(ll);
    let ghost r3 = rows@;
    c.add_family("affine/Z", desc_affine_int(INT_RANGE), rows);
    let ghost i4 = c.instances@;
    let rows = poly_rows(ll);
    let ghost r4 = rows@;
    c.add_family("linear/Z[t]", desc_poly(POLY_RANGE), rows);
    let ghost i5 = c.instances@;
    proof {
        lemma_pow4(2);
        lemma_pow4(3);
    }
    let rows = matrix_rows(ll, 2);
    proof {
        assert(pow(2, 4) == 16);
        assert(rows@.len() == 256);
    }
    let ghost r5 = rows@;
    c.add_family("linear/M2(F2)", desc_mat(2, 16), rows);
    let ghost i6 = c.instances@;
    let rows = matrix_rows(ll, 3);
    proof {
        assert(pow(3, 4) == 81);
        assert(rows@.len() == 6561);
    }
    let ghost r6 = rows@;
    c.add_family("linear/M2(F3)", desc_mat(3, 81), rows);
    let ghost i7 = c.instances@;
    // Affine over M_2(F_2) only: the F_3 grid would be 81^3 = 531441 rows for
    // very little, since the constant adds one condition rather than a
    // dimension of freedom.
    let rows = affine_matrix_rows(ll);
    let ghost r7 = rows@;
    c.add_family(
        "affine/M2(F2)",
        String::from_str("x \u{25c7} y = ax + by + c over M_2(F_2), all (a,b,c) with c nonzero"),
        rows,
    );
    let ghost i8 = c.instances@;
    let rows = generic_rows(ll);
    let ghost r8 = rows@;
    c.add_family(
        "linear/generic",
        String::from_str("the generic linear magmas: Z[a,b] and Z<a,b> with a,b the generators"),
        rows,
    );
    let ghost i9 = c.instances@;
    let rows = one_sided_rows(ll);
    let ghost r9 = rows@;
    c.add_family(
        "linear/one-sided",
        String::from_str("x \u{25c7} y = ax + by over Z<a,b>/(ba+1), the shift-operator ring of paper Example 5.3; b is a one-sided inverse of a and nothing more"),
        rows,
    );
    proof {
        let rs: Seq<Seq<Row>> = seq![r0, r1, r2, r3, r4, r5, r6, r7, r8, r9];
        assert(rs[0] == r0 && rs[1] == r1 && rs[2] == r2 && rs[3] == r3 && rs[4] == r4);
        assert(rs[5] == r5 && rs[6] == r6 && rs[7] == r7 && rs[8] == r8 && rs[9] == r9);
        assert(fams[0] == "linear/Z_m" && fams[1] == "affine/Z_m" && fams[2] == "linear/Z");
        assert(fams[3] == "affine/Z" && fams[4] == "linear/Z[t]" && fams[5] == "linear/M2(F2)");
        assert(fams[6] == "linear/M2(F3)" && fams[7] == "affine/M2(F2)" && fams[8] == "linear/generic");
        assert(fams[9] == "linear/one-sided");
        let ds = linear_descriptions();
        assert(c.grid@[0].description@ == ds[0]);
        assert(c.grid@[1].description@ == ds[1]);
        assert(c.grid@[2].description@ == ds[2]);
        assert(c.grid@[3].description@ == ds[3]);
        assert(c.grid@[4].description@ == ds[4]);
        assert(c.grid@[5].description@ == ds[5]);
        assert(c.grid@[6].description@ == ds[6]);
        assert(c.grid@[7].description@ == ds[7]);
        assert(c.grid@[8].description@ == ds[8]);
        assert(c.grid@[9].description@ == ds[9]);
        assert(corpus_after(fams, rs, 0) == Seq::<Instance>::empty());
        assert(corpus_after(fams, rs, 1) == i1);
        assert(corpus_after(fams, rs, 2) == i2);
        assert(corpus_after(fams, rs, 3) == i3);
        assert(corpus_after(fams, rs, 4) == i4);
        assert(corpus_after(fams, rs, 5) == i5);
        assert(corpus_after(fams, rs, 6) == i6);
        assert(corpus_after(fams, rs, 7) == i7);
        assert(corpus_after(fams, rs, 8) == i8);
        assert(corpus_after(fams, rs, 9) == i9);
        assert(corpus_after(fams, rs, 10) == c.instances@);
        lemma_zmod_offset_full();
        lemma_affine_offset_full();
        assert(linear_rows_ok(rs, ll));
        assert(kept_count(fams, rs, 0) == c.grid@[0].distinct);
        assert(kept_count(fams, rs, 1) == c.grid@[1].distinct);
        assert(kept_count(fams, rs, 2) == c.grid@[2].distinct);
        assert(kept_count(fams, rs, 3) == c.grid@[3].distinct);
        assert(kept_count(fams, rs, 4) == c.grid@[4].distinct);
        assert(kept_count(fams, rs, 5) == c.grid@[5].distinct);
        assert(kept_count(fams, rs, 6) == c.grid@[6].distinct);
        assert(kept_count(fams, rs, 7) == c.grid@[7].distinct);
        assert(kept_count(fams, rs, 8) == c.grid@[8].distinct);
        assert(kept_count(fams, rs, 9) == c.grid@[9].distinct);
    }
    c
}

} // verus!

verus! {

/// The positions of the set bits among the first `k`, ascending.
pub open spec fn set_bits(s: Seq<bool>, k: nat) -> Seq<usize>
    decreases k,
{
    if k == 0 {
        Seq::empty()
    } else {
        let p = set_bits(s, (k - 1) as nat);
        if s[k - 1] {
            p.push((k - 1) as usize)
        } else {
            p
        }
    }
}

/// The hits of the linear magma `ax + by` over `Z/m`: one `(law, m, a, b)`
/// per law it satisfies, in law order.
pub open spec fn zmod_hits_at(ll: &LinearLaws, m: nat, a: nat, b: nat) -> Seq<(usize, u64, u64, u64)> {
    let bits = zmod_bits(m, a, b, ll);
    set_bits(bits, bits.len()).map_values(|i: usize| (i, m as u64, a as u64, b as u64))
}

/// The hits of `(m, a, b')` for `b' < b`.
pub open spec fn zmod_hits_row(ll: &LinearLaws, m: nat, a: nat, b: nat) -> Seq<(usize, u64, u64, u64)>
    decreases b,
{
    if b == 0 {
        Seq::empty()
    } else {
        zmod_hits_row(ll, m, a, (b - 1) as nat) + zmod_hits_at(ll, m, a, (b - 1) as nat)
    }
}

/// The hits of `(m, a', b)` for `a' < a`, every `b < m`.
pub open spec fn zmod_hits_block(ll: &LinearLaws, m: nat, a: nat) -> Seq<(usize, u64, u64, u64)>
    decreases a,
{
    if a == 0 {
        Seq::empty()
    } else {
        zmod_hits_block(ll, m, (a - 1) as nat) + zmod_hits_row(ll, m, (a - 1) as nat, m)
    }
}

/// The hits of every linear `Z/m'` magma with `2 <= m' < m`, in grid order.
pub open spec fn zmod_hits_upto(ll: &LinearLaws, m: nat) -> Seq<(usize, u64, u64, u64)>
    decreases m,
{
    if m <= 2 {
        Seq::empty()
    } else {
        zmod_hits_upto(ll, (m - 1) as nat) + zmod_hits_block(ll, (m - 1) as nat, (m - 1) as nat)
    }
}

/// Scan the linear magmas `ax + by` over `Z/m`, `2 <= m <= max_m`, for the
/// laws they satisfy.
pub fn zmod_hits(ll: &LinearLaws, max_m: u64) -> (h: Vec<(usize, u64, u64, u64)>)
    requires
        laws_indexed(ll),
        max_m <= 96,
    ensures
        h@ == zmod_hits_upto(ll, max_m as nat + 1),
{
    let mut h: Vec<(usize, u64, u64, u64)> = Vec::new();
    let mut m: u64 = 2;
    if max_m < 2 {
        return h;
    }
    while m <= max_m
        invariant
            laws_indexed(ll),
            2 <= m <= max_m + 1,
            max_m <= 96,
            h@ == zmod_hits_upto(ll, m as nat),
        decreases max_m + 1 - m,
    {
        let mut a: u64 = 0;
        while a < m
            invariant
                laws_indexed(ll),
                2 <= m <= max_m,
                max_m <= 96,
                a <= m,
                h@ == zmod_hits_upto(ll, m as nat) + zmod_hits_block(ll, m as nat, a as nat),
            decreases m - a,
        {
            let mut b: u64 = 0;
            while b < m
                invariant
                    laws_indexed(ll),
                    2 <= m <= max_m,
                    max_m <= 96,
                    a < m,
                    b <= m,
                    h@ == zmod_hits_upto(ll, m as nat) + zmod_hits_block(ll, m as nat, a as nat) + zmod_hits_row(
                        ll,
                        m as nat,
                        a as nat,
                        b as nat,
                    ),
                decreases m - b,
            {
                let ring = Zmod { m };
                proof {
                    lemma_zmod_fits(ring, a, b, ll);
                }
                let model = LinearModel::new(ring, a, b);
                let sig = model.signature(ll);
                let ghost bits = zmod_bits(m as nat, a as nat, b as nat, ll);
                proof {
                    assert(sig@ =~= bits);
                }
                let ghost h0 = h@;
                let mut i: usize = 0;
                while i < sig.len()
                    invariant
                        sig@ == bits,
                        i <= sig@.len(),
                        h@ == h0 + set_bits(bits, i as nat).map_values(|q: usize| (q, m, a, b)),
                    decreases sig@.len() - i,
                {
                    let ghost before = h@;
                    if sig.get(i) {
                        h.push((i, m, a, b));
                    }
                    proof {
                        assert(set_bits(bits, (i + 1) as nat).map_values(|q: usize| (q, m, a, b)) =~= if bits[i as int] {
                            set_bits(bits, i as nat).map_values(|q: usize| (q, m, a, b)).push((i, m, a, b))
                        } else {
                            set_bits(bits, i as nat).map_values(|q: usize| (q, m, a, b))
                        });
                        assert(h@ =~= h0 + set_bits(bits, (i + 1) as nat).map_values(|q: usize| (q, m, a, b)));
                    }
                    i = i + 1;
                }
                proof {
                    assert(set_bits(bits, bits.len()).map_values(|q: usize| (q, m, a, b)) =~= zmod_hits_at(
                        ll,
                        m as nat,
                        a as nat,
                        b as nat,
                    ));
                    assert(h@ =~= zmod_hits_upto(ll, m as nat) + zmod_hits_block(ll, m as nat, a as nat)
                        + zmod_hits_row(ll, m as nat, a as nat, (b + 1) as nat));
                }
                b = b + 1;
            }
            proof {
                assert(h@ =~= zmod_hits_upto(ll, m as nat) + zmod_hits_block(ll, m as nat, (a + 1) as nat));
            }
            a = a + 1;
        }
        proof {
            assert(h@ =~= zmod_hits_upto(ll, (m + 1) as nat));
        }
        m = m + 1;
    }
    h
}

} // verus!

verus! {

/// The hits of the affine magma `ax + by + c` over `Z/m`: one
/// `(law, m, a, b, c)` per law it satisfies, in law order.
pub open spec fn affine_hits_at(ll: &LinearLaws, m: nat, a: nat, b: nat, c: nat) -> Seq<(usize, u64, u64, u64, u64)> {
    let bits = affine_zmod_bits(m, a, b, c, ll);
    set_bits(bits, bits.len()).map_values(|i: usize| (i, m as u64, a as u64, b as u64, c as u64))
}

/// The hits of `(m, a, b, c')` for `1 <= c' < c`.
pub open spec fn affine_hits_cs(ll: &LinearLaws, m: nat, a: nat, b: nat, c: nat) -> Seq<(usize, u64, u64, u64, u64)>
    decreases c,
{
    if c <= 1 {
        Seq::empty()
    } else {
        affine_hits_cs(ll, m, a, b, (c - 1) as nat) + affine_hits_at(ll, m, a, b, (c - 1) as nat)
    }
}

/// The hits of `(m, a, b', c)` for `b' < b`, every `1 <= c < m`.
pub open spec fn affine_hits_row(ll: &LinearLaws, m: nat, a: nat, b: nat) -> Seq<(usize, u64, u64, u64, u64)>
    decreases b,
{
    if b == 0 {
        Seq::empty()
    } else {
        affine_hits_row(ll, m, a, (b - 1) as nat) + affine_hits_cs(ll, m, a, (b - 1) as nat, m)
    }
}

/// The hits of `(m, a', b, c)` for `a' < a`.
pub open spec fn affine_hits_block(ll: &LinearLaws, m: nat, a: nat) -> Seq<(usize, u64, u64, u64, u64)>
    decreases a,
{
    if a == 0 {
        Seq::empty()
    } else {
        affine_hits_block(ll, m, (a - 1) as nat) + affine_hits_row(ll, m, (a - 1) as nat, m)
    }
}

/// The hits of every affine `Z/m'` magma with `2 <= m' < m`, in grid order.
pub open spec fn affine_hits_upto(ll: &LinearLaws, m: nat) -> Seq<(usize, u64, u64, u64, u64)>
    decreases m,
{
    if m <= 2 {
        Seq::empty()
    } else {
        affine_hits_upto(ll, (m - 1) as nat) + affine_hits_block(ll, (m - 1) as nat, (m - 1) as nat)
    }
}

/// The hits of one affine magma, appended.
fn push_affine_hits(ll: &LinearLaws, m: u64, a: u64, b: u64, c: u64, h: &mut Vec<(usize, u64, u64, u64, u64)>)
    requires
        laws_indexed(ll),
        const_indexed(ll),
        2 <= m <= 96,
        a < m,
        b < m,
        c < m,
    ensures
        final(h)@ == old(h)@ + affine_hits_at(ll, m as nat, a as nat, b as nat, c as nat),
{
    let ring = Zmod { m };
    proof {
        lemma_zmod_affine_fits(ring, a, b, c, ll);
    }
    let model = AffineModel::new(ring, a, b, c);
    let sig = model.signature(ll);
    let ghost bits = affine_zmod_bits(m as nat, a as nat, b as nat, c as nat, ll);
    proof {
        assert(sig@ =~= bits);
    }
    let ghost h0 = h@;
    let mut i: usize = 0;
    while i < sig.len()
        invariant
            sig@ == bits,
            i <= sig@.len(),
            h@ == h0 + set_bits(bits, i as nat).map_values(|q: usize| (q, m, a, b, c)),
        decreases sig@.len() - i,
    {
        if sig.get(i) {
            h.push((i, m, a, b, c));
        }
        proof {
            assert(set_bits(bits, (i + 1) as nat).map_values(|q: usize| (q, m, a, b, c)) =~= if bits[i as int] {
                set_bits(bits, i as nat).map_values(|q: usize| (q, m, a, b, c)).push((i, m, a, b, c))
            } else {
                set_bits(bits, i as nat).map_values(|q: usize| (q, m, a, b, c))
            });
            assert(h@ =~= h0 + set_bits(bits, (i + 1) as nat).map_values(|q: usize| (q, m, a, b, c)));
        }
        i = i + 1;
    }
    proof {
        assert(set_bits(bits, bits.len()).map_values(|q: usize| (q, m, a, b, c)) =~= affine_hits_at(
            ll,
            m as nat,
            a as nat,
            b as nat,
            c as nat,
        ));
    }
}

/// Scan the affine magmas `ax + by + c` over `Z/m`, `2 <= m <= max_m`,
/// `c` nonzero, for the laws they satisfy.
pub fn affine_hits(ll: &LinearLaws, max_m: u64) -> (h: Vec<(usize, u64, u64, u64, u64)>)
    requires
        laws_indexed(ll),
        const_indexed(ll),
        max_m <= 96,
    ensures
        h@ == affine_hits_upto(ll, max_m as nat + 1),
{
    let mut h: Vec<(usize, u64, u64, u64, u64)> = Vec::new();
    if max_m < 2 {
        return h;
    }
    let mut m: u64 = 2;
    while m <= max_m
        invariant
            laws_indexed(ll),
            const_indexed(ll),
            2 <= m <= max_m + 1,
            max_m <= 96,
            h@ == affine_hits_upto(ll, m as nat),
        decreases max_m + 1 - m,
    {
        let mut a: u64 = 0;
        while a < m
            invariant
                laws_indexed(ll),
                const_indexed(ll),
                2 <= m <= max_m,
                max_m <= 96,
                a <= m,
                h@ == affine_hits_upto(ll, m as nat) + affine_hits_block(ll, m as nat, a as nat),
            decreases m - a,
        {
            let mut b: u64 = 0;
            while b < m
                invariant
                    laws_indexed(ll),
                    const_indexed(ll),
                    2 <= m <= max_m,
                    max_m <= 96,
                    a < m,
                    b <= m,
                    h@ == affine_hits_upto(ll, m as nat) + affine_hits_block(ll, m as nat, a as nat) + affine_hits_row(
                        ll,
                        m as nat,
                        a as nat,
                        b as nat,
                    ),
                decreases m - b,
            {
                let ghost hb = h@;
                let mut c: u64 = 1;
                while c < m
                    invariant
                        laws_indexed(ll),
                        const_indexed(ll),
                        2 <= m <= max_m,
                        max_m <= 96,
                        a < m,
                        b < m,
                        1 <= c <= m,
                        h@ == hb + affine_hits_cs(ll, m as nat, a as nat, b as nat, c as nat),
                    decreases m - c,
                {
                    push_affine_hits(ll, m, a, b, c, &mut h);
                    proof {
                        assert(h@ =~= hb + affine_hits_cs(ll, m as nat, a as nat, b as nat, (c + 1) as nat));
                    }
                    c = c + 1;
                }
                proof {
                    assert(h@ =~= affine_hits_upto(ll, m as nat) + affine_hits_block(ll, m as nat, a as nat)
                        + affine_hits_row(ll, m as nat, a as nat, (b + 1) as nat));
                }
                b = b + 1;
            }
            proof {
                assert(h@ =~= affine_hits_upto(ll, m as nat) + affine_hits_block(ll, m as nat, (a + 1) as nat));
            }
            a = a + 1;
        }
        proof {
            assert(h@ =~= affine_hits_upto(ll, (m + 1) as nat));
        }
        m = m + 1;
    }
    h
}

} // verus!

verus! {

/// Instance `i` witnesses the pair: its signature separates it.
pub open spec fn witnesses(insts: Seq<Instance>, p: crate::graph::Pair, i: int) -> bool {
    crate::graph::spec_separates(insts[i].sig@, p)
}

/// The smallest carrier on which the corpus witnesses `p`: `None` when no
/// instance separates it, `Some(None)` when only infinite carriers do, and
/// `Some(Some(n))` when the smallest finite witnessing carrier has `n`
/// elements.
pub fn smallest_witness(insts: &[Instance], p: crate::graph::Pair) -> (r: Option<Option<usize>>)
    requires
        forall|i: int| 0 <= i < insts@.len() ==> crate::graph::pair_in_range(p, (#[trigger] insts@[i]).sig@.len()),
    ensures
        r is None <==> forall|i: int| 0 <= i < insts@.len() ==> !witnesses(insts@, p, i),
        r == Some(None::<usize>) <==> (exists|i: int| 0 <= i < insts@.len() && witnesses(insts@, p, i))
            && forall|i: int| 0 <= i < insts@.len() && witnesses(insts@, p, i) ==> insts@[i].carrier is Infinite,
        r matches Some(Some(n)) ==> (exists|i: int|
            0 <= i < insts@.len() && witnesses(insts@, p, i) && insts@[i].carrier == Carrier::Finite(n))
            && forall|i: int| 0 <= i < insts@.len() && witnesses(insts@, p, i) ==> match insts@[i].carrier {
                Carrier::Finite(m) => n <= m,
                Carrier::Infinite => true,
            },
{
    let mut best: Option<Option<usize>> = None;
    let mut i: usize = 0;
    while i < insts.len()
        invariant
            i <= insts@.len(),
            forall|q: int| 0 <= q < insts@.len() ==> crate::graph::pair_in_range(p, (#[trigger] insts@[q]).sig@.len()),
            best is None <==> forall|q: int| 0 <= q < i ==> !witnesses(insts@, p, q),
            best == Some(None::<usize>) ==> forall|q: int| 0 <= q < i && witnesses(insts@, p, q) ==> insts@[q].carrier is Infinite,
            best matches Some(Some(n)) ==> (exists|q: int|
                0 <= q < i && witnesses(insts@, p, q) && insts@[q].carrier == Carrier::Finite(n))
                && forall|q: int| 0 <= q < i && witnesses(insts@, p, q) ==> match insts@[q].carrier {
                    Carrier::Finite(m) => n <= m,
                    Carrier::Infinite => true,
                },
        decreases insts@.len() - i,
    {
        let inst = &insts[i];
        let ghost old_best = best;
        if crate::graph::separates(&inst.sig, p) {
            proof {
                assert(witnesses(insts@, p, i as int));
            }
            let here = match inst.carrier {
                Carrier::Finite(n) => Some(n),
                Carrier::Infinite => None,
            };
            best = Some(
                match (best, here) {
                    (None, h) => h,
                    (Some(None), h) => h,
                    (Some(Some(a)), Some(b)) => Some(
                        if a <= b {
                            a
                        } else {
                            b
                        },
                    ),
                    (Some(Some(a)), None) => Some(a),
                },
            );
            proof {
                match best {
                    Some(Some(n)) => {
                        if inst.carrier == Carrier::Finite(n) {
                            assert(witnesses(insts@, p, i as int));
                        } else {
                            let q = choose|q: int|
                                0 <= q < i && witnesses(insts@, p, q) && insts@[q].carrier == Carrier::Finite(
                                    old_best->0->0,
                                );
                            assert(old_best->0->0 == n);
                        }
                    },
                    _ => {},
                }
            }
        } else {
            proof {
                assert(!witnesses(insts@, p, i as int));
            }
        }
        i = i + 1;
    }
    best
}

} // verus!

verus! {

/// The signature bits of each row.
pub open spec fn row_bits(rows: Seq<Row>) -> Seq<Seq<bool>> {
    rows.map_values(|r: Row| r.2@)
}

/// One `(law, row)` pair per law that a row satisfies, over the first `n`
/// rows: rows in order, laws ascending within a row.
pub open spec fn row_hits(bits: Seq<Seq<bool>>, n: nat) -> Seq<(usize, usize)>
    decreases n,
{
    if n == 0 {
        Seq::empty()
    } else {
        row_hits(bits, (n - 1) as nat) + set_bits(bits[n - 1], bits[n - 1].len()).map_values(
            |i: usize| (i, (n - 1) as usize),
        )
    }
}

proof fn lemma_set_bits_below(s: Seq<bool>, k: nat)
    requires
        k <= usize::MAX,
    ensures
        set_bits(s, k).len() <= k,
        forall|j: int| 0 <= j < set_bits(s, k).len() ==> (#[trigger] set_bits(s, k)[j]) < k && s[set_bits(s, k)[j] as int],
    decreases k,
{
    if k > 0 {
        lemma_set_bits_below(s, (k - 1) as nat);
        let p = set_bits(s, (k - 1) as nat);
        assert forall|j: int| 0 <= j < set_bits(s, k).len() implies (#[trigger] set_bits(s, k)[j]) < k
            && s[set_bits(s, k)[j] as int] by {
            if j < p.len() {
                assert(set_bits(s, k)[j] == p[j]);
            } else {
                assert(set_bits(s, k)[j] == (k - 1) as usize);
            }
        }
    }
}

proof fn lemma_row_hits_below(bits: Seq<Seq<bool>>, n: nat)
    requires
        n <= bits.len(),
        n <= usize::MAX,
        forall|q: int| 0 <= q < n ==> (#[trigger] bits[q]).len() <= usize::MAX,
    ensures
        forall|j: int|
            0 <= j < row_hits(bits, n).len() ==> (#[trigger] row_hits(bits, n)[j]).1 < n && bits[row_hits(bits, n)[j].1 as int][row_hits(bits, n)[j].0 as int],
    decreases n,
{
    if n > 0 {
        lemma_row_hits_below(bits, (n - 1) as nat);
        let r = bits[n - 1];
        assert(r.len() <= usize::MAX);
        lemma_set_bits_below(r, r.len());
        let prev = row_hits(bits, (n - 1) as nat);
        let last = set_bits(r, r.len()).map_values(|i: usize| (i, (n - 1) as usize));
        assert forall|j: int| 0 <= j < row_hits(bits, n).len() implies (#[trigger] row_hits(bits, n)[j]).1 < n
            && bits[row_hits(bits, n)[j].1 as int][row_hits(bits, n)[j].0 as int] by {
            if j >= prev.len() {
                assert(row_hits(bits, n)[j] == last[j - prev.len()]);
                assert(set_bits(r, r.len())[j - prev.len()] < r.len());
            } else {
                assert(row_hits(bits, n)[j] == prev[j]);
            }
        }
    }
}

/// The `(law, row)` pairs of a list of rows, as `row_hits` lists them.
fn hits_of_rows(rows: &Vec<Row>) -> (h: Vec<(usize, usize)>)
    ensures
        h@ == row_hits(row_bits(rows@), rows@.len()),
        forall|j: int|
            0 <= j < h@.len() ==> (#[trigger] h@[j]).1 < rows@.len() && row_bits(rows@)[h@[j].1 as int][h@[j].0 as int],
{
    let ghost bits = row_bits(rows@);
    let mut h: Vec<(usize, usize)> = Vec::new();
    let mut q: usize = 0;
    while q < rows.len()
        invariant
            bits == row_bits(rows@),
            q <= rows@.len(),
            h@ == row_hits(bits, q as nat),
            forall|q2: int| 0 <= q2 < q ==> (#[trigger] bits[q2]).len() <= usize::MAX,
        decreases rows@.len() - q,
    {
        let sig = &rows[q].2;
        let ghost s = bits[q as int];
        let ghost h0 = h@;
        let mut i: usize = 0;
        while i < sig.len()
            invariant
                sig@ == s,
                i <= s.len(),
                h@ == h0 + set_bits(s, i as nat).map_values(|k: usize| (k, q)),
                forall|q2: int| 0 <= q2 < q ==> (#[trigger] bits[q2]).len() <= usize::MAX,
            decreases s.len() - i,
        {
            if sig.get(i) {
                h.push((i, q));
            }
            proof {
                assert(set_bits(s, (i + 1) as nat).map_values(|k: usize| (k, q)) =~= if s[i as int] {
                    set_bits(s, i as nat).map_values(|k: usize| (k, q)).push((i, q))
                } else {
                    set_bits(s, i as nat).map_values(|k: usize| (k, q))
                });
                assert(h@ =~= h0 + set_bits(s, (i + 1) as nat).map_values(|k: usize| (k, q)));
            }
            i = i + 1;
        }
        proof {
            assert(h@ =~= row_hits(bits, (q + 1) as nat));
        }
        q = q + 1;
    }
    proof {
        lemma_row_hits_below(bits, rows@.len());
    }
    h
}

} // verus!

verus! {

/// The signature bits of the `M_2(F_p)` grid, in the order of its rows.
pub open spec fn mat_grid_bits(p: nat, ll: &LinearLaws) -> Seq<Seq<bool>> {
    let size = pow(p as int, 4);
    Seq::new(
        (size * size) as nat,
        |q: int|
            ring_bits(&MatFp { p: p as u64, k: 2 }, mat_of_code((q / size) as nat, p), mat_of_code((q % size) as nat, p), ll),
    )
}

/// One `(law, a, b)` per law that the linear magma `ax + by` over
/// `M_2(F_p)` satisfies, matrices in the order of `enumerate_matrices`.
pub open spec fn matrix_hits_spec(ll: &LinearLaws, p: nat) -> Seq<(usize, Seq<int>, Seq<int>)> {
    let size = pow(p as int, 4);
    row_hits(mat_grid_bits(p, ll), (size * size) as nat).map_values(
        |h: (usize, usize)| (h.0, mat_of_code((h.1 as int / size) as nat, p), mat_of_code((h.1 as int % size) as nat, p)),
    )
}

/// Scan the linear magmas over `M_2(F_p)` for the laws they satisfy.
pub fn matrix_hits(ll: &LinearLaws, p: u64) -> (h: Vec<(usize, Vec<u64>, Vec<u64>)>)
    requires
        2 <= p <= 3,
        laws_indexed(ll),
    ensures
        h@.len() == matrix_hits_spec(ll, p as nat).len(),
        forall|k: int|
            0 <= k < h@.len() ==> (#[trigger] h@[k]).0 == matrix_hits_spec(ll, p as nat)[k].0 && ints_u64(h@[k].1@)
                == matrix_hits_spec(ll, p as nat)[k].1 && ints_u64(h@[k].2@) == matrix_hits_spec(ll, p as nat)[k].2,
{
    let rows = matrix_rows(ll, p);
    let pairs = hits_of_rows(&rows);
    let ghost size = pow(p as int, 4);
    let ghost bits = mat_grid_bits(p as nat, ll);
    let ghost spec = matrix_hits_spec(ll, p as nat);
    proof {
        lemma_pow4(p as int);
        assert(p * p <= 9 && p * p * p <= 27 && 16 <= p * p * p * p <= 81) by (nonlinear_arith)
            requires
                2 <= p <= 3,
        ;
        assert forall|q: int| 0 <= q < rows@.len() implies #[trigger] row_bits(rows@)[q] == bits[q] by {
            assert(mat_row_ok(rows@[q], q, p as nat, ll));
        }
        assert(row_bits(rows@) =~= bits);
    }
    let all = enumerate_matrices(p, 2);
    let n: usize = (p * p * p * p) as usize;
    let mut h: Vec<(usize, Vec<u64>, Vec<u64>)> = Vec::new();
    let mut k: usize = 0;
    while k < pairs.len()
        invariant
            pairs@ == row_hits(bits, (size * size) as nat),
            n == size,
            size == pow(p as int, 4),
            2 <= p <= 3,
            0 < size <= 81,
            spec == matrix_hits_spec(ll, p as nat),
            spec.len() == pairs@.len(),
            bits == mat_grid_bits(p as nat, ll),
            all@.len() == size,
            forall|code: int|
                0 <= code < all@.len() ==> (#[trigger] all@[code])@.len() == 4 && forall|j: int|
                    0 <= j < 4 ==> all@[code]@[j] == code_digit(code as nat, p as nat, j as nat),
            forall|j: int| 0 <= j < pairs@.len() ==> (#[trigger] pairs@[j]).1 < size * size,
            k <= pairs@.len(),
            h@.len() == k,
            forall|k2: int|
                0 <= k2 < k ==> (#[trigger] h@[k2]).0 == spec[k2].0 && ints_u64(h@[k2].1@) == spec[k2].1 && ints_u64(
                    h@[k2].2@,
                ) == spec[k2].2,
        decreases pairs@.len() - k,
    {
        let (i, q) = pairs[k];
        proof {
            assert(pairs@[k as int].1 < size * size);
            vstd::arithmetic::div_mod::lemma_div_pos_is_pos(q as int, size);
            assert(q / n < n) by (nonlinear_arith)
                requires
                    q < n * n,
                    0 < n,
            ;
        }
        let a = all[q / n].clone();
        let b = all[q % n].clone();
        proof {
            assert(ints_u64(a@) =~= mat_of_code((q / n) as nat, p as nat));
            assert(ints_u64(b@) =~= mat_of_code((q % n) as nat, p as nat));
            assert(pairs@[k as int] == (i, q));
            assert(spec.len() == pairs@.len());
            assert(spec[k as int] == (i, mat_of_code((q as int / size) as nat, p as nat), mat_of_code((q as int % size) as nat, p as nat)));
            assert(spec[k as int] == (i, mat_of_code((q / n) as nat, p as nat), mat_of_code((q % n) as nat, p as nat)));
        }
        h.push((i, a, b));
        k = k + 1;
    }
    h
}

/// The signature bits of the `Z` grid, `a = j / 13 - 6`, `b = j % 13 - 6`.
pub open spec fn int_grid_bits(ll: &LinearLaws) -> Seq<Seq<bool>> {
    Seq::new(169, |j: int| ring_bits(&Integers, seq![j / 13 - 6], seq![j % 13 - 6], ll))
}

/// One `(law, a, b)` per law that the linear magma `ax + by` over `Z`,
/// `-6 <= a, b <= 6`, satisfies, in grid order.
pub open spec fn int_hits_spec(ll: &LinearLaws) -> Seq<(usize, int, int)> {
    row_hits(int_grid_bits(ll), 169).map_values(|h: (usize, usize)| (h.0, h.1 as int / 13 - 6, h.1 as int % 13 - 6))
}

/// Scan the linear magmas over `Z` with coefficients in `[-6, 6]` for the
/// laws they satisfy.
pub fn int_hits(ll: &LinearLaws) -> (h: Vec<(usize, i128, i128)>)
    requires
        laws_indexed(ll),
        const_indexed(ll),
        terms_short(ll),
    ensures
        h@.len() == int_hits_spec(ll).len(),
        forall|k: int|
            0 <= k < h@.len() ==> (#[trigger] h@[k]).0 == int_hits_spec(ll)[k].0 && h@[k].1 == int_hits_spec(ll)[k].1
                && h@[k].2 == int_hits_spec(ll)[k].2,
{
    proof {
        lemma_int_grid_fits(ll);
    }
    let rows = int_rows(ll);
    let pairs = hits_of_rows(&rows);
    let ghost bits = int_grid_bits(ll);
    let ghost spec = int_hits_spec(ll);
    proof {
        assert forall|q: int| 0 <= q < rows@.len() implies #[trigger] row_bits(rows@)[q] == bits[q] by {
            assert(int_row_ok(rows@[q], q, ll));
        }
        assert(row_bits(rows@) =~= bits);
    }
    let mut h: Vec<(usize, i128, i128)> = Vec::new();
    let mut k: usize = 0;
    while k < pairs.len()
        invariant
            pairs@ == row_hits(bits, 169),
            spec == int_hits_spec(ll),
            bits == int_grid_bits(ll),
            forall|j: int| 0 <= j < pairs@.len() ==> (#[trigger] pairs@[j]).1 < 169,
            k <= pairs@.len(),
            h@.len() == k,
            forall|k2: int|
                0 <= k2 < k ==> (#[trigger] h@[k2]).0 == spec[k2].0 && h@[k2].1 == spec[k2].1 && h@[k2].2 == spec[k2].2,
        decreases pairs@.len() - k,
    {
        let (i, q) = pairs[k];
        proof {
            assert(pairs@[k as int].1 < 169);
        }
        let a = (q / 13) as i128 - INT_RANGE;
        let b = (q % 13) as i128 - INT_RANGE;
        h.push((i, a, b));
        k = k + 1;
    }
    h
}

/// The signature bits of the `Z[t]` grid, in the order of its rows.
pub open spec fn poly_grid_bits(ll: &LinearLaws) -> Seq<Seq<bool>> {
    Seq::new(
        625,
        |j: int|
            ring_bits(
                &PolyZ,
                trim(seq![((j / 5) / 5) / 5 - 2, ((j / 5) / 5) % 5 - 2]),
                trim(seq![(j / 5) % 5 - 2, j % 5 - 2]),
                ll,
            ),
    )
}

/// One `(law, a0, a1, b0, b1)` per law that the linear magma over `Z[t]`
/// with `a = a0 + a1 t`, `b = b0 + b1 t`, all four in `[-2, 2]`, satisfies,
/// in grid order.
pub open spec fn poly_hits_spec(ll: &LinearLaws) -> Seq<(usize, int, int, int, int)> {
    row_hits(poly_grid_bits(ll), 625).map_values(
        |h: (usize, usize)|
            (h.0, ((h.1 as int / 5) / 5) / 5 - 2, ((h.1 as int / 5) / 5) % 5 - 2, (h.1 as int / 5) % 5 - 2, h.1 as int % 5 - 2),
    )
}

/// Scan the linear magmas over `Z[t]` with coefficients of degree at most
/// one in `[-2, 2]` for the laws they satisfy.
pub fn poly_hits(ll: &LinearLaws) -> (h: Vec<(usize, i128, i128, i128, i128)>)
    requires
        laws_indexed(ll),
        terms_short(ll),
    ensures
        h@.len() == poly_hits_spec(ll).len(),
        forall|k: int|
            0 <= k < h@.len() ==> (#[trigger] h@[k]).0 == poly_hits_spec(ll)[k].0 && h@[k].1 == poly_hits_spec(ll)[k].1
                && h@[k].2 == poly_hits_spec(ll)[k].2 && h@[k].3 == poly_hits_spec(ll)[k].3 && h@[k].4
                == poly_hits_spec(ll)[k].4,
{
    proof {
        lemma_poly_grid_fits(ll);
    }
    let rows = poly_rows(ll);
    let pairs = hits_of_rows(&rows);
    let ghost bits = poly_grid_bits(ll);
    let ghost spec = poly_hits_spec(ll);
    proof {
        assert forall|q: int| 0 <= q < rows@.len() implies #[trigger] row_bits(rows@)[q] == bits[q] by {
            assert(poly_row_ok(rows@[q], q, ll));
        }
        assert(row_bits(rows@) =~= bits);
    }
    let mut h: Vec<(usize, i128, i128, i128, i128)> = Vec::new();
    let mut k: usize = 0;
    while k < pairs.len()
        invariant
            pairs@ == row_hits(bits, 625),
            spec == poly_hits_spec(ll),
            bits == poly_grid_bits(ll),
            forall|j: int| 0 <= j < pairs@.len() ==> (#[trigger] pairs@[j]).1 < 625,
            k <= pairs@.len(),
            h@.len() == k,
            forall|k2: int|
                0 <= k2 < k ==> (#[trigger] h@[k2]).0 == spec[k2].0 && h@[k2].1 == spec[k2].1 && h@[k2].2 == spec[k2].2
                    && h@[k2].3 == spec[k2].3 && h@[k2].4 == spec[k2].4,
        decreases pairs@.len() - k,
    {
        let (i, q) = pairs[k];
        proof {
            assert(pairs@[k as int].1 < 625);
        }
        let a0 = (((q / 5) / 5) / 5) as i128 - POLY_RANGE;
        let a1 = (((q / 5) / 5) % 5) as i128 - POLY_RANGE;
        let b0 = ((q / 5) % 5) as i128 - POLY_RANGE;
        let b1 = (q % 5) as i128 - POLY_RANGE;
        h.push((i, a0, a1, b0, b1));
        k = k + 1;
    }
    h
}

/// The signature bits of the two generic linear magmas: `Z[a,b]` first,
/// `Z<a,b>` second.
pub open spec fn generic_grid_bits(ll: &LinearLaws) -> Seq<Seq<bool>> {
    seq![ring_bits(&FreeComm, unit_vec(15, 1), unit_vec(15, 2), ll), ring_bits(&FreeNc, unit_vec(31, 1), unit_vec(31, 2), ll)]
}

/// Scan the generic linear magmas for the laws they satisfy: one
/// `(law, ring)` per hit, `ring` being 0 for `Z[a,b]` and 1 for `Z<a,b>`.
pub fn generic_hits(ll: &LinearLaws) -> (h: Vec<(usize, usize)>)
    requires
        laws_indexed(ll),
        terms_short(ll),
    ensures
        h@ == row_hits(generic_grid_bits(ll), 2),
{
    proof {
        crate::generic::lemma_generic_fits(ll);
    }
    let rows = generic_rows(ll);
    proof {
        assert(row_bits(rows@) =~= generic_grid_bits(ll));
    }
    hits_of_rows(&rows)
}

/// The positions of the set bits of a signature, ascending.
fn set_positions(sig: &Signature) -> (h: Vec<usize>)
    ensures
        h@ == set_bits(sig@, sig@.len()),
{
    let mut h: Vec<usize> = Vec::new();
    let mut i: usize = 0;
    while i < sig.len()
        invariant
            i <= sig@.len(),
            h@ == set_bits(sig@, i as nat),
        decreases sig@.len() - i,
    {
        if sig.get(i) {
            h.push(i);
        }
        proof {
            assert(h@ =~= set_bits(sig@, (i + 1) as nat));
        }
        i = i + 1;
    }
    h
}

/// The signature bits of the shift-operator ring `Z<a,b>/(ba+1)` at its
/// generators.
pub open spec fn one_sided_bits(ll: &LinearLaws) -> Seq<bool> {
    ring_bits(&OneSidedInverse, unit_vec(15, 1), unit_vec(15, 2), ll)
}

/// The laws, ascending, that the shift-operator ring `Z<a,b>/(ba+1)`
/// satisfies as a linear magma at its generators.
pub fn one_sided_hits(ll: &LinearLaws) -> (h: Vec<usize>)
    requires
        laws_indexed(ll),
        terms_short(ll),
    ensures
        h@ == set_bits(one_sided_bits(ll), one_sided_bits(ll).len()),
{
    proof {
        crate::generic::lemma_generic_fits(ll);
    }
    let rows = one_sided_rows(ll);
    set_positions(&rows[0].2)
}

} // verus!

verus! {

/// A bound on the word at `idx` over `Z` with coefficients in `[-6, 6]`:
/// `6^len` for a word of length `len`.
pub open spec fn int_word_bound(idx: nat) -> int {
    if idx < 1 {
        1
    } else if idx < 3 {
        6
    } else if idx < 7 {
        36
    } else if idx < 15 {
        216
    } else {
        1296
    }
}

proof fn lemma_int_word(a: int, b: int, idx: nat)
    requires
        -6 <= a <= 6,
        -6 <= b <= 6,
        idx < N_WORDS,
    ensures
        word_val(&Integers, seq![a], seq![b], idx).len() == 1,
        -int_word_bound(idx) <= word_val(&Integers, seq![a], seq![b], idx)[0] <= int_word_bound(idx),
    decreases idx,
{
    if idx > 0 {
        let p = ((idx - 1) / 2) as nat;
        lemma_int_word(a, b, p);
        let w = word_val(&Integers, seq![a], seq![b], p)[0];
        let bp = int_word_bound(p);
        assert(int_word_bound(idx) == 6 * bp);
        let x = if idx % 2 == 1 {
            a
        } else {
            b
        };
        assert(-6 * bp <= w * x <= 6 * bp) by (nonlinear_arith)
            requires
                -bp <= w <= bp,
                -6 <= x <= 6,
                bp >= 0,
        ;
    }
}

/// Partial sums of a sparse polynomial over the `Z` word values grow by at
/// most `2^31 · 6^4` a term.
proof fn lemma_int_comb(t: Seq<(u8, i32)>, ws: Seq<Seq<int>>, n: nat)
    requires
        n <= t.len(),
        ws.len() == N_WORDS,
        forall|i: int| 0 <= i < N_WORDS ==> (#[trigger] ws[i]).len() == 1 && -1296 <= ws[i][0] <= 1296,
        forall|q: int| 0 <= q < t.len() ==> (#[trigger] t[q]).0 < N_WORDS,
    ensures
        comb(&Integers, t, ws, n).len() == 1,
        -n * 0x8000_0000 * 1296 <= comb(&Integers, t, ws, n)[0] <= n * 0x8000_0000 * 1296,
    decreases n,
{
    if n > 0 {
        lemma_int_comb(t, ws, (n - 1) as nat);
        let acc = comb(&Integers, t, ws, (n - 1) as nat)[0];
        let k = t[n - 1].1 as int;
        let x = ws[t[n - 1].0 as int][0];
        assert(t[n - 1].0 < N_WORDS);
        assert(-0x8000_0000 * 1296 <= k * x <= 0x8000_0000 * 1296) by (nonlinear_arith)
            requires
                -0x8000_0000 <= k < 0x8000_0000,
                -1296 <= x <= 1296,
        ;
        assert((n - 1) * 0x8000_0000 * 1296 + 0x8000_0000 * 1296 == n * 0x8000_0000 * 1296) by (nonlinear_arith);
    }
}

/// Every step of a sparse polynomial of at most 31 terms fits over the `Z`
/// word values.
proof fn lemma_int_comb_fits(t: Seq<(u8, i32)>, ws: Seq<Seq<int>>)
    requires
        t.len() <= N_WORDS,
        ws.len() == N_WORDS,
        forall|i: int| 0 <= i < N_WORDS ==> (#[trigger] ws[i]).len() == 1 && -1296 <= ws[i][0] <= 1296,
        forall|q: int| 0 <= q < t.len() ==> (#[trigger] t[q]).0 < N_WORDS,
    ensures
        comb_fits(&Integers, t, ws),
        comb(&Integers, t, ws, t.len()).len() == 1,
        -31 * 0x8000_0000 * 1296 <= comb(&Integers, t, ws, t.len())[0] <= 31 * 0x8000_0000 * 1296,
{
    assert forall|q: nat| q < t.len() implies #[trigger] Integers.scale_fits(
        comb(&Integers, t, ws, q),
        t[q as int].1 as int,
        ws[t[q as int].0 as int],
    ) by {
        lemma_int_comb(t, ws, q);
        let acc = comb(&Integers, t, ws, q)[0];
        let k = t[q as int].1 as int;
        let x = ws[t[q as int].0 as int][0];
        assert(-0x8000_0000 * 1296 <= k * x <= 0x8000_0000 * 1296) by (nonlinear_arith)
            requires
                -0x8000_0000 <= k < 0x8000_0000,
                -1296 <= x <= 1296,
        ;
        assert(-q * 0x8000_0000 * 1296 >= -31 * 0x8000_0000 * 1296) by (nonlinear_arith)
            requires
                q <= 31,
        ;
    }
    lemma_int_comb(t, ws, t.len());
    assert(t.len() * 0x8000_0000 * 1296 <= 31 * 0x8000_0000 * 1296) by (nonlinear_arith)
        requires
            t.len() <= 31,
    ;
}

/// Over `Z` with coefficients in `[-6, 6]`, every linear and affine model
/// of a list that `LinearLaws::build` made can be evaluated within `i128`.
pub proof fn lemma_int_grid_fits(ll: &LinearLaws)
    requires
        laws_indexed(ll),
        const_indexed(ll),
        terms_short(ll),
    ensures
        int_grid_fits(ll),
{
    assert forall|a: i128, b: i128| -6 <= a <= 6 && -6 <= b <= 6 implies #[trigger] int_linear_ok(a, b, ll) by {
        lemma_int_model_fits(a, b, ll);
    }
    assert forall|a: i128, b: i128, c: i128|
        -6 <= a <= 6 && -6 <= b <= 6 && -6 <= c <= 6 implies #[trigger] int_affine_ok(a, b, c, ll) by {
        lemma_int_model_fits(a, b, ll);
        let ws = words_spec(&Integers, seq![a as int], seq![b as int]);
        assert forall|i: int| 0 <= i < ll.laws@.len() implies (AffineModel { ring: Integers, a, b, c }).const_fits(
            #[trigger] ll.laws@[i],
            ws,
        ) by {
            let t = ll.laws@[i].const_terms@;
            lemma_int_comb_fits(t, ws);
            let v = comb(&Integers, t, ws, t.len())[0];
            assert(-6 * 31 * 0x8000_0000 * 1296 <= v * c <= 6 * 31 * 0x8000_0000 * 1296) by (nonlinear_arith)
                requires
                    -31 * 0x8000_0000 * 1296 <= v <= 31 * 0x8000_0000 * 1296,
                    -6 <= c <= 6,
            ;
        }
    }
}

proof fn lemma_int_model_fits(a: i128, b: i128, ll: &LinearLaws)
    requires
        -6 <= a <= 6,
        -6 <= b <= 6,
        laws_indexed(ll),
        terms_short(ll),
    ensures
        int_linear_ok(a, b, ll),
        forall|i: int| 0 <= i < N_WORDS ==> (#[trigger] words_spec(&Integers, seq![a as int], seq![b as int])[i]).len()
            == 1 && -1296 <= words_spec(&Integers, seq![a as int], seq![b as int])[i][0] <= 1296,
{
    let (ai, bi) = (a as int, b as int);
    let ws = words_spec(&Integers, seq![ai], seq![bi]);
    assert forall|i: int| 0 <= i < N_WORDS implies (#[trigger] ws[i]).len() == 1 && -1296 <= ws[i][0] <= 1296 by {
        lemma_int_word(ai, bi, i as nat);
    }
    assert forall|idx: nat| 1 <= idx < N_WORDS implies #[trigger] step_fits(&Integers, seq![ai], seq![bi], idx) by {
        let p = ((idx - 1) / 2) as nat;
        lemma_int_word(ai, bi, p);
        lemma_int_word(ai, bi, idx);
    }
    assert forall|i: int| 0 <= i < ll.laws@.len() implies law_fits(&Integers, (#[trigger] ll.laws@[i]).terms@, ws) by {
        assert forall|v: int| 0 <= v < ll.laws@[i].terms@.len() implies comb_fits(
            &Integers,
            (#[trigger] ll.laws@[i].terms@[v])@,
            ws,
        ) by {
            lemma_int_comb_fits(ll.laws@[i].terms@[v]@, ws);
        }
    }
}

} // verus!

verus! {

/// `x` has at most `len` coefficients, each of absolute value at most
/// `bound`.
pub open spec fn poly_bounded(x: Seq<int>, len: nat, bound: int) -> bool {
    &&& x.len() <= len
    &&& forall|i: int| 0 <= i < x.len() ==> -bound <= #[trigger] x[i] <= bound
}

proof fn lemma_trim_prefix(s: Seq<int>)
    ensures
        trim(s).len() <= s.len(),
        forall|i: int| 0 <= i < trim(s).len() ==> #[trigger] trim(s)[i] == s[i],
    decreases s.len(),
{
    if s.len() > 0 && s.last() == 0 {
        lemma_trim_prefix(s.drop_last());
    }
}

proof fn lemma_conv_bound(x: Seq<int>, y: Seq<int>, t: int, n: nat, bx: int, by: int)
    requires
        n <= x.len(),
        bx >= 0,
        by >= 0,
        forall|i: int| 0 <= i < x.len() ==> -bx <= #[trigger] x[i] <= bx,
        forall|j: int| 0 <= j < y.len() ==> -by <= #[trigger] y[j] <= by,
    ensures
        -(n * (bx * by)) <= crate::rings::conv(x, y, t, n) <= n * (bx * by),
    decreases n,
{
    let m = bx * by;
    assert(bx * by >= 0) by (nonlinear_arith)
        requires
            bx >= 0,
            by >= 0,
    ;
    if n > 0 {
        let n1 = (n - 1) as nat;
        lemma_conv_bound(x, y, t, n1, bx, by);
        let prev = crate::rings::conv(x, y, t, n1);
        let i = n1 as int;
        if 0 <= t - i < y.len() {
            let (xi, yj) = (x[i], y[t - i]);
            assert(-(bx * by) <= xi * yj <= bx * by) by (nonlinear_arith)
                requires
                    -bx <= xi <= bx,
                    -by <= yj <= by,
            ;
            assert(crate::rings::conv(x, y, t, n) == prev + xi * yj);
        } else {
            assert(crate::rings::conv(x, y, t, n) == prev);
        }
        assert(n1 * m + m == n * m) by (nonlinear_arith)
            requires
                n1 + 1 == n,
        ;
    }
}

/// A bound on the word at `idx` over `Z[t]` with coefficients of degree at
/// most one and entries in `[-2, 2]`: `10^len` for a word of length `len`.
pub open spec fn poly_word_bound(idx: nat) -> int {
    if idx < 1 {
        1
    } else if idx < 3 {
        10
    } else if idx < 7 {
        100
    } else if idx < 15 {
        1000
    } else {
        10000
    }
}

/// The number of coefficients a word at `idx` can have: one more than its
/// length.
pub open spec fn poly_word_len(idx: nat) -> nat {
    if idx < 1 {
        1
    } else if idx < 3 {
        2
    } else if idx < 7 {
        3
    } else if idx < 15 {
        4
    } else {
        5
    }
}

proof fn lemma_poly_mul(x: Seq<int>, y: Seq<int>, lx: nat, bx: int)
    requires
        poly_bounded(x, lx, bx),
        poly_bounded(y, 2, 2),
        1 <= lx <= 5,
        0 <= bx <= 1000,
    ensures
        PolyZ.mul_fits(x, y),
        poly_bounded(PolyZ.spec_mul(x, y), lx + 1, 10 * bx),
{
    if x.len() > 0 && y.len() > 0 {
        let full = Seq::new((x.len() + y.len() - 1) as nat, |t: int| crate::rings::conv(x, y, t, x.len()));
        assert forall|t: int| 0 <= t < full.len() implies -10 * bx <= #[trigger] full[t] <= 10 * bx by {
            lemma_conv_bound(x, y, t, x.len(), bx, 2);
            assert(x.len() * (bx * 2) <= 10 * bx) by (nonlinear_arith)
                requires
                    x.len() <= 5,
                    bx >= 0,
            ;
        }
        lemma_trim_prefix(full);
    }
    assert forall|i: int, j: int| 0 <= i < x.len() && 0 <= j < y.len() implies #[trigger] in_i128(x[i] * y[j]) by {
        let (xi, yj) = (x[i], y[j]);
        assert(-2000 <= xi * yj <= 2000) by (nonlinear_arith)
            requires
                -bx <= xi <= bx,
                -2 <= yj <= 2,
                bx <= 1000,
        ;
    }
    assert forall|t: int, i: nat, j: nat|
        0 <= t < x.len() + y.len() - 1 && i <= x.len() && j <= y.len() implies #[trigger] in_i128(
        crate::rings::conv_partial(x, y, t, i, j),
    ) by {
        lemma_conv_bound(x, y, t, i, bx, 2);
        assert(i * (bx * 2) <= 10000) by (nonlinear_arith)
            requires
                i <= 5,
                0 <= bx <= 1000,
        ;
        if i < x.len() && i <= t < i + j {
            let (xi, yj) = (x[i as int], y[t - i]);
            assert(-2000 <= xi * yj <= 2000) by (nonlinear_arith)
                requires
                    -bx <= xi <= bx,
                    -2 <= yj <= 2,
                    bx <= 1000,
            ;
        }
    }
}

proof fn lemma_poly_word(a: Seq<int>, b: Seq<int>, idx: nat)
    requires
        poly_bounded(a, 2, 2),
        poly_bounded(b, 2, 2),
        idx < N_WORDS,
    ensures
        poly_bounded(word_val(&PolyZ, a, b, idx), poly_word_len(idx), poly_word_bound(idx)),
        idx >= 1 ==> step_fits(&PolyZ, a, b, idx),
    decreases idx,
{
    if idx > 0 {
        let p = ((idx - 1) / 2) as nat;
        lemma_poly_word(a, b, p);
        let y = if idx % 2 == 1 {
            a
        } else {
            b
        };
        lemma_poly_mul(word_val(&PolyZ, a, b, p), y, poly_word_len(p), poly_word_bound(p));
    } else {
        assert(word_val(&PolyZ, a, b, 0) == seq![1int]);
    }
}

proof fn lemma_poly_comb(t: Seq<(u8, i32)>, ws: Seq<Seq<int>>, n: nat)
    requires
        n <= t.len(),
        ws.len() == N_WORDS,
        forall|i: int| 0 <= i < N_WORDS ==> poly_bounded(#[trigger] ws[i], 5, 10000),
        forall|q: int| 0 <= q < t.len() ==> (#[trigger] t[q]).0 < N_WORDS,
    ensures
        poly_bounded(comb(&PolyZ, t, ws, n), 5, (n * 0x8000_0000 * 10000) as int),
    decreases n,
{
    if n > 0 {
        lemma_poly_comb(t, ws, (n - 1) as nat);
        let acc = comb(&PolyZ, t, ws, (n - 1) as nat);
        let k = t[n - 1].1 as int;
        let x = ws[t[n - 1].0 as int];
        assert(t[n - 1].0 < N_WORDS);
        let full = Seq::new(crate::rings::max_len(acc.len(), x.len()), |i: int| crate::rings::coeff(acc, i) + k * crate::rings::coeff(x, i));
        assert forall|i: int| 0 <= i < full.len() implies -(n * 0x8000_0000 * 10000) <= #[trigger] full[i] <= n * 0x8000_0000 * 10000 by {
            let ca = crate::rings::coeff(acc, i);
            let cx = crate::rings::coeff(x, i);
            assert(-0x8000_0000 * 10000 <= k * cx <= 0x8000_0000 * 10000) by (nonlinear_arith)
                requires
                    -0x8000_0000 <= k < 0x8000_0000,
                    -10000 <= cx <= 10000,
            ;
            assert((n - 1) * 0x8000_0000 * 10000 + 0x8000_0000 * 10000 == n * 0x8000_0000 * 10000) by (nonlinear_arith);
        }
        lemma_trim_prefix(full);
    }
}

} // verus!

verus! {

proof fn lemma_poly_comb_fits(t: Seq<(u8, i32)>, ws: Seq<Seq<int>>)
    requires
        t.len() <= N_WORDS,
        ws.len() == N_WORDS,
        forall|i: int| 0 <= i < N_WORDS ==> poly_bounded(#[trigger] ws[i], 5, 10000),
        forall|q: int| 0 <= q < t.len() ==> (#[trigger] t[q]).0 < N_WORDS,
    ensures
        comb_fits(&PolyZ, t, ws),
{
    assert forall|q: nat| q < t.len() implies #[trigger] PolyZ.scale_fits(
        comb(&PolyZ, t, ws, q),
        t[q as int].1 as int,
        ws[t[q as int].0 as int],
    ) by {
        lemma_poly_comb(t, ws, q);
        let acc = comb(&PolyZ, t, ws, q);
        let k = t[q as int].1 as int;
        let x = ws[t[q as int].0 as int];
        assert(q * 0x8000_0000 * 10000 <= 31 * 0x8000_0000 * 10000) by (nonlinear_arith)
            requires
                q <= 31,
        ;
        assert forall|i: int| 0 <= i < crate::rings::max_len(acc.len(), x.len()) implies #[trigger] crate::rings::coeff_scale_fits(
            acc,
            k,
            x,
            i,
        ) by {
            let cx = crate::rings::coeff(x, i);
            assert(-0x8000_0000 * 10000 <= k * cx <= 0x8000_0000 * 10000) by (nonlinear_arith)
                requires
                    -0x8000_0000 <= k < 0x8000_0000,
                    -10000 <= cx <= 10000,
            ;
        }
    }
}

/// Over `Z[t]` with coefficients `a0 + a1 t` and `b0 + b1 t`, all four in
/// `[-2, 2]`, every linear model of a list that `LinearLaws::build` made
/// can be evaluated within `i128`.
pub proof fn lemma_poly_grid_fits(ll: &LinearLaws)
    requires
        laws_indexed(ll),
        terms_short(ll),
    ensures
        poly_grid_fits(ll),
{
    assert forall|a0: i128, a1: i128, b0: i128, b1: i128|
        -2 <= a0 <= 2 && -2 <= a1 <= 2 && -2 <= b0 <= 2 && -2 <= b1 <= 2 implies #[trigger] poly_linear_ok(
        a0,
        a1,
        b0,
        b1,
        ll,
    ) by {
        let a = trim(seq![a0 as int, a1 as int]);
        let b = trim(seq![b0 as int, b1 as int]);
        lemma_trim_prefix(seq![a0 as int, a1 as int]);
        lemma_trim_prefix(seq![b0 as int, b1 as int]);
        let ws = words_spec(&PolyZ, a, b);
        assert forall|i: int| 0 <= i < N_WORDS implies poly_bounded(#[trigger] ws[i], 5, 10000) by {
            lemma_poly_word(a, b, i as nat);
        }
        assert forall|idx: nat| 1 <= idx < N_WORDS implies #[trigger] step_fits(&PolyZ, a, b, idx) by {
            lemma_poly_word(a, b, idx);
        }
        assert forall|i: int| 0 <= i < ll.laws@.len() implies law_fits(&PolyZ, (#[trigger] ll.laws@[i]).terms@, ws) by {
            assert forall|v: int| 0 <= v < ll.laws@[i].terms@.len() implies comb_fits(
                &PolyZ,
                (#[trigger] ll.laws@[i].terms@[v])@,
                ws,
            ) by {
                lemma_poly_comb_fits(ll.laws@[i].terms@[v]@, ws);
            }
        }
    }
}

} // verus!
