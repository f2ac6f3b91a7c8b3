//! Coverage: which separations each construction instance discharges.
//!
//! The matrix has one row per instance and one column per target separation.

use crate::corpus::Corpus;
use crate::dag::strictly_increasing;
use crate::graph::{pair_in_range, separates, spec_separates, ImplicationGraph, Pair};
use crate::sig::{
    count_true, lemma_count_true_bound, lemma_count_true_push, unpack_words, word_bit, Signature,
};
use vstd::prelude::*;

verus! {

pub struct CoverageMatrix {
    pub targets: Vec<Pair>,
    /// `rows[i]` lists the target indices instance `i` discharges. Rows that
    /// discharge nothing are kept so that row numbering matches the corpus.
    pub rows: Vec<Vec<u32>>,
}

/// `row` lists, ascending, exactly the targets that `sig` separates.
pub open spec fn row_of(row: Seq<u32>, sig: Seq<bool>, targets: Seq<Pair>) -> bool {
    &&& strictly_increasing(row)
    &&& forall|q: int|
        0 <= q < row.len() ==> #[trigger] row[q] < targets.len() && spec_separates(
            sig,
            targets[row[q] as int],
        )
    &&& forall|k: int|
        0 <= k < targets.len() && spec_separates(sig, targets[k]) ==> row.contains(k as u32)
}

/// The rows as sequences.
pub open spec fn rows_view(rows: Seq<Vec<u32>>) -> Seq<Seq<u32>> {
    rows.map_values(|r: Vec<u32>| r@)
}

/// Some row lists target `k`.
pub open spec fn in_some_row(rows: Seq<Seq<u32>>, k: u32) -> bool {
    exists|i: int| 0 <= i < rows.len() && (#[trigger] rows[i]).contains(k)
}

/// Every row entry indexes a target.
pub open spec fn rows_in_range(rows: Seq<Seq<u32>>, n: nat) -> bool {
    forall|i: int, q: int| 0 <= i < rows.len() && 0 <= q < rows[i].len() ==> #[trigger] rows[i][q] < n
}

/// How many entries of `row`, counted with repetition, are still remaining.
pub open spec fn gain(row: Seq<u32>, rem: Seq<bool>) -> nat
    decreases row.len(),
{
    if row.len() == 0 {
        0
    } else {
        gain(row.drop_last(), rem) + if rem[row.last() as int] {
            1nat
        } else {
            0nat
        }
    }
}

/// Among the first `i` rows, the last one of greatest gain, with its gain:
/// `Iterator::max_by_key` returns the last maximum.
pub open spec fn best_row(rows: Seq<Seq<u32>>, rem: Seq<bool>, i: nat) -> (nat, nat)
    decreases i,
{
    if i <= 1 {
        (0, gain(rows[0], rem))
    } else {
        let (b, g) = best_row(rows, rem, (i - 1) as nat);
        let gi = gain(rows[i - 1], rem);
        if gi >= g {
            ((i - 1) as nat, gi)
        } else {
            (b, g)
        }
    }
}

/// `rem` with every target of `row` taken out.
pub open spec fn remove_row(rem: Seq<bool>, row: Seq<u32>) -> Seq<bool> {
    Seq::new(rem.len(), |k: int| rem[k] && !row.contains(k as u32))
}

/// Greedy set cover from the remaining targets `rem`: repeatedly take the
/// last row of greatest gain, until nothing remains or nothing is gained.
pub open spec fn greedy(rows: Seq<Seq<u32>>, rem: Seq<bool>) -> Seq<(nat, nat)>
    decreases count_true(rem),
{
    if count_true(rem) == 0 || rows.len() == 0 {
        Seq::empty()
    } else {
        let (b, g) = best_row(rows, rem, rows.len());
        if g == 0 {
            Seq::empty()
        } else {
            if decreases_by_removal(rows, rem, b as int) {
                seq![(b, g)] + greedy(rows, remove_row(rem, rows[b as int]))
            } else {
                Seq::empty()
            }
        }
    }
}

/// Taking out a row of positive gain leaves strictly fewer targets.
pub open spec fn decreases_by_removal(rows: Seq<Seq<u32>>, rem: Seq<bool>, b: int) -> bool {
    count_true(remove_row(rem, rows[b])) < count_true(rem)
}

/// The targets some row lists.
pub open spec fn covered_targets(rows: Seq<Seq<u32>>, n: nat) -> Seq<bool> {
    Seq::new(n, |k: int| in_some_row(rows, k as u32))
}

} // verus!

verus! {

proof fn lemma_gain_le(row: Seq<u32>, rem: Seq<bool>)
    ensures
        gain(row, rem) <= row.len(),
    decreases row.len(),
{
    if row.len() > 0 {
        lemma_gain_le(row.drop_last(), rem);
    }
}

proof fn lemma_gain_pos(row: Seq<u32>, rem: Seq<bool>, q: int)
    requires
        0 <= q < row.len(),
        rem[row[q] as int],
    ensures
        gain(row, rem) >= 1,
    decreases row.len(),
{
    if q < row.len() - 1 {
        lemma_gain_pos(row.drop_last(), rem, q);
    }
}

proof fn lemma_gain_zero(row: Seq<u32>, rem: Seq<bool>, q: int)
    requires
        gain(row, rem) == 0,
        0 <= q < row.len(),
    ensures
        !rem[row[q] as int],
    decreases row.len(),
{
    if q < row.len() - 1 {
        lemma_gain_zero(row.drop_last(), rem, q);
    }
}

proof fn lemma_best_row(rows: Seq<Seq<u32>>, rem: Seq<bool>, i: nat)
    requires
        1 <= i <= rows.len(),
    ensures
        best_row(rows, rem, i).0 < i,
        best_row(rows, rem, i).1 == gain(rows[best_row(rows, rem, i).0 as int], rem),
        forall|j: int| 0 <= j < i ==> gain(#[trigger] rows[j], rem) <= best_row(rows, rem, i).1,
    decreases i,
{
    if i > 1 {
        lemma_best_row(rows, rem, (i - 1) as nat);
    }
}

/// Counting `true`s is monotone, and strictly so where a `true` is lost.
proof fn lemma_count_true_sub(a: Seq<bool>, b: Seq<bool>)
    requires
        a.len() == b.len(),
        forall|k: int| 0 <= k < a.len() && a[k] ==> b[k],
    ensures
        count_true(a) <= count_true(b),
        (exists|k: int| 0 <= k < a.len() && b[k] && !a[k]) ==> count_true(a) < count_true(b),
    decreases a.len(),
{
    if a.len() > 0 {
        lemma_count_true_sub(a.drop_last(), b.drop_last());
        if exists|k: int| 0 <= k < a.len() && b[k] && !a[k] {
            let k = choose|k: int| 0 <= k < a.len() && b[k] && !a[k];
            if k < a.len() - 1 {
                assert(a.drop_last()[k] == a[k] && b.drop_last()[k] == b[k]);
            }
        }
    }
}

proof fn lemma_removal_decreases(rows: Seq<Seq<u32>>, rem: Seq<bool>, b: int)
    requires
        0 <= b < rows.len(),
        gain(rows[b], rem) > 0,
        forall|q: int| 0 <= q < rows[b].len() ==> #[trigger] rows[b][q] < rem.len(),
    ensures
        decreases_by_removal(rows, rem, b),
{
    let row = rows[b];
    if forall|q: int| 0 <= q < row.len() ==> !rem[#[trigger] row[q] as int] {
        lemma_gain_no_rem(row, rem);
    }
    let q = choose|q: int| 0 <= q < row.len() && rem[#[trigger] row[q] as int];
    let k = row[q] as int;
    assert(row.contains(k as u32));
    lemma_count_true_sub(remove_row(rem, row), rem);
}

proof fn lemma_gain_no_rem(row: Seq<u32>, rem: Seq<bool>)
    requires
        forall|q: int| 0 <= q < row.len() ==> !rem[#[trigger] row[q] as int],
    ensures
        gain(row, rem) == 0,
    decreases row.len(),
{
    if row.len() > 0 {
        assert forall|q: int| 0 <= q < row.drop_last().len() implies !rem[
            #[trigger] row.drop_last()[q] as int] by {
            assert(row.drop_last()[q] == row[q]);
        }
        lemma_gain_no_rem(row.drop_last(), rem);
    }
}

/// Number of entries of `row` still remaining, counted with repetition.
fn row_gain(row: &Vec<u32>, remaining: &Vec<bool>) -> (g: usize)
    requires
        forall|q: int| 0 <= q < row@.len() ==> #[trigger] row@[q] < remaining@.len(),
    ensures
        g == gain(row@, remaining@),
{
    let mut g: usize = 0;
    let mut q: usize = 0;
    while q < row.len()
        invariant
            q <= row@.len(),
            forall|j: int| 0 <= j < row@.len() ==> #[trigger] row@[j] < remaining@.len(),
            g == gain(row@.take(q as int), remaining@),
            g <= q,
        decreases row@.len() - q,
    {
        proof {
            assert(row@.take(q + 1).drop_last() =~= row@.take(q as int));
        }
        if remaining[row[q] as usize] {
            g = g + 1;
        }
        q = q + 1;
    }
    proof {
        assert(row@.take(q as int) =~= row@);
    }
    g
}

impl CoverageMatrix {
    /// One row per instance: the targets its signature separates.
    pub fn build(corpus: &Corpus, targets: &[Pair]) -> (m: CoverageMatrix)
        requires
            targets@.len() <= u32::MAX,
            forall|i: int, k: int|
                0 <= i < corpus.instances@.len() && 0 <= k < targets@.len() ==> pair_in_range(
                    #[trigger] targets@[k],
                    (#[trigger] corpus.instances@[i]).sig@.len(),
                ),
        ensures
            m.targets@ == targets@,
            m.rows@.len() == corpus.instances@.len(),
            forall|i: int|
                0 <= i < m.rows@.len() ==> row_of(
                    (#[trigger] m.rows@[i])@,
                    corpus.instances@[i].sig@,
                    targets@,
                ),
    {
        let mut rows: Vec<Vec<u32>> = Vec::new();
        let mut i: usize = 0;
        while i < corpus.instances.len()
            invariant
                i <= corpus.instances@.len(),
                targets@.len() <= u32::MAX,
                forall|i: int, k: int|
                    0 <= i < corpus.instances@.len() && 0 <= k < targets@.len() ==> pair_in_range(
                        #[trigger] targets@[k],
                        (#[trigger] corpus.instances@[i]).sig@.len(),
                    ),
                rows@.len() == i,
                forall|j: int|
                    0 <= j < i ==> row_of(
                        (#[trigger] rows@[j])@,
                        corpus.instances@[j].sig@,
                        targets@,
                    ),
            decreases corpus.instances@.len() - i,
        {
            let sig = &corpus.instances[i].sig;
            let mut row: Vec<u32> = Vec::new();
            let mut k: usize = 0;
            while k < targets.len()
                invariant
                    i < corpus.instances@.len(),
                    sig == corpus.instances@[i as int].sig,
                    targets@.len() <= u32::MAX,
                    forall|k: int|
                        0 <= k < targets@.len() ==> pair_in_range(
                            #[trigger] targets@[k],
                            sig@.len(),
                        ),
                    k <= targets@.len(),
                    strictly_increasing(row@),
                    forall|q: int|
                        0 <= q < row@.len() ==> #[trigger] row@[q] < k && spec_separates(
                            sig@,
                            targets@[row@[q] as int],
                        ),
                    forall|j: int|
                        0 <= j < k && spec_separates(sig@, targets@[j]) ==> row@.contains(
                            j as u32,
                        ),
                decreases targets@.len() - k,
            {
                if separates(sig, targets[k]) {
                    let ghost before = row@;
                    row.push(k as u32);
                    proof {
                        assert forall|j: int|
                            0 <= j < k + 1 && spec_separates(sig@, targets@[j]) implies row@.contains(
                                j as u32,
                            ) by {
                            if j < k {
                                let q = choose|q: int| 0 <= q < before.len() && before[q] == j as u32;
                                assert(row@[q] == j as u32);
                            } else {
                                assert(row@[row@.len() - 1] == j as u32);
                            }
                        }
                    }
                }
                k = k + 1;
            }
            rows.push(row);
            i = i + 1;
        }
        CoverageMatrix { targets: vstd::slice::slice_to_vec(targets), rows }
    }

    /// Target indices discharged by at least one instance, ascending.
    pub fn covered(&self) -> (r: Vec<u32>)
        requires
            self.targets@.len() <= u32::MAX,
            rows_in_range(rows_view(self.rows@), self.targets@.len()),
        ensures
            strictly_increasing(r@),
            forall|q: int| 0 <= q < r@.len() ==> #[trigger] r@[q] < self.targets@.len(),
            forall|k: int|
                0 <= k < self.targets@.len() ==> (r@.contains(k as u32) <==> #[trigger] in_some_row(
                    rows_view(self.rows@),
                    k as u32,
                )),
    {
        let nt = self.targets.len();
        let hit = self.mark_covered();
        let mut out: Vec<u32> = Vec::new();
        let mut k: usize = 0;
        while k < nt
            invariant
                nt == self.targets@.len(),
                nt <= u32::MAX,
                hit@ == covered_targets(rows_view(self.rows@), nt as nat),
                k <= nt,
                strictly_increasing(out@),
                forall|q: int| 0 <= q < out@.len() ==> #[trigger] out@[q] < k && hit@[out@[q] as int],
                forall|j: int| 0 <= j < k && hit@[j] ==> out@.contains(j as u32),
            decreases nt - k,
        {
            if hit[k] {
                let ghost before = out@;
                out.push(k as u32);
                proof {
                    assert forall|j: int| 0 <= j < k + 1 && hit@[j] implies out@.contains(j as u32) by {
                        if j < k {
                            let q = choose|q: int| 0 <= q < before.len() && before[q] == j as u32;
                            assert(out@[q] == j as u32);
                        } else {
                            assert(out@[out@.len() - 1] == j as u32);
                        }
                    }
                }
            }
            k = k + 1;
        }
        proof {
            assert forall|k: int| 0 <= k < nt implies (out@.contains(k as u32) <==> #[trigger] in_some_row(
                rows_view(self.rows@),
                k as u32,
            )) by {
                assert(hit@[k] == in_some_row(rows_view(self.rows@), k as u32));
                if out@.contains(k as u32) {
                    let q = choose|q: int| 0 <= q < out@.len() && out@[q] == k as u32;
                    assert(hit@[out@[q] as int]);
                }
            }
        }
        out
    }


    /// Greedy set cover over the covered targets. Returns the chosen rows in
    /// selection order with the number of newly covered targets each brought.
    ///
    /// This is an upper bound on the size of a smallest cover, within a
    /// factor of `ln(n)`. It is not a minimum.
    pub fn greedy_cover(&self) -> (chosen: Vec<(usize, usize)>)
        requires
            self.targets@.len() <= u32::MAX,
            rows_in_range(rows_view(self.rows@), self.targets@.len()),
        ensures
            chosen@.len() == greedy(
                rows_view(self.rows@),
                covered_targets(rows_view(self.rows@), self.targets@.len() as nat),
            ).len(),
            forall|j: int|
                0 <= j < chosen@.len() ==> (#[trigger] chosen@[j]).0 == greedy(
                    rows_view(self.rows@),
                    covered_targets(rows_view(self.rows@), self.targets@.len() as nat),
                )[j].0 && chosen@[j].1 == greedy(
                    rows_view(self.rows@),
                    covered_targets(rows_view(self.rows@), self.targets@.len() as nat),
                )[j].1,
            forall|k: int|
                0 <= k < self.targets@.len() && #[trigger] in_some_row(rows_view(self.rows@), k as u32)
                    ==> exists|j: int|
                    0 <= j < chosen@.len() && rows_view(self.rows@)[(#[trigger] chosen@[j]).0 as int].contains(k as u32),
    {
        let ghost rv = rows_view(self.rows@);
        let ghost nt = self.targets@.len();
        let ghost full = greedy(rv, covered_targets(rv, nt as nat));
        let mut remaining = self.mark_covered();
        let mut left: usize = 0;
        let mut k: usize = 0;
        proof {
            assert(remaining@.take(0) =~= Seq::<bool>::empty());
        }
        while k < remaining.len()
            invariant
                k <= remaining@.len(),
                left == count_true(remaining@.take(k as int)),
                left <= k,
            decreases remaining@.len() - k,
        {
            proof {
                assert(remaining@.take(k + 1) =~= remaining@.take(k as int).push(remaining@[k as int]));
                lemma_count_true_push(remaining@.take(k as int), remaining@[k as int]);
            }
            if remaining[k] {
                left = left + 1;
            }
            k = k + 1;
        }
        proof {
            assert(remaining@.take(k as int) =~= remaining@);
        }
        let mut chosen: Vec<(usize, usize)> = Vec::new();
        while left > 0
            invariant
                rv == rows_view(self.rows@),
                nt == self.targets@.len(),
                nt <= u32::MAX,
                rows_in_range(rv, nt as nat),
                full == greedy(rv, covered_targets(rv, nt as nat)),
                remaining@.len() == nt,
                left == count_true(remaining@),
                forall|k: int| 0 <= k < nt && #[trigger] remaining@[k] ==> in_some_row(rv, k as u32),
                full == chosen@.map_values(|c: (usize, usize)| (c.0 as nat, c.1 as nat)) + greedy(rv, remaining@),
                forall|j: int| 0 <= j < chosen@.len() ==> (#[trigger] chosen@[j]).0 < rv.len(),
                forall|k: int|
                    0 <= k < nt && #[trigger] in_some_row(rv, k as u32) ==> remaining@[k] || exists|j: int|
                        0 <= j < chosen@.len() && rv[(#[trigger] chosen@[j]).0 as int].contains(k as u32),
            ensures
                left == 0,
                remaining@.len() == nt,
                left == count_true(remaining@),
                full == chosen@.map_values(|c: (usize, usize)| (c.0 as nat, c.1 as nat)) + greedy(rv, remaining@),
                forall|k: int|
                    0 <= k < nt && #[trigger] in_some_row(rv, k as u32) ==> remaining@[k] || exists|j: int|
                        0 <= j < chosen@.len() && rv[(#[trigger] chosen@[j]).0 as int].contains(k as u32),
            decreases left,
        {
            let ghost rem0 = remaining@;
            proof {
                // Some target remains, and it lies in some row.
                let k = choose|k: int| 0 <= k < rem0.len() && rem0[k];
                if !(exists|k: int| 0 <= k < rem0.len() && rem0[k]) {
                    assert forall|k: int| 0 <= k < rem0.len() implies !rem0[k] by {}
                    crate::sig::lemma_count_true_all_false(rem0);
                }
                let k = choose|k: int| 0 <= k < rem0.len() && rem0[k];
                assert(in_some_row(rv, k as u32));
            }
            let nrows = self.rows.len();
            let mut best: usize = 0;
            proof {
                assert(self.rows@[0]@ == rv[0]);
            }
            let mut best_gain = row_gain(&self.rows[0], &remaining);
            let mut i: usize = 1;
            while i < nrows
                invariant
                    nrows == self.rows@.len(),
                    rv == rows_view(self.rows@),
                    rows_in_range(rv, nt as nat),
                    remaining@.len() == nt,
                    1 <= i <= nrows,
                    (best as nat, best_gain as nat) == best_row(rv, remaining@, i as nat),
                decreases nrows - i,
            {
                proof {
                    assert(self.rows@[i as int]@ == rv[i as int]);
                }
                let g = row_gain(&self.rows[i], &remaining);
                if g >= best_gain {
                    best = i;
                    best_gain = g;
                }
                i = i + 1;
            }
            proof {
                lemma_best_row(rv, remaining@, nrows as nat);
            }
            if best_gain == 0 {
                proof {
                    assert(greedy(rv, remaining@) =~= Seq::<(nat, nat)>::empty());
                    let k = choose|k: int| 0 <= k < rem0.len() && rem0[k];
                    let i = choose|i: int| 0 <= i < rv.len() && (#[trigger] rv[i]).contains(k as u32);
                    let q = choose|q: int| 0 <= q < rv[i].len() && rv[i][q] == k as u32;
                    lemma_gain_pos(rv[i], rem0, q);
                    assert(false);
                }
                break;
            }
            let row = &self.rows[best];
            proof {
                assert(row@ == rv[best as int]);
                lemma_removal_decreases(rv, rem0, best as int);
            }
            let mut q: usize = 0;
            while q < row.len()
                invariant
                    row@ == rv[best as int],
                    forall|j: int| 0 <= j < row@.len() ==> #[trigger] row@[j] < nt,
                    q <= row@.len(),
                    nt <= u32::MAX,
                    remaining@.len() == nt,
                    remaining@ == Seq::new(nt as nat, |k: int| rem0[k] && !row@.take(q as int).contains(k as u32)),
                    left == count_true(remaining@),
                    rem0.len() == nt,
                decreases row@.len() - q,
            {
                let k = row[q] as usize;
                let ghost before = remaining@;
                if remaining[k] {
                    proof {
                        crate::sig::lemma_count_true_clear(remaining@, k as int);
                        lemma_count_true_bound(remaining@);
                    }
                    remaining.set(k, false);
                    left = left - 1;
                }
                proof {
                    assert forall|k2: int| 0 <= k2 < nt implies remaining@[k2] == (rem0[k2] && !row@.take(q + 1).contains(k2 as u32)) by {
                        assert(row@.take(q + 1) =~= row@.take(q as int).push(row@[q as int]));
                        if row@.take(q as int).contains(k2 as u32) {
                            let w = choose|w: int| 0 <= w < q && #[trigger] row@.take(q as int)[w] == k2 as u32;
                            assert(row@.take(q + 1)[w] == k2 as u32);
                        }
                        if row@.take(q + 1).contains(k2 as u32) && !row@.take(q as int).contains(k2 as u32) {
                            let w = choose|w: int| 0 <= w < q + 1 && #[trigger] row@.take(q + 1)[w] == k2 as u32;
                            if w < q {
                                assert(row@.take(q as int)[w] == k2 as u32);
                            }
                        }
                        if k2 == k {
                            assert(row@.take(q + 1)[q as int] == k2 as u32);
                        }
                    }
                    assert(remaining@ =~= Seq::new(nt as nat, |k2: int| rem0[k2] && !row@.take(q + 1).contains(k2 as u32)));
                }
                q = q + 1;
            }
            proof {
                assert(row@.take(q as int) =~= row@);
                assert(remaining@ =~= remove_row(rem0, rv[best as int]));
            }
            let ghost c0 = chosen@;
            chosen.push((best, best_gain));
            proof {
                assert(greedy(rv, rem0) == seq![(best as nat, best_gain as nat)] + greedy(rv, remaining@));
                assert(chosen@.map_values(|c: (usize, usize)| (c.0 as nat, c.1 as nat)) =~= c0.map_values(|c: (usize, usize)| (c.0 as nat, c.1 as nat)).push((best as nat, best_gain as nat)));
                assert(full =~= chosen@.map_values(|c: (usize, usize)| (c.0 as nat, c.1 as nat)) + greedy(rv, remaining@));
                assert forall|k: int|
                    0 <= k < nt && #[trigger] in_some_row(rv, k as u32) implies remaining@[k] || exists|j: int|
                        0 <= j < chosen@.len() && rv[(#[trigger] chosen@[j]).0 as int].contains(k as u32) by {
                    if !remaining@[k] {
                        if rem0[k] {
                            assert(rv[best as int].contains(k as u32));
                            assert(chosen@[c0.len() as int].0 == best);
                        } else {
                            let j = choose|j: int| 0 <= j < c0.len() && rv[(#[trigger] c0[j]).0 as int].contains(k as u32);
                            assert(chosen@[j] == c0[j]);
                        }
                    }
                }
            }
        }
        proof {
            assert forall|k: int| 0 <= k < nt implies !remaining@[k] by {
                if remaining@[k] {
                    if left == 0 {
                        crate::sig::lemma_count_true_zero(remaining@, k);
                    }
                }
            }
            if left == 0 {
                assert(count_true(remaining@) == 0);
                assert(greedy(rv, remaining@) =~= Seq::<(nat, nat)>::empty());
            }
            assert(full =~= chosen@.map_values(|c: (usize, usize)| (c.0 as nat, c.1 as nat)) + greedy(rv, remaining@));
        }
        chosen
    }

    /// Flags the targets some row lists.
    fn mark_covered(&self) -> (hit: Vec<bool>)
        requires
            self.targets@.len() <= u32::MAX,
            rows_in_range(rows_view(self.rows@), self.targets@.len()),
        ensures
            hit@ == covered_targets(rows_view(self.rows@), self.targets@.len() as nat),
    {
        let ghost rv = rows_view(self.rows@);
        let nt = self.targets.len();
        let mut hit = vec![false; nt];
        let mut i: usize = 0;
        while i < self.rows.len()
            invariant
                nt == self.targets@.len(),
                nt <= u32::MAX,
                rv == rows_view(self.rows@),
                rows_in_range(rv, nt as nat),
                i <= self.rows@.len(),
                hit@.len() == nt,
                forall|k: int| 0 <= k < nt ==> hit@[k] == exists|j: int| 0 <= j < i && (#[trigger] rv[j]).contains(k as u32),
            decreases self.rows@.len() - i,
        {
            let r = &self.rows[i];
            assert(r@ == rv[i as int]);
            let mut q: usize = 0;
            while q < r.len()
                invariant
                    nt == self.targets@.len(),
                    nt <= u32::MAX,
                    rv == rows_view(self.rows@),
                    rows_in_range(rv, nt as nat),
                    i < self.rows@.len(),
                    r@ == rv[i as int],
                    q <= r@.len(),
                    hit@.len() == nt,
                    forall|k: int| 0 <= k < nt ==> hit@[k] == ((exists|j: int| 0 <= j < i && (#[trigger] rv[j]).contains(k as u32)) || r@.take(q as int).contains(k as u32)),
                decreases r@.len() - q,
            {
                let k = r[q] as usize;
                assert(rv[i as int][q as int] < nt);
                hit.set(k, true);
                proof {
                    assert forall|k2: int| 0 <= k2 < nt implies hit@[k2] == ((exists|j: int| 0 <= j < i && (#[trigger] rv[j]).contains(k2 as u32)) || r@.take(q + 1).contains(k2 as u32)) by {
                        assert(r@.take(q + 1) =~= r@.take(q as int).push(r@[q as int]));
                        if r@.take(q + 1).contains(k2 as u32) && !r@.take(q as int).contains(k2 as u32) {
                            let w = choose|w: int| 0 <= w < q + 1 && #[trigger] r@.take(q + 1)[w] == k2 as u32;
                            if w < q {
                                assert(r@.take(q as int)[w] == k2 as u32);
                            }
                        }
                        if r@.take(q as int).contains(k2 as u32) {
                            let w = choose|w: int| 0 <= w < q && #[trigger] r@.take(q as int)[w] == k2 as u32;
                            assert(r@.take(q + 1)[w] == k2 as u32);
                        }
                        if k2 == k {
                            assert(r@.take(q + 1)[q as int] == k2 as u32);
                        }
                    }
                }
                q = q + 1;
            }
            proof {
                assert(r@.take(q as int) =~= r@);
                assert forall|k: int| 0 <= k < nt implies hit@[k] == exists|j: int| 0 <= j < i + 1 && (#[trigger] rv[j]).contains(k as u32) by {
                    if rv[i as int].contains(k as u32) {
                        assert(0 <= i < i + 1);
                    }
                    if exists|j: int| 0 <= j < i + 1 && (#[trigger] rv[j]).contains(k as u32) {
                        let j = choose|j: int| 0 <= j < i + 1 && (#[trigger] rv[j]).contains(k as u32);
                        if j < i {
                            assert(0 <= j < i && rv[j].contains(k as u32));
                        }
                    }
                }
            }
            i = i + 1;
        }
        proof {
            assert(hit@ =~= covered_targets(rv, nt as nat));
        }
        hit
    }
}

} // verus!

verus! {

/// Union coverage over the whole implication graph: which of the false
/// implications a corpus discharges, accumulated as a bit matrix with one
/// row of 64-bit words per law.
pub struct GraphCoverage {
    n: usize,
    row_words: usize,
    bits: Vec<u64>,
}

/// Words per row of an `n`-wide bit matrix.
pub open spec fn row_words_for(n: nat) -> nat {
    (n + 63) / 64
}

proof fn lemma_not_bit(w: u64, j: u64)
    requires
        j < 64,
    ensures
        word_bit(!w, j as int) == !word_bit(w, j as int),
{
    assert(((!w) >> j) & 1u64 == 1u64 <==> !((w >> j) & 1u64 == 1u64)) by (bit_vector)
        requires
            j < 64,
    ;
}

proof fn lemma_mask_bit(w: u64, lb: u64, j: u64)
    requires
        0 < lb < 64,
        j < 64,
    ensures
        word_bit(w & (((1u64 << lb) - 1) as u64), j as int) == (j < lb && word_bit(w, j as int)),
{
    assert(((w & (((1u64 << lb) - 1) as u64)) >> j) & 1u64 == 1u64 <==> (j < lb && (w >> j) & 1u64 == 1u64))
        by (bit_vector)
        requires
            0 < lb < 64,
            j < 64,
    ;
}

proof fn lemma_or_bit(a: u64, b: u64, j: u64)
    requires
        j < 64,
    ensures
        word_bit(a | b, j as int) == (word_bit(a, j as int) || word_bit(b, j as int)),
{
    assert(((a | b) >> j) & 1u64 == 1u64 <==> ((a >> j) & 1u64 == 1u64 || (b >> j) & 1u64 == 1u64))
        by (bit_vector)
        requires
            j < 64,
    ;
}

impl GraphCoverage {
    #[verifier::type_invariant]
    spec fn inv(self) -> bool {
        &&& self.row_words == row_words_for(self.n as nat)
        &&& self.bits@.len() == self.n * self.row_words
    }

    /// Number of laws.
    pub closed spec fn size(&self) -> nat {
        self.n as nat
    }

    /// The packed words, row by row.
    pub closed spec fn spec_bits(&self) -> Seq<u64> {
        self.bits@
    }

    /// The pair `(E_(i+1), E_(j+1))` is recorded as discharged. Columns past
    /// the last law are padding.
    pub closed spec fn covers(&self, i: int, j: int) -> bool {
        word_bit(self.bits@[i * row_words_for(self.n as nat) + j / 64], j % 64)
    }

    /// What `covers` reads: bit `j % 64` of word `i * row_words_for(size) + j / 64`
    /// of the packed words that `bits()` returns.
    pub proof fn lemma_covers_bits(&self, i: int, j: int)
        ensures
            self.covers(i, j) == word_bit(self.spec_bits()[i * row_words_for(self.size()) + j / 64], j % 64),
    {
    }

    /// An empty accumulator over `n` laws.
    pub fn new(n: usize) -> (g: GraphCoverage)
        requires
            n * row_words_for(n as nat) <= usize::MAX,
        ensures
            g.size() == n,
            g.spec_bits().len() == n * row_words_for(n as nat),
            forall|k: int| 0 <= k < g.spec_bits().len() ==> g.spec_bits()[k] == 0u64,
    {
        let row_words = n / 64 + if n % 64 == 0 {
            0
        } else {
            1
        };
        GraphCoverage { n, row_words, bits: vec![0u64; n * row_words] }
    }

    /// Fold in one signature: it discharges `E_i ⊧ E_j` for every satisfied
    /// `i` and refuted `j`, so each satisfied row takes the complement of
    /// the signature, word at a time.
    pub fn add(&mut self, sig: &Signature)
        requires
            sig@.len() == old(self).size(),
        ensures
            final(self).size() == old(self).size(),
            final(self).spec_bits().len() == old(self).spec_bits().len(),
            forall|i: int, j: int|
                0 <= i < old(self).size() && 0 <= j < row_words_for(old(self).size()) * 64
                    ==> #[trigger] final(self).covers(i, j) == (old(self).covers(i, j) || (j
                    < sig@.len() && sig@[i] && !sig@[j])),
    {
        proof {
            use_type_invariant(&*self);
        }
        let mut tmp = GraphCoverage { n: 0, row_words: 0, bits: Vec::new() };
        std::mem::swap(self, &mut tmp);
        let GraphCoverage { n, row_words, mut bits } = tmp;
        let w = sig.words();
        let last_bits = n % 64;
        let rw = row_words;
        let set = sig.iter_set();
        let ghost b0 = bits@;
        let blen = bits.len();
        let mut s: usize = 0;
        while s < set.len()
            invariant
                blen == bits@.len(),
                rw == row_words_for(n as nat),
                bits@.len() == n * rw,
                b0.len() == n * rw,
                last_bits == n % 64,
                w@.len() == rw,
                sig@.len() == n,
                forall|q: int| 0 <= q < set@.len() ==> #[trigger] set@[q] < n && sig@[set@[q] as int],
                forall|q1: int, q2: int| 0 <= q1 < q2 < set@.len() ==> set@[q1] < set@[q2],
                s <= set@.len(),
                forall|q: int|
                    0 <= q < n * rw ==> #[trigger] bits@[q] == if set@.take(s as int).contains(
                        (q / (rw as int)) as usize,
                    ) {
                        b0[q] | complement_word(w@, q % (rw as int), rw as int, last_bits as u64)
                    } else {
                        b0[q]
                    },
            decreases set@.len() - s,
        {
            let i = set[s];
            proof {
                assert(i * rw <= n * rw) by (nonlinear_arith)
                    requires
                        i <= n,
                ;
            }
            let base = i * rw;
            proof {
                assert((i + 1) * rw <= n * rw) by (nonlinear_arith)
                    requires
                        i + 1 <= n,
                ;
                assert((i + 1) * rw == i * rw + rw) by (nonlinear_arith);
            }
            let ghost bs = bits@;
            let mut k: usize = 0;
            while k < rw
                invariant
                    blen == bits@.len(),
                    rw == row_words_for(n as nat),
                    bits@.len() == n * rw,
                    bs.len() == n * rw,
                    last_bits == n % 64,
                    w@.len() == rw,
                    base == i * rw,
                    base + rw <= n * rw,
                    k <= rw,
                    forall|q: int|
                        0 <= q < n * rw ==> #[trigger] bits@[q] == if base <= q < base + k {
                            bs[q] | complement_word(w@, q - base, rw as int, last_bits as u64)
                        } else {
                            bs[q]
                        },
                decreases rw - k,
            {
                let word = w[k];
                let mut c = !word;
                if k == rw - 1 && last_bits != 0 {
                    proof {
                        let lb = last_bits as u64;
                        assert(lb < 64 ==> (1u64 << lb) >= 1) by (bit_vector);
                    }
                    c = c & ((1u64 << (last_bits as u64)) - 1);
                }
                let nv = bits[base + k] | c;
                bits.set(base + k, nv);
                k = k + 1;
            }
            proof {
                assert forall|q: int| 0 <= q < n * rw implies #[trigger] bits@[q] == if set@.take(
                    s + 1,
                ).contains((q / (rw as int)) as usize) {
                    b0[q] | complement_word(w@, q % (rw as int), rw as int, last_bits as u64)
                } else {
                    b0[q]
                } by {
                    let r = q / (rw as int);
                    vstd::arithmetic::div_mod::lemma_fundamental_div_mod(q, rw as int);
                    vstd::arithmetic::div_mod::lemma_mod_bound(q, rw as int);
                    if base <= q < base + rw {
                        vstd::arithmetic::div_mod::lemma_fundamental_div_mod_converse(
                            q,
                            rw as int,
                            i as int,
                            q - base,
                        );
                    } else {
                        if r == i {
                            assert(q == rw * r + q % (rw as int));
                            assert(rw * r == i * rw) by (nonlinear_arith)
                                requires
                                    r == i,
                            ;
                            assert(false);
                        }
                    }
                    assert(set@.take(s + 1) =~= set@.take(s as int).push(i));
                    assert(set@.take(s + 1).contains(i)) by {
                        assert(set@.take(s + 1)[s as int] == i);
                    }
                    if r == i {
                        // Row `i` appears once.
                        if set@.take(s as int).contains(i) {
                            let t = choose|t: int| 0 <= t < s && #[trigger] set@.take(s as int)[t] == i;
                            assert(set@[t] < set@[s as int]);
                        }
                        assert(base <= q < base + rw);
                        assert(q % (rw as int) == q - base);
                        assert(bs[q] == b0[q]);
                        assert((q / (rw as int)) as usize == i);
                    } else {
                        if set@.take(s + 1).contains(r as usize) {
                            let t = choose|t: int| 0 <= t < s + 1 && #[trigger] set@.take(s + 1)[t] == r as usize;
                            assert(t < s);
                            assert(set@.take(s as int)[t] == r as usize);
                        }
                        if set@.take(s as int).contains(r as usize) {
                            let t = choose|t: int| 0 <= t < s && #[trigger] set@.take(s as int)[t] == r as usize;
                            assert(set@.take(s + 1)[t] == r as usize);
                        }
                    }
                }
            }
            s = s + 1;
        }
        proof {
            assert(set@.take(s as int) =~= set@);
            assert forall|i: int, j: int|
                0 <= i < n && 0 <= j < rw * 64 implies #[trigger] word_bit(bits@[i * rw + j / 64], j % 64)
                    == (word_bit(b0[i * rw + j / 64], j % 64) || (j < sig@.len() && sig@[i] && !sig@[j])) by {
                let k = j / 64;
                let jj = j % 64;
                let q = i * rw + k;
                assert(q < n * rw) by (nonlinear_arith)
                    requires
                        i < n,
                        k < rw,
                        q == i * rw + k,
                ;
                vstd::arithmetic::div_mod::lemma_fundamental_div_mod_converse(q, rw as int, i, k);
                if sig@[i] {
                    assert(set@.contains(i as usize));
                    lemma_or_bit(b0[q], complement_word(w@, k, rw as int, last_bits as u64), jj as u64);
                    lemma_complement_bit(w@, k, rw as int, n as int, jj, sig@);
                } else {
                    if set@.contains(i as usize) {
                        let t = choose|t: int| 0 <= t < set@.len() && set@[t] == i as usize;
                        assert(sig@[set@[t] as int]);
                    }
                }
            }
        }
        *self = GraphCoverage { n, row_words, bits };
    }

    /// Consume the accumulator, for merging partial results across threads.
    pub fn into_bits(self) -> (b: Vec<u64>)
        ensures
            b@ == self.spec_bits(),
    {
        self.bits
    }

    /// The packed words, row by row.
    pub fn bits(&self) -> (b: &[u64])
        ensures
            b@ == self.spec_bits(),
    {
        self.bits.as_slice()
    }

    /// Merge another accumulator's bits in place, word by word, as far as
    /// the shorter of the two reaches.
    pub fn or_bits(&mut self, other: &[u64])
        ensures
            final(self).size() == old(self).size(),
            final(self).spec_bits() == merged(old(self).spec_bits(), other@),
            final(self).spec_bits().len() == old(self).spec_bits().len(),
            forall|k: int|
                0 <= k < old(self).spec_bits().len() ==> #[trigger] final(self).spec_bits()[k]
                    == if k < other@.len() {
                    old(self).spec_bits()[k] | other@[k]
                } else {
                    old(self).spec_bits()[k]
                },
            forall|i: int, j: int|
                #![trigger final(self).covers(i, j)]
                0 <= i < old(self).size() && 0 <= j < row_words_for(old(self).size()) * 64
                    ==> final(self).covers(i, j) == (old(self).covers(i, j) || (
                    row_words_for(old(self).size()) * i + j / 64 < other@.len() && word_bit(
                    other@[row_words_for(old(self).size()) * i + j / 64],
                    j % 64,
                ))),
    {
        proof {
            use_type_invariant(&*self);
        }
        let mut tmp = GraphCoverage { n: 0, row_words: 0, bits: Vec::new() };
        std::mem::swap(self, &mut tmp);
        let GraphCoverage { n, row_words, mut bits } = tmp;
        let ghost b0 = bits@;
        let len = bits.len();
        let olen = other.len();
        let mut k: usize = 0;
        while k < len && k < olen
            invariant
                len == bits@.len(),
                len == b0.len(),
                olen == other@.len(),
                k <= len,
                k <= olen,
                forall|q: int|
                    0 <= q < len ==> #[trigger] bits@[q] == if q < k {
                        b0[q] | other@[q]
                    } else {
                        b0[q]
                    },
            decreases len - k,
        {
            let nv = bits[k] | other[k];
            bits.set(k, nv);
            k = k + 1;
        }
        proof {
            assert forall|q: int| 0 <= q < len implies #[trigger] bits@[q] == if q < olen {
                b0[q] | other@[q]
            } else {
                b0[q]
            } by {}
            assert forall|i: int, j: int|
                0 <= i < n && 0 <= j < row_words * 64 implies #[trigger] word_bit(
                    bits@[i * row_words + j / 64],
                    j % 64,
                ) == (word_bit(b0[i * row_words + j / 64], j % 64) || (row_words * i + j / 64
                    < other@.len() && word_bit(other@[row_words * i + j / 64], j % 64))) by {
                let q = i * row_words + j / 64;
                assert(q < n * row_words) by (nonlinear_arith)
                    requires
                        i < n,
                        j / 64 < row_words,
                        q == i * row_words + j / 64,
                ;
                assert(row_words * i == i * row_words) by (nonlinear_arith);
                if q < other@.len() {
                    lemma_or_bit(b0[q], other@[q], (j % 64) as u64);
                }
            }
        }
        *self = GraphCoverage { n, row_words, bits };
    }

    /// Number of pairs recorded, padding columns included (they stay clear
    /// when only signatures of the right length are added).
    pub fn count(&self) -> (c: u64)
        requires
            self.spec_bits().len() * 64 <= u64::MAX,
        ensures
            c == count_true(unpack_words(self.spec_bits(), self.spec_bits().len() * 64)),
    {
        let total = self.bits.len();
        let mut c: u64 = 0;
        let mut k: usize = 0;
        let ghost all = unpack_words(self.bits@, self.bits@.len() * 64);
        while k < total
            invariant
                total == self.bits@.len(),
                total * 64 <= u64::MAX,
                all == unpack_words(self.bits@, self.bits@.len() * 64),
                k <= total,
                c == count_true(all.take(k * 64)),
                c <= k * 64,
            decreases total - k,
        {
            let w = self.bits[k];
            let mut q: u64 = 0;
            while q < 64
                invariant
                    total == self.bits@.len(),
                    total * 64 <= u64::MAX,
                    all == unpack_words(self.bits@, self.bits@.len() * 64),
                    k < total,
                    w == self.bits@[k as int],
                    q <= 64,
                    c == count_true(all.take(k * 64 + q)),
                    c <= k * 64 + q,
                decreases 64 - q,
            {
                proof {
                    assert(all.take(k * 64 + q + 1) =~= all.take(k * 64 + q).push(all[k * 64 + q]));
                    lemma_count_true_push(all.take(k * 64 + q), all[k * 64 + q]);
                    assert((k * 64 + q) / 64 == k as int);
                    assert((k * 64 + q) % 64 == q as int);
                }
                if (w >> q) & 1u64 == 1u64 {
                    c = c + 1;
                }
                q = q + 1;
            }
            k = k + 1;
        }
        proof {
            assert(all.take(total * 64) =~= all);
        }
        c
    }

    /// Every covered pair must be one the graph records as false. The first
    /// covered pair, in row-major order, that the graph says holds comes
    /// back as 1-based law numbers: it would mean the engine is wrong.
    pub fn check_against(&self, g: &ImplicationGraph) -> (r: Result<(), (usize, usize)>)
        requires
            self.size() <= g.size(),
        ensures
            match r {
                Ok(()) => forall|i: int, j: int|
                    0 <= i < self.size() && 0 <= j < self.size() && #[trigger] self.covers(i, j)
                        ==> !g.spec_holds(i, j),
                Err((a, b)) => {
                    &&& 1 <= a <= self.size()
                    &&& 1 <= b <= self.size()
                    &&& self.covers(a - 1, b - 1)
                    &&& g.spec_holds(a - 1, b - 1)
                    &&& forall|i: int, j: int|
                        0 <= i < self.size() && 0 <= j < self.size() && (i < a - 1 || (i == a - 1
                            && j < b - 1)) && #[trigger] self.covers(i, j) ==> !g.spec_holds(i, j)
                },
            },
    {
        proof {
            use_type_invariant(self);
        }
        let n = self.n;
        let rw = self.row_words;
        let blen = self.bits.len();
        let mut i: usize = 0;
        while i < n
            invariant
                blen == self.bits@.len(),
                n == self.n,
                rw == self.row_words,
                rw == row_words_for(n as nat),
                self.bits@.len() == n * rw,
                n <= g.size(),
                i <= n,
                forall|i2: int, j2: int|
                    0 <= i2 < i && 0 <= j2 < n && #[trigger] self.covers(i2, j2) ==> !g.spec_holds(
                        i2,
                        j2,
                    ),
            decreases n - i,
        {
            let mut j: usize = 0;
            while j < n
                invariant
                    blen == self.bits@.len(),
                    n == self.n,
                    rw == self.row_words,
                    rw == row_words_for(n as nat),
                    self.bits@.len() == n * rw,
                    n <= g.size(),
                    i < n,
                    j <= n,
                    forall|i2: int, j2: int|
                        0 <= i2 < i && 0 <= j2 < n && #[trigger] self.covers(i2, j2)
                            ==> !g.spec_holds(i2, j2),
                    forall|j2: int|
                        0 <= j2 < j && #[trigger] self.covers(i as int, j2) ==> !g.spec_holds(
                            i as int,
                            j2,
                        ),
                decreases n - j,
            {
                proof {
                    assert(i * rw + j / 64 < n * rw) by (nonlinear_arith)
                        requires
                            i < n,
                            j / 64 < rw,
                    ;
                }
                let word = self.bits[i * rw + j / 64];
                let bit = (word >> ((j % 64) as u64)) & 1u64 == 1u64;
                if bit && g.holds(i, j) {
                    return Err((i + 1, j + 1));
                }
                j = j + 1;
            }
            i = i + 1;
        }
        Ok(())
    }
}

/// Word `k` of a row that a signature's words `w` contribute: their
/// complement, with the padding past the last law masked off.
pub open spec fn complement_word(w: Seq<u64>, k: int, rw: int, last_bits: u64) -> u64 {
    if k == rw - 1 && last_bits != 0 {
        (!w[k]) & (((1u64 << last_bits) - 1) as u64)
    } else {
        !w[k]
    }
}

proof fn lemma_complement_bit(w: Seq<u64>, k: int, rw: int, n: int, jj: int, sig: Seq<bool>)
    requires
        rw == row_words_for(n as nat),
        w.len() == rw,
        sig.len() == n,
        0 <= k < rw,
        0 <= jj < 64,
        forall|x: int| 0 <= x < w.len() * 64 ==> #[trigger] word_bit(w[x / 64], x % 64) == (x < sig.len() && sig[x]),
    ensures
        word_bit(complement_word(w, k, rw, (n % 64) as u64), jj) == (k * 64 + jj < n && !sig[k * 64 + jj]),
{
    let x = k * 64 + jj;
    assert(x / 64 == k && x % 64 == jj);
    assert(word_bit(w[k], jj) == (x < n && sig[x]));
    lemma_not_bit(w[k], jj as u64);
    if k == rw - 1 && n % 64 != 0 {
        lemma_mask_bit(!w[k], (n % 64) as u64, jj as u64);
        assert(x < n <==> jj < n % 64);
    } else {
        assert(x < n);
    }
}

} // verus!

verus! {

proof fn lemma_and_not_zero(c: u64, b: u64, jj: u64)
    requires
        c & !b == 0,
        jj < 64,
    ensures
        !(word_bit(c, jj as int) && !word_bit(b, jj as int)),
{
    assert(c & !b == 0 && jj < 64 ==> !((c >> jj) & 1u64 == 1u64 && !((b >> jj) & 1u64 == 1u64))) by (bit_vector);
}

proof fn lemma_and_not_bit(c: u64, b: u64, jj: u64)
    requires
        jj < 64,
        ((c & !b) >> jj) & 1u64 != 0,
    ensures
        word_bit(c, jj as int) && !word_bit(b, jj as int),
{
    assert(jj < 64 && ((c & !b) >> jj) & 1u64 != 0 ==> (c >> jj) & 1u64 == 1u64 && !((b >> jj) & 1u64
        == 1u64)) by (bit_vector);
}

proof fn lemma_shift_step(m: u64, jj: u64)
    requires
        jj < 64,
        m >> jj != 0,
        (m >> jj) & 1u64 == 0,
    ensures
        jj < 63,
        m >> ((jj + 1) as u64) != 0,
{
    assert(jj < 64 && m >> jj != 0 && (m >> jj) & 1u64 == 0 ==> jj < 63 && m >> ((jj + 1) as u64) != 0)
        by (bit_vector);
}

impl GraphCoverage {
    /// Would `sig` discharge any pair not yet covered?
    pub fn adds_anything(&self, sig: &Signature) -> (b: bool)
        requires
            sig@.len() == self.size(),
        ensures
            b == exists|i: int, j: int|
                0 <= i < self.size() && 0 <= j < self.size() && sig@[i] && !sig@[j] && !#[trigger] self.covers(i, j),
    {
        proof {
            use_type_invariant(self);
        }
        let w = sig.words();
        let n = self.n;
        let rw = self.row_words;
        let last_bits = n % 64;
        let blen = self.bits.len();
        let mut i: usize = 0;
        while i < n
            invariant
                blen == n * rw,
                n == self.size(),
                rw == row_words_for(n as nat),
                self.spec_bits().len() == n * rw,
                self.bits@ == self.spec_bits(),
                self.row_words == rw,
                last_bits == n % 64,
                w@.len() == rw,
                sig@.len() == n,
                forall|x: int| 0 <= x < w@.len() * 64 ==> #[trigger] word_bit(w@[x / 64], x % 64) == (x
                    < sig@.len() && sig@[x]),
                i <= n,
                forall|a: int, j: int|
                    0 <= a < i && 0 <= j < n && sig@[a] && !sig@[j] ==> #[trigger] self.covers(a, j),
            decreases n - i,
        {
            if sig.get(i) {
                proof {
                    assert((i + 1) * rw <= n * rw) by (nonlinear_arith)
                        requires
                            i + 1 <= n,
                    ;
                    assert((i + 1) * rw == i * rw + rw) by (nonlinear_arith);
                    assert(i * rw <= n * rw) by (nonlinear_arith)
                        requires
                            i <= n,
                    ;
                }
                let base = i * rw;
                let mut k: usize = 0;
                while k < rw
                    invariant
                        blen == n * rw,
                        n == self.size(),
                        rw == row_words_for(n as nat),
                        self.spec_bits().len() == n * rw,
                        self.bits@ == self.spec_bits(),
                        self.row_words == rw,
                        last_bits == n % 64,
                        w@.len() == rw,
                        sig@.len() == n,
                        forall|x: int| 0 <= x < w@.len() * 64 ==> #[trigger] word_bit(w@[x / 64], x % 64) == (x
                            < sig@.len() && sig@[x]),
                        i < n,
                        sig@[i as int],
                        base == i * rw,
                        base + rw <= n * rw,
                        k <= rw,
                        forall|j: int| 0 <= j < k * 64 && j < n && !sig@[j] ==> #[trigger] self.covers(i as int, j),
                    decreases rw - k,
                {
                    let word = w[k];
                    let mut c = !word;
                    if k == rw - 1 && last_bits != 0 {
                        proof {
                            let lb = last_bits as u64;
                            assert(lb < 64 ==> (1u64 << lb) >= 1) by (bit_vector);
                        }
                        c = c & ((1u64 << (last_bits as u64)) - 1);
                    }
                    proof {
                        assert(c == complement_word(w@, k as int, rw as int, last_bits as u64));
                    }
                    let cov = self.bits[base + k];
                    let m = c & !cov;
                    if m != 0 {
                        let mut jj: u64 = 0;
                        proof {
                            assert(m >> 0u64 == m) by (bit_vector);
                        }
                        while (m >> jj) & 1 == 0
                            invariant
                                jj < 64,
                                m >> jj != 0,
                            decreases 64 - jj,
                        {
                            proof {
                                lemma_shift_step(m, jj);
                            }
                            jj = jj + 1;
                        }
                        proof {
                            lemma_and_not_bit(c, cov, jj);
                            lemma_complement_bit(w@, k as int, rw as int, n as int, jj as int, sig@);
                            let j = k * 64 + jj;
                            assert(j / 64 == k && j % 64 == jj);
                            assert(!self.covers(i as int, j));
                        }
                        return true;
                    }
                    proof {
                        assert forall|j: int| 0 <= j < (k + 1) * 64 && j < n && !sig@[j] implies #[trigger] self.covers(
                            i as int,
                            j,
                        ) by {
                            if j >= k * 64 {
                                let jj = j - k * 64;
                                assert(j / 64 == k && j % 64 == jj);
                                lemma_and_not_zero(c, cov, jj as u64);
                                lemma_complement_bit(w@, k as int, rw as int, n as int, jj, sig@);
                            }
                        }
                    }
                    k = k + 1;
                }
                proof {
                    assert forall|j: int| 0 <= j < n && !sig@[j] implies #[trigger] self.covers(i as int, j) by {
                        assert(j < rw * 64);
                    }
                }
            }
            i = i + 1;
        }
        false
    }
}


/// The positions rise strictly.
pub open spec fn ascending(s: Seq<usize>) -> bool {
    forall|a: int, b: int| 0 <= a < b < s.len() ==> s[a] < s[b]
}

/// `sig` satisfies law `i` and refutes law `j`.
pub open spec fn discharges(sig: Seq<bool>, i: int, j: int) -> bool {
    sig[i] && !sig[j]
}

/// Some magma among the first `upto` of `sigs` discharges `(i, j)`.
pub open spec fn any_discharges(sigs: Seq<(usize, Signature)>, upto: int, i: int, j: int) -> bool {
    exists|q: int| 0 <= q < upto && #[trigger] discharges(sigs[q].1@, i, j)
}

/// Some magma of size `base` among the first `upto` discharges `(i, j)`.
pub open spec fn base_discharges(sigs: Seq<(usize, Signature)>, base: usize, upto: int, i: int, j: int) -> bool {
    exists|q: int| 0 <= q < upto && sigs[q].0 == base && #[trigger] discharges(sigs[q].1@, i, j)
}

/// Magma `q` is not of size `base` and discharges a pair over `n` laws that
/// no magma of size `base` discharges.
pub open spec fn kept_for_cover(sigs: Seq<(usize, Signature)>, base: usize, n: nat, q: int) -> bool {
    &&& sigs[q].0 != base
    &&& exists|i: int, j: int|
        0 <= i < n && 0 <= j < n && #[trigger] discharges(sigs[q].1@, i, j) && !base_discharges(
            sigs,
            base,
            sigs.len() as int,
            i,
            j,
        )
}

/// Some magma among the first `upto` that is of size `base`, or kept,
/// discharges `(i, j)`.
pub open spec fn subset_discharges(sigs: Seq<(usize, Signature)>, base: usize, n: nat, upto: int, i: int, j: int) -> bool {
    exists|q: int|
        0 <= q < upto && (sigs[q].0 == base || kept_for_cover(sigs, base, n, q)) && #[trigger] discharges(
            sigs[q].1@,
            i,
            j,
        )
}

/// A small subset of a set of magmas that refutes every implication the whole
/// set refutes: every magma of size `base`, and each other magma that adds a
/// pair to what those refute.
///
/// `sigs` holds each magma's size and signature over `n` laws. The result is
/// the positions kept beside the `base`-sized ones, ascending, and the
/// coverage of all the magmas, of the `base`-sized ones, and of the subset.
pub fn minimal_cover(sigs: &Vec<(usize, Signature)>, base: usize, n: usize) -> (r: (
    Vec<usize>,
    GraphCoverage,
    GraphCoverage,
    GraphCoverage,
))
    requires
        n * row_words_for(n as nat) <= usize::MAX,
        forall|q: int| 0 <= q < sigs@.len() ==> (#[trigger] sigs@[q]).1@.len() == n,
    ensures
        ({
            let (keep, full, base_cov, covered) = r;
            &&& ascending(keep@)
            &&& forall|k: int| 0 <= k < keep@.len() ==> keep@[k] < sigs@.len()
            &&& forall|q: int|
                0 <= q < sigs@.len() ==> (keep@.contains(q as usize) <==> kept_for_cover(sigs@, base, n as nat, q))
            &&& full.size() == n && base_cov.size() == n && covered.size() == n
            &&& full.spec_bits().len() == n * row_words_for(n as nat)
            &&& base_cov.spec_bits().len() == n * row_words_for(n as nat)
            &&& covered.spec_bits().len() == n * row_words_for(n as nat)
            &&& forall|i: int, j: int|
                0 <= i < n && 0 <= j < row_words_for(n as nat) * 64 ==> {
                    &&& #[trigger] full.covers(i, j) == (j < n && any_discharges(sigs@, sigs@.len() as int, i, j))
                    &&& base_cov.covers(i, j) == (j < n && base_discharges(sigs@, base, sigs@.len() as int, i, j))
                    &&& covered.covers(i, j) == (j < n && subset_discharges(
                        sigs@,
                        base,
                        n as nat,
                        sigs@.len() as int,
                        i,
                        j,
                    ))
                }
        }),
{
    let mut full = GraphCoverage::new(n);
    let mut base_cov = GraphCoverage::new(n);
    let ghost rw = row_words_for(n as nat);
    proof {
        assert forall|i: int, j: int|
            #![trigger full.covers(i, j)]
            #![trigger base_cov.covers(i, j)]
            0 <= i < n && 0 <= j < rw * 64 implies !full.covers(i, j) && !base_cov.covers(i, j) by {
            full.lemma_covers_bits(i, j);
            base_cov.lemma_covers_bits(i, j);
            lemma_index_in_rows(i, j, n as int, rw as int);
            assert(word_bit(0u64, j % 64) == false) by {
                lemma_zero_bit(j % 64);
            }
        }
    }
    let mut q: usize = 0;
    while q < sigs.len()
        invariant
            n * row_words_for(n as nat) <= usize::MAX,
            rw == row_words_for(n as nat),
            forall|q2: int| 0 <= q2 < sigs@.len() ==> (#[trigger] sigs@[q2]).1@.len() == n,
            q <= sigs@.len(),
            full.size() == n,
            base_cov.size() == n,
            full.spec_bits().len() == n * rw,
            base_cov.spec_bits().len() == n * rw,
            forall|i: int, j: int|
                0 <= i < n && 0 <= j < rw * 64 ==> #[trigger] full.covers(i, j) == (j < n && any_discharges(sigs@, q as int, i, j)),
            forall|i: int, j: int|
                0 <= i < n && 0 <= j < rw * 64 ==> #[trigger] base_cov.covers(i, j) == (j < n && base_discharges(sigs@, base, q as int, i, j)),
        decreases sigs@.len() - q,
    {
        let ghost f0 = full;
        let ghost b0 = base_cov;
        full.add(&sigs[q].1);
        if sigs[q].0 == base {
            base_cov.add(&sigs[q].1);
        }
        proof {
            assert forall|i: int, j: int|
                #![trigger full.covers(i, j)]
                #![trigger base_cov.covers(i, j)]
                0 <= i < n && 0 <= j < rw * 64 implies
                full.covers(i, j) == (j < n && any_discharges(sigs@, q + 1, i, j))
                && base_cov.covers(i, j) == (j < n && base_discharges(sigs@, base, q + 1, i, j)) by {
                assert(f0.covers(i, j) == (j < n && any_discharges(sigs@, q as int, i, j)));
                assert(b0.covers(i, j) == (j < n && base_discharges(sigs@, base, q as int, i, j)));
                if j < n && discharges(sigs@[q as int].1@, i, j) {
                    assert(any_discharges(sigs@, q + 1, i, j));
                    if sigs@[q as int].0 == base {
                        assert(base_discharges(sigs@, base, q + 1, i, j));
                    }
                }
                if any_discharges(sigs@, q + 1, i, j) && !discharges(sigs@[q as int].1@, i, j) {
                    let w = choose|w: int| 0 <= w < q + 1 && #[trigger] discharges(sigs@[w].1@, i, j);
                    assert(any_discharges(sigs@, q as int, i, j));
                }
                if base_discharges(sigs@, base, q + 1, i, j) && !(sigs@[q as int].0 == base && discharges(sigs@[q as int].1@, i, j)) {
                    let w = choose|w: int| 0 <= w < q + 1 && sigs@[w].0 == base && #[trigger] discharges(sigs@[w].1@, i, j);
                    assert(base_discharges(sigs@, base, q as int, i, j));
                }
            }
        }
        q = q + 1;
    }
    let mut keep: Vec<usize> = Vec::new();
    let mut covered = GraphCoverage::new(n);
    let ghost total = sigs@.len() as int;
    let mut q: usize = 0;
    proof {
        assert forall|i: int, j: int| 0 <= i < n && 0 <= j < rw * 64 implies !#[trigger] covered.covers(i, j) by {
            covered.lemma_covers_bits(i, j);
            lemma_index_in_rows(i, j, n as int, rw as int);
            lemma_zero_bit(j % 64);
        }
    }
    while q < sigs.len()
        invariant
            n * row_words_for(n as nat) <= usize::MAX,
            rw == row_words_for(n as nat),
            total == sigs@.len(),
            forall|q2: int| 0 <= q2 < sigs@.len() ==> (#[trigger] sigs@[q2]).1@.len() == n,
            q <= sigs@.len(),
            base_cov.size() == n,
            covered.size() == n,
            full.size() == n,
            full.spec_bits().len() == n * rw,
            base_cov.spec_bits().len() == n * rw,
            covered.spec_bits().len() == n * rw,
            forall|i: int, j: int|
                0 <= i < n && 0 <= j < rw * 64 ==> #[trigger] full.covers(i, j) == (j < n && any_discharges(sigs@, total, i, j)),
            forall|i: int, j: int|
                0 <= i < n && 0 <= j < rw * 64 ==> #[trigger] base_cov.covers(i, j) == (j < n && base_discharges(sigs@, base, total, i, j)),
            forall|i: int, j: int|
                0 <= i < n && 0 <= j < rw * 64 ==> #[trigger] covered.covers(i, j) == (j < n && subset_discharges(sigs@, base, n as nat, q as int, i, j)),
            ascending(keep@),
            forall|k: int| 0 <= k < keep@.len() ==> keep@[k] < q,
            forall|q2: int| 0 <= q2 < q ==> (keep@.contains(q2 as usize) <==> kept_for_cover(sigs@, base, n as nat, q2)),
        decreases sigs@.len() - q,
    {
        let ghost k0 = keep@;
        let size = sigs[q].0;
        let take_it = if size == base {
            true
        } else {
            let adds = base_cov.adds_anything(&sigs[q].1);
            proof {
                if adds {
                    let (i, j) = choose|i: int, j: int|
                        0 <= i < n && 0 <= j < n && sigs@[q as int].1@[i] && !sigs@[q as int].1@[j] && !#[trigger] base_cov.covers(i, j);
                    lemma_row_words_cover(n as int, j);
                    assert(base_cov.covers(i, j) == (j < n && base_discharges(sigs@, base, total, i, j)));
                    assert(discharges(sigs@[q as int].1@, i, j));
                    assert(kept_for_cover(sigs@, base, n as nat, q as int));
                } else {
                    if kept_for_cover(sigs@, base, n as nat, q as int) {
                        let (i, j) = choose|i: int, j: int|
                            0 <= i < n && 0 <= j < n && #[trigger] discharges(sigs@[q as int].1@, i, j) && !base_discharges(
                                sigs@,
                                base,
                                total,
                                i,
                                j,
                            );
                        lemma_row_words_cover(n as int, j);
                        assert(base_cov.covers(i, j) == (j < n && base_discharges(sigs@, base, total, i, j)));
                        assert(!base_cov.covers(i, j));
                        assert(false);
                    }
                }
            }
            if adds {
                keep.push(q);
                proof {
                    assert(keep@.last() == q);
                }
            }
            adds
        };
        let ghost c0 = covered;
        if take_it {
            covered.add(&sigs[q].1);
        }
        proof {
            assert(keep@ == if size != base && take_it { k0.push(q) } else { k0 });
            assert forall|q2: int| 0 <= q2 < q + 1 implies (keep@.contains(q2 as usize) <==> kept_for_cover(sigs@, base, n as nat, q2)) by {
                if q2 < q {
                    if kept_for_cover(sigs@, base, n as nat, q2) {
                        assert(k0.contains(q2 as usize));
                        let k = choose|k: int| 0 <= k < k0.len() && k0[k] == q2 as usize;
                        assert(keep@[k] == q2 as usize);
                    }
                    if keep@.contains(q2 as usize) {
                        let k = choose|k: int| 0 <= k < keep@.len() && keep@[k] == q2 as usize;
                        if k < k0.len() {
                            assert(k0[k] == q2 as usize);
                            assert(k0.contains(q2 as usize));
                        }
                    }
                } else {
                    if keep@.contains(q as usize) {
                        let k = choose|k: int| 0 <= k < keep@.len() && keep@[k] == q as usize;
                        if k < k0.len() {
                            assert(k0[k] < q);
                        }
                    }
                    if kept_for_cover(sigs@, base, n as nat, q as int) {
                        assert(keep@[keep@.len() - 1] == q);
                    }
                }
            }
            assert(take_it == (sigs@[q as int].0 == base || kept_for_cover(sigs@, base, n as nat, q as int)));
            assert forall|i: int, j: int| 0 <= i < n && 0 <= j < rw * 64 implies
                #[trigger] covered.covers(i, j) == (j < n && subset_discharges(sigs@, base, n as nat, q + 1, i, j)) by {
                assert(c0.covers(i, j) == (j < n && subset_discharges(sigs@, base, n as nat, q as int, i, j)));
                if take_it && j < n && discharges(sigs@[q as int].1@, i, j) {
                    assert(subset_discharges(sigs@, base, n as nat, q + 1, i, j));
                }
                if subset_discharges(sigs@, base, n as nat, q + 1, i, j) && !(take_it && discharges(sigs@[q as int].1@, i, j)) {
                    let w = choose|w: int|
                        0 <= w < q + 1 && (sigs@[w].0 == base || kept_for_cover(sigs@, base, n as nat, w)) && #[trigger] discharges(sigs@[w].1@, i, j);
                    assert(subset_discharges(sigs@, base, n as nat, q as int, i, j));
                }
            }
        }
        q = q + 1;
    }
    (keep, full, base_cov, covered)
}

/// The subset that `minimal_cover` keeps discharges exactly the pairs that the
/// whole set discharges: a magma left out discharges only pairs that some
/// magma of size `base` discharges too.
pub proof fn lemma_cover_subset_suffices(sigs: Seq<(usize, Signature)>, base: usize, n: nat, i: int, j: int)
    requires
        0 <= i < n,
        0 <= j < n,
    ensures
        subset_discharges(sigs, base, n, sigs.len() as int, i, j) == any_discharges(sigs, sigs.len() as int, i, j),
{
    let len = sigs.len() as int;
    if any_discharges(sigs, len, i, j) {
        let q = choose|q: int| 0 <= q < len && #[trigger] discharges(sigs[q].1@, i, j);
        if sigs[q].0 == base || kept_for_cover(sigs, base, n, q) {
            assert(subset_discharges(sigs, base, n, len, i, j));
        } else {
            assert(base_discharges(sigs, base, len, i, j));
            let p = choose|p: int| 0 <= p < len && sigs[p].0 == base && #[trigger] discharges(sigs[p].1@, i, j);
            assert(subset_discharges(sigs, base, n, len, i, j));
        }
    }
    if subset_discharges(sigs, base, n, len, i, j) {
        let q = choose|q: int|
            0 <= q < len && (sigs[q].0 == base || kept_for_cover(sigs, base, n, q)) && #[trigger] discharges(sigs[q].1@, i, j);
        assert(any_discharges(sigs, len, i, j));
    }
}

/// A cell of the first `n` rows lies inside the packed words.
proof fn lemma_index_in_rows(i: int, j: int, n: int, rw: int)
    requires
        0 <= i < n,
        0 <= j < rw * 64,
    ensures
        0 <= i * rw + j / 64 < n * rw,
{
    assert(0 <= i * rw + j / 64 < n * rw) by (nonlinear_arith)
        requires
            0 <= i < n,
            0 <= j < rw * 64,
    ;
}

/// Bit `j` of the zero word is clear.
proof fn lemma_zero_bit(j: int)
    requires
        0 <= j < 64,
    ensures
        !word_bit(0u64, j),
{
    let jj = j as u64;
    assert((0u64 >> jj) & 1u64 == 0u64) by (bit_vector);
}

/// A column below `n` is a column of the packed rows.
proof fn lemma_row_words_cover(n: int, j: int)
    requires
        0 <= j < n,
    ensures
        j < row_words_for(n as nat) * 64,
{
}

} // verus!

verus! {

/// `base` with `other` merged in, word by word, as far as both reach.
pub open spec fn merged(base: Seq<u64>, other: Seq<u64>) -> Seq<u64> {
    Seq::new(base.len(), |k: int| if k < other.len() { base[k] | other[k] } else { base[k] })
}

proof fn lemma_count_true_mono(a: Seq<bool>, b: Seq<bool>)
    requires
        a.len() == b.len(),
        forall|i: int| 0 <= i < a.len() && #[trigger] a[i] ==> b[i],
    ensures
        count_true(a) <= count_true(b),
    decreases a.len(),
{
    if a.len() > 0 {
        lemma_count_true_mono(a.drop_last(), b.drop_last());
    }
}

/// Merging never loses a recorded pair: the count of set bits after a
/// merge is at least the count before.
pub proof fn lemma_merge_never_loses(base: Seq<u64>, other: Seq<u64>)
    ensures
        count_true(unpack_words(base, base.len() * 64)) <= count_true(
            unpack_words(merged(base, other), base.len() * 64),
        ),
{
    let a = unpack_words(base, base.len() * 64);
    let b = unpack_words(merged(base, other), base.len() * 64);
    assert forall|i: int| 0 <= i < a.len() && #[trigger] a[i] implies b[i] by {
        let k = i / 64;
        let j = i % 64;
        assert(0 <= k < base.len()) by (nonlinear_arith)
            requires
                0 <= i < base.len() * 64,
                k == i / 64,
        ;
        if k < other.len() {
            lemma_or_bit(base[k], other[k], j as u64);
        }
    }
    lemma_count_true_mono(a, b);
}

/// Merging is order-free: merging `a` then `b` leaves the same words as
/// merging `b` then `a`.
pub proof fn lemma_merge_order_free(base: Seq<u64>, a: Seq<u64>, b: Seq<u64>)
    ensures
        merged(merged(base, a), b) == merged(merged(base, b), a),
{
    assert forall|k: int| 0 <= k < base.len() implies #[trigger] merged(merged(base, a), b)[k] == merged(
        merged(base, b),
        a,
    )[k] by {
        let x = base[k];
        if k < a.len() && k < b.len() {
            let y = a[k];
            let z = b[k];
            assert((x | y) | z == (x | z) | y) by (bit_vector);
        }
    }
    assert(merged(merged(base, a), b) =~= merged(merged(base, b), a));
}

} // verus!
