//! The ETP implication graph, as ground truth.
//!
//! The graph is a packed `n x n` bit matrix: bit `j` of row `i` is set
//! exactly when `E_(i+1) ⊧ E_(j+1)` holds for arbitrary magmas.
//!
//! Two uses. As an oracle: every separation a signature claims must land on
//! a pair the graph records as false. As a target: coverage is measured
//! against a list of pairs.

use crate::law::{is_ws, lines_of, trim, trim_start, whitespace};
use crate::problems::decimal;
use crate::sig::{byte_bit, count_true, unpack_bytes, Signature};
use vstd::prelude::*;

verus! {

pub struct ImplicationGraph {
    pub n: usize,
    row_bytes: usize,
    bits: Vec<u8>,
}

/// Bytes per row of an `n`-wide bit matrix.
pub open spec fn row_bytes_for(n: nat) -> nat {
    (n + 7) / 8
}

impl ImplicationGraph {
    #[verifier::type_invariant]
    spec fn inv(self) -> bool {
        &&& self.row_bytes == row_bytes_for(self.n as nat)
        &&& self.bits@.len() == self.n * self.row_bytes
    }

    /// Does `E_(i+1) ⊧ E_(j+1)` hold? Indices are 0-based.
    pub closed spec fn spec_holds(&self, i: int, j: int) -> bool {
        byte_bit(self.bits@[i * self.row_bytes + j / 8], j % 8)
    }

    /// Number of laws, rows and columns alike.
    pub closed spec fn size(&self) -> nat {
        self.n as nat
    }

    /// The packed bytes.
    pub closed spec fn spec_bits(&self) -> Seq<u8> {
        self.bits@
    }

    /// Take ownership of a packed matrix: row `i` is bytes
    /// `i * ceil(n/8) .. (i+1) * ceil(n/8)`, least significant bit first.
    pub fn from_bytes(n: usize, bits: Vec<u8>) -> (g: ImplicationGraph)
        requires
            bits@.len() == n * row_bytes_for(n as nat),
        ensures
            g.size() == n,
            g.spec_bits() == bits@,
            forall|i: int, j: int|
                0 <= i < n && 0 <= j < n ==> #[trigger] g.spec_holds(i, j) == byte_bit(
                    bits@[i * row_bytes_for(n as nat) + j / 8],
                    j % 8,
                ),
    {
        let row_bytes = n / 8 + if n % 8 == 0 {
            0
        } else {
            1
        };
        ImplicationGraph { n, row_bytes, bits }
    }

    /// Does `E_(i+1) ⊧ E_(j+1)` hold? Indices are 0-based.
    pub fn holds(&self, i: usize, j: usize) -> (b: bool)
        requires
            i < self.size(),
            j < self.size(),
        ensures
            b == self.spec_holds(i as int, j as int),
    {
        let len = self.bits.len();
        proof {
            use_type_invariant(self);
            assert(i * self.row_bytes + j / 8 < self.n * self.row_bytes) by (nonlinear_arith)
                requires
                    i < self.n,
                    j / 8 < self.row_bytes,
            ;
        }
        (self.bits[i * self.row_bytes + j / 8] >> ((j % 8) as u8)) & 1u8 == 1u8
    }

    /// Number of set bits in the whole matrix.
    pub fn count_true(&self) -> (c: u64)
        requires
            self.spec_bits().len() * 8 <= u64::MAX,
        ensures
            c == count_true(unpack_bytes(self.spec_bits(), self.spec_bits().len() * 8)),
    {
        let total = self.bits.len();
        let mut c: u64 = 0;
        let mut k: usize = 0;
        let ghost all = unpack_bytes(self.bits@, self.bits@.len() * 8);
        while k < total
            invariant
                total == self.bits@.len(),
                total * 8 <= u64::MAX,
                all == unpack_bytes(self.bits@, self.bits@.len() * 8),
                k <= total,
                c == count_true(all.take(k * 8)),
                c <= k * 8,
            decreases total - k,
        {
            let b = self.bits[k];
            let mut q: u8 = 0;
            while q < 8
                invariant
                    total == self.bits@.len(),
                    total * 8 <= u64::MAX,
                    all == unpack_bytes(self.bits@, self.bits@.len() * 8),
                    k < total,
                    b == self.bits@[k as int],
                    q <= 8,
                    c == count_true(all.take(k * 8 + q)),
                    c <= k * 8 + q,
                decreases 8 - q,
            {
                proof {
                    assert(all.take(k * 8 + q + 1) =~= all.take(k * 8 + q).push(all[k * 8 + q]));
                    crate::sig::lemma_count_true_push(all.take(k * 8 + q), all[k * 8 + q]);
                    assert((k * 8 + q) / 8 == k as int);
                    assert((k * 8 + q) % 8 == q as int);
                }
                if (b >> q) & 1u8 == 1u8 {
                    c = c + 1;
                }
                q = q + 1;
            }
            k = k + 1;
        }
        proof {
            assert(all.take(total * 8) =~= all);
        }
        c
    }

    /// Row `i` as a signature-shaped bit vector, so that set algebra against
    /// a magma signature is word-parallel.
    pub fn row(&self, i: usize) -> (s: Signature)
        requires
            i < self.size(),
        ensures
            s@.len() == self.size(),
            forall|j: int| 0 <= j < self.size() ==> s@[j] == self.spec_holds(i as int, j),
    {
        proof {
            use_type_invariant(self);
        }
        let rb = self.row_bytes;
        let len = self.bits.len();
        proof {
            assert((i + 1) * rb <= self.n * rb) by (nonlinear_arith)
                requires
                    i + 1 <= self.n,
            ;
            assert((i + 1) * rb == i * rb + rb) by (nonlinear_arith);
        }
        let mut bytes: Vec<u8> = Vec::new();
        let mut k: usize = 0;
        while k < rb
            invariant
                rb == self.row_bytes,
                len == self.bits@.len(),
                (i + 1) * rb <= self.bits@.len(),
                (i + 1) * rb == i * rb + rb,
                k <= rb,
                bytes@.len() == k,
                forall|q: int| 0 <= q < k ==> bytes@[q] == self.bits@[i * rb + q],
            decreases rb - k,
        {
            bytes.push(self.bits[i * rb + k]);
            k = k + 1;
        }
        let s = Signature::from_bytes(self.n, bytes.as_slice());
        proof {
            assert forall|j: int| 0 <= j < self.n implies s@[j] == self.spec_holds(i as int, j) by {
                assert(j / 8 < rb);
            }
        }
        s
    }
}

/// An ordered pair `(i, j)` denoting the implication `E_i ⊧ E_j`, 1-based.
#[derive(Clone, Copy, PartialEq, Eq, PartialOrd, Ord, Debug, Hash)]
pub struct Pair {
    pub from: u32,
    pub to: u32,
}

/// The magma with this signature satisfies `E_from` and refutes `E_to`.
pub open spec fn spec_separates(sig: Seq<bool>, p: Pair) -> bool {
    sig[p.from - 1] && !sig[p.to - 1]
}

/// Both ends of the pair name laws of a list of `n`.
pub open spec fn pair_in_range(p: Pair, n: nat) -> bool {
    1 <= p.from <= n && 1 <= p.to <= n
}

/// Does `sig` separate `E_from` from `E_to`? True when the magma satisfies
/// the hypothesis and refutes the conclusion.
pub fn separates(sig: &Signature, p: Pair) -> (b: bool)
    requires
        pair_in_range(p, sig@.len()),
    ensures
        b == spec_separates(sig@, p),
{
    sig.get(p.from as usize - 1) && !sig.get(p.to as usize - 1)
}

pub open spec fn is_digit(c: char) -> bool {
    '0' <= c <= '9'
}

/// Value of a string of decimal digits.
pub open spec fn digits_value(d: Seq<char>) -> nat
    decreases d.len(),
{
    if d.len() == 0 {
        0
    } else {
        digits_value(d.drop_last()) * 10 + (d.last() as nat - '0' as nat) as nat
    }
}

/// `str::parse::<u32>`: an optional `+`, then at least one decimal digit,
/// with a value that fits.
pub open spec fn parse_u32_spec(tok: Seq<char>) -> Option<u32> {
    let d = unsigned_digits(tok);
    if d.len() == 0 || exists|i: int| 0 <= i < d.len() && !is_digit(#[trigger] d[i]) {
        None
    } else if digits_value(d) <= u32::MAX {
        Some(digits_value(d) as u32)
    } else {
        None
    }
}

/// A token without its optional leading `+`.
pub open spec fn unsigned_digits(tok: Seq<char>) -> Seq<char> {
    if tok.len() > 0 && tok[0] == '+' {
        tok.drop_first()
    } else {
        tok
    }
}

/// Length of the run of non-whitespace characters that `s` starts with.
pub open spec fn token_len(s: Seq<char>) -> nat
    decreases s.len(),
{
    if s.len() == 0 || is_ws(s[0]) {
        0
    } else {
        1 + token_len(s.drop_first())
    }
}

/// The first whitespace-separated token of `s`, and what follows it.
pub open spec fn next_token(s: Seq<char>) -> Option<(Seq<char>, Seq<char>)> {
    let t = trim_start(s);
    if t.len() == 0 {
        None
    } else {
        Some((t.take(token_len(t) as int), t.skip(token_len(t) as int)))
    }
}

/// The pair a line names: its first two tokens, as numbers. Anything after
/// them is ignored.
pub open spec fn parse_pair_spec(line: Seq<char>) -> Option<Pair> {
    match next_token(line) {
        None => None,
        Some((a, rest)) => match parse_u32_spec(a) {
            None => None,
            Some(from) => match next_token(rest) {
                None => None,
                Some((b, _)) => match parse_u32_spec(b) {
                    None => None,
                    Some(to) => Some(Pair { from, to }),
                },
            },
        },
    }
}

/// The field of a line that names no pair: the source when its first token
/// is missing or no number, the target otherwise.
pub open spec fn pair_fault(line: Seq<char>) -> Seq<char> {
    match next_token(line) {
        Some((a, _)) => if parse_u32_spec(a) is Some {
            "target"@
        } else {
            "source"@
        },
        None => "source"@,
    }
}

/// The complaint about the first line, numbering the lines from `k + 1`,
/// that is neither blank, a comment, nor a pair.
pub open spec fn pairs_error(lines: Seq<Seq<char>>, k: nat) -> Seq<char>
    decreases lines.len(),
{
    if lines.len() == 0 {
        Seq::empty()
    } else {
        let line = trim(lines[0]);
        if line.len() == 0 || line[0] == '#' {
            pairs_error(lines.drop_first(), k + 1)
        } else if parse_pair_spec(line) is None {
            "line "@ + decimal(k + 1) + ": bad "@ + pair_fault(line)
        } else {
            pairs_error(lines.drop_first(), k + 1)
        }
    }
}

/// The pairs of a list of lines; blank lines and `#` comments are skipped.
pub open spec fn parse_pairs_spec(lines: Seq<Seq<char>>) -> Option<Seq<Pair>>
    decreases lines.len(),
{
    if lines.len() == 0 {
        Some(Seq::empty())
    } else {
        let line = trim(lines[0]);
        if line.len() == 0 || line[0] == '#' {
            parse_pairs_spec(lines.drop_first())
        } else {
            match parse_pair_spec(line) {
                None => None,
                Some(p) => match parse_pairs_spec(lines.drop_first()) {
                    Some(rest) => Some(seq![p] + rest),
                    None => None,
                },
            }
        }
    }
}

} // verus!

verus! {

/// `line <k>: bad <what>`.
fn msg_bad(what: &str, line: usize) -> (r: String)
    ensures
        r@ == "line "@ + decimal(line as nat) + ": bad "@ + what@,
{
    let mut out: Vec<char> = Vec::new();
    crate::problems::push_str(&mut out, "line ");
    crate::problems::push_decimal(line as u64, &mut out);
    crate::problems::push_str(&mut out, ": bad ");
    crate::problems::push_str(&mut out, what);
    crate::problems::string_of(out)
}

pub(crate) proof fn lemma_trim_start_is_suffix(s: Seq<char>)
    ensures
        exists|k: int| 0 <= k <= s.len() && trim_start(s) == s.skip(k) && forall|q: int|
            0 <= q < k ==> is_ws(#[trigger] s[q]),
        trim_start(s).len() > 0 ==> !is_ws(trim_start(s)[0]),
    decreases s.len(),
{
    if s.len() > 0 && is_ws(s[0]) {
        lemma_trim_start_is_suffix(s.drop_first());
        let k = choose|k: int| 0 <= k <= s.drop_first().len() && trim_start(s.drop_first())
            == s.drop_first().skip(k) && forall|q: int| 0 <= q < k ==> is_ws(#[trigger] s.drop_first()[q]);
        assert(s.drop_first().skip(k) =~= s.skip(k + 1));
        assert forall|q: int| 0 <= q < k + 1 implies is_ws(#[trigger] s[q]) by {
            if q > 0 {
                assert(s[q] == s.drop_first()[q - 1]);
            }
        }
    } else {
        assert(s.skip(0) =~= s);
    }
}

/// The first token within `lo..hi`, as positions `(start, end)`.
pub(crate) fn next_token_at(c: &Vec<char>, lo: usize, hi: usize) -> (r: Option<(usize, usize)>)
    requires
        lo <= hi <= c@.len(),
    ensures
        match next_token(c@.subrange(lo as int, hi as int)) {
            None => r is None,
            Some((tok, rest)) => r matches Some((a, b)) && lo <= a <= b <= hi && tok == c@.subrange(
                a as int,
                b as int,
            ) && rest == c@.subrange(b as int, hi as int),
        },
{
    let ghost s = c@.subrange(lo as int, hi as int);
    let mut a = lo;
    while a < hi && whitespace(c[a])
        invariant
            lo <= a <= hi <= c@.len(),
            s == c@.subrange(lo as int, hi as int),
            trim_start(s) == trim_start(c@.subrange(a as int, hi as int)),
        decreases hi - a,
    {
        proof {
            assert(c@.subrange(a as int, hi as int).drop_first() =~= c@.subrange(a + 1, hi as int));
        }
        a = a + 1;
    }
    proof {
        if a < hi {
            assert(c@.subrange(a as int, hi as int)[0] == c@[a as int]);
        }
        assert(trim_start(c@.subrange(a as int, hi as int)) == c@.subrange(a as int, hi as int));
    }
    if a == hi {
        return None;
    }
    let mut b = a;
    while b < hi && !whitespace(c[b])
        invariant
            lo <= a <= b <= hi <= c@.len(),
            token_len(c@.subrange(a as int, hi as int)) == (b - a) + token_len(
                c@.subrange(b as int, hi as int),
            ),
        decreases hi - b,
    {
        proof {
            assert(c@.subrange(b as int, hi as int).drop_first() =~= c@.subrange(b + 1, hi as int));
            assert(c@.subrange(b as int, hi as int)[0] == c@[b as int]);
        }
        b = b + 1;
    }
    proof {
        if b < hi {
            assert(c@.subrange(b as int, hi as int)[0] == c@[b as int]);
        }
        let t = c@.subrange(a as int, hi as int);
        assert(token_len(t) == b - a);
        assert(t.take(b - a) =~= c@.subrange(a as int, b as int));
        assert(t.skip(b - a) =~= c@.subrange(b as int, hi as int));
    }
    Some((a, b))
}

/// `str::parse::<u32>` on the characters `a..b`.
#[verifier::loop_isolation(false)]
fn parse_u32_at(c: &Vec<char>, a: usize, b: usize) -> (r: Option<u32>)
    requires
        a <= b <= c@.len(),
    ensures
        r == parse_u32_spec(c@.subrange(a as int, b as int)),
{
    let ghost tok = c@.subrange(a as int, b as int);
    let mut i = a;
    proof {
        if a < b {
            assert(tok[0] == c@[a as int]);
        }
    }
    if i < b && c[i] == '+' {
        i = i + 1;
    }
    let ghost d = c@.subrange(i as int, b as int);
    proof {
        if a < b && c@[a as int] == '+' {
            assert(tok.drop_first() =~= d);
        } else {
            assert(tok =~= d);
        }
        assert(unsigned_digits(tok) == d);
    }
    if i == b {
        return None;
    }
    let mut v: u64 = 0;
    let mut k = i;
    while k < b
        invariant
            i <= k <= b <= c@.len(),
            d == c@.subrange(i as int, b as int),
            forall|q: int| i <= q < k ==> is_digit(c@[q]),
            v == digits_value(c@.subrange(i as int, k as int)),
            v <= u32::MAX,
        decreases b - k,
    {
        let ch = c[k];
        if !('0' <= ch && ch <= '9') {
            proof {
                assert(d[k - i] == c@[k as int]);
                assert(!is_digit(d[k - i]));
                assert(exists|q: int| 0 <= q < d.len() && !is_digit(#[trigger] d[q]));
            }
            return None;
        }
        proof {
            assert(c@.subrange(i as int, k + 1).drop_last() =~= c@.subrange(i as int, k as int));
        }
        let dv = (ch as u64) - ('0' as u64);
        let nv = v * 10 + dv;
        if nv > u32::MAX as u64 {
            proof {
                assert(c@.subrange(i as int, k + 1) =~= d.take(k + 1 - i));
                assert(c@.subrange(i as int, k + 1).last() == ch);
                if forall|q: int| 0 <= q < d.len() ==> is_digit(#[trigger] d[q]) {
                    lemma_digits_value_mono(d, k + 1 - i);
                    assert(digits_value(d) > u32::MAX);
                } else {
                    assert(exists|q: int| 0 <= q < d.len() && !is_digit(#[trigger] d[q]));
                }
            }
            return None;
        }
        proof {
            assert(c@.subrange(i as int, k + 1).last() == ch);
        }
        v = nv;
        k = k + 1;
    }
    proof {
        assert(c@.subrange(i as int, k as int) =~= d);
        assert forall|q: int| 0 <= q < d.len() implies is_digit(#[trigger] d[q]) by {
            assert(d[q] == c@[i + q]);
        }
    }
    Some(v as u32)
}

pub(crate) proof fn lemma_digits_value_mono(d: Seq<char>, k: int)
    requires
        0 <= k <= d.len(),
        forall|q: int| 0 <= q < d.len() ==> is_digit(#[trigger] d[q]),
    ensures
        digits_value(d.take(k)) <= digits_value(d),
    decreases d.len() - k,
{
    if k < d.len() {
        lemma_digits_value_mono(d, k + 1);
        assert(d.take(k + 1).drop_last() =~= d.take(k));
    } else {
        assert(d.take(k) =~= d);
    }
}

} // verus!

verus! {

/// Parse a list of pairs, one `from to` per line; blank lines and lines
/// starting with `#` are skipped.
pub fn parse_pairs(text: &str) -> (r: Result<Vec<Pair>, String>)
    ensures
        r is Ok <==> parse_pairs_spec(lines_of(text@)) is Some,
        r matches Ok(v) ==> parse_pairs_spec(lines_of(text@)) == Some(v@),
        r matches Err(e) ==> e@ == pairs_error(lines_of(text@), 0),
{
    let c = crate::law::chars_of(text);
    let mut out: Vec<Pair> = Vec::new();
    let mut start: usize = 0;
    let mut n: usize = 0;
    let len = c.len();
    proof {
        assert(c@.skip(0) =~= c@);
        assert forall|rest: Seq<Pair>| Seq::<Pair>::empty() + rest =~= rest by {}
    }
    while start < len
        invariant
            len == c@.len(),
            c@ == text@,
            start <= len,
            n <= start,
            parse_pairs_spec(lines_of(text@)) == match parse_pairs_spec(lines_of(c@.skip(start as int))) {
                Some(rest) => Some(out@ + rest),
                None => None,
            },
            pairs_error(lines_of(text@), 0) == pairs_error(lines_of(c@.skip(start as int)), n as nat),
        decreases len - start,
    {
        let end = crate::law::line_end(&c, start);
        n = n + 1;
        let line = crate::law::trim_chars(&c, start, end);
        let next = if end < len {
            end + 1
        } else {
            len
        };
        if line.len() == 0 || line[0] == '#' {
            start = next;
            continue;
        }
        let ll = line.len();
        let from = match next_token_at(&line, 0, ll) {
            Some((a, b)) => match parse_u32_at(&line, a, b) {
                Some(v) => Some((v, b)),
                None => None,
            },
            None => None,
        };
        proof {
            assert(line@.subrange(0, ll as int) =~= line@);
        }
        let (from, after) = match from {
            Some(v) => v,
            None => {
                return Err(msg_bad("source", n));
            },
        };
        let to = match next_token_at(&line, after, ll) {
            Some((a, b)) => parse_u32_at(&line, a, b),
            None => None,
        };
        let to = match to {
            Some(v) => v,
            None => {
                return Err(msg_bad("target", n));
            },
        };
        let ghost before = out@;
        out.push(Pair { from, to });
        proof {
            if let Some(rest) = parse_pairs_spec(lines_of(c@.skip(next as int))) {
                assert(before + (seq![Pair { from, to }] + rest) =~= out@ + rest);
            }
        }
        start = next;
    }
    proof {
        assert(c@.skip(start as int) =~= Seq::<char>::empty());
        assert(out@ + Seq::<Pair>::empty() =~= out@);
    }
    Ok(out)
}

} // verus!

verus! {

/// The positions `k` of the pairs `(a, b)` that a signature separates: it
/// satisfies law `a` and refutes law `b` (0-based), in increasing order.
pub open spec fn discharged_spec(sig: Seq<bool>, pairs: Seq<(usize, usize)>) -> Seq<usize>
    decreases pairs.len(),
{
    if pairs.len() == 0 {
        Seq::empty()
    } else {
        let rest = discharged_spec(sig, pairs.drop_last());
        let p = pairs.last();
        if sig[p.0 as int] && !sig[p.1 as int] {
            rest.push((pairs.len() - 1) as usize)
        } else {
            rest
        }
    }
}

/// Which of the target pairs (as law positions) a signature discharges.
pub fn discharged(sig: &Signature, pairs: &[(usize, usize)]) -> (out: Vec<usize>)
    requires
        forall|k: int| 0 <= k < pairs@.len() ==> (#[trigger] pairs@[k]).0 < sig@.len() && pairs@[k].1 < sig@.len(),
    ensures
        out@ == discharged_spec(sig@, pairs@),
{
    let mut out: Vec<usize> = Vec::new();
    let mut k: usize = 0;
    while k < pairs.len()
        invariant
            k <= pairs@.len(),
            forall|q: int| 0 <= q < pairs@.len() ==> (#[trigger] pairs@[q]).0 < sig@.len() && pairs@[q].1 < sig@.len(),
            out@ == discharged_spec(sig@, pairs@.take(k as int)),
        decreases pairs@.len() - k,
    {
        let (a, b) = pairs[k];
        proof {
            assert(pairs@.take(k + 1).drop_last() =~= pairs@.take(k as int));
            assert(pairs@.take(k + 1).last() == pairs@[k as int]);
        }
        if sig.get(a) && !sig.get(b) {
            out.push(k);
        }
        k = k + 1;
    }
    proof {
        assert(pairs@.take(k as int) =~= pairs@);
    }
    out
}

/// `v` is strictly increasing.
pub open spec fn ascending(v: Seq<u32>) -> bool {
    forall|i: int, j: int| 0 <= i < j < v.len() ==> v[i] < v[j]
}

/// The laws a list of pairs mentions.
pub open spec fn mentioned(pairs: Seq<Pair>, x: u32) -> bool {
    exists|k: int| 0 <= k < pairs.len() && ((#[trigger] pairs[k]).from == x || pairs[k].to == x)
}

/// Insert `x` into an ascending list unless it is there already.
fn insert_sorted(v: &mut Vec<u32>, x: u32)
    requires
        ascending(old(v)@),
    ensures
        ascending(final(v)@),
        forall|y: u32| final(v)@.contains(y) <==> (old(v)@.contains(y) || y == x),
{
    let mut pos: usize = 0;
    while pos < v.len() && v[pos] < x
        invariant
            pos <= v@.len(),
            forall|i: int| 0 <= i < pos ==> v@[i] < x,
        decreases v@.len() - pos,
    {
        pos = pos + 1;
    }
    if pos < v.len() && v[pos] == x {
        proof {
            assert(v@[pos as int] == x);
        }
        return;
    }
    let ghost before = v@;
    v.insert(pos, x);
    proof {
        before.insert_ensures(pos as int, x);
        assert forall|y: u32| v@.contains(y) <==> (before.contains(y) || y == x) by {
            if v@.contains(y) {
                let i = choose|i: int| 0 <= i < v@.len() && v@[i] == y;
                if i < pos {
                    assert(before[i] == y);
                } else if i > pos {
                    assert(before[i - 1] == y);
                }
            }
            if before.contains(y) {
                let i = choose|i: int| 0 <= i < before.len() && before[i] == y;
                if i < pos {
                    assert(v@[i] == y);
                } else {
                    assert(v@[i + 1] == y);
                }
            }
            if y == x {
                assert(v@[pos as int] == y);
            }
        }
        assert forall|i: int, j: int| 0 <= i < j < v@.len() implies v@[i] < v@[j] by {
            if pos < before.len() {
                assert(before[pos as int] > x);
            }
            if j < pos {
                assert(v@[i] == before[i] && v@[j] == before[j]);
            } else if j == pos {
                assert(v@[i] == before[i]);
            } else if i < pos {
                assert(v@[j] == before[j - 1]);
                assert(v@[i] == before[i]);
                assert(before[i] < x);
                if j - 1 > pos {
                    assert(before[pos as int] < before[j - 1]);
                }
            } else if i == pos {
                assert(v@[j] == before[j - 1]);
                if j - 1 > pos {
                    assert(before[pos as int] < before[j - 1]);
                }
            } else {
                assert(v@[i] == before[i - 1] && v@[j] == before[j - 1]);
            }
        }
    }
}

/// Where `x` stands in `v`.
fn position_of(v: &Vec<u32>, x: u32) -> (r: usize)
    requires
        v@.contains(x),
    ensures
        r < v@.len(),
        v@[r as int] == x,
{
    let mut i: usize = 0;
    while i < v.len()
        invariant
            i <= v@.len(),
            v@.contains(x),
            forall|j: int| 0 <= j < i ==> v@[j] != x,
        decreases v@.len() - i,
    {
        if v[i] == x {
            return i;
        }
        i = i + 1;
    }
    proof {
        let j = choose|j: int| 0 <= j < v@.len() && v@[j] == x;
        assert(false);
    }
    0
}

/// The sub-problem a list of pairs poses: the laws they mention, ascending
/// and each once, and every pair as a pair of positions in that list.
/// Sweeps over huge grids evaluate only these laws.
pub fn subproblem(pairs: &[Pair]) -> (r: (Vec<u32>, Vec<(usize, usize)>))
    ensures
        ascending(r.0@),
        forall|x: u32| r.0@.contains(x) <==> mentioned(pairs@, x),
        r.1@.len() == pairs@.len(),
        forall|k: int|
            0 <= k < pairs@.len() ==> {
                let (a, b) = #[trigger] r.1@[k];
                &&& a < r.0@.len() && b < r.0@.len()
                &&& r.0@[a as int] == pairs@[k].from
                &&& r.0@[b as int] == pairs@[k].to
            },
{
    let mut ids: Vec<u32> = Vec::new();
    let mut k: usize = 0;
    while k < pairs.len()
        invariant
            k <= pairs@.len(),
            ascending(ids@),
            forall|x: u32| ids@.contains(x) <==> mentioned(pairs@.take(k as int), x),
        decreases pairs@.len() - k,
    {
        let p = pairs[k];
        insert_sorted(&mut ids, p.from);
        insert_sorted(&mut ids, p.to);
        proof {
            let t = pairs@.take(k + 1);
            assert forall|x: u32| ids@.contains(x) <==> mentioned(t, x) by {
                if mentioned(t, x) {
                    let q = choose|q: int| 0 <= q < t.len() && ((#[trigger] t[q]).from == x || t[q].to == x);
                    if q < k {
                        assert(pairs@.take(k as int)[q] == t[q]);
                        assert(mentioned(pairs@.take(k as int), x));
                    }
                }
                if mentioned(pairs@.take(k as int), x) {
                    let q = choose|q: int| 0 <= q < k && ((#[trigger] pairs@.take(k as int)[q]).from == x || pairs@.take(k as int)[q].to == x);
                    assert(t[q] == pairs@.take(k as int)[q]);
                }
                assert(t[k as int] == p);
            }
        }
        k = k + 1;
    }
    proof {
        assert(pairs@.take(k as int) =~= pairs@);
    }
    let mut idx: Vec<(usize, usize)> = Vec::new();
    let mut k: usize = 0;
    while k < pairs.len()
        invariant
            k <= pairs@.len(),
            forall|x: u32| ids@.contains(x) <==> mentioned(pairs@, x),
            idx@.len() == k,
            forall|q: int|
                0 <= q < k ==> {
                    let (a, b) = #[trigger] idx@[q];
                    &&& a < ids@.len() && b < ids@.len()
                    &&& ids@[a as int] == pairs@[q].from
                    &&& ids@[b as int] == pairs@[q].to
                },
        decreases pairs@.len() - k,
    {
        let p = pairs[k];
        proof {
            assert(mentioned(pairs@, p.from) && mentioned(pairs@, p.to)) by {
                assert(pairs@[k as int] == p);
            }
        }
        let a = position_of(&ids, p.from);
        let b = position_of(&ids, p.to);
        idx.push((a, b));
        k = k + 1;
    }
    (ids, idx)
}

} // verus!
