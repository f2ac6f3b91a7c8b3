//! Loaders for the ETP data files.
//!
//! These files are the differential-test oracle: the engine is not trusted
//! until it reproduces them exactly. Reading the files is left to the
//! caller; this module turns their bytes and text into values.

use crate::finite::{flatten_rows, row_views, rows_ok, BadTable, FiniteMagma};
use crate::graph::{digits_value, is_digit, lemma_digits_value_mono, next_token, next_token_at, unsigned_digits};
use crate::problems::{decimal, push_decimal, push_str, string_of};
use crate::law::{chars_of, find, is_ws, lemma_find_at, line_end, lines_of, trim, trim_end, trim_start, whitespace};
use std::io::Read;
use vstd::prelude::*;

verus! {

// ---------------------------------------------------------------------------
// The grammar of the files, as specifications.
// ---------------------------------------------------------------------------

/// `str::parse` for an unsigned type whose largest value is `max`: an
/// optional `+`, then at least one decimal digit, with a value that fits.
pub open spec fn parse_uint_spec(tok: Seq<char>, max: nat) -> Option<nat> {
    let d = unsigned_digits(tok);
    if d.len() == 0 || exists|i: int| 0 <= i < d.len() && !is_digit(#[trigger] d[i]) {
        None
    } else if digits_value(d) <= max {
        Some(digits_value(d))
    } else {
        None
    }
}

/// What lies between the outer brackets of a trimmed `[ ... ]`.
pub open spec fn bracket_inner(s: Seq<char>) -> Option<Seq<char>> {
    let t = trim(s);
    if t.len() >= 2 && t[0] == '[' && t.last() == ']' {
        Some(t.subrange(1, t.len() - 1))
    } else {
        None
    }
}

/// `str::split(sep)`: `k` separators give `k + 1` pieces.
pub open spec fn split_on(s: Seq<char>, sep: char) -> Seq<Seq<char>>
    decreases s.len(),
{
    match find(s, sep) {
        Some(i) => if i < s.len() {
            seq![s.take(i as int)] + split_on(s.skip((i + 1) as int), sep)
        } else {
            seq![s]
        },
        None => seq![s],
    }
}

/// The numbers of a comma list: blank pieces are skipped, every other piece
/// must be a number no larger than `max`.
pub open spec fn uint_items(pieces: Seq<Seq<char>>, max: nat) -> Option<Seq<nat>>
    decreases pieces.len(),
{
    if pieces.len() == 0 {
        Some(Seq::empty())
    } else {
        let t = trim(pieces[0]);
        let rest = uint_items(pieces.drop_first(), max);
        if t.len() == 0 {
            rest
        } else {
            match (parse_uint_spec(t, max), rest) {
                (Some(v), Some(r)) => Some(seq![v] + r),
                _ => None,
            }
        }
    }
}

/// A flat list such as `[1, 8, 10]`.
pub open spec fn flat_spec(s: Seq<char>) -> Option<Seq<nat>> {
    match bracket_inner(s) {
        Some(inner) => uint_items(split_on(inner, ','), u32::MAX as nat),
        None => None,
    }
}

/// The state of the row scanner over a nested list: the bracket depth, the
/// text gathered at depth one since the last `[`, and the rows closed so
/// far. A row that is not a list of bytes refuses the input; a `]` at depth
/// zero has nothing to close.
pub enum RowScan {
    Open { depth: nat, cur: Seq<char>, rows: Seq<Seq<u8>> },
    Refused,
    Unbalanced,
}

/// The bytes of a row's text.
pub open spec fn row_items(cur: Seq<char>) -> Option<Seq<u8>> {
    match uint_items(split_on(cur, ','), 255) {
        Some(v) => Some(v.map_values(|x: nat| x as u8)),
        None => None,
    }
}

/// One character of the row scanner.
pub open spec fn scan_step(st: RowScan, ch: char) -> RowScan {
    match st {
        RowScan::Open { depth, cur, rows } => if ch == '[' {
            RowScan::Open { depth: depth + 1, cur: Seq::empty(), rows }
        } else if ch == ']' {
            if depth == 0 {
                RowScan::Unbalanced
            } else {
                match row_items(cur) {
                    Some(r) => RowScan::Open { depth: (depth - 1) as nat, cur, rows: rows.push(r) },
                    None => RowScan::Refused,
                }
            }
        } else if depth == 1 {
            RowScan::Open { depth, cur: cur.push(ch), rows }
        } else {
            st
        },
        _ => st,
    }
}

/// The row scanner run over `s`.
pub open spec fn scan_rows(s: Seq<char>) -> RowScan
    decreases s.len(),
{
    if s.len() == 0 {
        RowScan::Open { depth: 0, cur: Seq::empty(), rows: Seq::empty() }
    } else {
        scan_step(scan_rows(s.drop_last()), s.last())
    }
}

/// A nested list such as `[[0, 0], [1, 0]]`, scanned.
pub open spec fn rows_spec(s: Seq<char>) -> RowScan {
    match bracket_inner(s) {
        Some(inner) => scan_rows(inner),
        None => RowScan::Refused,
    }
}

} // verus!

verus! {

// ---------------------------------------------------------------------------
// Numbers and flat lists.
// ---------------------------------------------------------------------------

/// The values of a list of machine integers.
pub open spec fn nats(v: Seq<u64>) -> Seq<nat> {
    v.map_values(|x: u64| x as nat)
}

/// `pre` in front of a parsed list, when there is one.
pub open spec fn prepend_items<T>(pre: Seq<T>, o: Option<Seq<T>>) -> Option<Seq<T>> {
    match o {
        Some(s) => Some(pre + s),
        None => None,
    }
}

/// The trimmed part of `lo..hi`, as positions.
fn trim_bounds(c: &Vec<char>, lo: usize, hi: usize) -> (r: (usize, usize))
    requires
        lo <= hi <= c@.len(),
    ensures
        lo <= r.0 <= r.1 <= hi,
        c@.subrange(r.0 as int, r.1 as int) == trim(c@.subrange(lo as int, hi as int)),
{
    let mut i = lo;
    while i < hi && whitespace(c[i])
        invariant
            lo <= i <= hi <= c@.len(),
            trim_start(c@.subrange(lo as int, hi as int)) == trim_start(c@.subrange(i as int, hi as int)),
        decreases hi - i,
    {
        proof {
            assert(c@.subrange(i as int, hi as int).drop_first() =~= c@.subrange(i + 1, hi as int));
        }
        i = i + 1;
    }
    proof {
        if i < hi {
            assert(c@.subrange(i as int, hi as int)[0] == c@[i as int]);
        }
        assert(trim_start(c@.subrange(i as int, hi as int)) == c@.subrange(i as int, hi as int));
    }
    let mut j = hi;
    while j > i && whitespace(c[j - 1])
        invariant
            lo <= i <= j <= hi <= c@.len(),
            trim_end(c@.subrange(i as int, hi as int)) == trim_end(c@.subrange(i as int, j as int)),
        decreases j - i,
    {
        proof {
            assert(c@.subrange(i as int, j as int).drop_last() =~= c@.subrange(i as int, j - 1));
        }
        j = j - 1;
    }
    proof {
        if j > i {
            assert(c@.subrange(i as int, j as int).last() == c@[j - 1]);
        }
        assert(trim_end(c@.subrange(i as int, j as int)) == c@.subrange(i as int, j as int));
    }
    (i, j)
}

/// `str::parse` on the characters `a..b`, for an unsigned type whose
/// largest value is `max`.
fn parse_uint_at(c: &Vec<char>, a: usize, b: usize, max: u64) -> (r: Option<u64>)
    requires
        a <= b <= c@.len(),
    ensures
        parse_uint_spec(c@.subrange(a as int, b as int), max as nat) == match r {
            Some(v) => Some(v as nat),
            None => None,
        },
        r matches Some(v) ==> v <= max,
{
    let ghost tok = c@.subrange(a as int, b as int);
    let mut i = a;
    proof {
        if a < b {
            assert(tok[0] == c@[a as int]);
        }
    }
    if i < b && c[i] == '+' {
        i = i + 1;
    }
    let ghost d = c@.subrange(i as int, b as int);
    proof {
        if a < b && c@[a as int] == '+' {
            assert(tok.drop_first() =~= d);
        } else {
            assert(tok =~= d);
        }
        assert(unsigned_digits(tok) == d);
    }
    if i == b {
        return None;
    }
    let mut v: u128 = 0;
    let mut k = i;
    while k < b
        invariant
            a <= i <= k <= b <= c@.len(),
            d == c@.subrange(i as int, b as int),
            tok == c@.subrange(a as int, b as int),
            unsigned_digits(tok) == d,
            forall|q: int| i <= q < k ==> is_digit(c@[q]),
            v == digits_value(c@.subrange(i as int, k as int)),
            v <= max,
        decreases b - k,
    {
        let ch = c[k];
        if !('0' <= ch && ch <= '9') {
            proof {
                assert(d[k - i] == c@[k as int]);
                assert(!is_digit(d[k - i]));
                assert(exists|q: int| 0 <= q < d.len() && !is_digit(#[trigger] d[q]));
            }
            return None;
        }
        proof {
            assert(c@.subrange(i as int, k + 1).drop_last() =~= c@.subrange(i as int, k as int));
        }
        let dv = (ch as u128) - ('0' as u128);
        let nv = v * 10 + dv;
        if nv > max as u128 {
            proof {
                assert(c@.subrange(i as int, k + 1) =~= d.take(k + 1 - i));
                assert(c@.subrange(i as int, k + 1).last() == ch);
                if forall|q: int| 0 <= q < d.len() ==> is_digit(#[trigger] d[q]) {
                    lemma_digits_value_mono(d, k + 1 - i);
                    assert(digits_value(d) > max);
                } else {
                    assert(exists|q: int| 0 <= q < d.len() && !is_digit(#[trigger] d[q]));
                }
            }
            return None;
        }
        proof {
            assert(c@.subrange(i as int, k + 1).last() == ch);
        }
        v = nv;
        k = k + 1;
    }
    proof {
        assert(c@.subrange(i as int, k as int) =~= d);
        assert forall|q: int| 0 <= q < d.len() implies is_digit(#[trigger] d[q]) by {
            assert(d[q] == c@[i + q]);
        }
    }
    Some(v as u64)
}

/// How `split_on` splits at the first separator at or after `start`.
proof fn lemma_split(s: Seq<char>, sep: char, start: int, e: int, hi: int)
    requires
        0 <= start <= e <= hi <= s.len(),
        forall|k: int| start <= k < e ==> s[k] != sep,
        e < hi ==> s[e] == sep,
    ensures
        split_on(s.subrange(start, hi), sep) == seq![s.subrange(start, e)] + if e < hi {
            split_on(s.subrange(e + 1, hi), sep)
        } else {
            Seq::empty()
        },
{
    let t = s.subrange(start, hi);
    assert forall|k: int| 0 <= k < e - start implies t[k] != sep by {
        assert(t[k] == s[start + k]);
    }
    if e < hi {
        assert(t[e - start] == s[e]);
    }
    lemma_find_at(t, sep, e - start);
    if e < hi {
        assert(t.take(e - start) =~= s.subrange(start, e));
        assert(t.skip(e - start + 1) =~= s.subrange(e + 1, hi));
    } else {
        assert(t =~= s.subrange(start, e));
        assert(seq![t] + Seq::<Seq<char>>::empty() =~= seq![t]);
    }
}

/// The numbers of the comma list in `lo..hi`, each at most `max`.
/// On failure, the bounds of the first token that does not read.
fn items_at(c: &Vec<char>, lo: usize, hi: usize, max: u64) -> (r: Result<Vec<u64>, (usize, usize)>)
    requires
        lo <= hi <= c@.len(),
    ensures
        uint_items(split_on(c@.subrange(lo as int, hi as int), ','), max as nat) == match r {
            Ok(v) => Some(nats(v@)),
            Err(_) => None,
        },
        r matches Ok(v) ==> forall|i: int| 0 <= i < v@.len() ==> v@[i] <= max,
        r matches Err((a, b)) ==> lo <= a <= b <= hi,
{
    let mut out: Vec<u64> = Vec::new();
    let mut start = lo;
    proof {
        assert(nats(out@) + Seq::<nat>::empty() =~= Seq::<nat>::empty());
        assert forall|s: Seq<nat>| nats(out@) + s =~= s by {}
    }
    loop
        invariant
            lo <= start <= hi <= c@.len(),
            forall|i: int| 0 <= i < out@.len() ==> out@[i] <= max,
            uint_items(split_on(c@.subrange(lo as int, hi as int), ','), max as nat) == prepend_items(
                nats(out@),
                uint_items(split_on(c@.subrange(start as int, hi as int), ','), max as nat),
            ),
        decreases hi - start,
    {
        let mut e = start;
        while e < hi && c[e] != ','
            invariant
                start <= e <= hi <= c@.len(),
                forall|k: int| start <= k < e ==> c@[k] != ',',
            decreases hi - e,
        {
            e = e + 1;
        }
        let ghost rest: Seq<Seq<char>> = if e < hi {
            split_on(c@.subrange(e + 1, hi as int), ',')
        } else {
            Seq::empty()
        };
        proof {
            lemma_split(c@, ',', start as int, e as int, hi as int);
            let ps = split_on(c@.subrange(start as int, hi as int), ',');
            assert(ps[0] == c@.subrange(start as int, e as int));
            assert(ps.drop_first() =~= rest);
            if e == hi {
                assert(uint_items(rest, max as nat) == Some(Seq::<nat>::empty()));
            }
        }
        let (a, b) = trim_bounds(c, start, e);
        if a < b {
            match parse_uint_at(c, a, b, max) {
                Some(v) => {
                    let ghost before = nats(out@);
                    out.push(v);
                    proof {
                        assert(nats(out@) =~= before.push(v as nat));
                        assert forall|s: Seq<nat>| before + (seq![v as nat] + s) =~= nats(out@) + s by {}
                    }
                },
                None => {
                    return Err((a, b));
                },
            }
        }
        if e == hi {
            proof {
                assert(nats(out@) + Seq::<nat>::empty() =~= nats(out@));
            }
            return Ok(out);
        }
        start = e + 1;
    }
}

/// Narrow to `u32`.
fn to_u32s(v: &Vec<u64>) -> (r: Vec<u32>)
    requires
        forall|i: int| 0 <= i < v@.len() ==> v@[i] <= u32::MAX,
    ensures
        r@.len() == v@.len(),
        forall|i: int| 0 <= i < v@.len() ==> r@[i] == v@[i],
{
    let mut r: Vec<u32> = Vec::new();
    let mut i: usize = 0;
    while i < v.len()
        invariant
            i <= v@.len(),
            r@.len() == i,
            forall|k: int| 0 <= k < v@.len() ==> v@[k] <= u32::MAX,
            forall|k: int| 0 <= k < i ==> r@[k] == v@[k],
        decreases v@.len() - i,
    {
        r.push(v[i] as u32);
        i = i + 1;
    }
    r
}

/// Narrow to `u8`.
fn to_u8s(v: &Vec<u64>) -> (r: Vec<u8>)
    requires
        forall|i: int| 0 <= i < v@.len() ==> v@[i] <= 255,
    ensures
        r@.len() == v@.len(),
        forall|i: int| 0 <= i < v@.len() ==> r@[i] == v@[i],
{
    let mut r: Vec<u8> = Vec::new();
    let mut i: usize = 0;
    while i < v.len()
        invariant
            i <= v@.len(),
            r@.len() == i,
            forall|k: int| 0 <= k < v@.len() ==> v@[k] <= 255,
            forall|k: int| 0 <= k < i ==> r@[k] == v@[k],
        decreases v@.len() - i,
    {
        r.push(v[i] as u8);
        i = i + 1;
    }
    r
}

/// The positions just inside the outer brackets of a trimmed `[ ... ]`.
fn bracket_bounds(c: &Vec<char>, lo: usize, hi: usize) -> (r: Option<(usize, usize)>)
    requires
        lo <= hi <= c@.len(),
    ensures
        match bracket_inner(c@.subrange(lo as int, hi as int)) {
            Some(inner) => r matches Some((a, b)) && lo <= a <= b <= hi && inner == c@.subrange(
                a as int,
                b as int,
            ),
            None => r is None,
        },
{
    let (i, j) = trim_bounds(c, lo, hi);
    let ghost t = c@.subrange(i as int, j as int);
    if j - i >= 2 && c[i] == '[' && c[j - 1] == ']' {
        proof {
            assert(t[0] == c@[i as int]);
            assert(t.last() == c@[j - 1]);
            assert(t.subrange(1, t.len() - 1) =~= c@.subrange(i + 1, j - 1));
        }
        Some((i + 1, j - 1))
    } else {
        proof {
            if t.len() >= 2 {
                assert(t[0] == c@[i as int]);
                assert(t.last() == c@[j - 1]);
            }
        }
        None
    }
}

/// `format!("{:?}", ..)` of the text `lo..hi`: the text quoted as a string
/// literal, with escapes. What it returns is not stated here.
#[verifier::external_body]
fn quoted(c: &[char], lo: usize, hi: usize) -> String
    requires
        lo <= hi <= c@.len(),
{
    format!("{:?}", c[lo..hi].iter().collect::<String>())
}

/// The message of std's `ParseIntError` for reading the text `lo..hi` as a
/// `u8`, or the empty text where it reads. What it returns is not stated
/// here.
#[verifier::external_body]
fn u8_error(c: &[char], lo: usize, hi: usize) -> String
    requires
        lo <= hi <= c@.len(),
{
    match c[lo..hi].iter().collect::<String>().parse::<u8>() {
        Err(e) => e.to_string(),
        Ok(_) => String::new(),
    }
}

/// The message of std's `ParseIntError` for reading the text `lo..hi` as a
/// `u32`, or the empty text where it reads. What it returns is not stated
/// here.
#[verifier::external_body]
fn u32_error(c: &[char], lo: usize, hi: usize) -> String
    requires
        lo <= hi <= c@.len(),
{
    match c[lo..hi].iter().collect::<String>().parse::<u32>() {
        Err(e) => e.to_string(),
        Ok(_) => String::new(),
    }
}

/// The message of std's `ParseIntError` for reading the text `lo..hi` as a
/// `usize`, or the empty text where it reads. What it returns is not stated
/// here.
#[verifier::external_body]
fn usize_error(c: &[char], lo: usize, hi: usize) -> String
    requires
        lo <= hi <= c@.len(),
{
    match c[lo..hi].iter().collect::<String>().parse::<usize>() {
        Err(e) => e.to_string(),
        Ok(_) => String::new(),
    }
}

/// The pieces, one after the other.
fn joined(a: &str, b: &str, c: &str) -> (r: String)
    ensures
        r@ == a@ + b@ + c@,
{
    let mut out: Vec<char> = Vec::new();
    push_str(&mut out, a);
    push_str(&mut out, b);
    push_str(&mut out, c);
    string_of(out)
}

/// A token that does not read: `"tok": reason`.
fn bad_number(tok: String, why: String) -> (r: String)
    ensures
        r@ == tok@ + ": "@ + why@,
{
    joined(tok.as_str(), ": ", why.as_str())
}

/// A text that is not bracketed: `not a <what>: "text"`.
fn not_a(what: &str, text: String) -> (r: String)
    ensures
        r@ == "not a "@ + what@ + ": "@ + text@,
{
    let mut out: Vec<char> = Vec::new();
    push_str(&mut out, "not a ");
    push_str(&mut out, what);
    push_str(&mut out, ": ");
    push_str(&mut out, text.as_str());
    string_of(out)
}

/// Parse a flat integer list such as `[1, 8, 10]` in `lo..hi`.
fn parse_flat(c: &Vec<char>, lo: usize, hi: usize) -> (r: Result<Vec<u32>, String>)
    requires
        lo <= hi <= c@.len(),
    ensures
        match flat_spec(c@.subrange(lo as int, hi as int)) {
            Some(s) => r matches Ok(v) && v@.len() == s.len() && forall|i: int|
                0 <= i < s.len() ==> v@[i] == s[i],
            None => r is Err,
        },
{
    match bracket_bounds(c, lo, hi) {
        None => Err(not_a("list", quoted(c.as_slice(), lo, hi))),
        Some((a, b)) => match items_at(c, a, b, 0xffff_ffff) {
            Err((t0, t1)) => Err(bad_number(quoted(c.as_slice(), t0, t1), u32_error(c.as_slice(), t0, t1))),
            Ok(v) => Ok(to_u32s(&v)),
        },
    }
}

} // verus!

verus! {

// ---------------------------------------------------------------------------
// Nested lists.
// ---------------------------------------------------------------------------

/// Once the scanner has refused or found a stray `]`, the rest of the text
/// does not change the outcome.
proof fn lemma_scan_stops(s: Seq<char>, k: int)
    requires
        0 <= k <= s.len(),
        !(scan_rows(s.take(k)) is Open),
    ensures
        scan_rows(s) == scan_rows(s.take(k)),
    decreases s.len(),
{
    if k == s.len() {
        assert(s.take(k) =~= s);
    } else {
        assert(s.drop_last().take(k) =~= s.take(k));
        lemma_scan_stops(s.drop_last(), k);
    }
}

/// `Err(None)` stands for a `]` with nothing to close.
fn parse_rows(c: &Vec<char>, lo: usize, hi: usize) -> (r: Result<Vec<Vec<u8>>, Option<String>>)
    requires
        lo <= hi <= c@.len(),
    ensures
        match rows_spec(c@.subrange(lo as int, hi as int)) {
            RowScan::Open { rows, .. } => r matches Ok(v) && row_views(v@) == rows,
            RowScan::Refused => r matches Err(Some(_)),
            RowScan::Unbalanced => r matches Err(None),
        },
{
    let (a, b) = match bracket_bounds(c, lo, hi) {
        None => {
            return Err(Some(not_a("table", quoted(c.as_slice(), lo, hi))));
        },
        Some(p) => p,
    };
    let ghost inner = c@.subrange(a as int, b as int);
    let mut rows: Vec<Vec<u8>> = Vec::new();
    let mut depth: usize = 0;
    let mut cur: Vec<char> = Vec::new();
    let mut k = a;
    proof {
        assert(c@.subrange(a as int, a as int) =~= Seq::<char>::empty());
        assert(row_views(rows@) =~= Seq::<Seq<u8>>::empty());
    }
    while k < b
        invariant
            a <= k <= b <= c@.len(),
            inner == c@.subrange(a as int, b as int),
            rows_spec(c@.subrange(lo as int, hi as int)) == scan_rows(inner),
            depth <= k - a,
            scan_rows(c@.subrange(a as int, k as int)) == (RowScan::Open {
                depth: depth as nat,
                cur: cur@,
                rows: row_views(rows@),
            }),
        decreases b - k,
    {
        let ghost before = c@.subrange(a as int, k as int);
        let ghost after = c@.subrange(a as int, k + 1);
        proof {
            assert(after.drop_last() =~= before);
            assert(after.last() == c@[k as int]);
            assert(inner.take(k + 1 - a) =~= after);
        }
        let ch = c[k];
        if ch == '[' {
            depth = depth + 1;
            cur = Vec::new();
            proof {
                assert(cur@ =~= Seq::<char>::empty());
            }
        } else if ch == ']' {
            if depth == 0 {
                proof {
                    lemma_scan_stops(inner, k + 1 - a);
                }
                return Err(None);
            }
            depth = depth - 1;
            let n = cur.len();
            proof {
                assert(cur@.subrange(0, n as int) =~= cur@);
            }
            match items_at(&cur, 0, n, 255) {
                Err((t0, t1)) => {
                    proof {
                        lemma_scan_stops(inner, k + 1 - a);
                    }
                    return Err(Some(bad_number(quoted(cur.as_slice(), t0, t1), u8_error(cur.as_slice(), t0, t1))));
                },
                Ok(v) => {
                    let row = to_u8s(&v);
                    proof {
                        assert(row@ =~= nats(v@).map_values(|x: nat| x as u8));
                    }
                    let ghost old_rows = rows@;
                    rows.push(row);
                    proof {
                        assert(row_views(rows@) =~= row_views(old_rows).push(row@));
                    }
                },
            }
        } else if depth == 1 {
            cur.push(ch);
        }
        k = k + 1;
    }
    Ok(rows)
}

} // verus!

verus! {

// ---------------------------------------------------------------------------
// The three files.
// ---------------------------------------------------------------------------

/// The outcome of loading a file: its contents, a refusal, or a `]` with
/// nothing to close in one of its tables.
pub enum Loaded<T> {
    Done(T),
    Refused,
    Unbalanced,
}

/// Rows that form a valid table, as a carrier size and a flat table.
pub open spec fn table_of(rows: Seq<Seq<u8>>) -> Option<(nat, Seq<u8>)> {
    if rows_ok(rows) {
        Some((rows.len(), flatten_rows(rows)))
    } else {
        None
    }
}

/// A nested list read as a magma.
pub open spec fn magma_spec(s: Seq<char>) -> Loaded<(nat, Seq<u8>)> {
    match rows_spec(s) {
        RowScan::Open { rows, .. } => match table_of(rows) {
            Some(m) => Loaded::Done(m),
            None => Loaded::Refused,
        },
        RowScan::Refused => Loaded::Refused,
        RowScan::Unbalanced => Loaded::Unbalanced,
    }
}

pub open spec fn table_tag() -> Seq<char> {
    seq!['T', 'a', 'b', 'l', 'e', ' ']
}

pub open spec fn proves_tag() -> Seq<char> {
    seq!['P', 'r', 'o', 'v', 'e', 's', ' ']
}

/// `line` starts with `tag`.
pub open spec fn tagged(line: Seq<char>, tag: Seq<char>) -> bool {
    line.len() >= tag.len() && line.take(tag.len() as int) == tag
}

/// The entries of a refutations file, each a magma and the laws it
/// satisfies: a `Table` line sets the pending magma, a `Proves` line
/// completes it, every other line is ignored.
pub open spec fn refutations_spec(lines: Seq<Seq<char>>, pending: Option<(nat, Seq<u8>)>) -> Loaded<
    Seq<(nat, Seq<u8>, Seq<nat>)>,
>
    decreases lines.len(),
{
    if lines.len() == 0 {
        Loaded::Done(Seq::empty())
    } else {
        let line = trim(lines[0]);
        let rest = lines.drop_first();
        if tagged(line, table_tag()) {
            match magma_spec(line.skip(6)) {
                Loaded::Done(m) => refutations_spec(rest, Some(m)),
                Loaded::Refused => Loaded::Refused,
                Loaded::Unbalanced => Loaded::Unbalanced,
            }
        } else if tagged(line, proves_tag()) {
            match (flat_spec(line.skip(7)), pending) {
                (Some(p), Some(m)) => match refutations_spec(rest, None) {
                    Loaded::Done(es) => Loaded::Done(seq![(m.0, m.1, p)] + es),
                    other => other,
                },
                _ => Loaded::Refused,
            }
        } else {
            refutations_spec(rest, pending)
        }
    }
}

/// The entries of the smallest-examples file: `<eq_id> [[...], ...]`,
/// blank lines skipped.
pub open spec fn examples_spec(lines: Seq<Seq<char>>) -> Loaded<Seq<(nat, (nat, Seq<u8>))>>
    decreases lines.len(),
{
    if lines.len() == 0 {
        Loaded::Done(Seq::empty())
    } else {
        let line = trim(lines[0]);
        let rest = examples_spec(lines.drop_first());
        if line.len() == 0 {
            rest
        } else {
            match find(line, ' ') {
                None => Loaded::Refused,
                Some(p) => match parse_uint_spec(line.take(p as int), u32::MAX as nat) {
                    None => Loaded::Refused,
                    Some(id) => match magma_spec(line.skip((p + 1) as int)) {
                        Loaded::Done(m) => match rest {
                            Loaded::Done(es) => Loaded::Done(seq![(id, m)] + es),
                            other => other,
                        },
                        Loaded::Refused => Loaded::Refused,
                        Loaded::Unbalanced => Loaded::Unbalanced,
                    },
                },
            }
        }
    }
}

/// The entries of the smallest-sizes file: `<eq_id> <carrier size>`, blank
/// lines skipped, anything after the second token ignored.
pub open spec fn sizes_spec(lines: Seq<Seq<char>>) -> Option<Seq<(nat, nat)>>
    decreases lines.len(),
{
    if lines.len() == 0 {
        Some(Seq::empty())
    } else {
        let line = trim(lines[0]);
        let rest = sizes_spec(lines.drop_first());
        if line.len() == 0 {
            rest
        } else {
            match next_token(line) {
                None => None,
                Some((a, after)) => match parse_uint_spec(a, u32::MAX as nat) {
                    None => None,
                    Some(id) => match next_token(after) {
                        None => None,
                        Some((b, _)) => match parse_uint_spec(b, usize::MAX as nat) {
                            None => None,
                            Some(n) => match rest {
                                Some(r) => Some(seq![(id, n)] + r),
                                None => None,
                            },
                        },
                    },
                },
            }
        }
    }
}

/// How an error message names its line.
pub open spec fn line_prefix(k: nat) -> Seq<char> {
    "line "@ + decimal(k) + ": "@
}

/// Why a line of a smallest-examples file does not read: it has no space,
/// its id does not read, or its table does not.
pub enum ExamplesFault {
    NoSpace,
    BadId,
    BadTable,
}

/// The first line of a smallest-examples file that does not read,
/// numbered from `k`, and why.
pub open spec fn examples_fault(lines: Seq<Seq<char>>, k: nat) -> Option<(nat, ExamplesFault)>
    decreases lines.len(),
{
    if lines.len() == 0 {
        None
    } else {
        let line = trim(lines[0]);
        if line.len() == 0 {
            examples_fault(lines.drop_first(), k + 1)
        } else {
            match find(line, ' ') {
                None => Some((k, ExamplesFault::NoSpace)),
                Some(p) => match parse_uint_spec(line.take(p as int), u32::MAX as nat) {
                    None => Some((k, ExamplesFault::BadId)),
                    Some(_) => match magma_spec(line.skip((p + 1) as int)) {
                        Loaded::Done(_) => examples_fault(lines.drop_first(), k + 1),
                        _ => Some((k, ExamplesFault::BadTable)),
                    },
                },
            }
        }
    }
}

/// Why a line of a refutations file does not read: a table that does not
/// read, a list of laws that does not, or a `Proves` line with no table
/// before it.
pub enum RefutationsFault {
    BadTable,
    BadList,
    Orphan,
}

/// The first line of a refutations file that does not read, numbered from
/// `k`, and why; `pending` says whether a table waits for its `Proves`.
pub open spec fn refutations_fault(lines: Seq<Seq<char>>, pending: bool, k: nat) -> Option<(nat, RefutationsFault)>
    decreases lines.len(),
{
    if lines.len() == 0 {
        None
    } else {
        let line = trim(lines[0]);
        let rest = lines.drop_first();
        if tagged(line, table_tag()) {
            match magma_spec(line.skip(6)) {
                Loaded::Done(_) => refutations_fault(rest, true, k + 1),
                _ => Some((k, RefutationsFault::BadTable)),
            }
        } else if tagged(line, proves_tag()) {
            if flat_spec(line.skip(7)) is None {
                Some((k, RefutationsFault::BadList))
            } else if !pending {
                Some((k, RefutationsFault::Orphan))
            } else {
                refutations_fault(rest, false, k + 1)
            }
        } else {
            refutations_fault(rest, pending, k + 1)
        }
    }
}

/// Why a line of a sizes file does not read: it has no token, its id does
/// not read, it has no second token, or its size does not read.
pub enum SizesFault {
    Empty,
    BadId,
    NoSize,
    BadSize,
}

/// The first line of a sizes file that does not read, numbered from `k`,
/// and why.
pub open spec fn sizes_fault(lines: Seq<Seq<char>>, k: nat) -> Option<(nat, SizesFault)>
    decreases lines.len(),
{
    if lines.len() == 0 {
        None
    } else {
        let line = trim(lines[0]);
        if line.len() == 0 {
            sizes_fault(lines.drop_first(), k + 1)
        } else {
            match next_token(line) {
                None => Some((k, SizesFault::Empty)),
                Some((a, after)) => match parse_uint_spec(a, u32::MAX as nat) {
                    None => Some((k, SizesFault::BadId)),
                    Some(_) => match next_token(after) {
                        None => Some((k, SizesFault::NoSize)),
                        Some((b, _)) => match parse_uint_spec(b, usize::MAX as nat) {
                            None => Some((k, SizesFault::BadSize)),
                            Some(_) => sizes_fault(lines.drop_first(), k + 1),
                        },
                    },
                },
            }
        }
    }
}

/// One entry of a refutations file: a magma together with the *complete*
/// list of laws it satisfies, as computed by the ETP's own brute force.
/// This is the strongest oracle available, since it pins every one of the
/// law bits rather than a single one.
#[derive(Debug, Clone)]
pub struct RefutationEntry {
    pub magma: FiniteMagma,
    /// 1-based ETP equation ids, ascending.
    pub proves: Vec<u32>,
}

/// What an entry holds, as plain values.
pub open spec fn entry_model(e: RefutationEntry) -> (nat, Seq<u8>, Seq<nat>) {
    (e.magma.n as nat, e.magma.table@, e.proves@.map_values(|x: u32| x as nat))
}

pub open spec fn magma_model(m: Option<FiniteMagma>) -> Option<(nat, Seq<u8>)> {
    match m {
        Some(m) => Some((m.n as nat, m.table@)),
        None => None,
    }
}

/// `pre` in front of a loaded list, when there is one.
pub open spec fn prepend_loaded<T>(pre: Seq<T>, o: Loaded<Seq<T>>) -> Loaded<Seq<T>> {
    match o {
        Loaded::Done(s) => Loaded::Done(pre + s),
        Loaded::Refused => Loaded::Refused,
        Loaded::Unbalanced => Loaded::Unbalanced,
    }
}

fn table_tag_chars() -> (r: Vec<char>)
    ensures
        r@ == table_tag(),
{
    let mut r: Vec<char> = Vec::new();
    r.push('T');
    r.push('a');
    r.push('b');
    r.push('l');
    r.push('e');
    r.push(' ');
    proof {
        assert(r@ =~= table_tag());
    }
    r
}

fn proves_tag_chars() -> (r: Vec<char>)
    ensures
        r@ == proves_tag(),
{
    let mut r: Vec<char> = Vec::new();
    r.push('P');
    r.push('r');
    r.push('o');
    r.push('v');
    r.push('e');
    r.push('s');
    r.push(' ');
    proof {
        assert(r@ =~= proves_tag());
    }
    r
}

/// The characters `i..j` start with `tag`.
fn has_tag(c: &Vec<char>, i: usize, j: usize, tag: &Vec<char>) -> (b: bool)
    requires
        i <= j <= c@.len(),
    ensures
        b == tagged(c@.subrange(i as int, j as int), tag@),
{
    let ghost line = c@.subrange(i as int, j as int);
    if j - i < tag.len() {
        return false;
    }
    let mut k: usize = 0;
    while k < tag.len()
        invariant
            i + tag@.len() <= j <= c@.len(),
            line == c@.subrange(i as int, j as int),
            k <= tag@.len(),
            forall|q: int| 0 <= q < k ==> line[q] == tag@[q],
        decreases tag@.len() - k,
    {
        if c[i + k] != tag[k] {
            proof {
                assert(line.take(tag@.len() as int)[k as int] != tag@[k as int]);
            }
            return false;
        }
        k = k + 1;
    }
    proof {
        assert(line.take(tag@.len() as int) =~= tag@);
    }
    true
}

/// `line <k>: ` and then `what`.
fn line_error(k: usize, what: &str) -> (r: String)
    ensures
        r@ == "line "@ + decimal(k as nat) + ": "@ + what@,
{
    let mut out: Vec<char> = Vec::new();
    push_str(&mut out, "line ");
    push_decimal(k as u64, &mut out);
    push_str(&mut out, ": ");
    push_str(&mut out, what);
    string_of(out)
}

/// Parse a refutations file (`Table [[...]]` lines, each followed by a
/// `Proves [...]` line).
pub fn parse_refutations(text: &str) -> (r: Result<Vec<RefutationEntry>, String>)
    requires
        !(refutations_spec(lines_of(text@), None) is Unbalanced),
    ensures
        match refutations_spec(lines_of(text@), None) {
            Loaded::Done(es) => r matches Ok(v) && v@.map_values(|e: RefutationEntry| entry_model(e))
                == es,
            _ => r is Err,
        },
        r matches Ok(v) ==> forall|i: int| 0 <= i < v@.len() ==> (#[trigger] v@[i]).magma.wf(),
        match refutations_fault(lines_of(text@), false, 1) {
            Some((k, RefutationsFault::Orphan)) => r matches Err(e) && e@ == line_prefix(k)
                + "Proves without a preceding Table"@,
            Some((k, _)) => r matches Err(e) && e@.len() >= line_prefix(k).len() && e@.take(line_prefix(k).len() as int)
                == line_prefix(k),
            None => r is Ok,
        },
{
    let c = chars_of(text);
    let table_tag_v = table_tag_chars();
    let proves_tag_v = proves_tag_chars();
    let mut out: Vec<RefutationEntry> = Vec::new();
    let mut pending: Option<FiniteMagma> = None;
    let mut start: usize = 0;
    let mut lineno: usize = 0;
    let len = c.len();
    proof {
        assert(c@.skip(0) =~= c@);
        assert(out@.map_values(|e: RefutationEntry| entry_model(e)) =~= Seq::<(nat, Seq<u8>, Seq<nat>)>::empty());
        assert forall|o: Loaded<Seq<(nat, Seq<u8>, Seq<nat>)>>| prepend_loaded(Seq::empty(), o) == o by {
            if let Loaded::Done(s) = o {
                assert(Seq::<(nat, Seq<u8>, Seq<nat>)>::empty() + s =~= s);
            }
        }
    }
    while start < len
        invariant
            len == c@.len(),
            c@ == text@,
            table_tag_v@ == table_tag(),
            proves_tag_v@ == proves_tag(),
            start <= len,
            lineno <= start,
            forall|i: int| 0 <= i < out@.len() ==> (#[trigger] out@[i]).magma.wf(),
            pending matches Some(m) ==> m.wf(),
            !(refutations_spec(lines_of(text@), None) is Unbalanced),
            refutations_spec(lines_of(text@), None) == prepend_loaded(
                out@.map_values(|e: RefutationEntry| entry_model(e)),
                refutations_spec(lines_of(c@.skip(start as int)), magma_model(pending)),
            ),
            refutations_fault(lines_of(text@), false, 1) == refutations_fault(
                lines_of(c@.skip(start as int)),
                pending is Some,
                lineno as nat + 1,
            ),
        decreases len - start,
    {
        let end = line_end(&c, start);
        lineno = lineno + 1;
        let (i, j) = trim_bounds(&c, start, end);
        let next = if end < len {
            end + 1
        } else {
            len
        };
        let ghost lines = lines_of(c@.skip(start as int));
        let ghost line = c@.subrange(i as int, j as int);
        let ghost models = out@.map_values(|e: RefutationEntry| entry_model(e));
        proof {
            assert(line == trim(lines[0]));
            assert(lines.drop_first() == lines_of(c@.skip(next as int)));
        }
        if has_tag(&c, i, j, &table_tag_v) {
            proof {
                assert(line.skip(6) =~= c@.subrange(i + 6, j as int));
            }
            let rows = match parse_rows(&c, i + 6, j) {
                Ok(rows) => rows,
                Err(Some(e)) => {
                    let e2 = line_error(lineno, e.as_str());
                    proof {
                        assert(e2@.take(line_prefix(lineno as nat).len() as int) =~= line_prefix(lineno as nat));
                    }
                    return Err(e2);
                },
                Err(None) => {
                    proof {
                        assert(refutations_spec(lines_of(c@.skip(start as int)), magma_model(pending)) is Unbalanced);
                        assert(false);
                    }
                    return Err(String::new());
                },
            };
            let m = match FiniteMagma::from_rows(rows.as_slice()) {
                Ok(m) => m,
                Err(e) => {
                    let e2 = line_error(lineno, e.0.as_str());
                    proof {
                        assert(e2@.take(line_prefix(lineno as nat).len() as int) =~= line_prefix(lineno as nat));
                    }
                    return Err(e2);
                },
            };
            pending = Some(m);
        } else if has_tag(&c, i, j, &proves_tag_v) {
            proof {
                assert(line.skip(7) =~= c@.subrange(i + 7, j as int));
            }
            let proves = match parse_flat(&c, i + 7, j) {
                Ok(p) => p,
                Err(e) => {
                    let e2 = line_error(lineno, e.as_str());
                    proof {
                        assert(e2@.take(line_prefix(lineno as nat).len() as int) =~= line_prefix(lineno as nat));
                    }
                    return Err(e2);
                },
            };
            let taken = pending;
            pending = None;
            let magma = match taken {
                Some(m) => m,
                None => {
                    return Err(line_error(lineno, "Proves without a preceding Table"));
                },
            };
            let entry = RefutationEntry { magma, proves };
            proof {
                let ps = flat_spec(line.skip(7)).unwrap();
                assert(entry.proves@.map_values(|x: u32| x as nat) =~= ps);
            }
            out.push(entry);
            proof {
                assert(out@.map_values(|e: RefutationEntry| entry_model(e)) =~= models.push(
                    entry_model(entry),
                ));
                assert forall|s: Seq<(nat, Seq<u8>, Seq<nat>)>|
                    models + (seq![entry_model(entry)] + s) =~= models.push(entry_model(entry)) + s by {}
            }
        }
        start = next;
    }
    proof {
        assert(c@.skip(start as int) =~= Seq::<char>::empty());
        let models = out@.map_values(|e: RefutationEntry| entry_model(e));
        assert(models + Seq::<(nat, Seq<u8>, Seq<nat>)>::empty() =~= models);
    }
    Ok(out)
}

/// Whether the tables of a refutations file are balanced: reading it never
/// meets a `]` with nothing to close before it ends or is refused, which
/// is what `parse_refutations` asks of its input.
pub fn tables_balanced(text: &str) -> (b: bool)
    ensures
        b == !(refutations_spec(lines_of(text@), None) is Unbalanced),
{
    let c = chars_of(text);
    let table_tag_v = table_tag_chars();
    let proves_tag_v = proves_tag_chars();
    let mut pending: Option<FiniteMagma> = None;
    let mut start: usize = 0;
    let len = c.len();
    proof {
        assert(c@.skip(0) =~= c@);
    }
    while start < len
        invariant
            len == c@.len(),
            c@ == text@,
            table_tag_v@ == table_tag(),
            proves_tag_v@ == proves_tag(),
            start <= len,
            (refutations_spec(lines_of(text@), None) is Unbalanced) == (refutations_spec(
                lines_of(c@.skip(start as int)),
                magma_model(pending),
            ) is Unbalanced),
        decreases len - start,
    {
        let end = line_end(&c, start);
        let (i, j) = trim_bounds(&c, start, end);
        let next = if end < len {
            end + 1
        } else {
            len
        };
        let ghost lines = lines_of(c@.skip(start as int));
        let ghost line = c@.subrange(i as int, j as int);
        proof {
            assert(line == trim(lines[0]));
            assert(lines.drop_first() == lines_of(c@.skip(next as int)));
        }
        if has_tag(&c, i, j, &table_tag_v) {
            proof {
                assert(line.skip(6) =~= c@.subrange(i + 6, j as int));
            }
            let rows = match parse_rows(&c, i + 6, j) {
                Ok(rows) => rows,
                Err(Some(_)) => {
                    return true;
                },
                Err(None) => {
                    return false;
                },
            };
            let m = match FiniteMagma::from_rows(rows.as_slice()) {
                Ok(m) => m,
                Err(_) => {
                    return true;
                },
            };
            pending = Some(m);
        } else if has_tag(&c, i, j, &proves_tag_v) {
            proof {
                assert(line.skip(7) =~= c@.subrange(i + 7, j as int));
            }
            match parse_flat(&c, i + 7, j) {
                Ok(_) => {},
                Err(_) => {
                    return true;
                },
            }
            if pending.is_none() {
                return true;
            }
            pending = None;
        }
        start = next;
    }
    proof {
        assert(c@.skip(start as int) =~= Seq::<char>::empty());
    }
    true
}

} // verus!

verus! {

/// What an example holds, as plain values.
pub open spec fn example_model(e: (u32, FiniteMagma)) -> (nat, (nat, Seq<u8>)) {
    (e.0 as nat, (e.1.n as nat, e.1.table@))
}

/// Parse the smallest-examples file: `<eq_id> [[...], ...]` per line.
pub fn parse_smallest_examples(text: &str) -> (r: Result<Vec<(u32, FiniteMagma)>, String>)
    requires
        !(examples_spec(lines_of(text@)) is Unbalanced),
    ensures
        match examples_spec(lines_of(text@)) {
            Loaded::Done(es) => r matches Ok(v) && v@.map_values(|e: (u32, FiniteMagma)| example_model(e))
                == es,
            _ => r is Err,
        },
        r matches Ok(v) ==> forall|i: int| 0 <= i < v@.len() ==> (#[trigger] v@[i]).1.wf(),
        match examples_fault(lines_of(text@), 1) {
            Some((k, ExamplesFault::NoSpace)) => r matches Err(e) && e@ == line_prefix(k) + "no space separator"@,
            Some((k, _)) => r matches Err(e) && e@.len() >= line_prefix(k).len() && e@.take(line_prefix(k).len() as int)
                == line_prefix(k),
            None => r is Ok,
        },
{
    let c = chars_of(text);
    let mut out: Vec<(u32, FiniteMagma)> = Vec::new();
    let mut start: usize = 0;
    let mut lineno: usize = 0;
    let len = c.len();
    proof {
        assert(c@.skip(0) =~= c@);
        assert forall|o: Loaded<Seq<(nat, (nat, Seq<u8>))>>| prepend_loaded(Seq::empty(), o) == o by {
            if let Loaded::Done(s) = o {
                assert(Seq::<(nat, (nat, Seq<u8>))>::empty() + s =~= s);
            }
        }
        assert(out@.map_values(|e: (u32, FiniteMagma)| example_model(e)) =~= Seq::<(nat, (nat, Seq<u8>))>::empty());
    }
    while start < len
        invariant
            len == c@.len(),
            c@ == text@,
            start <= len,
            lineno <= start,
            forall|i: int| 0 <= i < out@.len() ==> (#[trigger] out@[i]).1.wf(),
            !(examples_spec(lines_of(text@)) is Unbalanced),
            examples_spec(lines_of(text@)) == prepend_loaded(
                out@.map_values(|e: (u32, FiniteMagma)| example_model(e)),
                examples_spec(lines_of(c@.skip(start as int))),
            ),
            examples_fault(lines_of(text@), 1) == examples_fault(lines_of(c@.skip(start as int)), lineno as nat + 1),
        decreases len - start,
    {
        let end = line_end(&c, start);
        lineno = lineno + 1;
        let (i, j) = trim_bounds(&c, start, end);
        let next = if end < len {
            end + 1
        } else {
            len
        };
        let ghost lines = lines_of(c@.skip(start as int));
        let ghost line = c@.subrange(i as int, j as int);
        let ghost models = out@.map_values(|e: (u32, FiniteMagma)| example_model(e));
        proof {
            assert(line == trim(lines[0]));
            assert(lines.drop_first() == lines_of(c@.skip(next as int)));
        }
        if i < j {
            let mut p = i;
            while p < j && c[p] != ' '
                invariant
                    i <= p <= j <= c@.len(),
                    forall|k: int| i <= k < p ==> c@[k] != ' ',
                decreases j - p,
            {
                p = p + 1;
            }
            proof {
                assert forall|k: int| 0 <= k < p - i implies line[k] != ' ' by {
                    assert(line[k] == c@[i + k]);
                }
                if p < j {
                    assert(line[p - i] == c@[p as int]);
                }
                lemma_find_at(line, ' ', p - i);
            }
            if p == j {
                return Err(line_error(lineno, "no space separator"));
            }
            proof {
                assert(line.take(p - i) =~= c@.subrange(i as int, p as int));
                assert(line.skip(p - i + 1) =~= c@.subrange(p + 1, j as int));
            }
            let id = match parse_uint_at(&c, i, p, 0xffff_ffff) {
                Some(v) => v as u32,
                None => {
                    let e2 = line_error(lineno, u32_error(c.as_slice(), i, p).as_str());
                    proof {
                        assert(e2@.take(line_prefix(lineno as nat).len() as int) =~= line_prefix(lineno as nat));
                    }
                    return Err(e2);
                },
            };
            let rows = match parse_rows(&c, p + 1, j) {
                Ok(rows) => rows,
                Err(Some(e)) => {
                    let e2 = line_error(lineno, e.as_str());
                    proof {
                        assert(e2@.take(line_prefix(lineno as nat).len() as int) =~= line_prefix(lineno as nat));
                    }
                    return Err(e2);
                },
                Err(None) => {
                    proof {
                        assert(examples_spec(lines_of(c@.skip(start as int))) is Unbalanced);
                        assert(false);
                    }
                    return Err(String::new());
                },
            };
            let m = match FiniteMagma::from_rows(rows.as_slice()) {
                Ok(m) => m,
                Err(e) => {
                    let e2 = line_error(lineno, e.0.as_str());
                    proof {
                        assert(e2@.take(line_prefix(lineno as nat).len() as int) =~= line_prefix(lineno as nat));
                    }
                    return Err(e2);
                },
            };
            let entry = (id, m);
            out.push(entry);
            proof {
                assert(out@.map_values(|e: (u32, FiniteMagma)| example_model(e)) =~= models.push(
                    example_model(entry),
                ));
                assert forall|s: Seq<(nat, (nat, Seq<u8>))>|
                    models + (seq![example_model(entry)] + s) =~= models.push(example_model(entry)) + s by {}
            }
        }
        start = next;
    }
    proof {
        assert(c@.skip(start as int) =~= Seq::<char>::empty());
        let models = out@.map_values(|e: (u32, FiniteMagma)| example_model(e));
        assert(models + Seq::<(nat, (nat, Seq<u8>))>::empty() =~= models);
    }
    Ok(out)
}

/// Parse the smallest-sizes file: `<eq_id> <carrier size>` per line.
pub fn parse_smallest_sizes(text: &str) -> (r: Result<Vec<(u32, usize)>, String>)
    ensures
        match sizes_spec(lines_of(text@)) {
            Some(es) => r matches Ok(v) && v@.map_values(|e: (u32, usize)| (e.0 as nat, e.1 as nat))
                == es,
            None => r is Err,
        },
        match sizes_fault(lines_of(text@), 1) {
            Some((k, SizesFault::Empty)) => r matches Err(e) && e@ == "line "@ + decimal(k) + ": "@ + "empty"@,
            Some((k, SizesFault::NoSize)) => r matches Err(e) && e@ == "line "@ + decimal(k) + ": "@ + "no size"@,
            Some((k, _)) => r matches Err(e) && e@.len() >= line_prefix(k).len() && e@.take(line_prefix(k).len() as int)
                == line_prefix(k),
            None => r is Ok,
        },
{
    let c = chars_of(text);
    let mut out: Vec<(u32, usize)> = Vec::new();
    let mut start: usize = 0;
    let mut lineno: usize = 0;
    let len = c.len();
    proof {
        assert(c@.skip(0) =~= c@);
        assert forall|o: Option<Seq<(nat, nat)>>| prepend_items(Seq::empty(), o) == o by {
            if let Some(s) = o {
                assert(Seq::<(nat, nat)>::empty() + s =~= s);
            }
        }
        assert(out@.map_values(|e: (u32, usize)| (e.0 as nat, e.1 as nat)) =~= Seq::<(nat, nat)>::empty());
    }
    while start < len
        invariant
            len == c@.len(),
            c@ == text@,
            start <= len,
            lineno <= start,
            sizes_spec(lines_of(text@)) == prepend_items(
                out@.map_values(|e: (u32, usize)| (e.0 as nat, e.1 as nat)),
                sizes_spec(lines_of(c@.skip(start as int))),
            ),
            sizes_fault(lines_of(text@), 1) == sizes_fault(lines_of(c@.skip(start as int)), lineno as nat + 1),
        decreases len - start,
    {
        let end = line_end(&c, start);
        lineno = lineno + 1;
        let (i, j) = trim_bounds(&c, start, end);
        let next = if end < len {
            end + 1
        } else {
            len
        };
        let ghost lines = lines_of(c@.skip(start as int));
        let ghost line = c@.subrange(i as int, j as int);
        let ghost models = out@.map_values(|e: (u32, usize)| (e.0 as nat, e.1 as nat));
        proof {
            assert(line == trim(lines[0]));
            assert(lines.drop_first() == lines_of(c@.skip(next as int)));
        }
        if i < j {
            let (a, b) = match next_token_at(&c, i, j) {
                Some(t) => t,
                None => {
                    return Err(line_error(lineno, "empty"));
                },
            };
            let id = match parse_uint_at(&c, a, b, 0xffff_ffff) {
                Some(v) => v as u32,
                None => {
                    let e = line_error(lineno, u32_error(c.as_slice(), a, b).as_str());
                    proof {
                        assert(e@.take(line_prefix(lineno as nat).len() as int) =~= line_prefix(lineno as nat));
                    }
                    return Err(e);
                },
            };
            let (a2, b2) = match next_token_at(&c, b, j) {
                Some(t) => t,
                None => {
                    return Err(line_error(lineno, "no size"));
                },
            };
            let n = match parse_uint_at(&c, a2, b2, usize::MAX as u64) {
                Some(v) => v as usize,
                None => {
                    let e = line_error(lineno, usize_error(c.as_slice(), a2, b2).as_str());
                    proof {
                        assert(e@.take(line_prefix(lineno as nat).len() as int) =~= line_prefix(lineno as nat));
                    }
                    return Err(e);
                },
            };
            out.push((id, n));
            proof {
                assert(out@.map_values(|e: (u32, usize)| (e.0 as nat, e.1 as nat)) =~= models.push(
                    (id as nat, n as nat),
                ));
                assert forall|s: Seq<(nat, nat)>|
                    models + (seq![(id as nat, n as nat)] + s) =~= models.push((id as nat, n as nat)) + s by {}
            }
        }
        start = next;
    }
    proof {
        assert(c@.skip(start as int) =~= Seq::<char>::empty());
        let models = out@.map_values(|e: (u32, usize)| (e.0 as nat, e.1 as nat));
        assert(models + Seq::<(nat, nat)>::empty() =~= models);
    }
    Ok(out)
}

} // verus!

verus! {

// ---------------------------------------------------------------------------
// Bytes to text.
// ---------------------------------------------------------------------------

/// What `flate2`'s gzip decoder yields for `data`: the decompressed bytes of
/// its first member, or `None` when `data` is not valid gzip.
pub uninterp spec fn gunzipped(data: Seq<u8>) -> Option<Seq<u8>>;

/// What `String::from_utf8` yields for `bytes`: their characters, or `None`
/// when they are not valid UTF-8.
pub uninterp spec fn utf8_decoded(bytes: Seq<u8>) -> Option<Seq<char>>;

/// `flate2::read::GzDecoder` over `data`, read to the end. The contract
/// claims only that the result is the decoder's, `gunzipped(data)`; what
/// gzip decoding computes is left to `flate2`.
#[verifier::external_body]
fn gunzip(data: &[u8]) -> (r: Option<Vec<u8>>)
    ensures
        gunzipped(data@) == match r {
            Some(v) => Some(v@),
            None => None,
        },
{
    let mut out = Vec::new();
    match flate2::read::GzDecoder::new(data).read_to_end(&mut out) {
        Ok(_) => Some(out),
        Err(_) => None,
    }
}

/// `String::from_utf8`, with the error dropped. The contract claims only
/// that the result is `utf8_decoded(bytes)`.
#[verifier::external_body]
fn utf8_string(bytes: Vec<u8>) -> (r: Option<String>)
    ensures
        utf8_decoded(bytes@) == match r {
            Some(s) => Some(s@),
            None => None,
        },
{
    String::from_utf8(bytes).ok()
}

pub open spec fn bytes_of(o: Option<Vec<u8>>) -> Option<Seq<u8>> {
    match o {
        Some(v) => Some(v@),
        None => None,
    }
}

/// The contents of a data file, given the plain file if it exists and
/// otherwise its gzip-compressed copy.
pub open spec fn data_spec(plain: Option<Seq<u8>>, gz: Option<Seq<u8>>) -> Option<Seq<u8>> {
    match plain {
        Some(p) => Some(p),
        None => match gz {
            Some(g) => gunzipped(g),
            None => None,
        },
    }
}

/// The contents of a data file: the plain file's bytes when it exists,
/// otherwise the decompressed gzip copy. The large files are stored
/// compressed because they shrink by 18x to 47x. `None` when neither is
/// there or the copy is not valid gzip.
pub fn read_bytes(plain: Option<Vec<u8>>, gz: Option<Vec<u8>>) -> (r: Option<Vec<u8>>)
    ensures
        bytes_of(r) == data_spec(bytes_of(plain), bytes_of(gz)),
{
    match plain {
        Some(p) => Some(p),
        None => match gz {
            Some(g) => gunzip(g.as_slice()),
            None => None,
        },
    }
}

/// The text of a data file, as `read_bytes` finds it; `None` also when the
/// bytes are not UTF-8.
pub fn read_text(plain: Option<Vec<u8>>, gz: Option<Vec<u8>>) -> (r: Option<String>)
    ensures
        match data_spec(bytes_of(plain), bytes_of(gz)) {
            Some(b) => utf8_decoded(b) == match r {
                Some(s) => Some(s@),
                None => None,
            },
            None => r is None,
        },
{
    match read_bytes(plain, gz) {
        Some(b) => utf8_string(b),
        None => None,
    }
}

} // verus!

verus! {

// ---------------------------------------------------------------------------
// Tab-separated lists.
// ---------------------------------------------------------------------------

/// A line as `str::lines` gives it: without a trailing carriage return.
pub open spec fn line_text(l: Seq<char>) -> Seq<char> {
    if l.len() > 0 && l.last() == '\r' {
        l.drop_last()
    } else {
        l
    }
}

/// The pieces a list of positions names.
pub open spec fn pieces_at(c: Seq<char>, ps: Seq<(usize, usize)>) -> Seq<Seq<char>> {
    ps.map_values(|p: (usize, usize)| c.subrange(p.0 as int, p.1 as int))
}

/// The pieces of `lo..hi` split at `sep`, as positions.
fn split_bounds(c: &Vec<char>, lo: usize, hi: usize, sep: char) -> (r: Vec<(usize, usize)>)
    requires
        lo <= hi <= c@.len(),
    ensures
        pieces_at(c@, r@) == split_on(c@.subrange(lo as int, hi as int), sep),
        forall|i: int| 0 <= i < r@.len() ==> lo <= (#[trigger] r@[i]).0 <= r@[i].1 <= hi,
{
    let mut out: Vec<(usize, usize)> = Vec::new();
    let mut start = lo;
    proof {
        assert(pieces_at(c@, out@) =~= Seq::<Seq<char>>::empty());
        assert(split_on(c@.subrange(lo as int, hi as int), sep) =~= pieces_at(c@, out@) + split_on(
            c@.subrange(start as int, hi as int),
            sep,
        ));
    }
    loop
        invariant
            lo <= start <= hi <= c@.len(),
            forall|i: int| 0 <= i < out@.len() ==> lo <= (#[trigger] out@[i]).0 <= out@[i].1 <= hi,
            split_on(c@.subrange(lo as int, hi as int), sep) == pieces_at(c@, out@) + split_on(
                c@.subrange(start as int, hi as int),
                sep,
            ),
        decreases hi - start,
    {
        let mut e = start;
        while e < hi && c[e] != sep
            invariant
                start <= e <= hi <= c@.len(),
                forall|k: int| start <= k < e ==> c@[k] != sep,
            decreases hi - e,
        {
            e = e + 1;
        }
        proof {
            lemma_split(c@, sep, start as int, e as int, hi as int);
        }
        let ghost before = pieces_at(c@, out@);
        out.push((start, e));
        proof {
            assert(pieces_at(c@, out@) =~= before.push(c@.subrange(start as int, e as int)));
        }
        if e == hi {
            proof {
                assert(pieces_at(c@, out@) + Seq::<Seq<char>>::empty() =~= pieces_at(c@, out@));
                assert(before + (seq![c@.subrange(start as int, e as int)] + Seq::<Seq<char>>::empty())
                    =~= pieces_at(c@, out@));
            }
            return out;
        }
        proof {
            let rest = split_on(c@.subrange(e + 1, hi as int), sep);
            assert(before + (seq![c@.subrange(start as int, e as int)] + rest) =~= pieces_at(c@, out@)
                + rest);
        }
        start = e + 1;
    }
}

/// The characters `a..b`, as a `String`.
fn string_from(c: &Vec<char>, a: usize, b: usize) -> (s: String)
    requires
        a <= b <= c@.len(),
    ensures
        s@ == c@.subrange(a as int, b as int),
{
    let mut out: Vec<char> = Vec::new();
    let mut k = a;
    while k < b
        invariant
            a <= k <= b <= c@.len(),
            out@ == c@.subrange(a as int, k as int),
        decreases b - k,
    {
        out.push(c[k]);
        proof {
            assert(out@ =~= c@.subrange(a as int, k + 1));
        }
        k = k + 1;
    }
    crate::problems::string_of(out)
}

/// The characters `a..b` are `word`.
fn is_word(c: &Vec<char>, a: usize, b: usize, word: &Vec<char>) -> (r: bool)
    requires
        a <= b <= c@.len(),
    ensures
        r == (c@.subrange(a as int, b as int) == word@),
{
    if b - a != word.len() {
        return false;
    }
    let mut k: usize = 0;
    while k < word.len()
        invariant
            a + word@.len() == b <= c@.len(),
            k <= word@.len(),
            forall|q: int| 0 <= q < k ==> c@[a + q] == word@[q],
        decreases word@.len() - k,
    {
        if c[a + k] != word[k] {
            proof {
                assert(c@.subrange(a as int, b as int)[k as int] != word@[k as int]);
            }
            return false;
        }
        k = k + 1;
    }
    proof {
        assert(c@.subrange(a as int, b as int) =~= word@);
    }
    true
}

pub open spec fn unresolved_word() -> Seq<char> {
    seq!['u', 'n', 'r', 'e', 's', 'o', 'l', 'v', 'e', 'd']
}

pub open spec fn none_word() -> Seq<char> {
    seq!['n', 'o', 'n', 'e']
}

fn unresolved_chars() -> (r: Vec<char>)
    ensures
        r@ == unresolved_word(),
{
    let mut r: Vec<char> = Vec::new();
    r.push('u');
    r.push('n');
    r.push('r');
    r.push('e');
    r.push('s');
    r.push('o');
    r.push('l');
    r.push('v');
    r.push('e');
    r.push('d');
    proof {
        assert(r@ =~= unresolved_word());
    }
    r
}

fn none_chars() -> (r: Vec<char>)
    ensures
        r@ == none_word(),
{
    let mut r: Vec<char> = Vec::new();
    r.push('n');
    r.push('o');
    r.push('n');
    r.push('e');
    proof {
        assert(r@ =~= none_word());
    }
    r
}

/// The pairs a partition file leaves without a witness: rows
/// `unresolved <from> <to> none` of exactly four tab-separated fields,
/// after the header line. `None` when such a row's numbers do not parse.
pub open spec fn uncovered_spec(lines: Seq<Seq<char>>) -> Option<Seq<crate::graph::Pair>>
    decreases lines.len(),
{
    if lines.len() == 0 {
        Some(Seq::empty())
    } else {
        let f = split_on(line_text(lines[0]), '\t');
        let rest = uncovered_spec(lines.drop_first());
        if f.len() == 4 && f[0] == unresolved_word() && f[3] == none_word() {
            match (parse_uint_spec(f[1], u32::MAX as nat), parse_uint_spec(f[2], u32::MAX as nat), rest) {
                (Some(a), Some(b), Some(r)) => Some(seq![crate::graph::Pair { from: a as u32, to: b as u32 }] + r),
                _ => None,
            }
        } else {
            rest
        }
    }
}

/// The lines after the first.
pub open spec fn after_header(lines: Seq<Seq<char>>) -> Seq<Seq<char>> {
    if lines.len() == 0 {
        lines
    } else {
        lines.drop_first()
    }
}

/// The end of a line without its carriage return.
fn text_end(c: &Vec<char>, start: usize, end: usize) -> (e: usize)
    requires
        start <= end <= c@.len(),
    ensures
        start <= e <= end,
        c@.subrange(start as int, e as int) == line_text(c@.subrange(start as int, end as int)),
{
    let ghost l = c@.subrange(start as int, end as int);
    if end > start && c[end - 1] == '\r' {
        proof {
            assert(l.last() == c@[end - 1]);
            assert(l.drop_last() =~= c@.subrange(start as int, end - 1));
        }
        end - 1
    } else {
        proof {
            if end > start {
                assert(l.last() == c@[end - 1]);
            }
        }
        end
    }
}

/// Parse a hard-core partition file (`set from to smallest_witness`, tab
/// separated, one header line) for the pairs no construction witnesses.
pub fn parse_partition_uncovered(text: &str) -> (r: Option<Vec<crate::graph::Pair>>)
    ensures
        match r {
            Some(v) => uncovered_spec(after_header(lines_of(text@))) == Some(v@),
            None => uncovered_spec(after_header(lines_of(text@))) is None,
        },
{
    let c = chars_of(text);
    let len = c.len();
    let unresolved = unresolved_chars();
    let none = none_chars();
    let mut out: Vec<crate::graph::Pair> = Vec::new();
    if len == 0 {
        proof {
            assert(lines_of(text@) =~= Seq::<Seq<char>>::empty());
        }
        return Some(out);
    }
    let first_end = line_end(&c, 0);
    proof {
        assert(c@.skip(0) =~= c@);
    }
    let mut start: usize = if first_end < len {
        first_end + 1
    } else {
        len
    };
    proof {
        assert(out@ + Seq::<crate::graph::Pair>::empty() =~= Seq::<crate::graph::Pair>::empty());
        assert forall|o: Option<Seq<crate::graph::Pair>>| prepend_items(Seq::empty(), o) == o by {
            if let Some(s) = o {
                assert(Seq::<crate::graph::Pair>::empty() + s =~= s);
            }
        }
    }
    while start < len
        invariant
            len == c@.len(),
            c@ == text@,
            start <= len,
            unresolved@ == unresolved_word(),
            none@ == none_word(),
            uncovered_spec(after_header(lines_of(text@))) == prepend_items(
                out@,
                uncovered_spec(lines_of(c@.skip(start as int))),
            ),
        decreases len - start,
    {
        let end = line_end(&c, start);
        let next = if end < len {
            end + 1
        } else {
            len
        };
        let te = text_end(&c, start, end);
        let fields = split_bounds(&c, start, te, '\t');
        let ghost lines = lines_of(c@.skip(start as int));
        let ghost f = split_on(line_text(lines[0]), '\t');
        proof {
            assert(lines.drop_first() == lines_of(c@.skip(next as int)));
            assert(pieces_at(c@, fields@) == f);
            assert(pieces_at(c@, fields@).len() == fields@.len());
        }
        if fields.len() == 4 {
            let (a0, b0) = fields[0];
            let (a1, b1) = fields[1];
            let (a2, b2) = fields[2];
            let (a3, b3) = fields[3];
            proof {
                assert(f[0] == c@.subrange(a0 as int, b0 as int));
                assert(f[1] == c@.subrange(a1 as int, b1 as int));
                assert(f[2] == c@.subrange(a2 as int, b2 as int));
                assert(f[3] == c@.subrange(a3 as int, b3 as int));
            }
            if is_word(&c, a0, b0, &unresolved) && is_word(&c, a3, b3, &none) {
                let from = parse_uint_at(&c, a1, b1, 0xffff_ffff);
                let to = parse_uint_at(&c, a2, b2, 0xffff_ffff);
                match (from, to) {
                    (Some(x), Some(y)) => {
                        let p = crate::graph::Pair { from: x as u32, to: y as u32 };
                        let ghost before = out@;
                        out.push(p);
                        proof {
                            assert forall|s: Seq<crate::graph::Pair>| before + (seq![p] + s) =~= out@ + s by {}
                        }
                    },
                    _ => {
                        return None;
                    },
                }
            }
        }
        start = next;
    }
    proof {
        assert(c@.skip(start as int) =~= Seq::<char>::empty());
        assert(out@ + Seq::<crate::graph::Pair>::empty() =~= out@);
    }
    Some(out)
}

} // verus!

verus! {

/// One open question: the set it belongs to, its equation id, and the law's
/// text when the list carries it in a third field.
#[derive(Debug)]
pub struct OpenQuestion {
    pub set: String,
    pub id: u32,
    pub law: Option<String>,
}

/// What a question holds, as plain values.
pub open spec fn question_model(q: OpenQuestion) -> (Seq<char>, nat, Option<Seq<char>>) {
    (
        q.set@,
        q.id as nat,
        match q.law {
            Some(s) => Some(s@),
            None => None,
        },
    )
}

/// The questions of an open-question list: `set`, `id` and optionally the
/// law, tab separated; `#` lines and blank lines are skipped. `None` when a
/// row has no id or an id that does not parse.
pub open spec fn questions_spec(lines: Seq<Seq<char>>) -> Option<Seq<(Seq<char>, nat, Option<Seq<char>>)>>
    decreases lines.len(),
{
    if lines.len() == 0 {
        Some(Seq::empty())
    } else {
        let line = line_text(lines[0]);
        let rest = questions_spec(lines.drop_first());
        if (line.len() > 0 && line[0] == '#') || trim(line).len() == 0 {
            rest
        } else {
            let f = split_on(line, '\t');
            if f.len() < 2 {
                None
            } else {
                match (parse_uint_spec(f[1], u32::MAX as nat), rest) {
                    (Some(id), Some(r)) => Some(
                        seq![
                            (
                                f[0],
                                id,
                                if f.len() >= 3 {
                                    Some(f[2])
                                } else {
                                    None
                                },
                            ),
                        ] + r,
                    ),
                    _ => None,
                }
            }
        }
    }
}

/// Parse an open-question list.
pub fn parse_open_questions(text: &str) -> (r: Option<Vec<OpenQuestion>>)
    ensures
        match r {
            Some(v) => questions_spec(lines_of(text@)) == Some(
                v@.map_values(|q: OpenQuestion| question_model(q)),
            ),
            None => questions_spec(lines_of(text@)) is None,
        },
{
    let c = chars_of(text);
    let len = c.len();
    let mut out: Vec<OpenQuestion> = Vec::new();
    let mut start: usize = 0;
    proof {
        assert(c@.skip(0) =~= c@);
        assert(out@.map_values(|q: OpenQuestion| question_model(q)) =~= Seq::<(Seq<char>, nat, Option<Seq<char>>)>::empty());
        assert forall|o: Option<Seq<(Seq<char>, nat, Option<Seq<char>>)>>| prepend_items(Seq::empty(), o) == o by {
            if let Some(s) = o {
                assert(Seq::<(Seq<char>, nat, Option<Seq<char>>)>::empty() + s =~= s);
            }
        }
    }
    while start < len
        invariant
            len == c@.len(),
            c@ == text@,
            start <= len,
            questions_spec(lines_of(text@)) == prepend_items(
                out@.map_values(|q: OpenQuestion| question_model(q)),
                questions_spec(lines_of(c@.skip(start as int))),
            ),
        decreases len - start,
    {
        let end = line_end(&c, start);
        let next = if end < len {
            end + 1
        } else {
            len
        };
        let te = text_end(&c, start, end);
        let ghost lines = lines_of(c@.skip(start as int));
        let ghost line = line_text(lines[0]);
        let ghost models = out@.map_values(|q: OpenQuestion| question_model(q));
        proof {
            assert(lines.drop_first() == lines_of(c@.skip(next as int)));
            assert(line == c@.subrange(start as int, te as int));
            if start < te {
                assert(line[0] == c@[start as int]);
            }
        }
        let (i, j) = trim_bounds(&c, start, te);
        let comment = start < te && c[start] == '#';
        if !comment && i < j {
            let fields = split_bounds(&c, start, te, '\t');
            let ghost f = split_on(line, '\t');
            proof {
                assert(pieces_at(c@, fields@) == f);
                assert(pieces_at(c@, fields@).len() == fields@.len());
            }
            if fields.len() < 2 {
                return None;
            }
            let (a0, b0) = fields[0];
            let (a1, b1) = fields[1];
            proof {
                assert(f[0] == c@.subrange(a0 as int, b0 as int));
                assert(f[1] == c@.subrange(a1 as int, b1 as int));
            }
            let id = match parse_uint_at(&c, a1, b1, 0xffff_ffff) {
                Some(v) => v as u32,
                None => {
                    return None;
                },
            };
            let set = string_from(&c, a0, b0);
            let law = if fields.len() >= 3 {
                let (a2, b2) = fields[2];
                proof {
                    assert(f[2] == c@.subrange(a2 as int, b2 as int));
                }
                Some(string_from(&c, a2, b2))
            } else {
                None
            };
            let q = OpenQuestion { set, id, law };
            out.push(q);
            proof {
                assert(out@.map_values(|q: OpenQuestion| question_model(q)) =~= models.push(question_model(q)));
                assert forall|s: Seq<(Seq<char>, nat, Option<Seq<char>>)>|
                    models + (seq![question_model(q)] + s) =~= models.push(question_model(q)) + s by {}
            }
        }
        start = next;
    }
    proof {
        assert(c@.skip(start as int) =~= Seq::<char>::empty());
        let models = out@.map_values(|q: OpenQuestion| question_model(q));
        assert(models + Seq::<(Seq<char>, nat, Option<Seq<char>>)>::empty() =~= models);
    }
    Some(out)
}

} // verus!
