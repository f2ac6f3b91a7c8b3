//! Laws over one binary operation `◇`, and their meaning in a finite magma.
//!
//! Each law is `lhs = rhs` with variables drawn from `u v w x y z`. A law's
//! variables carry a *canonical* index, assigned by first appearance scanning
//! lhs then rhs, so that laws differing only by a renaming of variables share
//! structure.

use vstd::prelude::*;

verus! {

/// A term over one binary operation.
#[derive(PartialEq, Eq, Hash, Debug)]
pub enum Term {
    Var(u8),
    Op(Box<Term>, Box<Term>),
}

/// Number of applications of `◇` in a term.
pub open spec fn spec_ops(t: Term) -> nat
    decreases t,
{
    match t {
        Term::Var(_) => 0,
        Term::Op(l, r) => 1 + spec_ops(*l) + spec_ops(*r),
    }
}

/// The largest variable index occurring in a term.
pub open spec fn spec_max_var(t: Term) -> u8
    decreases t,
{
    match t {
        Term::Var(v) => v,
        Term::Op(l, r) => {
            let a = spec_max_var(*l);
            let b = spec_max_var(*r);
            if a >= b {
                a
            } else {
                b
            }
        },
    }
}

/// Every variable of `t` has index below `k`.
pub open spec fn vars_below(t: Term, k: nat) -> bool
    decreases t,
{
    match t {
        Term::Var(v) => v < k,
        Term::Op(l, r) => vars_below(*l, k) && vars_below(*r, k),
    }
}

/// Length of the longest root-to-leaf path.
pub open spec fn depth(t: Term) -> nat
    decreases t,
{
    match t {
        Term::Var(_) => 0,
        Term::Op(l, r) => {
            let a = depth(*l);
            let b = depth(*r);
            1 + if a >= b {
                a
            } else {
                b
            }
        },
    }
}

/// Value of `t` in the magma with carrier `0..n` and table
/// `table[x * n + y] = x ◇ y`, with variable `v` given the value `vals[v]`.
pub open spec fn eval_term(t: Term, table: Seq<u8>, n: nat, vals: Seq<u8>) -> u8
    decreases t,
{
    match t {
        Term::Var(v) => vals[v as int],
        Term::Op(l, r) => table[eval_term(*l, table, n, vals) * n + eval_term(
            *r,
            table,
            n,
            vals,
        )],
    }
}

/// An assignment of `k` variables into the carrier `0..n`.
pub open spec fn is_assignment(vals: Seq<u8>, k: nat, n: nat) -> bool {
    vals.len() == k && forall|j: int| 0 <= j < k ==> vals[j] < n
}

pub proof fn lemma_max_var_bounds(t: Term)
    ensures
        vars_below(t, (spec_max_var(t) + 1) as nat),
    decreases t,
{
    match t {
        Term::Var(_) => {},
        Term::Op(l, r) => {
            lemma_max_var_bounds(*l);
            lemma_max_var_bounds(*r);
            lemma_vars_below_mono(*l, (spec_max_var(*l) + 1) as nat, (spec_max_var(t) + 1) as nat);
            lemma_vars_below_mono(*r, (spec_max_var(*r) + 1) as nat, (spec_max_var(t) + 1) as nat);
        },
    }
}

pub proof fn lemma_vars_below_mono(t: Term, k1: nat, k2: nat)
    requires
        vars_below(t, k1),
        k1 <= k2,
    ensures
        vars_below(t, k2),
    decreases t,
{
    match t {
        Term::Var(_) => {},
        Term::Op(l, r) => {
            lemma_vars_below_mono(*l, k1, k2);
            lemma_vars_below_mono(*r, k1, k2);
        },
    }
}

/// A term evaluates into the carrier when the table and the assignment do.
pub proof fn lemma_eval_in_carrier(t: Term, table: Seq<u8>, n: nat, vals: Seq<u8>)
    requires
        table.len() == n * n,
        forall|i: int| 0 <= i < table.len() ==> table[i] < n,
        vars_below(t, vals.len()),
        forall|j: int| 0 <= j < vals.len() ==> vals[j] < n,
    ensures
        eval_term(t, table, n, vals) < n,
    decreases t,
{
    match t {
        Term::Var(_) => {},
        Term::Op(l, r) => {
            lemma_eval_in_carrier(*l, table, n, vals);
            lemma_eval_in_carrier(*r, table, n, vals);
            let x = eval_term(*l, table, n, vals);
            let y = eval_term(*r, table, n, vals);
            assert(x * n + y < n * n) by (nonlinear_arith)
                requires
                    x < n,
                    y < n,
            ;
        },
    }
}

impl Term {
    /// Number of applications of `◇`.
    pub fn ops(&self) -> (r: usize)
        requires
            spec_ops(*self) <= usize::MAX,
        ensures
            r == spec_ops(*self),
        decreases self,
    {
        match self {
            Term::Var(_) => 0,
            Term::Op(l, r) => 1 + l.ops() + r.ops(),
        }
    }

    /// The largest variable index.
    pub fn max_var(&self) -> (r: u8)
        ensures
            r == spec_max_var(*self),
        decreases self,
    {
        match self {
            Term::Var(v) => *v,
            Term::Op(l, r) => {
                let a = l.max_var();
                let b = r.max_var();
                if a >= b {
                    a
                } else {
                    b
                }
            },
        }
    }

    /// A structural copy.
    pub fn copy(&self) -> (r: Term)
        ensures
            r == *self,
        decreases self,
    {
        match self {
            Term::Var(v) => Term::Var(*v),
            Term::Op(l, r) => Term::Op(Box::new(l.copy()), Box::new(r.copy())),
        }
    }
}

/// The letter that names variable `v`: `a` for 0, `b` for 1, and so on.
pub open spec fn var_letter(v: u8) -> char {
    ((97 + v) as u8) as char
}

/// A term written out: variables as letters, each application as
/// `(l ◇ r)`.
pub open spec fn render_spec(t: Term) -> Seq<char>
    decreases t,
{
    match t {
        Term::Var(v) => seq![var_letter(v)],
        Term::Op(l, r) => seq!['('] + render_spec(*l) + seq![' ', DIAMOND, ' '] + render_spec(*r) + seq![')'],
    }
}

impl Term {
    fn push_render(&self, out: &mut Vec<char>)
        requires
            vars_below(*self, 159),
        ensures
            final(out)@ == old(out)@ + render_spec(*self),
        decreases self,
    {
        match self {
            Term::Var(v) => {
                out.push((97u8 + *v) as char);
                proof {
                    assert(final(out)@ =~= old(out)@ + render_spec(*self));
                }
            },
            Term::Op(l, r) => {
                out.push('(');
                l.push_render(out);
                out.push(' ');
                out.push(DIAMOND);
                out.push(' ');
                r.push_render(out);
                out.push(')');
                proof {
                    assert(final(out)@ =~= old(out)@ + render_spec(*self));
                }
            },
        }
    }

    /// The term written out, variables as the letters `a`, `b`, ... and
    /// each application as `(l ◇ r)`. A variable's letter is the byte
    /// `b'a' + v`, so the indices stop where that byte would overflow.
    pub fn show(&self) -> (s: String)
        requires
            vars_below(*self, 159),
        ensures
            s@ == render_spec(*self),
    {
        let mut out: Vec<char> = Vec::new();
        self.push_render(&mut out);
        proof {
            assert(out@ =~= render_spec(*self));
        }
        crate::problems::string_of(out)
    }
}

impl Clone for Term {
    fn clone(&self) -> (r: Self)
        ensures
            r == *self,
    {
        self.copy()
    }
}

/// One law of the list.
#[derive(Debug)]
pub struct Law {
    /// ETP equation id, 1-based.
    pub id: u32,
    pub lhs: Term,
    pub rhs: Term,
    /// Number of distinct variables. Canonical indices are `0..arity`.
    pub arity: u8,
}

impl Law {
    /// The variables of both sides are among the first `arity`, and there is
    /// at least one and at most seven of them.
    pub open spec fn wf(&self) -> bool {
        &&& 1 <= self.arity <= 7
        &&& vars_below(self.lhs, self.arity as nat)
        &&& vars_below(self.rhs, self.arity as nat)
    }

    /// The law holds in the magma with carrier `0..n` and the given table:
    /// both sides agree under every assignment of the variables.
    pub open spec fn holds_in(&self, table: Seq<u8>, n: nat) -> bool {
        forall|vals: Seq<u8>|
            is_assignment(vals, self.arity as nat, n) ==> #[trigger] eval_term(
                self.lhs,
                table,
                n,
                vals,
            ) == eval_term(self.rhs, table, n, vals)
    }
}

impl Clone for Law {
    fn clone(&self) -> (r: Self)
        ensures
            r == *self,
    {
        Law { id: self.id, lhs: self.lhs.copy(), rhs: self.rhs.copy(), arity: self.arity }
    }
}

} // verus!

verus! {

/// The binary operation symbol.
pub const DIAMOND: char = '\u{25c7}';

/// `char::is_whitespace`: the Unicode `White_Space` property.
pub open spec fn is_ws(c: char) -> bool {
    ||| '\t' <= c <= '\r'
    ||| c == ' '
    ||| c == '\u{85}'
    ||| c == '\u{a0}'
    ||| c == '\u{1680}'
    ||| '\u{2000}' <= c <= '\u{200a}'
    ||| c == '\u{2028}'
    ||| c == '\u{2029}'
    ||| c == '\u{202f}'
    ||| c == '\u{205f}'
    ||| c == '\u{3000}'
}

pub open spec fn is_lower(c: char) -> bool {
    'a' <= c <= 'z'
}

/// Whitespace test, as `char::is_whitespace` defines it.
pub fn whitespace(c: char) -> (b: bool)
    ensures
        b == is_ws(c),
{
    ('\t' <= c && c <= '\r') || c == ' ' || c == '\u{85}' || c == '\u{a0}' || c == '\u{1680}' || (
    '\u{2000}' <= c && c <= '\u{200a}') || c == '\u{2028}' || c == '\u{2029}' || c == '\u{202f}'
        || c == '\u{205f}' || c == '\u{3000}'
}

/// `s` without leading whitespace.
pub open spec fn trim_start(s: Seq<char>) -> Seq<char>
    decreases s.len(),
{
    if s.len() > 0 && is_ws(s[0]) {
        trim_start(s.drop_first())
    } else {
        s
    }
}

/// `s` without trailing whitespace.
pub open spec fn trim_end(s: Seq<char>) -> Seq<char>
    decreases s.len(),
{
    if s.len() > 0 && is_ws(s.last()) {
        trim_end(s.drop_last())
    } else {
        s
    }
}

/// `str::trim`.
pub open spec fn trim(s: Seq<char>) -> Seq<char> {
    trim_end(trim_start(s))
}

/// `s` with every whitespace character removed.
pub open spec fn strip_ws(s: Seq<char>) -> Seq<char>
    decreases s.len(),
{
    if s.len() == 0 {
        Seq::empty()
    } else if is_ws(s.last()) {
        strip_ws(s.drop_last())
    } else {
        strip_ws(s.drop_last()).push(s.last())
    }
}

/// Position of the first `c` in `s`, if any.
pub open spec fn find(s: Seq<char>, c: char) -> Option<nat>
    decreases s.len(),
{
    if s.len() == 0 {
        None
    } else if s[0] == c {
        Some(0nat)
    } else {
        match find(s.drop_first(), c) {
            Some(i) => Some(i + 1),
            None => None,
        }
    }
}

/// The lowercase letters of `s`, each once, in order of first appearance.
pub open spec fn names_of(s: Seq<char>) -> Seq<char>
    decreases s.len(),
{
    if s.len() == 0 {
        Seq::empty()
    } else {
        let p = names_of(s.drop_last());
        if is_lower(s.last()) && !p.contains(s.last()) {
            p.push(s.last())
        } else {
            p
        }
    }
}

/// The lines of a text: split at `\n`, with no empty line after a final
/// newline.
pub open spec fn lines_of(t: Seq<char>) -> Seq<Seq<char>>
    decreases t.len(),
{
    if t.len() == 0 {
        Seq::empty()
    } else {
        match find(t, '\n') {
            Some(i) => if i < t.len() {
                seq![t.take(i as int)] + lines_of(t.skip((i + 1) as int))
            } else {
                seq![t]
            },
            None => seq![t],
        }
    }
}

/// An *atom* is a variable or a fully parenthesised application; inside
/// parentheses the body is always `atom ◇ atom`. Returns the term and how
/// many characters it took.
pub open spec fn parse_atom_spec(c: Seq<char>, names: Seq<char>) -> Option<(Term, nat)>
    decreases c.len(),
{
    if c.len() == 0 {
        None
    } else if c[0] == '(' {
        match parse_atom_spec(c.skip(1), names) {
            None => None,
            Some((l, n1)) => {
                let i = 1 + n1;
                if i < c.len() && c[i as int] == DIAMOND {
                    match parse_atom_spec(c.skip((i + 1) as int), names) {
                        None => None,
                        Some((r, n2)) => {
                            let j = i + 1 + n2;
                            if j < c.len() && c[j as int] == ')' {
                                Some((Term::Op(Box::new(l), Box::new(r)), (j + 1) as nat))
                            } else {
                                None
                            }
                        },
                    }
                } else {
                    None
                }
            },
        }
    } else if is_lower(c[0]) {
        match find(names, c[0]) {
            Some(v) => if v < 256 {
                Some((Term::Var(v as u8), 1nat))
            } else {
                None
            },
            None => None,
        }
    } else {
        None
    }
}

/// A side is an atom, or two atoms joined by one top-level `◇`.
pub open spec fn parse_term_spec(c: Seq<char>, names: Seq<char>) -> Option<(Term, nat)> {
    match parse_atom_spec(c, names) {
        None => None,
        Some((h, i)) => if i < c.len() && c[i as int] == DIAMOND {
            match parse_atom_spec(c.skip((i + 1) as int), names) {
                None => None,
                Some((r, n)) => Some((Term::Op(Box::new(h), Box::new(r)), i + 1 + n)),
            }
        } else {
            Some((h, i))
        },
    }
}

/// A whole side: whitespace is dropped and every character must be used.
pub open spec fn parse_side_spec(s: Seq<char>, names: Seq<char>) -> Option<Term> {
    let c = strip_ws(s);
    match parse_term_spec(c, names) {
        Some((t, used)) => if used == c.len() {
            Some(t)
        } else {
            None
        },
        None => None,
    }
}

/// One law, `lhs = rhs`, split at the first `=`, with variables numbered by
/// first appearance across the whole line.
pub open spec fn parse_law_spec(line: Seq<char>, id: u32) -> Option<Law> {
    match find(line, '=') {
        None => None,
        Some(e) => {
            let names = names_of(line);
            if names.len() == 0 || names.len() > 7 {
                None
            } else {
                match (
                    parse_side_spec(trim(line.take(e as int)), names),
                    parse_side_spec(trim(line.skip((e + 1) as int)), names),
                ) {
                    (Some(lhs), Some(rhs)) => Some(
                        Law { id, lhs, rhs, arity: names.len() as u8 },
                    ),
                    _ => None,
                }
            }
        },
    }
}

/// The laws of a list of lines, numbered from `next_id`: blank lines are
/// skipped, and the first line that does not parse is reported by its
/// 1-based position counted from `lineno + 1`.
pub open spec fn parse_lines_spec(lines: Seq<Seq<char>>, next_id: nat, lineno: nat) -> Result<
    Seq<Law>,
    nat,
>
    decreases lines.len(),
{
    if lines.len() == 0 {
        Ok(Seq::empty())
    } else {
        let line = trim(lines[0]);
        if line.len() == 0 {
            parse_lines_spec(lines.drop_first(), next_id, lineno + 1)
        } else {
            match parse_law_spec(line, next_id as u32) {
                None => Err(lineno + 1),
                Some(law) => match parse_lines_spec(lines.drop_first(), next_id + 1, lineno + 1) {
                    Ok(rest) => Ok(seq![law] + rest),
                    Err(k) => Err(k),
                },
            }
        }
    }
}

/// How a term is written as an atom, with variable `v` printed as `names[v]`.
pub open spec fn render_atom(t: Term, names: Seq<char>) -> Seq<char>
    decreases t,
{
    match t {
        Term::Var(v) => seq![names[v as int]],
        Term::Op(l, r) => seq!['('] + render_atom(*l, names) + seq![DIAMOND] + render_atom(
            *r,
            names,
        ) + seq![')'],
    }
}

} // verus!

verus! {

pub proof fn lemma_find(s: Seq<char>, c: char)
    ensures
        match find(s, c) {
            Some(i) => i < s.len() && s[i as int] == c && forall|k: int| 0 <= k < i ==> s[k] != c,
            None => forall|k: int| 0 <= k < s.len() ==> s[k] != c,
        },
    decreases s.len(),
{
    if s.len() > 0 && s[0] != c {
        lemma_find(s.drop_first(), c);
        assert forall|k: int| 0 < k < s.len() implies s[k] == s.drop_first()[k - 1] by {}
    }
}

pub proof fn lemma_find_at(s: Seq<char>, c: char, i: int)
    requires
        0 <= i <= s.len(),
        forall|k: int| 0 <= k < i ==> s[k] != c,
        i < s.len() ==> s[i] == c,
    ensures
        find(s, c) == if i < s.len() {
            Some(i as nat)
        } else {
            None::<nat>
        },
    decreases i,
{
    lemma_find(s, c);
    match find(s, c) {
        Some(j) => {
            if j < i {
                assert(s[j as int] != c);
            } else if (j as int) > i {
                assert(s[i] != c);
            }
        },
        None => {
            if i < s.len() {
                assert(s[i] != c);
            }
        },
    }
}

pub proof fn lemma_parse_atom_len(c: Seq<char>, names: Seq<char>)
    ensures
        parse_atom_spec(c, names) matches Some((t, n)) ==> 1 <= n <= c.len() && vars_below(
            t,
            names.len(),
        ),
    decreases c.len(),
{
    if c.len() > 0 {
        if c[0] == '(' {
            lemma_parse_atom_len(c.skip(1), names);
            if let Some((l, n1)) = parse_atom_spec(c.skip(1), names) {
                let i = 1 + n1;
                if i < c.len() {
                    lemma_parse_atom_len(c.skip((i + 1) as int), names);
                }
            }
        } else if is_lower(c[0]) {
            lemma_find(names, c[0]);
        }
    }
}

/// Every written term reads back as itself, with nothing else consumed:
/// the grammar is unambiguous and the parser complete on it.
pub proof fn lemma_parse_render(t: Term, names: Seq<char>, rest: Seq<char>)
    requires
        vars_below(t, names.len()),
        names.len() <= 256,
        forall|i: int| 0 <= i < names.len() ==> is_lower(#[trigger] names[i]),
        forall|i: int, j: int| 0 <= i < j < names.len() ==> names[i] != names[j],
    ensures
        parse_atom_spec(render_atom(t, names) + rest, names) == Some(
            (t, render_atom(t, names).len()),
        ),
    decreases t,
{
    let c = render_atom(t, names) + rest;
    match t {
        Term::Var(v) => {
            lemma_find_at(names, names[v as int], v as int);
            assert(c[0] == names[v as int]);
        },
        Term::Op(l, r) => {
            let rl = render_atom(*l, names);
            let rr = render_atom(*r, names);
            let tail1 = seq![DIAMOND] + rr + seq![')'] + rest;
            assert(c.skip(1) =~= rl + tail1);
            lemma_parse_render(*l, names, tail1);
            let i: int = 1 + rl.len() as int;
            assert(c[i] == DIAMOND);
            let tail2 = seq![')'] + rest;
            assert(c.skip(i + 1) =~= rr + tail2);
            lemma_parse_render(*r, names, tail2);
            let j: int = i + 1 + rr.len();
            assert(c[j] == ')');
            assert(render_atom(t, names).len() == j + 1);
        },
    }
}

/// What the parser accepts is a written term: the characters it consumes
/// are exactly the rendering of the term it returns.
pub proof fn lemma_parse_is_render(c: Seq<char>, names: Seq<char>)
    ensures
        parse_atom_spec(c, names) matches Some((t, n)) ==> c.take(n as int) == render_atom(
            t,
            names,
        ),
    decreases c.len(),
{
    if c.len() > 0 {
        if c[0] == '(' {
            lemma_parse_is_render(c.skip(1), names);
            lemma_parse_atom_len(c.skip(1), names);
            if let Some((l, n1)) = parse_atom_spec(c.skip(1), names) {
                let i = 1 + n1;
                if i < c.len() && c[i as int] == DIAMOND {
                    lemma_parse_is_render(c.skip((i + 1) as int), names);
                    lemma_parse_atom_len(c.skip((i + 1) as int), names);
                    if let Some((r, n2)) = parse_atom_spec(c.skip((i + 1) as int), names) {
                        let j = i + 1 + n2;
                        if j < c.len() && c[j as int] == ')' {
                            assert(c.take((j + 1) as int) =~= seq!['('] + c.skip(1).take(n1 as int)
                                + seq![DIAMOND] + c.skip((i + 1) as int).take(n2 as int) + seq![
                                ')']);
                        }
                    }
                }
            }
        } else if is_lower(c[0]) {
            lemma_find(names, c[0]);
            if let Some(v) = find(names, c[0]) {
                assert(c.take(1) =~= seq![c[0]]);
            }
        }
    }
}

/// A law that parses is well formed.
pub proof fn lemma_parse_law_wf(line: Seq<char>, id: u32)
    ensures
        parse_law_spec(line, id) matches Some(law) ==> law.wf() && law.id == id,
{
    if let Some(e) = find(line, '=') {
        let names = names_of(line);
        let l = strip_ws(trim(line.take(e as int)));
        let r = strip_ws(trim(line.skip((e + 1) as int)));
        lemma_parse_term_vars(l, names);
        lemma_parse_term_vars(r, names);
    }
}

proof fn lemma_parse_term_vars(c: Seq<char>, names: Seq<char>)
    ensures
        parse_term_spec(c, names) matches Some((t, n)) ==> vars_below(t, names.len()),
{
    lemma_parse_atom_len(c, names);
    if let Some((h, i)) = parse_atom_spec(c, names) {
        if i < c.len() {
            lemma_parse_atom_len(c.skip((i + 1) as int), names);
        }
    }
}

/// `str::chars`, collected: the characters of the text, in order.
#[verifier::external_body]
pub(crate) fn chars_of(s: &str) -> (r: Vec<char>)
    ensures
        r@ == s@,
{
    s.chars().collect()
}

/// The message for a term with nothing in it.
fn msg_empty() -> (r: String)
    ensures
        r@ == "empty term"@,
{
    let mut out: Vec<char> = Vec::new();
    crate::problems::push_str(&mut out, "empty term");
    crate::problems::string_of(out)
}

/// The message for a missing `what` at character `i`.
fn msg_expected(what: &str, i: usize) -> (r: String)
    ensures
        r@ == "expected "@ + what@ + " at position "@ + crate::problems::decimal(i as nat),
{
    let mut out: Vec<char> = Vec::new();
    crate::problems::push_str(&mut out, "expected ");
    crate::problems::push_str(&mut out, what);
    crate::problems::push_str(&mut out, " at position ");
    crate::problems::push_decimal(i as u64, &mut out);
    crate::problems::string_of(out)
}

/// `format!` for an error message; the text is not specified.
#[verifier::external_body]
fn msg_unknown(ch: char) -> String {
    format!("unknown variable {ch:?}")
}

/// `format!` for an error message; the text is not specified.
#[verifier::external_body]
fn msg_unexpected(ch: char) -> String {
    format!("unexpected {ch:?}")
}

/// `format!` for an error message; the text is not specified.
#[verifier::external_body]
fn msg_trailing(s: &[char], used: usize) -> String {
    format!("trailing input in {:?} after position {used}", s.iter().collect::<String>())
}

/// `format!` for an error message; the text is not specified.
#[verifier::external_body]
fn msg_no_eq(line: &[char]) -> String {
    format!("no `=` in {:?}", line.iter().collect::<String>())
}

/// The message for a law without a variable.
fn msg_no_vars() -> (r: String)
    ensures
        r@ == "no variables"@,
{
    let mut out: Vec<char> = Vec::new();
    crate::problems::push_str(&mut out, "no variables");
    crate::problems::string_of(out)
}

/// The message for a law with `k` variables, more than `limit`.
fn msg_too_many(k: usize, limit: usize) -> (r: String)
    ensures
        r@ == crate::problems::decimal(k as nat) + " distinct variables, expected at most "@ + crate::problems::decimal(
            limit as nat,
        ),
{
    let mut out: Vec<char> = Vec::new();
    crate::problems::push_decimal(k as u64, &mut out);
    crate::problems::push_str(&mut out, " distinct variables, expected at most ");
    crate::problems::push_decimal(limit as u64, &mut out);
    crate::problems::string_of(out)
}

/// Position of the first `c` in `s`, if any.
fn find_char(s: &Vec<char>, c: char) -> (r: Option<usize>)
    ensures
        match r {
            Some(j) => find(s@, c) == Some(j as nat),
            None => find(s@, c) is None,
        },
{
    let mut i: usize = 0;
    while i < s.len()
        invariant
            i <= s@.len(),
            forall|k: int| 0 <= k < i ==> s@[k] != c,
        decreases s@.len() - i,
    {
        if s[i] == c {
            proof {
                lemma_find_at(s@, c, i as int);
            }
            return Some(i);
        }
        i = i + 1;
    }
    proof {
        lemma_find_at(s@, c, i as int);
    }
    None
}

/// `trim` of the characters `lo..hi`.
pub(crate) fn trim_chars(c: &Vec<char>, lo: usize, hi: usize) -> (r: Vec<char>)
    requires
        lo <= hi <= c@.len(),
    ensures
        r@ == trim(c@.subrange(lo as int, hi as int)),
{
    let mut i = lo;
    while i < hi && whitespace(c[i])
        invariant
            lo <= i <= hi <= c@.len(),
            trim_start(c@.subrange(lo as int, hi as int)) == trim_start(c@.subrange(i as int, hi as int)),
        decreases hi - i,
    {
        proof {
            assert(c@.subrange(i as int, hi as int).drop_first() =~= c@.subrange(i + 1, hi as int));
        }
        i = i + 1;
    }
    let mut j = hi;
    while j > i && whitespace(c[j - 1])
        invariant
            lo <= i <= j <= hi <= c@.len(),
            trim_end(c@.subrange(i as int, hi as int)) == trim_end(c@.subrange(i as int, j as int)),
        decreases j - i,
    {
        proof {
            assert(c@.subrange(i as int, j as int).drop_last() =~= c@.subrange(i as int, j - 1));
        }
        j = j - 1;
    }
    let mut out: Vec<char> = Vec::new();
    let mut k = i;
    while k < j
        invariant
            i <= k <= j <= c@.len(),
            out@ == c@.subrange(i as int, k as int),
        decreases j - k,
    {
        out.push(c[k]);
        proof {
            assert(out@ =~= c@.subrange(i as int, k + 1));
        }
        k = k + 1;
    }
    out
}

/// Parse an atom at position `pos`; returns the term and how many
/// characters it took.
fn parse_atom(c: &Vec<char>, pos: usize, names: &Vec<char>) -> (r: Result<(Term, usize), String>)
    requires
        pos <= c@.len(),
    ensures
        r is Ok <==> parse_atom_spec(c@.skip(pos as int), names@) is Some,
        r matches Ok((t, n)) ==> parse_atom_spec(c@.skip(pos as int), names@) == Some((t, n as nat)),
    decreases c@.len() - pos,
{
    let ghost cs = c@.skip(pos as int);
    if pos >= c.len() {
        return Err(msg_empty());
    }
    let ch = c[pos];
    assert(cs[0] == ch);
    if ch == '(' {
        proof {
            assert(cs.skip(1) =~= c@.skip(pos + 1));
            lemma_parse_atom_len(c@.skip(pos + 1), names@);
        }
        let (l, n1) = match parse_atom(c, pos + 1, names) {
            Ok(v) => v,
            Err(e) => return Err(e),
        };
        let i = 1 + n1;
        proof {
            if pos + i < c@.len() {
                assert(cs[i as int] == c@[pos + i]);
            }
        }
        if pos + i >= c.len() || c[pos + i] != DIAMOND {
            return Err(msg_expected("\u{25c7}", i));
        }
        proof {
            assert(cs.skip(i + 1) =~= c@.skip(pos + i + 1));
            lemma_parse_atom_len(c@.skip(pos + i + 1), names@);
        }
        let (r, n2) = match parse_atom(c, pos + i + 1, names) {
            Ok(v) => v,
            Err(e) => return Err(e),
        };
        let j = i + 1 + n2;
        proof {
            if pos + j < c@.len() {
                assert(cs[j as int] == c@[pos + j]);
            }
        }
        if pos + j >= c.len() || c[pos + j] != ')' {
            return Err(msg_expected("`)`", j));
        }
        proof {
            assert(cs.len() > 0 && cs[0] == '(');
            assert(parse_atom_spec(cs.skip(1), names@) == Some((l, n1 as nat)));
            assert(cs[i as int] == DIAMOND);
            assert(parse_atom_spec(cs.skip(i + 1), names@) == Some((r, n2 as nat)));
            assert(cs[j as int] == ')');
            assert(parse_atom_spec(cs, names@) == Some((Term::Op(Box::new(l), Box::new(r)), (j + 1) as nat)));
        }
        Ok((Term::Op(Box::new(l), Box::new(r)), j + 1))
    } else if 'a' <= ch && ch <= 'z' {
        proof {
            lemma_find(names@, ch);
        }
        match find_char(names, ch) {
            Some(v) => {
                if v >= 256 {
                    return Err(msg_unknown(ch));
                }
                assert(parse_atom_spec(cs, names@) == Some((Term::Var(v as u8), 1nat)));
                Ok((Term::Var(v as u8), 1))
            },
            None => Err(msg_unknown(ch)),
        }
    } else {
        Err(msg_unexpected(ch))
    }
}

/// Parse a side at position `pos`: an atom, optionally followed by `◇` and
/// a second atom.
fn parse_term(c: &Vec<char>, pos: usize, names: &Vec<char>) -> (r: Result<(Term, usize), String>)
    requires
        pos <= c@.len(),
    ensures
        r is Ok <==> parse_term_spec(c@.skip(pos as int), names@) is Some,
        r matches Ok((t, n)) ==> parse_term_spec(c@.skip(pos as int), names@) == Some((t, n as nat)),
{
    let ghost cs = c@.skip(pos as int);
    proof {
        lemma_parse_atom_len(cs, names@);
    }
    let (head, i) = match parse_atom(c, pos, names) {
        Ok(v) => v,
        Err(e) => return Err(e),
    };
    assert(parse_atom_spec(cs, names@) == Some((head, i as nat)));
    assert(i <= cs.len());
    assert(cs.len() == c@.len() - pos);
    assert(pos + i <= c@.len());
    let len = c.len();
    if pos + i < len && c[pos + i] == DIAMOND {
        proof {
            assert(cs[i as int] == c@[pos + i]);
            assert(cs.skip(i + 1) =~= c@.skip(pos + i + 1));
            lemma_parse_atom_len(c@.skip(pos + i + 1), names@);
        }
        let (rhs, n) = match parse_atom(c, pos + i + 1, names) {
            Ok(v) => v,
            Err(e) => return Err(e),
        };
        return Ok((Term::Op(Box::new(head), Box::new(rhs)), i + 1 + n));
    }
    proof {
        if i < cs.len() {
            assert(cs[i as int] == c@[pos + i]);
        }
    }
    Ok((head, i))
}

fn parse_side(s: &Vec<char>, names: &Vec<char>) -> (r: Result<Term, String>)
    ensures
        r is Ok <==> parse_side_spec(s@, names@) is Some,
        r matches Ok(t) ==> parse_side_spec(s@, names@) == Some(t),
{
    let mut chars: Vec<char> = Vec::new();
    let mut k: usize = 0;
    while k < s.len()
        invariant
            k <= s@.len(),
            chars@ == strip_ws(s@.take(k as int)),
        decreases s@.len() - k,
    {
        proof {
            assert(s@.take(k + 1).drop_last() =~= s@.take(k as int));
        }
        if !whitespace(s[k]) {
            chars.push(s[k]);
        }
        k = k + 1;
    }
    proof {
        assert(s@.take(k as int) =~= s@);
        assert(chars@.skip(0) =~= chars@);
    }
    let (t, used) = match parse_term(&chars, 0, names) {
        Ok(v) => v,
        Err(e) => return Err(e),
    };
    if used != chars.len() {
        return Err(msg_trailing(chars.as_slice(), used));
    }
    Ok(t)
}

/// Parse one law, given its id.
fn parse_law(line: &Vec<char>, id: u32) -> (r: Result<Law, String>)
    ensures
        r is Ok <==> parse_law_spec(line@, id) is Some,
        r matches Ok(l) ==> parse_law_spec(line@, id) == Some(l),
{
    proof {
        lemma_find(line@, '=');
    }
    let e = match find_char(line, '=') {
        Some(e) => e,
        None => return Err(msg_no_eq(line.as_slice())),
    };
    // Canonical variable numbering: order of first appearance across lhs
    // then rhs, so that laws differing by a renaming share DAG nodes.
    let mut names: Vec<char> = Vec::new();
    let mut k: usize = 0;
    while k < line.len()
        invariant
            k <= line@.len(),
            names@ == names_of(line@.take(k as int)),
        decreases line@.len() - k,
    {
        proof {
            assert(line@.take(k + 1).drop_last() =~= line@.take(k as int));
        }
        let ch = line[k];
        if 'a' <= ch && ch <= 'z' {
            let mut present = false;
            let mut q: usize = 0;
            while q < names.len()
                invariant
                    q <= names@.len(),
                    present == names@.take(q as int).contains(ch),
                decreases names@.len() - q,
            {
                proof {
                    assert(names@.take(q + 1) =~= names@.take(q as int).push(names@[q as int]));
                }
                if names[q] == ch {
                    present = true;
                }
                proof {
                    if names@.take(q as int).contains(ch) {
                        let w = choose|w: int| 0 <= w < q && #[trigger] names@.take(q as int)[w] == ch;
                        assert(names@.take(q + 1)[w] == ch);
                    }
                    if names@[q as int] == ch {
                        assert(names@.take(q + 1)[q as int] == ch);
                    }
                    if names@.take(q + 1).contains(ch) {
                        let w = choose|w: int| 0 <= w < q + 1 && #[trigger] names@.take(q + 1)[w] == ch;
                        if w < q {
                            assert(names@.take(q as int)[w] == ch);
                        }
                    }
                }
                q = q + 1;
            }
            proof {
                assert(names@.take(q as int) =~= names@);
            }
            if !present {
                names.push(ch);
            }
        }
        k = k + 1;
    }
    proof {
        assert(line@.take(k as int) =~= line@);
    }
    if names.len() == 0 {
        return Err(msg_no_vars());
    }
    if names.len() > crate::dag::MAX_VARS {
        return Err(msg_too_many(names.len(), crate::dag::MAX_VARS));
    }
    let l = trim_chars(line, 0, e);
    let r = trim_chars(line, e + 1, line.len());
    proof {
        assert(line@.subrange(0, e as int) =~= line@.take(e as int));
        assert(line@.subrange(e + 1, line@.len() as int) =~= line@.skip(e + 1));
    }
    let lhs = match parse_side(&l, &names) {
        Ok(t) => t,
        Err(msg) => return Err(msg),
    };
    let rhs = match parse_side(&r, &names) {
        Ok(t) => t,
        Err(msg) => return Err(msg),
    };
    Ok(Law { id, lhs, rhs, arity: names.len() as u8 })
}

} // verus!

verus! {

/// A law that did not parse: its 1-based line number and what went wrong.
#[derive(Debug)]
pub struct ParseError {
    pub line: usize,
    pub msg: String,
}

/// Parse the whole law list. Blank lines are skipped; the returned vector
/// is indexed by `id - 1`.
pub fn parse_laws(text: &str) -> (r: Result<Vec<Law>, ParseError>)
    requires
        text@.len() < u32::MAX,
    ensures
        match parse_lines_spec(lines_of(text@), 1, 0) {
            Ok(laws) => r matches Ok(v) && v@ == laws,
            Err(k) => r matches Err(e) && e.line == k,
        },
        r matches Ok(v) ==> forall|i: int| 0 <= i < v@.len() ==> (#[trigger] v@[i]).wf() && v@[i].id
            == i + 1,
{
    let c = chars_of(text);
    let mut out: Vec<Law> = Vec::new();
    let mut start: usize = 0;
    let mut lineno: usize = 0;
    let len = c.len();
    proof {
        assert(c@.skip(0) =~= c@);
        assert(out@ + Seq::<Law>::empty() =~= Seq::<Law>::empty());
    }
    while start < len
        invariant
            len == c@.len(),
            c@ == text@,
            text@.len() < u32::MAX,
            start <= len,
            out@.len() <= lineno <= start,
            forall|i: int| 0 <= i < out@.len() ==> (#[trigger] out@[i]).wf() && out@[i].id == i + 1,
            parse_lines_spec(lines_of(text@), 1, 0) == match parse_lines_spec(
                lines_of(c@.skip(start as int)),
                (out@.len() + 1) as nat,
                lineno as nat,
            ) {
                Ok(rest) => Ok(out@ + rest),
                Err(k) => Err(k),
            },
        decreases len - start,
    {
        let ghost t = c@.skip(start as int);
        let mut end = start;
        while end < len && c[end] != '\n'
            invariant
                start <= end <= len,
                len == c@.len(),
                forall|k: int| start <= k < end ==> c@[k] != '\n',
            decreases len - end,
        {
            end = end + 1;
        }
        proof {
            assert forall|k: int| 0 <= k < end - start implies t[k] != '\n' by {
                assert(t[k] == c@[start + k]);
            }
            if end < len {
                assert(t[end - start] == c@[end as int]);
            }
            lemma_find_at(t, '\n', end - start);
            assert(t.take(end - start) =~= c@.subrange(start as int, end as int));
            if end < len {
                assert(t.skip(end - start + 1) =~= c@.skip(end + 1));
                assert(lines_of(t) == seq![t.take(end - start)] + lines_of(t.skip(end - start + 1)));
                assert(lines_of(t).drop_first() =~= lines_of(c@.skip(end + 1)));
            } else {
                assert(t =~= c@.subrange(start as int, end as int));
                assert(lines_of(t) == seq![t]);
                assert(c@.skip(len as int) =~= Seq::<char>::empty());
                assert(lines_of(t).drop_first() =~= lines_of(c@.skip(len as int)));
            }
            assert(lines_of(t)[0] == c@.subrange(start as int, end as int));
        }
        lineno = lineno + 1;
        let line = trim_chars(&c, start, end);
        let next = if end < len {
            end + 1
        } else {
            len
        };
        if line.len() > 0 {
            let id = out.len() as u32 + 1;
            proof {
                lemma_parse_law_wf(line@, id);
            }
            match parse_law(&line, id) {
                Ok(law) => {
                    let ghost before = out@;
                    out.push(law);
                    proof {
                        assert forall|rest: Seq<Law>| before + (seq![law] + rest) =~= out@ + rest by {}
                        if let Ok(rest) = parse_lines_spec(lines_of(c@.skip(next as int)), (out@.len() + 1) as nat, lineno as nat) {
                            assert(before + (seq![law] + rest) =~= out@ + rest);
                        }
                    }
                },
                Err(msg) => {
                    return Err(ParseError { line: lineno, msg });
                },
            }
        }
        start = next;
    }
    proof {
        assert(c@.skip(start as int) =~= Seq::<char>::empty());
        assert(out@ + Seq::<Law>::empty() =~= out@);
    }
    Ok(out)
}

} // verus!

verus! {

/// End of the line starting at `start`: the position of the next `\n`, or
/// the end of the text. The line is `start..end`, and the remaining lines
/// start after the newline.
pub(crate) fn line_end(c: &Vec<char>, start: usize) -> (end: usize)
    requires
        start < c@.len(),
    ensures
        start <= end <= c@.len(),
        lines_of(c@.skip(start as int)).len() > 0,
        lines_of(c@.skip(start as int))[0] == c@.subrange(start as int, end as int),
        lines_of(c@.skip(start as int)).drop_first() == lines_of(
            c@.skip(if end < c@.len() {
                end + 1
            } else {
                end as int
            }),
        ),
{
    let ghost t = c@.skip(start as int);
    let len = c.len();
    let mut end = start;
    while end < len && c[end] != '\n'
        invariant
            start <= end <= len,
            len == c@.len(),
            forall|k: int| start <= k < end ==> c@[k] != '\n',
        decreases len - end,
    {
        end = end + 1;
    }
    proof {
        assert forall|k: int| 0 <= k < end - start implies t[k] != '\n' by {
            assert(t[k] == c@[start + k]);
        }
        if end < len {
            assert(t[end - start] == c@[end as int]);
        }
        lemma_find_at(t, '\n', end - start);
        assert(t.take(end - start) =~= c@.subrange(start as int, end as int));
        if end < len {
            assert(t.skip(end - start + 1) =~= c@.skip(end + 1));
            assert(lines_of(t) == seq![t.take(end - start)] + lines_of(t.skip(end - start + 1)));
            assert(lines_of(t).drop_first() =~= lines_of(c@.skip(end + 1)));
        } else {
            assert(t =~= c@.subrange(start as int, end as int));
            assert(lines_of(t) == seq![t]);
            assert(c@.skip(len as int) =~= Seq::<char>::empty());
            assert(lines_of(t).drop_first() =~= lines_of(c@.skip(len as int)));
        }
    }
    end
}

} // verus!

verus! {

/// `x = x` holds in every magma, and `x = y` holds exactly in the magmas
/// with one element.
pub proof fn lemma_trivial_laws(id1: u32, id2: u32, table: Seq<u8>, n: nat)
    requires
        1 <= n <= 256,
    ensures
        (Law { id: id1, lhs: Term::Var(0), rhs: Term::Var(0), arity: 1 }).holds_in(table, n),
        (Law { id: id2, lhs: Term::Var(0), rhs: Term::Var(1), arity: 2 }).holds_in(table, n) <==> n == 1,
{
    let e2 = Law { id: id2, lhs: Term::Var(0), rhs: Term::Var(1), arity: 2 };
    if n == 1 {
        assert forall|vals: Seq<u8>| is_assignment(vals, 2, n) implies #[trigger] eval_term(
            e2.lhs,
            table,
            n,
            vals,
        ) == eval_term(e2.rhs, table, n, vals) by {
            assert(vals[0] < 1 && vals[1] < 1);
        }
    } else {
        let vals = seq![0u8, 1u8];
        assert(is_assignment(vals, 2, n));
        assert(eval_term(e2.lhs, table, n, vals) != eval_term(e2.rhs, table, n, vals));
    }
}

} // verus!
