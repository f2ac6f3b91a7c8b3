//! Laws written out for outside provers and model finders: TPTP for
//! Vampire-style provers, LADR for Mace4, SMT-LIB2 over a finite sort.
//!
//! In each dialect a hypothesis keeps its variables and a negated
//! conclusion gets Skolem constants in their place.

use crate::law::{Law, Term};
use vstd::arithmetic::power::pow;
use vstd::prelude::*;

verus! {

/// The dialects the problem writers emit.
#[derive(Clone, Copy, PartialEq, Eq, Structural, Debug)]
pub enum Dialect {
    /// `m(X0,X1)`, Skolem constants `sk0`.
    Tptp,
    /// `f(x0,x1)`, Skolem constants `c0`: LADR reads `x` names as variables.
    Ladr,
    /// `(op x0 x1)`, Skolem constants `sk0`.
    Smt2,
}

/// The decimal digit for `d < 10`.
pub open spec fn digit_char(d: nat) -> char {
    (('0' as nat) + d) as char
}

/// `v` in decimal.
pub open spec fn decimal(v: nat) -> Seq<char>
    decreases v,
{
    if v < 10 {
        seq![digit_char(v)]
    } else {
        decimal(v / 10).push(digit_char(v % 10))
    }
}

/// How a variable is named.
pub open spec fn var_prefix(d: Dialect, skolem: bool) -> Seq<char> {
    match (d, skolem) {
        (Dialect::Tptp, false) => seq!['X'],
        (Dialect::Ladr, false) => seq!['x'],
        (Dialect::Smt2, false) => seq!['x'],
        (Dialect::Ladr, true) => seq!['c'],
        (_, true) => seq!['s', 'k'],
    }
}

/// A term in a dialect.
pub open spec fn render_spec(t: Term, d: Dialect, skolem: bool) -> Seq<char>
    decreases t,
{
    match t {
        Term::Var(v) => var_prefix(d, skolem) + decimal(v as nat),
        Term::Op(l, r) => {
            let a = render_spec(*l, d, skolem);
            let b = render_spec(*r, d, skolem);
            match d {
                Dialect::Tptp => seq!['m', '('] + a + seq![','] + b + seq![')'],
                Dialect::Ladr => seq!['f', '('] + a + seq![','] + b + seq![')'],
                Dialect::Smt2 => seq!['(', 'o', 'p', ' '] + a + seq![' '] + b + seq![')'],
            }
        },
    }
}

/// A term with variable `v` replaced by the carrier element `e<sub[v]>`,
/// in SMT-LIB2.
pub open spec fn ground_spec(t: Term, sub: Seq<u8>) -> Seq<char>
    decreases t,
{
    match t {
        Term::Var(v) => seq!['e'] + decimal(sub[v as int] as nat),
        Term::Op(l, r) => seq!['(', 'o', 'p', ' '] + ground_spec(*l, sub) + seq![' '] + ground_spec(*r, sub)
            + seq![')'],
    }
}

/// Every variable of `t` is below `k`.
pub open spec fn vars_under(t: Term, k: nat) -> bool
    decreases t,
{
    match t {
        Term::Var(v) => v < k,
        Term::Op(l, r) => vars_under(*l, k) && vars_under(*r, k),
    }
}

/// Append `v` in decimal.
pub(crate) fn push_decimal(v: u64, out: &mut Vec<char>)
    ensures
        final(out)@ == old(out)@ + decimal(v as nat),
    decreases v,
{
    if v >= 10 {
        push_decimal(v / 10, out);
    }
    let d = (v % 10) as u32;
    let ch = if d == 0 {
        '0'
    } else if d == 1 {
        '1'
    } else if d == 2 {
        '2'
    } else if d == 3 {
        '3'
    } else if d == 4 {
        '4'
    } else if d == 5 {
        '5'
    } else if d == 6 {
        '6'
    } else if d == 7 {
        '7'
    } else if d == 8 {
        '8'
    } else {
        '9'
    };
    proof {
        assert(ch == digit_char((v % 10) as nat));
    }
    out.push(ch);
    proof {
        if v >= 10 {
            assert(decimal(v as nat) == decimal((v / 10) as nat).push(digit_char((v % 10) as nat)));
        }
    }
}

fn push_prefix(d: Dialect, skolem: bool, out: &mut Vec<char>)
    ensures
        final(out)@ == old(out)@ + var_prefix(d, skolem),
{
    let ghost before = out@;
    match (d, skolem) {
        (Dialect::Tptp, false) => out.push('X'),
        (Dialect::Ladr, false) => out.push('x'),
        (Dialect::Smt2, false) => out.push('x'),
        (Dialect::Ladr, true) => out.push('c'),
        (_, true) => {
            out.push('s');
            out.push('k');
        },
    }
    proof {
        assert(out@ =~= before + var_prefix(d, skolem));
    }
}

fn push_render(t: &Term, d: Dialect, skolem: bool, out: &mut Vec<char>)
    ensures
        final(out)@ == old(out)@ + render_spec(*t, d, skolem),
    decreases t,
{
    let ghost before = out@;
    match t {
        Term::Var(v) => {
            push_prefix(d, skolem, out);
            push_decimal(*v as u64, out);
            proof {
                assert(out@ =~= before + render_spec(*t, d, skolem));
            }
        },
        Term::Op(l, r) => {
            match d {
                Dialect::Tptp => {
                    out.push('m');
                    out.push('(');
                },
                Dialect::Ladr => {
                    out.push('f');
                    out.push('(');
                },
                Dialect::Smt2 => {
                    out.push('(');
                    out.push('o');
                    out.push('p');
                    out.push(' ');
                },
            }
            let ghost head = out@;
            push_render(l, d, skolem, out);
            let ghost mid = out@;
            if d == Dialect::Smt2 {
                out.push(' ');
            } else {
                out.push(',');
            }
            let ghost sep = out@;
            push_render(r, d, skolem, out);
            out.push(')');
            proof {
                let a = render_spec(**l, d, skolem);
                let b = render_spec(**r, d, skolem);
                match d {
                    Dialect::Tptp => {
                        assert(head =~= before + seq!['m', '(']);
                        assert(out@ =~= before + (seq!['m', '('] + a + seq![','] + b + seq![')']));
                    },
                    Dialect::Ladr => {
                        assert(head =~= before + seq!['f', '(']);
                        assert(out@ =~= before + (seq!['f', '('] + a + seq![','] + b + seq![')']));
                    },
                    Dialect::Smt2 => {
                        assert(head =~= before + seq!['(', 'o', 'p', ' ']);
                        assert(out@ =~= before + (seq!['(', 'o', 'p', ' '] + a + seq![' '] + b + seq![')']));
                    },
                }
            }
        },
    }
}

fn push_ground(t: &Term, sub: &[u8], out: &mut Vec<char>)
    requires
        vars_under(*t, sub@.len()),
    ensures
        final(out)@ == old(out)@ + ground_spec(*t, sub@),
    decreases t,
{
    let ghost before = out@;
    match t {
        Term::Var(v) => {
            out.push('e');
            push_decimal(sub[*v as usize] as u64, out);
            proof {
                assert(out@ =~= before + ground_spec(*t, sub@));
            }
        },
        Term::Op(l, r) => {
            out.push('(');
            out.push('o');
            out.push('p');
            out.push(' ');
            push_ground(l, sub, out);
            out.push(' ');
            push_ground(r, sub, out);
            out.push(')');
            proof {
                let a = ground_spec(**l, sub@);
                let b = ground_spec(**r, sub@);
                assert(out@ =~= before + (seq!['(', 'o', 'p', ' '] + a + seq![' '] + b + seq![')']));
            }
        },
    }
}

/// The characters, as a `String` (`Iterator::collect`).
#[verifier::external_body]
pub(crate) fn string_of(c: Vec<char>) -> (s: String)
    ensures
        s@ == c@,
{
    c.into_iter().collect()
}

/// `t` written in dialect `d`, with Skolem constants for its variables when
/// `skolem` is set.
pub fn render(t: &Term, d: Dialect, skolem: bool) -> (s: String)
    ensures
        s@ == render_spec(*t, d, skolem),
{
    let mut out: Vec<char> = Vec::new();
    push_render(t, d, skolem, &mut out);
    proof {
        assert(out@ =~= render_spec(*t, d, skolem));
    }
    string_of(out)
}

/// `t` in SMT-LIB2 with variable `v` instantiated to element `e<sub[v]>`.
pub fn render_ground(t: &Term, sub: &[u8]) -> (s: String)
    requires
        vars_under(*t, sub@.len()),
    ensures
        s@ == ground_spec(*t, sub@),
{
    let mut out: Vec<char> = Vec::new();
    push_ground(t, sub, &mut out);
    proof {
        assert(out@ =~= ground_spec(*t, sub@));
    }
    string_of(out)
}

} // verus!

verus! {

/// The carrier elements `e0`, ..., `e(k-1)`, joined by `) (`.
pub open spec fn elem_list(k: nat) -> Seq<char>
    decreases k,
{
    if k == 0 {
        Seq::empty()
    } else if k == 1 {
        "e"@ + decimal(0)
    } else {
        elem_list((k - 1) as nat) + ") (e"@ + decimal((k - 1) as nat)
    }
}

/// The bound variables `(x0 M)`, ..., `(x(k-1) M)`, joined by spaces.
pub open spec fn var_decls(k: nat) -> Seq<char>
    decreases k,
{
    if k == 0 {
        Seq::empty()
    } else if k == 1 {
        "(x"@ + decimal(0) + " M)"@
    } else {
        var_decls((k - 1) as nat) + " (x"@ + decimal((k - 1) as nat) + " M)"@
    }
}

/// One declaration line per Skolem constant `sk0`, ..., `sk(k-1)`.
pub open spec fn skolem_decls(k: nat) -> Seq<char>
    decreases k,
{
    if k == 0 {
        Seq::empty()
    } else {
        skolem_decls((k - 1) as nat) + "(declare-const sk"@ + decimal((k - 1) as nat) + " M)\n"@
    }
}

/// The hypothesis instantiated at the first `c` tuples of carrier elements,
/// tuple `code` being the base-`n` digits of `code`, one line each.
pub open spec fn ground_lines(hyp: Law, n: nat, c: nat) -> Seq<char>
    decreases c,
{
    if c == 0 {
        Seq::empty()
    } else {
        let sub = crate::finite::digits_of((c - 1) as nat, n, hyp.arity as nat);
        ground_lines(hyp, n, (c - 1) as nat) + "(assert (= "@ + ground_spec(hyp.lhs, sub) + " "@ + ground_spec(
            hyp.rhs,
            sub,
        ) + "))\n"@
    }
}

/// The opening lines of an SMT-LIB2 problem: a comment naming the pair, the
/// logic, the carrier as a datatype of `n` elements, and the operation.
pub open spec fn smt2_header(from: nat, to: nat, n: nat) -> Seq<char> {
    "; E"@ + decimal(from) + " => E"@ + decimal(to) + " over a carrier of exactly "@ + decimal(n) + "\n"@
        + "(set-logic ALL)\n"@ + "(declare-datatypes ((M 0)) ((("@ + elem_list(n) + "))))\n"@
        + "(declare-fun op (M M) M)\n"@
}

/// The hypothesis: quantified over its variables, or, when `ground` is
/// set, instantiated at every tuple of carrier elements.
pub open spec fn smt2_hypothesis(hyp: Law, n: nat, ground: bool) -> Seq<char> {
    if ground {
        ground_lines(hyp, n, pow(n as int, hyp.arity as nat) as nat)
    } else {
        "(assert (forall ("@ + var_decls(hyp.arity as nat) + ") (= "@ + render_spec(hyp.lhs, Dialect::Smt2, false)
            + " "@ + render_spec(hyp.rhs, Dialect::Smt2, false) + ")))\n"@
    }
}

/// The negated conclusion at Skolem constants, and the query.
pub open spec fn smt2_conclusion(concl: Law) -> Seq<char> {
    skolem_decls(concl.arity as nat) + "(assert (not (= "@ + render_spec(concl.lhs, Dialect::Smt2, true) + " "@
        + render_spec(concl.rhs, Dialect::Smt2, true) + ")))\n"@ + "(check-sat)\n"@
}

/// The SMT-LIB2 problem for `hyp => concl` (ETP numbers `from`, `to`) over a
/// carrier of exactly `n` elements.
pub open spec fn smt2_spec(hyp: Law, concl: Law, from: nat, to: nat, n: nat, ground: bool) -> Seq<char> {
    smt2_header(from, to, n) + smt2_hypothesis(hyp, n, ground) + smt2_conclusion(concl)
}

/// Append the characters of `s`.
pub(crate) fn push_str(out: &mut Vec<char>, s: &str)
    ensures
        final(out)@ == old(out)@ + s@,
{
    let c = crate::law::chars_of(s);
    let ghost before = out@;
    let mut i: usize = 0;
    while i < c.len()
        invariant
            i <= c@.len(),
            c@ == s@,
            out@ == before + c@.take(i as int),
        decreases c@.len() - i,
    {
        out.push(c[i]);
        proof {
            assert(c@.take(i + 1) =~= c@.take(i as int).push(c@[i as int]));
        }
        i = i + 1;
    }
    proof {
        assert(c@.take(c@.len() as int) =~= c@);
    }
}

/// Variables below `k` in the law's sense are below `k` here too.
proof fn lemma_vars_below_under(t: Term, k: nat)
    requires
        crate::law::vars_below(t, k),
    ensures
        vars_under(t, k),
    decreases t,
{
    match t {
        Term::Var(_) => {},
        Term::Op(l, r) => {
            lemma_vars_below_under(*l, k);
            lemma_vars_below_under(*r, k);
        },
    }
}

/// `n^k <= 256^7` for `n <= 256`, `k <= 7`.
proof fn lemma_pow_256(n: nat, k: nat)
    requires
        n <= 256,
        k <= 7,
    ensures
        0 <= pow(n as int, k) <= 72057594037927936,
{
    crate::finite::lemma_pow_base_le(n, 256, k);
    reveal_with_fuel(pow, 8);
    assert(pow(256, 0) == 1);
    assert(pow(256, 1) == 256);
    assert(pow(256, 2) == 65536);
    assert(pow(256, 3) == 16777216);
    assert(pow(256, 4) == 4294967296);
    assert(pow(256, 5) == 1099511627776);
    assert(pow(256, 6) == 281474976710656);
    assert(pow(256, 7) == 72057594037927936);
}

fn push_header(from: u32, to: u32, n: usize, out: &mut Vec<char>)
    ensures
        final(out)@ == old(out)@ + smt2_header(from as nat, to as nat, n as nat),
{
    let ghost o0 = out@;
    push_str(out, "; E");
    push_decimal(from as u64, out);
    push_str(out, " => E");
    push_decimal(to as u64, out);
    push_str(out, " over a carrier of exactly ");
    push_decimal(n as u64, out);
    push_str(out, "\n");
    push_str(out, "(set-logic ALL)\n");
    push_str(out, "(declare-datatypes ((M 0)) (((");
    let ghost head = out@;
    let mut i: usize = 0;
    while i < n
        invariant
            i <= n,
            out@ == head + elem_list(i as nat),
        decreases n - i,
    {
        let ghost prev = out@;
        if i > 0 {
            push_str(out, ") (e");
        } else {
            push_str(out, "e");
        }
        push_decimal(i as u64, out);
        proof {
            assert(out@ =~= head + elem_list((i + 1) as nat));
        }
        i = i + 1;
    }
    let ghost body = out@;
    push_str(out, "))))\n");
    push_str(out, "(declare-fun op (M M) M)\n");
    proof {
        assert(out@ =~= o0 + smt2_header(from as nat, to as nat, n as nat));
    }
}

#[verifier::rlimit(30)]
fn push_hypothesis(hyp: &Law, n: usize, ground: bool, out: &mut Vec<char>)
    requires
        hyp.wf(),
        ground ==> 1 <= n <= 256,
    ensures
        final(out)@ == old(out)@ + smt2_hypothesis(*hyp, n as nat, ground),
{
    let ghost mid = out@;
    let d = Dialect::Smt2;
    if ground {
        let k = hyp.arity as usize;
        proof {
            lemma_pow_256(n as nat, k as nat);
            lemma_vars_below_under(hyp.lhs, k as nat);
            lemma_vars_below_under(hyp.rhs, k as nat);
        }
        let total = crate::finite::pow_u64(n as u64, hyp.arity as u32);
        let mut sub: Vec<u8> = vec![0u8; k];
        let mut code: u64 = 0;
        while code < total
            invariant
                1 <= n <= 256,
                k == hyp.arity,
                sub@.len() == k,
                code <= total,
                total == pow(n as int, k as nat),
                vars_under(hyp.lhs, k as nat),
                vars_under(hyp.rhs, k as nat),
                out@ == mid + ground_lines(*hyp, n as nat, code as nat),
            decreases total - code,
        {
            crate::finite::fill_digits(code, n, sub.as_mut_slice());
            let ghost prev = out@;
            push_str(out, "(assert (= ");
            push_ground(&hyp.lhs, sub.as_slice(), out);
            push_str(out, " ");
            push_ground(&hyp.rhs, sub.as_slice(), out);
            push_str(out, "))\n");
            proof {
                assert(out@ =~= mid + ground_lines(*hyp, n as nat, (code + 1) as nat));
            }
            code = code + 1;
        }
    } else {
        push_str(out, "(assert (forall (");
        let ghost vhead = out@;
        let mut v: u8 = 0;
        while v < hyp.arity
            invariant
                v <= hyp.arity,
                out@ == vhead + var_decls(v as nat),
            decreases hyp.arity - v,
        {
            if v > 0 {
                push_str(out, " (x");
            } else {
                push_str(out, "(x");
            }
            push_decimal(v as u64, out);
            push_str(out, " M)");
            proof {
                assert(out@ =~= vhead + var_decls((v + 1) as nat));
            }
            v = v + 1;
        }
        push_str(out, ") (= ");
        push_render(&hyp.lhs, d, false, out);
        push_str(out, " ");
        push_render(&hyp.rhs, d, false, out);
        push_str(out, ")))\n");
        proof {
            assert(out@ =~= mid + smt2_hypothesis(*hyp, n as nat, ground));
        }
    }
}

fn push_conclusion(concl: &Law, out: &mut Vec<char>)
    ensures
        final(out)@ == old(out)@ + smt2_conclusion(*concl),
{
    let ghost o0 = out@;
    let d = Dialect::Smt2;
    let mut v: u8 = 0;
    while v < concl.arity
        invariant
            v <= concl.arity,
            out@ == o0 + skolem_decls(v as nat),
        decreases concl.arity - v,
    {
        push_str(out, "(declare-const sk");
        push_decimal(v as u64, out);
        push_str(out, " M)\n");
        proof {
            assert(out@ =~= o0 + skolem_decls((v + 1) as nat));
        }
        v = v + 1;
    }
    push_str(out, "(assert (not (= ");
    push_render(&concl.lhs, d, true, out);
    push_str(out, " ");
    push_render(&concl.rhs, d, true, out);
    push_str(out, ")))\n");
    push_str(out, "(check-sat)\n");
    proof {
        assert(out@ =~= o0 + smt2_conclusion(*concl));
    }
}

/// The SMT-LIB2 problem for `hyp => concl` over a carrier of exactly `n`
/// elements, as `smt2_spec` gives it.
pub fn smt2_problem(hyp: &Law, concl: &Law, from: u32, to: u32, n: usize, ground: bool) -> (s: String)
    requires
        hyp.wf(),
        concl.wf(),
        ground ==> 1 <= n <= 256,
    ensures
        s@ == smt2_spec(*hyp, *concl, from as nat, to as nat, n as nat, ground),
{
    let mut out: Vec<char> = Vec::new();
    push_header(from, to, n, &mut out);
    push_hypothesis(hyp, n, ground, &mut out);
    push_conclusion(concl, &mut out);
    proof {
        assert(out@ =~= smt2_spec(*hyp, *concl, from as nat, to as nat, n as nat, ground));
    }
    string_of(out)
}

} // verus!
