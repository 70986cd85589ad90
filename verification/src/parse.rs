//! The executable recursive-descent parser.
//!
//! Each `p_*` function is proved to return exactly what the matching `sp_*`
//! function of `grammar` describes. Failures never stop the scan early at a
//! choice point: every alternative is tried, every failure is recorded, and
//! the error kept is the one whose span starts farthest into the input —
//! with ties going to the alternative tried last — so one pass reports the
//! most telling diagnostic. Enclosing `binding` and `let-in` rules stamp
//! their context onto the kept error on the way out.

use vstd::prelude::*;
use vstd::slice::slice_index_get;
use crate::ast::Expr;
use crate::ast::exprs_view;
use crate::ast::lemma_exprs_view_push;
use crate::diag::Context;
use crate::diag::Span;
use crate::diag::Keyword;
use crate::diag::Label;
use crate::diag::ParseError;
use crate::diag::Reason;
use crate::grammar::digit_count;
use crate::grammar::digits_value;
use crate::grammar::ident_count;
use crate::grammar::is_digit;
use crate::grammar::is_ident_cont;
use crate::grammar::is_ident_start;
use crate::grammar::is_ws;
use crate::grammar::kw_in_at;
use crate::grammar::kw_let_at;
use crate::grammar::lemma_digit_run;
use crate::grammar::lemma_digits_value_mono;
use crate::grammar::lemma_ident_run;
use crate::grammar::skip;
use crate::grammar::sp_arg;
use crate::grammar::sp_args;
use crate::grammar::sp_atom;
use crate::grammar::sp_binding;
use crate::grammar::sp_bindings;
use crate::grammar::sp_decl;
use crate::grammar::sp_lambda;
use crate::grammar::sp_let_in;
use crate::grammar::sp_parse;
use crate::grammar::sp_product;
use crate::grammar::sp_product_tail;
use crate::grammar::sp_sum;
use crate::grammar::sp_sum_tail;
use crate::grammar::sp_unary;
use crate::grammar::ws_count;

verus! {

/// An error has been kept for reporting.
pub open spec fn has_err(b: Option<ParseError>) -> bool {
    b is Some
}

/// The kept error, if any, lies within a source of length `len`.
pub open spec fn best_wf(b: Option<ParseError>, len: nat) -> bool {
    b matches Some(e) ==> e.wf(len)
}

fn at(s: &[u8], i: usize) -> (c: u8)
    requires
        i < s@.len(),
    ensures
        c == s@[i as int],
{
    *slice_index_get(s, i)
}

fn is_ws_b(c: u8) -> (r: bool)
    ensures
        r == is_ws(c),
{
    c == ' ' as u8 || c == '\t' as u8 || c == '\n' as u8 || c == '\r' as u8
}

fn is_digit_b(c: u8) -> (r: bool)
    ensures
        r == is_digit(c),
{
    '0' as u8 <= c && c <= '9' as u8
}

fn is_ident_start_b(c: u8) -> (r: bool)
    ensures
        r == is_ident_start(c),
{
    ('a' as u8 <= c && c <= 'z' as u8) || ('A' as u8 <= c && c <= 'Z' as u8) || c == '_' as u8
}

fn is_ident_cont_b(c: u8) -> (r: bool)
    ensures
        r == is_ident_cont(c),
{
    is_ident_start_b(c) || is_digit_b(c)
}

/// Advance past whitespace.
fn skip_ws(s: &[u8], i: usize) -> (k: usize)
    requires
        i <= s@.len(),
    ensures
        k as nat == skip(s@, i as nat),
        i <= k <= s@.len(),
        k < s@.len() ==> !is_ws(s@[k as int]),
{
    let mut j = i;
    while j < s.len() && is_ws_b(at(s, j))
        invariant
            i <= j <= s@.len(),
            skip(s@, i as nat) == skip(s@, j as nat),
        decreases s@.len() - j,
    {
        proof {
            assert(ws_count(s@, j as nat) == ws_count(s@, (j + 1) as nat) + 1);
        }
        j = j + 1;
    }
    proof {
        assert(ws_count(s@, j as nat) == 0);
    }
    j
}

/// Advance past decimal digits.
fn scan_digits(s: &[u8], k: usize) -> (e: usize)
    requires
        k <= s@.len(),
    ensures
        e as nat == k as nat + digit_count(s@, k as nat),
        k <= e <= s@.len(),
{
    let mut j = k;
    while j < s.len() && is_digit_b(at(s, j))
        invariant
            k <= j <= s@.len(),
            k + digit_count(s@, k as nat) == j + digit_count(s@, j as nat),
        decreases s@.len() - j,
    {
        proof {
            assert(digit_count(s@, j as nat) == digit_count(s@, (j + 1) as nat) + 1);
        }
        j = j + 1;
    }
    proof {
        assert(digit_count(s@, j as nat) == 0);
    }
    j
}

/// Advance past identifier bytes.
fn scan_ident(s: &[u8], k: usize) -> (e: usize)
    requires
        k <= s@.len(),
    ensures
        e as nat == k as nat + ident_count(s@, k as nat),
        k <= e <= s@.len(),
{
    let mut j = k;
    while j < s.len() && is_ident_cont_b(at(s, j))
        invariant
            k <= j <= s@.len(),
            k + ident_count(s@, k as nat) == j + ident_count(s@, j as nat),
        decreases s@.len() - j,
    {
        proof {
            assert(ident_count(s@, j as nat) == ident_count(s@, (j + 1) as nat) + 1);
        }
        j = j + 1;
    }
    proof {
        assert(ident_count(s@, j as nat) == 0);
    }
    j
}

/// Copy the bytes of `s[a..b)` into an owned vector.
fn copy_range(s: &[u8], a: usize, b: usize) -> (v: Vec<u8>)
    requires
        a <= b <= s@.len(),
    ensures
        v@ == s@.subrange(a as int, b as int),
{
    let mut v: Vec<u8> = Vec::new();
    let mut j = a;
    proof {
        assert(v@ =~= s@.subrange(a as int, a as int));
    }
    while j < b
        invariant
            a <= j <= b <= s@.len(),
            v@ == s@.subrange(a as int, j as int),
        decreases b - j,
    {
        v.push(at(s, j));
        proof {
            assert(s@.subrange(a as int, (j + 1) as int) =~= s@.subrange(
                a as int,
                j as int,
            ).push(s@[j as int]));
        }
        j = j + 1;
    }
    v
}

/// The keyword `let` stands at `k`.
fn kw_let(s: &[u8], k: usize) -> (r: bool)
    requires
        k <= s@.len(),
    ensures
        r == kw_let_at(s@, k as nat),
{
    if s.len() - k >= 3 {
        at(s, k) == 'l' as u8 && at(s, k + 1) == 'e' as u8 && at(s, k + 2) == 't' as u8 && (s.len()
            - k == 3 || !is_ident_cont_b(at(s, k + 3)))
    } else {
        false
    }
}

/// The keyword `in` stands at `k`.
fn kw_in(s: &[u8], k: usize) -> (r: bool)
    requires
        k <= s@.len(),
    ensures
        r == kw_in_at(s@, k as nat),
{
    if s.len() - k >= 2 {
        at(s, k) == 'i' as u8 && at(s, k + 1) == 'n' as u8 && (s.len() - k == 2
            || !is_ident_cont_b(at(s, k + 2)))
    } else {
        false
    }
}

/// Keep `e` if its span starts at least as far into the input as the error
/// kept so far: the report shows the farthest failure, ties going to the
/// error found last.
fn record(best: &mut Option<ParseError>, e: ParseError)
    ensures
        has_err(*final(best)),
        forall|len: nat|
            best_wf(*old(best), len) && e.wf(len) ==> best_wf(*final(best), len),
{
    let cur = best.take();
    match cur {
        Some(b) => {
            if e.span.start >= b.span.start {
                *best = Some(e);
            } else {
                *best = Some(b);
            }
        },
        None => {
            *best = Some(e);
        },
    }
}

/// Record a fresh error with no context frames yet.
fn fail(best: &mut Option<ParseError>, start: usize, end: usize, reason: Reason)
    requires
        start <= end,
    ensures
        has_err(*final(best)),
        forall|len: nat|
            best_wf(*old(best), len) && end <= len ==> best_wf(*final(best), len),
{
    let e = ParseError { span: Span { start, end }, reason, contexts: Vec::new() };
    proof {
        assert forall|len: nat| end <= len implies e.wf(len) by {
            assert(e.contexts@.len() == 0);
        }
    }
    record(best, e);
    proof {
        assert forall|len: nat|
            best_wf(*old(best), len) && end <= len implies best_wf(*best, len) by {
            assert(e.wf(len));
        }
    }
}

/// Stamp an enclosing rule onto the kept error, when that error lies within
/// the region the rule was parsing (at or after `start`).
fn push_context(best: &mut Option<ParseError>, label: Label, start: usize)
    ensures
        has_err(*final(best)) == has_err(*old(best)),
        forall|len: nat| best_wf(*old(best), len) ==> best_wf(*final(best), len),
{
    let cur = best.take();
    match cur {
        Some(mut e) => {
            if e.span.start >= start {
                let end = e.span.end;
                e.contexts.push(Context { label, span: Span { start, end } });
            }
            *best = Some(e);
        },
        None => {},
    }
}

/// Record the failure natural to a position: the byte there, or the end of
/// the input.
fn fail_here(s: &[u8], k: usize, best: &mut Option<ParseError>)
    requires
        k <= s@.len(),
    ensures
        has_err(*final(best)),
        best_wf(*old(best), s@.len()) ==> best_wf(*final(best), s@.len()),
{
    if k == s.len() {
        fail(best, k, k, Reason::UnexpectedEnd);
    } else {
        let c = at(s, k);
        fail(best, k, k + 1, Reason::UnexpectedChar(c));
    }
}

/// Parse a number at `k` (which must hold a digit): the value and the
/// position past the digits, or no value when the literal does not fit.
fn parse_number(s: &[u8], k: usize) -> (r: (Option<u64>, usize))
    requires
        k < s@.len(),
        is_digit(s@[k as int]),
    ensures
        r.1 as nat == k as nat + digit_count(s@, k as nat),
        k < r.1 <= s@.len(),
        (match r.0 {
            Some(v) => v as nat == digits_value(s@, k as nat, r.1 as nat) && digits_value(
                s@,
                k as nat,
                r.1 as nat,
            ) <= u64::MAX,
            None => digits_value(s@, k as nat, r.1 as nat) > u64::MAX,
        }),
{
    let e = scan_digits(s, k);
    proof {
        lemma_digit_run(s@, k as nat);
        assert(digit_count(s@, k as nat) >= 1);
    }
    let mut val: u64 = 0;
    let mut j = k;
    while j < e
        invariant
            k <= j <= e,
            e as nat == k as nat + digit_count(s@, k as nat),
            e <= s@.len(),
            forall|m: nat| k <= m < e ==> is_digit(s@[m as int]),
            val as nat == digits_value(s@, k as nat, j as nat),
        decreases e - j,
    {
        let c = at(s, j);
        assert(is_digit(s@[j as int]));
        let d = (c - '0' as u8) as u64;
        proof {
            vstd::arithmetic::div_mod::lemma_fundamental_div_mod((u64::MAX - d) as int, 10);
            assert(digits_value(s@, k as nat, (j + 1) as nat) == digits_value(
                s@,
                k as nat,
                j as nat,
            ) * 10 + d);
        }
        if val > (u64::MAX - d) / 10 {
            proof {
                assert(val * 10 + d > u64::MAX);
                lemma_digits_value_mono(s@, k as nat, (j + 1) as nat, e as nat);
            }
            return (None, e);
        }
        proof {
            assert(val * 10 + d <= u64::MAX);
        }
        val = val * 10 + d;
        j = j + 1;
    }
    (Some(val), e)
}

/// A call argument: a number, a parenthesized expression, or a bare
/// identifier.
fn p_arg(s: &[u8], i: usize, best: &mut Option<ParseError>) -> (r: Option<(Expr, usize)>)
    requires
        i <= s@.len(),
    ensures
        r matches Some((e, p)) ==> sp_arg(s@, i as nat) == Some((e@, p as nat)) && i < p <= s@.len(),
        r is None ==> sp_arg(s@, i as nat) is None && has_err(*final(best)),
        has_err(*old(best)) ==> has_err(*final(best)),
        best_wf(*old(best), s@.len()) ==> best_wf(*final(best), s@.len()),
    decreases s@.len() - i, 0int,
{
    let k = skip_ws(s, i);
    if k == s.len() {
        fail_here(s, k, best);
        return None;
    }
    let c = at(s, k);
    if is_digit_b(c) {
        let (val, e) = parse_number(s, k);
        match val {
            Some(v) => Some((Expr::Num(v), e)),
            None => {
                fail(best, k, e, Reason::InvalidNumber);
                None
            },
        }
    } else if c == '(' as u8 {
        match p_sum(s, k + 1, best) {
            Some((e, j)) => {
                let m = skip_ws(s, j);
                if m < s.len() && at(s, m) == ')' as u8 {
                    Some((e, m + 1))
                } else {
                    fail_expected(s, m, ')' as u8, best);
                    None
                }
            },
            None => None,
        }
    } else if is_ident_start_b(c) {
        let e = scan_ident(s, k);
        proof {
            lemma_ident_run(s@, k as nat);
            assert(ident_count(s@, k as nat) >= 1);
        }
        let name = copy_range(s, k, e);
        Some((Expr::Reference(name), e))
    } else {
        fail(best, k, k + 1, Reason::UnexpectedChar(c));
        None
    }
}

/// Record that a specific byte was required at `m` and is absent.
fn fail_expected(s: &[u8], m: usize, want: u8, best: &mut Option<ParseError>)
    requires
        m <= s@.len(),
    ensures
        has_err(*final(best)),
        best_wf(*old(best), s@.len()) ==> best_wf(*final(best), s@.len()),
{
    if m < s.len() {
        fail(best, m, m + 1, Reason::ExpectedChar(want));
    } else {
        fail(best, m, m, Reason::ExpectedChar(want));
    }
}

/// An atom: a number, a parenthesized expression, a call, or a bare
/// identifier. An identifier followed by one or more arguments is a call;
/// with none it is a reference — the failed call attempt costs nothing.
fn p_atom(s: &[u8], i: usize, best: &mut Option<ParseError>) -> (r: Option<(Expr, usize)>)
    requires
        i <= s@.len(),
    ensures
        r matches Some((e, p)) ==> sp_atom(s@, i as nat) == Some((e@, p as nat)) && i < p
            <= s@.len(),
        r is None ==> sp_atom(s@, i as nat) is None && has_err(*final(best)),
        has_err(*old(best)) ==> has_err(*final(best)),
        best_wf(*old(best), s@.len()) ==> best_wf(*final(best), s@.len()),
    decreases s@.len() - i, 2int,
{
    let k = skip_ws(s, i);
    if k < s.len() && is_ident_start_b(at(s, k)) {
        let e = scan_ident(s, k);
        proof {
            lemma_ident_run(s@, k as nat);
            assert(ident_count(s@, k as nat) >= 1);
        }
        let name = copy_range(s, k, e);
        let ghost spec_name = s@.subrange(k as int, e as int);
        let mut args: Vec<Expr> = Vec::new();
        let mut cur = e;
        proof {
            assert(exprs_view(args@) + sp_args(s@, cur as nat).0 =~= sp_args(s@, e as nat).0);
        }
        loop
            invariant
                i < e <= cur <= s@.len(),
                i <= s@.len(),
                e as nat == k as nat + ident_count(s@, k as nat),
                k as nat == skip(s@, i as nat),
                k < s@.len() && is_ident_start(s@[k as int]),
                name@ == spec_name,
                spec_name == s@.subrange(k as int, e as int),
                sp_args(s@, e as nat).0 == exprs_view(args@) + sp_args(s@, cur as nat).0,
                sp_args(s@, e as nat).1 == sp_args(s@, cur as nat).1,
                exprs_view(args@).len() == args@.len(),
                has_err(*old(best)) ==> has_err(*best),
                best_wf(*old(best), s@.len()) ==> best_wf(*best, s@.len()),
            decreases s@.len() - cur,
        {
            match p_arg(s, cur, best) {
                Some((a, j)) => {
                    let ghost old_args = args@;
                    args.push(a);
                    proof {
                        lemma_exprs_view_push(old_args, a);
                        assert(sp_args(s@, cur as nat).0 == seq![a@] + sp_args(s@, j as nat).0);
                        assert(sp_args(s@, cur as nat).1 == sp_args(s@, j as nat).1);
                        assert(exprs_view(old_args) + (seq![a@] + sp_args(s@, j as nat).0)
                            =~= exprs_view(old_args.push(a)) + sp_args(s@, j as nat).0);
                    }
                    cur = j;
                },
                None => {
                    // no further argument stands here
                    proof {
                        assert(sp_args(s@, cur as nat).0 =~= Seq::empty());
                        assert(sp_args(s@, e as nat).0 =~= exprs_view(args@));
                    }
                    if args.len() >= 1 {
                        return Some((Expr::Call(name, args), cur));
                    } else {
                        return Some((Expr::Reference(name), e));
                    }
                },
            }
        }
    } else {
        let r = p_arg(s, i, best);
        proof {
            assert(sp_atom(s@, i as nat) == sp_arg(s@, i as nat));
        }
        r
    }
}

/// Zero or more prefix minus signs, then an atom.
fn p_unary(s: &[u8], i: usize, best: &mut Option<ParseError>) -> (r: Option<(Expr, usize)>)
    requires
        i <= s@.len(),
    ensures
        r matches Some((e, p)) ==> sp_unary(s@, i as nat) == Some((e@, p as nat)) && i < p
            <= s@.len(),
        r is None ==> sp_unary(s@, i as nat) is None && has_err(*final(best)),
        has_err(*old(best)) ==> has_err(*final(best)),
        best_wf(*old(best), s@.len()) ==> best_wf(*final(best), s@.len()),
    decreases s@.len() - i, 3int,
{
    let k = skip_ws(s, i);
    if k < s.len() && at(s, k) == '-' as u8 {
        match p_unary(s, k + 1, best) {
            Some((e, j)) => Some((Expr::Neg(Box::new(e)), j)),
            None => None,
        }
    } else {
        p_atom(s, i, best)
    }
}

/// A product: left-associative `*` and `/` over unaries.
fn p_product(s: &[u8], i: usize, best: &mut Option<ParseError>) -> (r: Option<(Expr, usize)>)
    requires
        i <= s@.len(),
    ensures
        r matches Some((e, p)) ==> sp_product(s@, i as nat) == Some((e@, p as nat)) && i < p
            <= s@.len(),
        r is None ==> sp_product(s@, i as nat) is None && has_err(*final(best)),
        has_err(*old(best)) ==> has_err(*final(best)),
        best_wf(*old(best), s@.len()) ==> best_wf(*final(best), s@.len()),
    decreases s@.len() - i, 5int,
{
    match p_unary(s, i, best) {
        None => None,
        Some((first, j0)) => {
            let mut acc = first;
            let mut cur = j0;
            loop
                invariant
                    i < cur <= s@.len(),
                    i <= s@.len(),
                    sp_product(s@, i as nat) == sp_product_tail(s@, acc@, cur as nat),
                    has_err(*old(best)) ==> has_err(*best),
                    best_wf(*old(best), s@.len()) ==> best_wf(*best, s@.len()),
                decreases s@.len() - cur,
            {
                let m = skip_ws(s, cur);
                if m < s.len() && (at(s, m) == '*' as u8 || at(s, m) == '/' as u8) {
                    let is_mul = at(s, m) == '*' as u8;
                    match p_unary(s, m + 1, best) {
                        Some((rhs, mm)) => {
                            if is_mul {
                                acc = Expr::Mul(Box::new(acc), Box::new(rhs));
                            } else {
                                acc = Expr::Div(Box::new(acc), Box::new(rhs));
                            }
                            cur = mm;
                        },
                        None => {
                            return None;
                        },
                    }
                } else {
                    return Some((acc, cur));
                }
            }
        },
    }
}

/// A sum: left-associative `+` and `-` over products. The whole expression
/// grammar.
fn p_sum(s: &[u8], i: usize, best: &mut Option<ParseError>) -> (r: Option<(Expr, usize)>)
    requires
        i <= s@.len(),
    ensures
        r matches Some((e, p)) ==> sp_sum(s@, i as nat) == Some((e@, p as nat)) && i < p <= s@.len(),
        r is None ==> sp_sum(s@, i as nat) is None && has_err(*final(best)),
        has_err(*old(best)) ==> has_err(*final(best)),
        best_wf(*old(best), s@.len()) ==> best_wf(*final(best), s@.len()),
    decreases s@.len() - i, 7int,
{
    match p_product(s, i, best) {
        None => None,
        Some((first, j0)) => {
            let mut acc = first;
            let mut cur = j0;
            loop
                invariant
                    i < cur <= s@.len(),
                    i <= s@.len(),
                    sp_sum(s@, i as nat) == sp_sum_tail(s@, acc@, cur as nat),
                    has_err(*old(best)) ==> has_err(*best),
                    best_wf(*old(best), s@.len()) ==> best_wf(*best, s@.len()),
                decreases s@.len() - cur,
            {
                let m = skip_ws(s, cur);
                if m < s.len() && (at(s, m) == '+' as u8 || at(s, m) == '-' as u8) {
                    let is_add = at(s, m) == '+' as u8;
                    match p_product(s, m + 1, best) {
                        Some((rhs, mm)) => {
                            if is_add {
                                acc = Expr::Add(Box::new(acc), Box::new(rhs));
                            } else {
                                acc = Expr::Sub(Box::new(acc), Box::new(rhs));
                            }
                            cur = mm;
                        },
                        None => {
                            return None;
                        },
                    }
                } else {
                    return Some((acc, cur));
                }
            }
        },
    }
}

/// A binding: `ident "=" decl ";"`. Failures within are stamped with the
/// `binding` context.
fn p_binding(s: &[u8], i: usize, best: &mut Option<ParseError>) -> (r: Option<(Expr, usize)>)
    requires
        i <= s@.len(),
    ensures
        r matches Some((e, p)) ==> sp_binding(s@, i as nat) == Some((e@, p as nat)) && i < p
            <= s@.len(),
        r is None ==> sp_binding(s@, i as nat) is None && has_err(*final(best)),
        has_err(*old(best)) ==> has_err(*final(best)),
        best_wf(*old(best), s@.len()) ==> best_wf(*final(best), s@.len()),
    decreases s@.len() - i, 8int,
{
    let k = skip_ws(s, i);
    if !(k < s.len() && is_ident_start_b(at(s, k))) {
        fail_here(s, k, best);
        push_context(best, Label::Binding, k);
        return None;
    }
    let e = scan_ident(s, k);
    proof {
        lemma_ident_run(s@, k as nat);
        assert(ident_count(s@, k as nat) >= 1);
    }
    let name = copy_range(s, k, e);
    let m = skip_ws(s, e);
    if !(m < s.len() && at(s, m) == '=' as u8) {
        fail_expected(s, m, '=' as u8, best);
        push_context(best, Label::Binding, k);
        return None;
    }
    match p_decl(s, m + 1, best) {
        None => {
            push_context(best, Label::Binding, k);
            None
        },
        Some((v, j)) => {
            let t = skip_ws(s, j);
            if t < s.len() && at(s, t) == ';' as u8 {
                Some((Expr::Binding { name, value: Box::new(v) }, t + 1))
            } else {
                fail_expected(s, t, ';' as u8, best);
                push_context(best, Label::Binding, k);
                None
            }
        },
    }
}

/// A let-in form: `"let" binding* "in" decl`. Failures within are stamped
/// with the `let-in` context.
fn p_let_in(s: &[u8], i: usize, best: &mut Option<ParseError>) -> (r: Option<(Expr, usize)>)
    requires
        i <= s@.len(),
    ensures
        r matches Some((e, p)) ==> sp_let_in(s@, i as nat) == Some((e@, p as nat)) && i < p
            <= s@.len(),
        r is None ==> sp_let_in(s@, i as nat) is None && has_err(*final(best)),
        has_err(*old(best)) ==> has_err(*final(best)),
        best_wf(*old(best), s@.len()) ==> best_wf(*final(best), s@.len()),
    decreases s@.len() - i, 10int,
{
    let k = skip_ws(s, i);
    if !kw_let(s, k) {
        let endp = if s.len() - k >= 3 {
            k + 3
        } else {
            s.len()
        };
        fail(best, k, endp, Reason::ExpectedKeyword(Keyword::Let));
        return None;
    }
    let n = s.len();
    proof {
        assert(k + 3 <= n);
    }
    let mut bindings: Vec<Expr> = Vec::new();
    let mut cur = k + 3;
    proof {
        assert(exprs_view(bindings@) + sp_bindings(s@, cur as nat).0 =~= sp_bindings(
            s@,
            (k + 3) as nat,
        ).0);
    }
    loop
        invariant
            i <= k + 3 <= cur <= s@.len(),
            i <= s@.len(),
            k as nat == skip(s@, i as nat),
            kw_let_at(s@, k as nat),
            sp_bindings(s@, (k + 3) as nat).0 == exprs_view(bindings@) + sp_bindings(
                s@,
                cur as nat,
            ).0,
            sp_bindings(s@, (k + 3) as nat).1 == sp_bindings(s@, cur as nat).1,
            has_err(*old(best)) ==> has_err(*best),
            best_wf(*old(best), s@.len()) ==> best_wf(*best, s@.len()),
        decreases s@.len() - cur,
    {
        match p_binding(s, cur, best) {
            Some((b, j)) => {
                let ghost old_bs = bindings@;
                bindings.push(b);
                proof {
                    lemma_exprs_view_push(old_bs, b);
                    assert(sp_bindings(s@, cur as nat).0 == seq![b@] + sp_bindings(
                        s@,
                        j as nat,
                    ).0);
                    assert(sp_bindings(s@, cur as nat).1 == sp_bindings(s@, j as nat).1);
                    assert(exprs_view(old_bs) + (seq![b@] + sp_bindings(s@, j as nat).0)
                        =~= exprs_view(old_bs.push(b)) + sp_bindings(s@, j as nat).0);
                }
                cur = j;
            },
            None => {
                // no further binding: the keyword `in` and the body are owed
                proof {
                    assert(sp_bindings(s@, cur as nat).0 =~= Seq::empty());
                    assert(sp_bindings(s@, (k + 3) as nat).0 =~= exprs_view(bindings@));
                }
                let m = skip_ws(s, cur);
                if !kw_in(s, m) {
                    let endp = if s.len() - m >= 2 {
                        m + 2
                    } else {
                        s.len()
                    };
                    fail(best, m, endp, Reason::ExpectedKeyword(Keyword::In));
                    push_context(best, Label::LetIn, k);
                    return None;
                }
                let n2 = s.len();
                proof {
                    assert(m + 2 <= n2);
                }
                match p_decl(s, m + 2, best) {
                    Some((body, j)) => {
                        return Some((Expr::LetIn { bindings, body: Box::new(body) }, j));
                    },
                    None => {
                        push_context(best, Label::LetIn, k);
                        return None;
                    },
                }
            },
        }
    }
}

/// A lambda form: `ident ":" decl`.
fn p_lambda(s: &[u8], i: usize, best: &mut Option<ParseError>) -> (r: Option<(Expr, usize)>)
    requires
        i <= s@.len(),
    ensures
        r matches Some((e, p)) ==> sp_lambda(s@, i as nat) == Some((e@, p as nat)) && i < p
            <= s@.len(),
        r is None ==> sp_lambda(s@, i as nat) is None && has_err(*final(best)),
        has_err(*old(best)) ==> has_err(*final(best)),
        best_wf(*old(best), s@.len()) ==> best_wf(*final(best), s@.len()),
    decreases s@.len() - i, 10int,
{
    let k = skip_ws(s, i);
    if !(k < s.len() && is_ident_start_b(at(s, k))) {
        fail_here(s, k, best);
        return None;
    }
    let e = scan_ident(s, k);
    proof {
        lemma_ident_run(s@, k as nat);
        assert(ident_count(s@, k as nat) >= 1);
    }
    let arg = copy_range(s, k, e);
    let m = skip_ws(s, e);
    if !(m < s.len() && at(s, m) == ':' as u8) {
        fail_expected(s, m, ':' as u8, best);
        return None;
    }
    match p_decl(s, m + 1, best) {
        Some((body, j)) => Some((Expr::Lambda { arg, body: Box::new(body) }, j)),
        None => None,
    }
}

/// A declaration: a let-in, else a lambda, else an expression — tried in
/// that order, first match wins, each alternative retried from the start.
fn p_decl(s: &[u8], i: usize, best: &mut Option<ParseError>) -> (r: Option<(Expr, usize)>)
    requires
        i <= s@.len(),
    ensures
        r matches Some((e, p)) ==> sp_decl(s@, i as nat) == Some((e@, p as nat)) && i < p
            <= s@.len(),
        r is None ==> sp_decl(s@, i as nat) is None && has_err(*final(best)),
        has_err(*old(best)) ==> has_err(*final(best)),
        best_wf(*old(best), s@.len()) ==> best_wf(*final(best), s@.len()),
    decreases s@.len() - i, 11int,
{
    match p_let_in(s, i, best) {
        Some((e, p)) => Some((e, p)),
        None => match p_lambda(s, i, best) {
            Some((e, p)) => Some((e, p)),
            None => p_sum(s, i, best),
        },
    }
}

/// What `parser` returns for a given input: the tree named by `sp_parse`
/// and no errors where the grammar accepts the whole input; no tree and
/// exactly one error where it does not.
pub open spec fn parser_post(src: Seq<u8>, tree: Option<Expr>, errs: Seq<ParseError>) -> bool {
    match sp_parse(src) {
        Some(t) => (tree matches Some(e) && e@ == t) && errs.len() == 0,
        None => tree is None && errs.len() == 1 && errs[0].wf(src.len()),
    }
}

/// Parse a whole source text as one declaration.
///
/// Returns the tree and the diagnostics. Exactly one of the two is
/// populated: a tree and no errors where the grammar accepts the whole
/// input, no tree and one error — the farthest failure found, with its
/// context stack — where it does not. The tree returned is exactly
/// `sp_parse` of the input, so two runs over equal inputs return equal
/// trees.
pub fn parser(src: &[u8]) -> (r: (Option<Expr>, Vec<ParseError>))
    ensures
        parser_post(src@, r.0, r.1@),
{
    let mut best: Option<ParseError> = None;
    match p_decl(src, 0, &mut best) {
        Some((e, j)) => {
            let m = skip_ws(src, j);
            if m == src.len() {
                (Some(e), Vec::new())
            } else {
                let c = at(src, m);
                fail(&mut best, m, m + 1, Reason::UnexpectedChar(c));
                match best {
                    Some(err) => (None, vec![err]),
                    None => unreached(),
                }
            }
        },
        None => {
            match best {
                Some(err) => (None, vec![err]),
                None => unreached(),
            }
        },
    }
}

} // verus!
