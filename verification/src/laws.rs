//! Laws of the grammar, proved once and for all inputs.

use vstd::prelude::*;
use crate::ast::Expr;
use crate::ast::SpecExpr;
use crate::ast::wf_expr;
use crate::ast::wf_exprs;
use crate::diag::ParseError;
use crate::grammar::digit_count;
use crate::grammar::digits_value;
use crate::grammar::ident_count;
use crate::grammar::is_digit;
use crate::grammar::is_ident_cont;
use crate::grammar::is_ident_start;
use crate::grammar::kw_in_at;
use crate::grammar::kw_let_at;
use crate::grammar::lemma_digit_run;
use crate::grammar::lemma_ws_run;
use crate::grammar::skip;
use crate::grammar::sp_arg;
use crate::grammar::sp_args;
use crate::grammar::sp_atom;
use crate::grammar::sp_binding;
use crate::grammar::sp_bindings;
use crate::grammar::sp_decl;
use crate::grammar::sp_lambda;
use crate::grammar::sp_let_in;
use crate::grammar::sp_parse;
use crate::grammar::sp_product;
use crate::grammar::sp_product_tail;
use crate::grammar::sp_sum;
use crate::grammar::sp_sum_tail;
use crate::grammar::sp_unary;
use crate::grammar::ws_count;
use crate::parse::parser_post;

verus! {

proof fn lemma_all_digit_count(s: Seq<u8>, i: nat)
    requires
        i <= s.len(),
        forall|m: int| 0 <= m < s.len() ==> is_digit(s[m]),
    ensures
        digit_count(s, i) == s.len() - i,
    decreases s.len() - i,
{
    if i < s.len() {
        lemma_all_digit_count(s, i + 1);
    }
}

proof fn lemma_all_ident_count(s: Seq<u8>, i: nat)
    requires
        i <= s.len(),
        forall|m: int| 0 <= m < s.len() ==> is_ident_cont(s[m]),
    ensures
        ident_count(s, i) == s.len() - i,
    decreases s.len() - i,
{
    if i < s.len() {
        lemma_all_ident_count(s, i + 1);
    }
}

/// A string of decimal digits whose value fits the numeric type parses, as
/// a whole input, to exactly the literal with that value.
pub proof fn lemma_parse_digits(s: Seq<u8>)
    requires
        s.len() >= 1,
        forall|m: int| 0 <= m < s.len() ==> is_digit(s[m]),
        digits_value(s, 0, s.len()) <= u64::MAX,
    ensures
        sp_parse(s) == Some(SpecExpr::Num(digits_value(s, 0, s.len()))),
{
    let n = s.len();
    let v = digits_value(s, 0, n);
    lemma_all_digit_count(s, 0);
    assert(is_digit(s[0]));
    assert(ws_count(s, 0) == 0);
    assert(skip(s, 0) == 0);
    assert(ws_count(s, n) == 0);
    assert(skip(s, n) == n);
    assert(!kw_let_at(s, 0));
    assert(sp_let_in(s, 0) is None);
    assert(!is_ident_start(s[0]));
    assert(sp_lambda(s, 0) is None);
    assert(sp_atom(s, 0) == Some((SpecExpr::Num(v), n)));
    assert(sp_unary(s, 0) == Some((SpecExpr::Num(v), n)));
    assert(sp_product_tail(s, SpecExpr::Num(v), n) == Some((SpecExpr::Num(v), n)));
    assert(sp_product(s, 0) == Some((SpecExpr::Num(v), n)));
    assert(sp_sum_tail(s, SpecExpr::Num(v), n) == Some((SpecExpr::Num(v), n)));
    assert(sp_sum(s, 0) == Some((SpecExpr::Num(v), n)));
    assert(sp_decl(s, 0) == Some((SpecExpr::Num(v), n)));
}

/// A whole input that is one identifier parses to a `Reference` to it —
/// never to a call, whatever byte runs follow the first: a call needs at
/// least one argument after the name.
pub proof fn lemma_parse_ident(s: Seq<u8>)
    requires
        s.len() >= 1,
        is_ident_start(s[0]),
        forall|m: int| 0 <= m < s.len() ==> is_ident_cont(s[m]),
    ensures
        sp_parse(s) == Some(SpecExpr::Reference(s)),
{
    let n = s.len();
    lemma_all_ident_count(s, 0);
    assert(ws_count(s, 0) == 0);
    assert(skip(s, 0) == 0);
    assert(ws_count(s, n) == 0);
    assert(skip(s, n) == n);
    assert(s.subrange(0, n as int) =~= s);
    if kw_let_at(s, 0) {
        // the input is exactly `let`: there is no `in`, so the let rule
        // fails and the name falls through to a reference like any other
        assert(n == 3);
        assert(sp_binding(s, 3) is None);
        assert(sp_bindings(s, 3) == (Seq::<SpecExpr>::empty(), 3nat));
        assert(sp_let_in(s, 0) is None);
    } else {
        assert(sp_let_in(s, 0) is None);
    }
    assert(sp_lambda(s, 0) is None);
    assert(!is_digit(s[0]));
    assert(sp_arg(s, n) is None);
    assert(sp_args(s, n) == (Seq::<SpecExpr>::empty(), n));
    assert(sp_atom(s, 0) == Some((SpecExpr::Reference(s), n)));
    assert(sp_unary(s, 0) == Some((SpecExpr::Reference(s), n)));
    assert(sp_product_tail(s, SpecExpr::Reference(s), n) == Some((SpecExpr::Reference(s), n)));
    assert(sp_product(s, 0) == Some((SpecExpr::Reference(s), n)));
    assert(sp_sum_tail(s, SpecExpr::Reference(s), n) == Some((SpecExpr::Reference(s), n)));
    assert(sp_sum(s, 0) == Some((SpecExpr::Reference(s), n)));
    assert(sp_decl(s, 0) == Some((SpecExpr::Reference(s), n)));
}

proof fn lemma_wf_exprs_cons(a: SpecExpr, rest: Seq<SpecExpr>)
    ensures
        wf_exprs(seq![a] + rest) == (wf_expr(a) && wf_exprs(rest)),
{
    let s = seq![a] + rest;
    assert(s[0] == a);
    assert(forall|i: int| 0 <= i < rest.len() ==> s[i + 1] == rest[i]);
    if wf_expr(a) && wf_exprs(rest) {
        assert forall|i: int| 0 <= i < s.len() implies wf_expr(s[i]) by {
            if i > 0 {
                assert(s[i] == rest[i - 1]);
            }
        }
    }
    if wf_exprs(s) {
        assert forall|i: int| 0 <= i < rest.len() implies wf_expr(rest[i]) by {
            assert(rest[i] == s[i + 1]);
        }
    }
}

proof fn lemma_arg_wf(s: Seq<u8>, i: nat)
    ensures
        sp_arg(s, i) matches Some((e, p)) ==> wf_expr(e),
    decreases s.len() - i, 0int,
{
    let k = skip(s, i);
    if k < s.len() && is_digit(s[k as int]) {
    } else if k < s.len() && s[k as int] == '(' as u8 {
        lemma_sum_wf(s, k + 1);
    } else if k < s.len() && is_ident_start(s[k as int]) {
        assert(ident_count(s, k) >= 1);
    }
}

proof fn lemma_args_wf(s: Seq<u8>, i: nat)
    ensures
        wf_exprs(sp_args(s, i).0),
    decreases s.len() - i, 1int,
{
    match sp_arg(s, i) {
        Some((a, j)) => {
            lemma_arg_wf(s, i);
            if i < j && j <= s.len() {
                lemma_args_wf(s, j);
                lemma_wf_exprs_cons(a, sp_args(s, j).0);
            } else {
                assert(seq![a][0] == a);
            }
        },
        None => {},
    }
}

proof fn lemma_atom_wf(s: Seq<u8>, i: nat)
    ensures
        sp_atom(s, i) matches Some((e, p)) ==> wf_expr(e),
    decreases s.len() - i, 2int,
{
    let k = skip(s, i);
    if k < s.len() && is_digit(s[k as int]) {
    } else if k < s.len() && s[k as int] == '(' as u8 {
        lemma_sum_wf(s, k + 1);
    } else if k < s.len() && is_ident_start(s[k as int]) {
        assert(ident_count(s, k) >= 1);
        let e = k + ident_count(s, k);
        if e <= s.len() {
            lemma_args_wf(s, e);
        }
    }
}

proof fn lemma_unary_wf(s: Seq<u8>, i: nat)
    ensures
        sp_unary(s, i) matches Some((e, p)) ==> wf_expr(e),
    decreases s.len() - i, 3int,
{
    let k = skip(s, i);
    if k < s.len() && s[k as int] == '-' as u8 {
        lemma_unary_wf(s, k + 1);
    } else {
        lemma_atom_wf(s, i);
    }
}

proof fn lemma_product_tail_wf(s: Seq<u8>, acc: SpecExpr, j: nat)
    requires
        wf_expr(acc),
    ensures
        sp_product_tail(s, acc, j) matches Some((e, p)) ==> wf_expr(e),
    decreases s.len() - j, 4int,
{
    let k = skip(s, j);
    if k < s.len() && (s[k as int] == '*' as u8 || s[k as int] == '/' as u8) {
        lemma_unary_wf(s, k + 1);
        match sp_unary(s, k + 1) {
            Some((r, m)) => {
                if j < m && m <= s.len() {
                    let step = if s[k as int] == '*' as u8 {
                        SpecExpr::Mul(Box::new(acc), Box::new(r))
                    } else {
                        SpecExpr::Div(Box::new(acc), Box::new(r))
                    };
                    lemma_product_tail_wf(s, step, m);
                }
            },
            None => {},
        }
    }
}

proof fn lemma_product_wf(s: Seq<u8>, i: nat)
    ensures
        sp_product(s, i) matches Some((e, p)) ==> wf_expr(e),
    decreases s.len() - i, 5int,
{
    lemma_unary_wf(s, i);
    match sp_unary(s, i) {
        Some((e, j)) => {
            if i < j && j <= s.len() {
                lemma_product_tail_wf(s, e, j);
            }
        },
        None => {},
    }
}

proof fn lemma_sum_tail_wf(s: Seq<u8>, acc: SpecExpr, j: nat)
    requires
        wf_expr(acc),
    ensures
        sp_sum_tail(s, acc, j) matches Some((e, p)) ==> wf_expr(e),
    decreases s.len() - j, 6int,
{
    let k = skip(s, j);
    if k < s.len() && (s[k as int] == '+' as u8 || s[k as int] == '-' as u8) {
        lemma_product_wf(s, k + 1);
        match sp_product(s, k + 1) {
            Some((r, m)) => {
                if j < m && m <= s.len() {
                    let step = if s[k as int] == '+' as u8 {
                        SpecExpr::Add(Box::new(acc), Box::new(r))
                    } else {
                        SpecExpr::Sub(Box::new(acc), Box::new(r))
                    };
                    lemma_sum_tail_wf(s, step, m);
                }
            },
            None => {},
        }
    }
}

proof fn lemma_sum_wf(s: Seq<u8>, i: nat)
    ensures
        sp_sum(s, i) matches Some((e, p)) ==> wf_expr(e),
    decreases s.len() - i, 7int,
{
    lemma_product_wf(s, i);
    match sp_product(s, i) {
        Some((e, j)) => {
            if i < j && j <= s.len() {
                lemma_sum_tail_wf(s, e, j);
            }
        },
        None => {},
    }
}

proof fn lemma_binding_wf(s: Seq<u8>, i: nat)
    ensures
        sp_binding(s, i) matches Some((e, p)) ==> wf_expr(e),
    decreases s.len() - i, 8int,
{
    let k = skip(s, i);
    if k < s.len() && is_ident_start(s[k as int]) {
        assert(ident_count(s, k) >= 1);
        let e = k + ident_count(s, k);
        let m = skip(s, e);
        if m < s.len() && s[m as int] == '=' as u8 {
            lemma_decl_wf(s, m + 1);
        }
    }
}

proof fn lemma_bindings_wf(s: Seq<u8>, i: nat)
    ensures
        wf_exprs(sp_bindings(s, i).0),
    decreases s.len() - i, 9int,
{
    match sp_binding(s, i) {
        Some((b, j)) => {
            lemma_binding_wf(s, i);
            if i < j && j <= s.len() {
                lemma_bindings_wf(s, j);
                lemma_wf_exprs_cons(b, sp_bindings(s, j).0);
            } else {
                assert(seq![b][0] == b);
            }
        },
        None => {},
    }
}

proof fn lemma_let_in_wf(s: Seq<u8>, i: nat)
    ensures
        sp_let_in(s, i) matches Some((e, p)) ==> wf_expr(e),
    decreases s.len() - i, 10int,
{
    let k = skip(s, i);
    if kw_let_at(s, k) {
        lemma_bindings_wf(s, k + 3);
        let jb = sp_bindings(s, k + 3).1;
        if jb >= k + 3 {
            let m = skip(s, jb);
            if kw_in_at(s, m) {
                lemma_decl_wf(s, m + 2);
            }
        }
    }
}

proof fn lemma_lambda_wf(s: Seq<u8>, i: nat)
    ensures
        sp_lambda(s, i) matches Some((e, p)) ==> wf_expr(e),
    decreases s.len() - i, 10int,
{
    let k = skip(s, i);
    if k < s.len() && is_ident_start(s[k as int]) {
        assert(ident_count(s, k) >= 1);
        let e = k + ident_count(s, k);
        let m = skip(s, e);
        if m < s.len() && s[m as int] == ':' as u8 {
            lemma_decl_wf(s, m + 1);
        }
    }
}

proof fn lemma_decl_wf(s: Seq<u8>, i: nat)
    ensures
        sp_decl(s, i) matches Some((e, p)) ==> wf_expr(e),
    decreases s.len() - i, 11int,
{
    lemma_let_in_wf(s, i);
    lemma_lambda_wf(s, i);
    lemma_sum_wf(s, i);
}

proof fn lemma_arg_advances(s: Seq<u8>, i: nat)
    requires
        i <= s.len(),
    ensures
        sp_arg(s, i) matches Some((e, p)) ==> i < p <= s.len(),
    decreases s.len() - i, 0int,
{
    lemma_ws_run(s, i);
    let k = skip(s, i);
    if k < s.len() && is_digit(s[k as int]) {
        lemma_digit_run(s, k);
        assert(digit_count(s, k) >= 1);
    } else if k < s.len() && s[k as int] == '(' as u8 {
        lemma_sum_advances(s, k + 1);
    } else if k < s.len() && is_ident_start(s[k as int]) {
        assert(ident_count(s, k) >= 1);
    }
}

proof fn lemma_args_advance(s: Seq<u8>, i: nat)
    requires
        i <= s.len(),
    ensures
        i <= sp_args(s, i).1 <= s.len(),
    decreases s.len() - i, 1int,
{
    match sp_arg(s, i) {
        Some((a, j)) => {
            lemma_arg_advances(s, i);
            lemma_args_advance(s, j);
        },
        None => {},
    }
}

proof fn lemma_atom_advances(s: Seq<u8>, i: nat)
    requires
        i <= s.len(),
    ensures
        sp_atom(s, i) matches Some((e, p)) ==> i < p <= s.len(),
    decreases s.len() - i, 2int,
{
    lemma_ws_run(s, i);
    let k = skip(s, i);
    if k < s.len() && is_digit(s[k as int]) {
        lemma_digit_run(s, k);
        assert(digit_count(s, k) >= 1);
    } else if k < s.len() && s[k as int] == '(' as u8 {
        lemma_sum_advances(s, k + 1);
    } else if k < s.len() && is_ident_start(s[k as int]) {
        assert(ident_count(s, k) >= 1);
        let e = k + ident_count(s, k);
        if e <= s.len() {
            lemma_args_advance(s, e);
        }
    }
}

proof fn lemma_unary_advances(s: Seq<u8>, i: nat)
    requires
        i <= s.len(),
    ensures
        sp_unary(s, i) matches Some((e, p)) ==> i < p <= s.len(),
    decreases s.len() - i, 3int,
{
    lemma_ws_run(s, i);
    let k = skip(s, i);
    if k < s.len() && s[k as int] == '-' as u8 {
        lemma_unary_advances(s, k + 1);
    } else {
        lemma_atom_advances(s, i);
    }
}

proof fn lemma_product_tail_advances(s: Seq<u8>, acc: SpecExpr, j: nat)
    requires
        j <= s.len(),
    ensures
        sp_product_tail(s, acc, j) matches Some((e, p)) ==> j <= p <= s.len(),
    decreases s.len() - j, 4int,
{
    let k = skip(s, j);
    if k < s.len() && (s[k as int] == '*' as u8 || s[k as int] == '/' as u8) {
        lemma_unary_advances(s, k + 1);
        match sp_unary(s, k + 1) {
            Some((r, m)) => {
                if j < m && m <= s.len() {
                    let step = if s[k as int] == '*' as u8 {
                        SpecExpr::Mul(Box::new(acc), Box::new(r))
                    } else {
                        SpecExpr::Div(Box::new(acc), Box::new(r))
                    };
                    lemma_product_tail_advances(s, step, m);
                }
            },
            None => {},
        }
    }
}

proof fn lemma_product_advances(s: Seq<u8>, i: nat)
    requires
        i <= s.len(),
    ensures
        sp_product(s, i) matches Some((e, p)) ==> i < p <= s.len(),
    decreases s.len() - i, 5int,
{
    lemma_unary_advances(s, i);
    match sp_unary(s, i) {
        Some((e, j)) => {
            if i < j && j <= s.len() {
                lemma_product_tail_advances(s, e, j);
            }
        },
        None => {},
    }
}

proof fn lemma_sum_tail_advances(s: Seq<u8>, acc: SpecExpr, j: nat)
    requires
        j <= s.len(),
    ensures
        sp_sum_tail(s, acc, j) matches Some((e, p)) ==> j <= p <= s.len(),
    decreases s.len() - j, 6int,
{
    let k = skip(s, j);
    if k < s.len() && (s[k as int] == '+' as u8 || s[k as int] == '-' as u8) {
        lemma_product_advances(s, k + 1);
        match sp_product(s, k + 1) {
            Some((r, m)) => {
                if j < m && m <= s.len() {
                    let step = if s[k as int] == '+' as u8 {
                        SpecExpr::Add(Box::new(acc), Box::new(r))
                    } else {
                        SpecExpr::Sub(Box::new(acc), Box::new(r))
                    };
                    lemma_sum_tail_advances(s, step, m);
                }
            },
            None => {},
        }
    }
}

proof fn lemma_sum_advances(s: Seq<u8>, i: nat)
    requires
        i <= s.len(),
    ensures
        sp_sum(s, i) matches Some((e, p)) ==> i < p <= s.len(),
    decreases s.len() - i, 7int,
{
    lemma_product_advances(s, i);
    match sp_product(s, i) {
        Some((e, j)) => {
            if i < j && j <= s.len() {
                lemma_sum_tail_advances(s, e, j);
            }
        },
        None => {},
    }
}

proof fn lemma_binding_advances(s: Seq<u8>, i: nat)
    requires
        i <= s.len(),
    ensures
        sp_binding(s, i) matches Some((e, p)) ==> i < p <= s.len(),
    decreases s.len() - i, 8int,
{
    lemma_ws_run(s, i);
    let k = skip(s, i);
    if k < s.len() && is_ident_start(s[k as int]) {
        assert(ident_count(s, k) >= 1);
        let e = k + ident_count(s, k);
        let m = skip(s, e);
        if m < s.len() && s[m as int] == '=' as u8 {
            lemma_decl_advances(s, m + 1);
        }
    }
}

proof fn lemma_bindings_advance(s: Seq<u8>, i: nat)
    requires
        i <= s.len(),
    ensures
        i <= sp_bindings(s, i).1 <= s.len(),
    decreases s.len() - i, 9int,
{
    match sp_binding(s, i) {
        Some((b, j)) => {
            lemma_binding_advances(s, i);
            lemma_bindings_advance(s, j);
        },
        None => {},
    }
}

proof fn lemma_let_in_advances(s: Seq<u8>, i: nat)
    requires
        i <= s.len(),
    ensures
        sp_let_in(s, i) matches Some((e, p)) ==> i < p <= s.len(),
    decreases s.len() - i, 10int,
{
    lemma_ws_run(s, i);
    let k = skip(s, i);
    if kw_let_at(s, k) {
        lemma_bindings_advance(s, k + 3);
        let jb = sp_bindings(s, k + 3).1;
        if jb >= k + 3 {
            let m = skip(s, jb);
            if kw_in_at(s, m) {
                lemma_decl_advances(s, m + 2);
            }
        }
    }
}

proof fn lemma_lambda_advances(s: Seq<u8>, i: nat)
    requires
        i <= s.len(),
    ensures
        sp_lambda(s, i) matches Some((e, p)) ==> i < p <= s.len(),
    decreases s.len() - i, 10int,
{
    lemma_ws_run(s, i);
    let k = skip(s, i);
    if k < s.len() && is_ident_start(s[k as int]) {
        assert(ident_count(s, k) >= 1);
        let e = k + ident_count(s, k);
        let m = skip(s, e);
        if m < s.len() && s[m as int] == ':' as u8 {
            lemma_decl_advances(s, m + 1);
        }
    }
}

/// A declaration that matches consumes at least one byte and never reads
/// past the end: the position it returns lies strictly beyond where it
/// started and at most at the input's length. This is why the position
/// guards inside the grammar functions never refuse, and why the
/// recursive descent cannot revisit a position.
pub proof fn lemma_decl_advances(s: Seq<u8>, i: nat)
    requires
        i <= s.len(),
    ensures
        sp_decl(s, i) matches Some((e, p)) ==> i < p <= s.len(),
    decreases s.len() - i, 11int,
{
    lemma_let_in_advances(s, i);
    lemma_lambda_advances(s, i);
    lemma_sum_advances(s, i);
}

/// Every tree the parser yields is structurally sound: no name is empty,
/// no partially built node escapes, and a call always carries at least one
/// argument — a bare identifier is a reference, never a zero-argument call.
pub proof fn lemma_parse_wf(s: Seq<u8>)
    ensures
        sp_parse(s) matches Some(e) ==> wf_expr(e),
{
    lemma_decl_wf(s, 0);
}

/// Parsing is deterministic: any two results the parser may return for the
/// same input have the same shape — trees with equal models, or error lists
/// of one each — because each is pinned to `sp_parse` of that input.
pub proof fn lemma_parse_deterministic(
    s: Seq<u8>,
    t1: Option<Expr>,
    e1: Seq<ParseError>,
    t2: Option<Expr>,
    e2: Seq<ParseError>,
)
    requires
        parser_post(s, t1, e1),
        parser_post(s, t2, e2),
    ensures
        t1 is Some <==> t2 is Some,
        t1 matches Some(x1) ==> t2 matches Some(x2) && x1@ == x2@,
        e1.len() == e2.len(),
{
}

} // verus!
